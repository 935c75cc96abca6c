//! Terms: the canonical byte encoding `[field_id:4 BE | type_code:1 | value_bytes]`.
use vstd::prelude::*;
use vstd::utf8::*;
use vstd::string::*;
use crate::codec::{
    be_bytes, be_bytes_to_u64, be_value, lemma_be_bytes_len, lemma_be_round_trip,
    lemma_be_value_bound, lemma_lex_lt_is_numeric, lemma_lex_lt_prefix, lemma_radix_u64, lex_lt,
    u128_to_be_bytes, u32_to_be_bytes, u64_to_be_bytes,
};
use crate::datetime::{DatePrecision, DateTime, trunc_div};
use crate::facet::{Facet, facet_path};
use crate::text::{debug_quoted, debug_str, decimal, push_char, push_decimal, push_signed_decimal, push_str, signed_decimal};

verus! {

/// Separates the segments of a JSON path.
pub const JSON_PATH_SEGMENT_SEP: u8 = 1u8;

/// Separates the JSON path from the value in a JSON term.
pub const JSON_END_OF_PATH: u8 = 0u8;

/// The number of bytes a term spends on its field and type.
pub const TERM_METADATA_LENGTH: usize = 5;

/// The logical type of a field or of a JSON leaf.
#[derive(Clone, Copy, Debug, PartialEq, Eq, Hash, Structural)]
pub enum Type {
    Str,
    U64,
    I64,
    F64,
    Bool,
    Date,
    Facet,
    Bytes,
    Json,
    IpAddr,
}

impl Type {
    /// The one-byte code of the type.
    pub open spec fn spec_code(self) -> u8 {
        match self {
            Type::Str => 115u8,  // 's'
            Type::U64 => 117u8,  // 'u'
            Type::I64 => 105u8,  // 'i'
            Type::F64 => 102u8,  // 'f'
            Type::Bool => 111u8,  // 'o'
            Type::Date => 100u8,  // 'd'
            Type::Facet => 104u8,  // 'h'
            Type::Bytes => 98u8,  // 'b'
            Type::Json => 106u8,  // 'j'
            Type::IpAddr => 112u8,  // 'p'
        }
    }

    /// Returns the one-byte code of the type.
    pub fn to_code(&self) -> (r: u8)
        ensures
            r == self.spec_code(),
    {
        match self {
            Type::Str => 115u8,
            Type::U64 => 117u8,
            Type::I64 => 105u8,
            Type::F64 => 102u8,
            Type::Bool => 111u8,
            Type::Date => 100u8,
            Type::Facet => 104u8,
            Type::Bytes => 98u8,
            Type::Json => 106u8,
            Type::IpAddr => 112u8,
        }
    }

    /// Returns the type with the given code, if any.
    pub fn from_code(code: u8) -> (r: Option<Type>)
        ensures
            r == type_of_code(code),
    {
        match code {
            115u8 => Some(Type::Str),
            117u8 => Some(Type::U64),
            105u8 => Some(Type::I64),
            102u8 => Some(Type::F64),
            111u8 => Some(Type::Bool),
            100u8 => Some(Type::Date),
            104u8 => Some(Type::Facet),
            98u8 => Some(Type::Bytes),
            106u8 => Some(Type::Json),
            112u8 => Some(Type::IpAddr),
            _ => None,
        }
    }

    /// The name of the variant.
    pub open spec fn spec_name(self) -> Seq<char> {
        match self {
            Type::Str => seq!['S', 't', 'r'],
            Type::U64 => seq!['U', '6', '4'],
            Type::I64 => seq!['I', '6', '4'],
            Type::F64 => seq!['F', '6', '4'],
            Type::Bool => seq!['B', 'o', 'o', 'l'],
            Type::Date => seq!['D', 'a', 't', 'e'],
            Type::Facet => seq!['F', 'a', 'c', 'e', 't'],
            Type::Bytes => seq!['B', 'y', 't', 'e', 's'],
            Type::Json => seq!['J', 's', 'o', 'n'],
            Type::IpAddr => seq!['I', 'p', 'A', 'd', 'd', 'r'],
        }
    }

    /// The name of the type, as its variant is written.
    pub fn name(&self) -> (r: &'static str)
        ensures
            r@ == self.spec_name(),
    {
        proof {
            reveal_strlit("Str");
            reveal_strlit("U64");
            reveal_strlit("I64");
            reveal_strlit("F64");
            reveal_strlit("Bool");
            reveal_strlit("Date");
            reveal_strlit("Facet");
            reveal_strlit("Bytes");
            reveal_strlit("Json");
            reveal_strlit("IpAddr");
        }
        match self {
            Type::Str => "Str",
            Type::U64 => "U64",
            Type::I64 => "I64",
            Type::F64 => "F64",
            Type::Bool => "Bool",
            Type::Date => "Date",
            Type::Facet => "Facet",
            Type::Bytes => "Bytes",
            Type::Json => "Json",
            Type::IpAddr => "IpAddr",
        }
    }
}

/// The type whose code is `c`, if any.
pub open spec fn type_of_code(c: u8) -> Option<Type> {
    if c == 115 {
        Some(Type::Str)
    } else if c == 117 {
        Some(Type::U64)
    } else if c == 105 {
        Some(Type::I64)
    } else if c == 102 {
        Some(Type::F64)
    } else if c == 111 {
        Some(Type::Bool)
    } else if c == 100 {
        Some(Type::Date)
    } else if c == 104 {
        Some(Type::Facet)
    } else if c == 98 {
        Some(Type::Bytes)
    } else if c == 106 {
        Some(Type::Json)
    } else if c == 112 {
        Some(Type::IpAddr)
    } else {
        None
    }
}

/// Decoding a type's code gives the type back.
pub proof fn lemma_type_code_round_trip(t: Type)
    ensures
        type_of_code(t.spec_code()) == Some(t),
{
}

/// A field of the schema, identified by its numeric id.
#[derive(Clone, Copy, Debug, PartialEq, Eq, PartialOrd, Ord, Hash, Structural)]
pub struct Field {
    pub id: u32,
}

impl Field {
    /// Creates a field from its id.
    pub fn from_field_id(field_id: u32) -> (r: Field)
        ensures
            r.id == field_id,
    {
        Field { id: field_id }
    }

    /// The id of the field.
    pub fn field_id(&self) -> (r: u32)
        ensures
            r == self.id,
    {
        self.id
    }
}

/// The order-preserving map from `i64` to `u64`: the sign bit is flipped.
pub open spec fn i64_to_u64_spec(v: i64) -> u64 {
    (v as int + 0x8000_0000_0000_0000) as u64
}

/// The inverse of `i64_to_u64_spec`.
pub open spec fn u64_to_i64_spec(v: u64) -> i64 {
    (v as int - 0x8000_0000_0000_0000) as i64
}

/// Maps an `i64` to a `u64`, preserving order.
pub fn i64_to_u64(val: i64) -> (r: u64)
    ensures
        r == i64_to_u64_spec(val),
{
    if val >= 0 {
        val as u64 + 0x8000_0000_0000_0000
    } else {
        (val - i64::MIN) as u64
    }
}

/// Inverse of `i64_to_u64`.
pub fn u64_to_i64(val: u64) -> (r: i64)
    ensures
        r == u64_to_i64_spec(val),
{
    if val >= 0x8000_0000_0000_0000 {
        (val - 0x8000_0000_0000_0000) as i64
    } else {
        val as i64 + i64::MIN
    }
}

/// The order-preserving map from the bit pattern of an `f64` to a `u64`:
/// positive numbers get their sign bit set, negative ones get all bits flipped.
pub open spec fn f64_bits_to_u64_spec(bits: u64) -> u64 {
    if bits < 0x8000_0000_0000_0000 {
        (bits + 0x8000_0000_0000_0000) as u64
    } else {
        (0xFFFF_FFFF_FFFF_FFFF - bits) as u64
    }
}

/// The inverse of `f64_bits_to_u64_spec`.
pub open spec fn u64_to_f64_bits_spec(v: u64) -> u64 {
    if v >= 0x8000_0000_0000_0000 {
        (v - 0x8000_0000_0000_0000) as u64
    } else {
        (0xFFFF_FFFF_FFFF_FFFF - v) as u64
    }
}

/// A 64-bit float held as its IEEE-754 bit pattern (what `f64::to_bits` returns).
#[derive(Clone, Copy, Debug, PartialEq, Eq, Hash, Structural)]
pub struct F64Bits {
    pub bits: u64,
}

impl F64Bits {
    /// Wraps the IEEE-754 bit pattern of a float.
    pub fn from_bits(bits: u64) -> (r: F64Bits)
        ensures
            r.bits == bits,
    {
        F64Bits { bits }
    }
}

/// A value that a term stores as 8 big-endian bytes of an order-preserving `u64`.
pub trait FastValue: Sized + Copy {
    /// The `u64` that stands for the value.
    spec fn spec_to_u64(&self) -> u64;

    /// The value that a `u64` stands for.
    spec fn spec_from_u64(v: u64) -> Self;

    /// The type of the value.
    spec fn spec_type() -> Type;

    fn to_u64(&self) -> (r: u64)
        ensures
            r == self.spec_to_u64(),
    ;

    fn from_u64(v: u64) -> (r: Self)
        ensures
            r == Self::spec_from_u64(v),
    ;

    fn to_type() -> (r: Type)
        ensures
            r == Self::spec_type(),
    ;

    /// Mapping a value to its `u64` and back gives the value.
    proof fn lemma_round_trip(v: Self)
        ensures
            Self::spec_from_u64(v.spec_to_u64()) == v,
    ;
}

impl FastValue for u64 {
    open spec fn spec_to_u64(&self) -> u64 {
        *self
    }

    open spec fn spec_from_u64(v: u64) -> u64 {
        v
    }

    open spec fn spec_type() -> Type {
        Type::U64
    }

    fn to_u64(&self) -> (r: u64) {
        *self
    }

    fn from_u64(v: u64) -> (r: u64) {
        v
    }

    fn to_type() -> (r: Type) {
        Type::U64
    }

    proof fn lemma_round_trip(v: u64) {
    }
}

impl FastValue for i64 {
    open spec fn spec_to_u64(&self) -> u64 {
        i64_to_u64_spec(*self)
    }

    open spec fn spec_from_u64(v: u64) -> i64 {
        u64_to_i64_spec(v)
    }

    open spec fn spec_type() -> Type {
        Type::I64
    }

    fn to_u64(&self) -> (r: u64) {
        i64_to_u64(*self)
    }

    fn from_u64(v: u64) -> (r: i64) {
        u64_to_i64(v)
    }

    fn to_type() -> (r: Type) {
        Type::I64
    }

    proof fn lemma_round_trip(v: i64) {
    }
}

impl FastValue for bool {
    open spec fn spec_to_u64(&self) -> u64 {
        if *self {
            1
        } else {
            0
        }
    }

    open spec fn spec_from_u64(v: u64) -> bool {
        v != 0
    }

    open spec fn spec_type() -> Type {
        Type::Bool
    }

    fn to_u64(&self) -> (r: u64) {
        if *self {
            1
        } else {
            0
        }
    }

    fn from_u64(v: u64) -> (r: bool) {
        v != 0
    }

    fn to_type() -> (r: Type) {
        Type::Bool
    }

    proof fn lemma_round_trip(v: bool) {
    }
}

impl FastValue for DateTime {
    open spec fn spec_to_u64(&self) -> u64 {
        i64_to_u64_spec(self.timestamp_micros)
    }

    open spec fn spec_from_u64(v: u64) -> DateTime {
        DateTime { timestamp_micros: u64_to_i64_spec(v) }
    }

    open spec fn spec_type() -> Type {
        Type::Date
    }

    fn to_u64(&self) -> (r: u64) {
        i64_to_u64(self.timestamp_micros)
    }

    fn from_u64(v: u64) -> (r: DateTime) {
        DateTime { timestamp_micros: u64_to_i64(v) }
    }

    fn to_type() -> (r: Type) {
        Type::Date
    }

    proof fn lemma_round_trip(v: DateTime) {
    }
}

impl FastValue for F64Bits {
    open spec fn spec_to_u64(&self) -> u64 {
        f64_bits_to_u64_spec(self.bits)
    }

    open spec fn spec_from_u64(v: u64) -> F64Bits {
        F64Bits { bits: u64_to_f64_bits_spec(v) }
    }

    open spec fn spec_type() -> Type {
        Type::F64
    }

    fn to_u64(&self) -> (r: u64) {
        if self.bits < 0x8000_0000_0000_0000 {
            self.bits + 0x8000_0000_0000_0000
        } else {
            0xFFFF_FFFF_FFFF_FFFF - self.bits
        }
    }

    fn from_u64(v: u64) -> (r: F64Bits) {
        if v >= 0x8000_0000_0000_0000 {
            F64Bits { bits: v - 0x8000_0000_0000_0000 }
        } else {
            F64Bits { bits: 0xFFFF_FFFF_FFFF_FFFF - v }
        }
    }

    fn to_type() -> (r: Type) {
        Type::F64
    }

    proof fn lemma_round_trip(v: F64Bits) {
    }
}

/// The field id and type code that open every term.
pub open spec fn term_header(field_id: u32, typ: Type) -> Seq<u8> {
    be_bytes(field_id as nat, 4).push(typ.spec_code())
}

/// The bytes of a term holding a fast value.
pub open spec fn fast_term_bytes(field_id: u32, typ: Type, v: u64) -> Seq<u8> {
    term_header(field_id, typ) + be_bytes(v as nat, 8)
}

/// Date terms keep whole seconds.
pub open spec fn date_to_seconds(d: DateTime) -> DateTime {
    DateTime { timestamp_micros: (trunc_div(d.timestamp_micros as int, 1_000_000) * 1_000_000) as i64 }
}

/// Relies on `std::str::from_utf8`: it succeeds exactly on valid UTF-8, and the
/// string it returns has the given bytes.
#[verifier::external_body]
fn str_from_utf8(bytes: &[u8]) -> (r: Option<&str>)
    ensures
        r is Some <==> valid_utf8(bytes@),
        r is Some ==> r->0.spec_bytes() == bytes@,
{
    std::str::from_utf8(bytes).ok()
}

/// The value that a token can take: its field, its type and its value bytes.
#[derive(Clone, Debug, PartialEq, Eq, PartialOrd, Ord, Hash)]
pub struct Term {
    data: Vec<u8>,
}

impl View for Term {
    type V = Seq<u8>;

    closed spec fn view(&self) -> Seq<u8> {
        self.data@
    }
}

impl Term {
    /// A term has its field and a known type code.
    pub open spec fn wf(&self) -> bool {
        self@.len() >= 5 && type_of_code(self@[4]) is Some
    }

    /// The type of a well-formed term.
    pub open spec fn spec_typ(&self) -> Type {
        type_of_code(self@[4]).unwrap()
    }

    /// The bytes after the field and type.
    pub open spec fn spec_value_bytes(&self) -> Seq<u8> {
        self@.subrange(5, self@.len() as int)
    }

    /// Whether the term holds its field and a known type code.
    pub fn is_well_formed(&self) -> (r: bool)
        ensures
            r == self.wf(),
    {
        self.data.len() >= TERM_METADATA_LENGTH && Type::from_code(self.data[4]).is_some()
    }

    fn with_capacity(capacity: usize) -> (r: Term)
        ensures
            r@ == seq![0u8, 0u8, 0u8, 0u8, 0u8],
    {
        let cap = if capacity <= usize::MAX - TERM_METADATA_LENGTH {
            capacity + TERM_METADATA_LENGTH
        } else {
            capacity
        };
        let mut data: Vec<u8> = Vec::with_capacity(cap);
        let mut i: usize = 0;
        while i < TERM_METADATA_LENGTH
            invariant
                i <= 5,
                data@ == Seq::new(i as nat, |_j: int| 0u8),
            decreases 5 - i,
        {
            data.push(0u8);
            i = i + 1;
        }
        assert(data@ =~= seq![0u8, 0u8, 0u8, 0u8, 0u8]);
        Term { data }
    }

    /// An empty term of the given type and field.
    pub fn with_type_and_field(typ: Type, field: Field) -> (r: Term)
        ensures
            r@ == term_header(field.id, typ),
            r.wf(),
    {
        let mut term = Self::with_capacity(8);
        term.set_field_and_type(field, typ);
        term
    }

    fn with_bytes_and_field_and_payload(typ: Type, field: Field, bytes: &[u8]) -> (r: Term)
        ensures
            r@ == term_header(field.id, typ) + bytes@,
            r.wf(),
    {
        let mut term = Self::with_capacity(bytes.len());
        term.set_field_and_type(field, typ);
        term.data.extend_from_slice(bytes);
        term
    }

    fn from_fast_value<T: FastValue>(field: Field, val: &T) -> (r: Term)
        ensures
            r@ == fast_term_bytes(field.id, T::spec_type(), val.spec_to_u64()),
            r.wf(),
    {
        let mut term = Self::with_type_and_field(T::to_type(), field);
        proof {
            lemma_be_bytes_len(field.id as nat, 4);
            assert(term@.subrange(0, 5) =~= term@);
        }
        term.set_u64(val.to_u64());
        term
    }

    /// Sets field and type of a term that holds no value bytes.
    pub fn set_field_and_type(&mut self, field: Field, typ: Type)
        requires
            old(self)@.len() == 5,
        ensures
            final(self)@ == term_header(field.id, typ),
            final(self).wf(),
    {
        let mut data = u32_to_be_bytes(field.field_id());
        data.push(typ.to_code());
        self.data = data;
        proof {
            lemma_be_bytes_len(field.id as nat, 4);
        }
    }

    /// Is empty if there are no value bytes.
    pub fn is_empty(&self) -> (r: bool)
        ensures
            r == (self@.len() == 5),
    {
        self.data.len() == TERM_METADATA_LENGTH
    }

    /// Builds a term given a field, and an IPv6 address as its 128-bit number.
    pub fn from_field_ip_addr(field: Field, ip_addr: u128) -> (r: Term)
        ensures
            r@ == term_header(field.id, Type::IpAddr) + be_bytes(ip_addr as nat, 16),
            r.wf(),
    {
        let mut term = Self::with_type_and_field(Type::IpAddr, field);
        proof {
            lemma_be_bytes_len(field.id as nat, 4);
            assert(term@.subrange(0, 5) =~= term@);
        }
        term.set_ip_addr(ip_addr);
        term
    }

    /// Sets an IPv6 address, as 16 big-endian bytes of its 128-bit number.
    pub fn set_ip_addr(&mut self, val: u128)
        requires
            old(self)@.len() >= 5,
        ensures
            final(self)@ == old(self)@.subrange(0, 5) + be_bytes(val as nat, 16),
    {
        let bytes = u128_to_be_bytes(val);
        self.set_bytes(bytes.as_slice());
    }

    /// Builds a term given a field, and a `u64`-value.
    pub fn from_field_u64(field: Field, val: u64) -> (r: Term)
        ensures
            r@ == fast_term_bytes(field.id, Type::U64, val),
            r.wf(),
    {
        Term::from_fast_value(field, &val)
    }

    /// Builds a term given a field, and a `i64`-value.
    pub fn from_field_i64(field: Field, val: i64) -> (r: Term)
        ensures
            r@ == fast_term_bytes(field.id, Type::I64, i64_to_u64_spec(val)),
            r.wf(),
    {
        Term::from_fast_value(field, &val)
    }

    /// Builds a term given a field, and the bit pattern of an `f64`.
    pub fn from_field_f64_bits(field: Field, val: F64Bits) -> (r: Term)
        ensures
            r@ == fast_term_bytes(field.id, Type::F64, f64_bits_to_u64_spec(val.bits)),
            r.wf(),
    {
        Term::from_fast_value(field, &val)
    }

    /// Builds a term given a field, and a `bool`-value.
    pub fn from_field_bool(field: Field, val: bool) -> (r: Term)
        ensures
            r@ == fast_term_bytes(field.id, Type::Bool, val.spec_to_u64()),
            r.wf(),
    {
        Term::from_fast_value(field, &val)
    }

    /// Builds a term given a field, and a `DateTime` value, truncated to seconds.
    pub fn from_field_date(field: Field, val: DateTime) -> (r: Term)
        ensures
            r@ == fast_term_bytes(field.id, Type::Date, date_to_seconds(val).spec_to_u64()),
            r.wf(),
    {
        Term::from_fast_value(field, &val.truncate(DatePrecision::Seconds))
    }

    /// Builds a term given a field, and a facet (its encoded form).
    pub fn from_facet(field: Field, facet: &Facet) -> (r: Term)
        ensures
            r@ == term_header(field.id, Type::Facet) + encode_utf8(facet@),
            r.wf(),
    {
        let facet_encoded_str = facet.encoded_str();
        Term::with_bytes_and_field_and_payload(Type::Facet, field, facet_encoded_str.as_bytes())
    }

    /// Builds a term given a field, and a string value.
    pub fn from_field_text(field: Field, text: &str) -> (r: Term)
        ensures
            r@ == term_header(field.id, Type::Str) + text.spec_bytes(),
            r.wf(),
    {
        Term::with_bytes_and_field_and_payload(Type::Str, field, text.as_bytes())
    }

    /// Builds a term given a field, and a byte value.
    pub fn from_field_bytes(field: Field, bytes: &[u8]) -> (r: Term)
        ensures
            r@ == term_header(field.id, Type::Bytes) + bytes@,
            r.wf(),
    {
        Term::with_bytes_and_field_and_payload(Type::Bytes, field, bytes)
    }

    /// Removes the value bytes and sets the field and type code.
    pub fn clear_with_field_and_type(&mut self, typ: Type, field: Field)
        requires
            old(self)@.len() >= 5,
        ensures
            final(self)@ == term_header(field.id, typ),
            final(self).wf(),
    {
        self.truncate_value_bytes(0);
        self.set_field_and_type(field, typ);
    }

    /// Removes the value bytes and sets the type code.
    pub fn clear_with_type(&mut self, typ: Type)
        requires
            old(self)@.len() >= 5,
        ensures
            final(self)@ == old(self)@.subrange(0, 4).push(typ.spec_code()),
            final(self).wf(),
    {
        self.truncate_value_bytes(0);
        self.data.set(4, typ.to_code());
        assert(self.data@ =~= old(self)@.subrange(0, 4).push(typ.spec_code()));
    }

    /// Sets a `u64` value in the term (8 big-endian bytes).
    pub fn set_u64(&mut self, val: u64)
        requires
            old(self)@.len() >= 5,
        ensures
            final(self)@ == old(self)@.subrange(0, 5) + be_bytes(val as nat, 8),
    {
        self.set_fast_value(val);
    }

    /// Sets a `i64` value in the term.
    pub fn set_i64(&mut self, val: i64)
        requires
            old(self)@.len() >= 5,
        ensures
            final(self)@ == old(self)@.subrange(0, 5) + be_bytes(i64_to_u64_spec(val) as nat, 8),
    {
        self.set_fast_value(val);
    }

    /// Sets a `DateTime` value in the term.
    pub fn set_date(&mut self, date: DateTime)
        requires
            old(self)@.len() >= 5,
        ensures
            final(self)@ == old(self)@.subrange(0, 5) + be_bytes(date.spec_to_u64() as nat, 8),
    {
        self.set_fast_value(date);
    }

    /// Sets a `bool` value in the term.
    pub fn set_bool(&mut self, val: bool)
        requires
            old(self)@.len() >= 5,
        ensures
            final(self)@ == old(self)@.subrange(0, 5) + be_bytes(val.spec_to_u64() as nat, 8),
    {
        self.set_fast_value(val);
    }

    /// Sets any fast value in the term.
    pub fn set_fast_value<T: FastValue>(&mut self, val: T)
        requires
            old(self)@.len() >= 5,
        ensures
            final(self)@ == old(self)@.subrange(0, 5) + be_bytes(val.spec_to_u64() as nat, 8),
    {
        let bytes = u64_to_be_bytes(val.to_u64());
        self.set_bytes(bytes.as_slice());
    }

    /// Sets the value bytes.
    pub fn set_bytes(&mut self, bytes: &[u8])
        requires
            old(self)@.len() >= 5,
        ensures
            final(self)@ == old(self)@.subrange(0, 5) + bytes@,
    {
        self.truncate_value_bytes(0);
        self.data.extend_from_slice(bytes);
    }

    /// Sets the text, keeping the field untouched.
    pub fn set_text(&mut self, text: &str)
        requires
            old(self)@.len() >= 5,
        ensures
            final(self)@ == old(self)@.subrange(0, 5) + text.spec_bytes(),
    {
        self.set_bytes(text.as_bytes());
    }

    /// Keeps the first `len` value bytes; field and type stay the same.
    pub fn truncate_value_bytes(&mut self, len: usize)
        requires
            old(self)@.len() >= 5,
        ensures
            final(self)@ == old(self)@.subrange(
                0,
                if len + 5 < old(self)@.len() {
                    len + 5
                } else {
                    old(self)@.len() as int
                },
            ),
    {
        if len < self.data.len() - TERM_METADATA_LENGTH {
            self.data.truncate(len + TERM_METADATA_LENGTH);
        }
        assert(self.data@ =~= old(self)@.subrange(
            0,
            if len + 5 < old(self)@.len() {
                len + 5
            } else {
                old(self)@.len() as int
            },
        ));
    }

    /// The number of value bytes.
    pub fn len_bytes(&self) -> (r: usize)
        requires
            self@.len() >= 5,
        ensures
            r == self@.len() - 5,
    {
        self.data.len() - TERM_METADATA_LENGTH
    }

    /// Appends value bytes to the term.
    pub fn append_bytes(&mut self, bytes: &[u8])
        ensures
            final(self)@ == old(self)@ + bytes@,
    {
        self.data.extend_from_slice(bytes);
    }

    /// Appends a single byte to the term.
    pub fn push_byte(&mut self, byte: u8)
        ensures
            final(self)@ == old(self)@.push(byte),
    {
        self.data.push(byte);
    }

    /// Removes the last byte of the term.
    pub fn pop_byte(&mut self)
        requires
            old(self)@.len() > 5,
        ensures
            final(self)@ == old(self)@.drop_last(),
    {
        self.data.pop();
    }

    /// Wraps the bytes of a term.
    pub fn wrap(data: Vec<u8>) -> (r: Term)
        ensures
            r@ == data@,
    {
        Term { data }
    }

    fn typ_code(&self) -> (r: u8)
        requires
            self@.len() >= 5,
        ensures
            r == self@[4],
    {
        self.data[4]
    }

    /// The type of the term.
    pub fn typ(&self) -> (r: Type)
        requires
            self.wf(),
        ensures
            r == self.spec_typ(),
    {
        Type::from_code(self.typ_code()).unwrap()
    }

    /// The field of the term.
    pub fn field(&self) -> (r: Field)
        requires
            self@.len() >= 5,
        ensures
            r.id == be_value(self@.subrange(0, 4)),
    {
        let id = be_bytes_to_u64(&self.data.as_slice()[0..4]);
        proof {
            lemma_be_value_bound(self@.subrange(0, 4));
            lemma_radix_u64();
        }
        Field::from_field_id(id as u32)
    }

    fn get_fast_type<T: FastValue>(&self) -> (r: Option<T>)
        requires
            self.wf(),
        ensures
            r == if self.spec_typ() == T::spec_type() && self.spec_value_bytes().len() == 8 {
                Some(T::spec_from_u64(be_value(self.spec_value_bytes()) as u64))
            } else {
                None::<T>
            },
    {
        if self.typ() != T::to_type() {
            return None;
        }
        let bytes = self.value_bytes();
        if bytes.len() != 8 {
            return None;
        }
        Some(T::from_u64(be_bytes_to_u64(bytes)))
    }

    /// The `u64` value of the term; `None` unless it is a `u64` term of 8 value bytes.
    pub fn as_u64(&self) -> (r: Option<u64>)
        requires
            self.wf(),
        ensures
            r == if self.spec_typ() == Type::U64 && self.spec_value_bytes().len() == 8 {
                Some(be_value(self.spec_value_bytes()) as u64)
            } else {
                None::<u64>
            },
    {
        self.get_fast_type::<u64>()
    }

    /// The `i64` value of the term; `None` unless it is an `i64` term of 8 value bytes.
    pub fn as_i64(&self) -> (r: Option<i64>)
        requires
            self.wf(),
        ensures
            r == if self.spec_typ() == Type::I64 && self.spec_value_bytes().len() == 8 {
                Some(u64_to_i64_spec(be_value(self.spec_value_bytes()) as u64))
            } else {
                None::<i64>
            },
    {
        self.get_fast_type::<i64>()
    }

    /// The bit pattern of the `f64` value of the term; `None` unless it is an
    /// `f64` term of 8 value bytes.
    pub fn as_f64_bits(&self) -> (r: Option<F64Bits>)
        requires
            self.wf(),
        ensures
            r == if self.spec_typ() == Type::F64 && self.spec_value_bytes().len() == 8 {
                Some(F64Bits { bits: u64_to_f64_bits_spec(be_value(self.spec_value_bytes()) as u64) })
            } else {
                None::<F64Bits>
            },
    {
        self.get_fast_type::<F64Bits>()
    }

    /// The `bool` value of the term; `None` unless it is a `bool` term of 8 value bytes.
    pub fn as_bool(&self) -> (r: Option<bool>)
        requires
            self.wf(),
        ensures
            r == if self.spec_typ() == Type::Bool && self.spec_value_bytes().len() == 8 {
                Some(be_value(self.spec_value_bytes()) != 0)
            } else {
                None::<bool>
            },
    {
        proof {
            if self@.len() >= 5 {
                lemma_be_value_bound(self.spec_value_bytes());
                lemma_radix_u64();
            }
        }
        self.get_fast_type::<bool>()
    }

    /// The date of the term; `None` unless it is a date term of 8 value bytes.
    pub fn as_date(&self) -> (r: Option<DateTime>)
        requires
            self.wf(),
        ensures
            r == if self.spec_typ() == Type::Date && self.spec_value_bytes().len() == 8 {
                Some(DateTime::spec_from_u64(be_value(self.spec_value_bytes()) as u64))
            } else {
                None::<DateTime>
            },
    {
        self.get_fast_type::<DateTime>()
    }

    /// The text of the term; `None` unless it is a string term holding UTF-8.
    pub fn as_str(&self) -> (r: Option<&str>)
        requires
            self.wf(),
        ensures
            r is Some <==> self.spec_typ() == Type::Str && valid_utf8(self.spec_value_bytes()),
            r is Some ==> r->0.spec_bytes() == self.spec_value_bytes(),
    {
        if self.typ() != Type::Str {
            return None;
        }
        str_from_utf8(self.value_bytes())
    }

    /// The facet of the term; `None` unless it is a facet term holding UTF-8.
    pub fn as_facet(&self) -> (r: Option<Facet>)
        requires
            self.wf(),
        ensures
            r is Some <==> self.spec_typ() == Type::Facet && valid_utf8(self.spec_value_bytes()),
            r is Some ==> r->0@ == decode_utf8(self.spec_value_bytes()),
    {
        if self.typ() != Type::Facet {
            return None;
        }
        match str_from_utf8(self.value_bytes()) {
            Some(facet_encode_str) => {
                proof {
                    encode_utf8_decode_utf8(facet_encode_str@);
                }
                Some(Facet::from_encoded_string(facet_encode_str.to_string()))
            },
            None => None,
        }
    }

    /// The bytes of the term; `None` unless it is a bytes term.
    pub fn as_bytes(&self) -> (r: Option<&[u8]>)
        requires
            self.wf(),
        ensures
            r is Some <==> self.spec_typ() == Type::Bytes,
            r is Some ==> r->0@ == self.spec_value_bytes(),
    {
        if self.typ() != Type::Bytes {
            return None;
        }
        Some(self.value_bytes())
    }

    /// The value bytes of the term (without field and type).
    pub fn value_bytes(&self) -> (r: &[u8])
        requires
            self@.len() >= 5,
        ensures
            r@ == self.spec_value_bytes(),
    {
        &self.data.as_slice()[TERM_METADATA_LENGTH..self.data.len()]
    }

    /// A copy of the term.
    pub fn clone_term(&self) -> (r: Term)
        ensures
            r@ == self@,
    {
        Term { data: self.data.clone() }
    }

    /// All the bytes of the term.
    pub fn as_slice(&self) -> (r: &[u8])
        ensures
            r@ == self@,
    {
        self.data.as_slice()
    }
}

/// A term built from a fast value decodes to that value: its field, its type
/// and its value come back unchanged.
pub proof fn lemma_fast_term_round_trip<T: FastValue>(t: Term, field_id: u32, v: T)
    requires
        t@ == fast_term_bytes(field_id, T::spec_type(), v.spec_to_u64()),
    ensures
        t.wf(),
        t.spec_typ() == T::spec_type(),
        be_value(t@.subrange(0, 4)) == field_id,
        t.spec_value_bytes().len() == 8,
        T::spec_from_u64(be_value(t.spec_value_bytes()) as u64) == v,
{
    let x = v.spec_to_u64();
    lemma_be_bytes_len(field_id as nat, 4);
    lemma_be_bytes_len(x as nat, 8);
    lemma_radix_u64();
    lemma_be_round_trip(field_id as nat, 4);
    lemma_be_round_trip(x as nat, 8);
    assert(t@.subrange(0, 4) =~= be_bytes(field_id as nat, 4));
    assert(t.spec_value_bytes() =~= be_bytes(x as nat, 8));
    T::lemma_round_trip(v);
}

/// A term built from a string decodes to that string.
pub proof fn lemma_text_term_round_trip(t: Term, field_id: u32, text: &str)
    requires
        t@ == term_header(field_id, Type::Str) + text.spec_bytes(),
    ensures
        t.wf(),
        t.spec_typ() == Type::Str,
        valid_utf8(t.spec_value_bytes()),
        decode_utf8(t.spec_value_bytes()) == text@,
{
    lemma_be_bytes_len(field_id as nat, 4);
    assert(t.spec_value_bytes() =~= text.spec_bytes());
    encode_utf8_valid_utf8(text@);
    encode_utf8_decode_utf8(text@);
}

/// Terms of one field and one fast type compare, byte by byte, as their
/// `u64` projections do.
pub proof fn lemma_fast_term_order(field_id: u32, typ: Type, a: u64, b: u64)
    ensures
        lex_lt(fast_term_bytes(field_id, typ, a), fast_term_bytes(field_id, typ, b)) <==> a < b,
{
    lemma_be_bytes_len(a as nat, 8);
    lemma_be_bytes_len(b as nat, 8);
    lemma_radix_u64();
    lemma_be_round_trip(a as nat, 8);
    lemma_be_round_trip(b as nat, 8);
    lemma_lex_lt_prefix(term_header(field_id, typ), be_bytes(a as nat, 8), be_bytes(b as nat, 8));
    lemma_lex_lt_is_numeric(be_bytes(a as nat, 8), be_bytes(b as nat, 8));
}

/// `u64` terms are ordered as their values.
pub proof fn lemma_u64_term_order(field_id: u32, a: u64, b: u64)
    ensures
        lex_lt(fast_term_bytes(field_id, Type::U64, a), fast_term_bytes(field_id, Type::U64, b))
            <==> a < b,
{
    lemma_fast_term_order(field_id, Type::U64, a, b);
}

/// `i64` terms are ordered as their values.
pub proof fn lemma_i64_term_order(field_id: u32, a: i64, b: i64)
    ensures
        lex_lt(
            fast_term_bytes(field_id, Type::I64, i64_to_u64_spec(a)),
            fast_term_bytes(field_id, Type::I64, i64_to_u64_spec(b)),
        ) <==> a < b,
{
    lemma_fast_term_order(field_id, Type::I64, i64_to_u64_spec(a), i64_to_u64_spec(b));
}

/// `bool` terms put `false` before `true`.
pub proof fn lemma_bool_term_order(field_id: u32, a: bool, b: bool)
    ensures
        lex_lt(
            fast_term_bytes(field_id, Type::Bool, a.spec_to_u64()),
            fast_term_bytes(field_id, Type::Bool, b.spec_to_u64()),
        ) <==> (!a && b),
{
    lemma_fast_term_order(field_id, Type::Bool, a.spec_to_u64(), b.spec_to_u64());
}

/// Date terms are ordered as their timestamps.
pub proof fn lemma_date_term_order(field_id: u32, a: DateTime, b: DateTime)
    ensures
        lex_lt(
            fast_term_bytes(field_id, Type::Date, a.spec_to_u64()),
            fast_term_bytes(field_id, Type::Date, b.spec_to_u64()),
        ) <==> a.timestamp_micros < b.timestamp_micros,
{
    lemma_fast_term_order(field_id, Type::Date, a.spec_to_u64(), b.spec_to_u64());
}

/// The RFC 3339 rendering (UTC) of a timestamp in nanoseconds, where the
/// calendar types can represent it.
pub uninterp spec fn rfc3339_of(nanos: i128) -> Option<Seq<char>>;

/// Relies on `OffsetDateTime::from_unix_timestamp_nanos` and
/// `OffsetDateTime::format` with `Rfc3339`: the rendering depends on the
/// timestamp alone.
#[verifier::external_body]
fn format_rfc3339(nanos: i128) -> (r: Option<String>)
    ensures
        r is Some <==> rfc3339_of(nanos) is Some,
        r is Some ==> r->0@ == rfc3339_of(nanos)->0,
{
    time::OffsetDateTime::from_unix_timestamp_nanos(nanos)
        .ok()
        .and_then(|dt| dt.format(&time::format_description::well_known::Rfc3339).ok())
}

/// The position of the first end-of-path marker in the bytes, if any.
pub open spec fn first_end_of_path(bytes: Seq<u8>) -> Option<nat>
    decreases bytes.len(),
{
    if bytes.len() == 0 {
        None
    } else if bytes[0] == JSON_END_OF_PATH {
        Some(0)
    } else {
        match first_end_of_path(bytes.drop_first()) {
            Some(p) => Some(p + 1),
            None => None,
        }
    }
}

proof fn lemma_first_end_of_path(bytes: Seq<u8>, i: int)
    requires
        0 <= i <= bytes.len(),
        forall|j: int| 0 <= j < i ==> bytes[j] != JSON_END_OF_PATH,
    ensures
        i < bytes.len() && bytes[i] == JSON_END_OF_PATH ==> first_end_of_path(bytes) == Some(
            i as nat,
        ),
        i == bytes.len() ==> first_end_of_path(bytes) is None,
    decreases i,
{
    if i > 0 {
        let rest = bytes.drop_first();
        assert forall|j: int| 0 <= j < i - 1 implies rest[j] != JSON_END_OF_PATH by {
            assert(rest[j] == bytes[j + 1]);
        }
        lemma_first_end_of_path(rest, i - 1);
    }
}

/// The path of a JSON value with its separators shown as dots.
pub open spec fn pretty_path(path: Seq<u8>) -> Seq<char> {
    decode_utf8(path).map_values(|c: char| if c == '\u{1}' { '.' } else { c })
}

/// The items of a byte list in decimal, separated by `, `.
pub open spec fn byte_list_items(bytes: Seq<u8>) -> Seq<char>
    decreases bytes.len(),
{
    if bytes.len() == 0 {
        Seq::empty()
    } else if bytes.len() == 1 {
        decimal(bytes[0] as nat)
    } else {
        byte_list_items(bytes.drop_last()) + seq![',', ' '] + decimal(bytes.last() as nat)
    }
}

/// A byte list as `{:?}` shows it: `[1, 2, 3]`.
pub open spec fn debug_byte_list(bytes: Seq<u8>) -> Seq<char> {
    seq!['['] + byte_list_items(bytes) + seq![']']
}

/// What the debug rendering of a term shows of value bytes of the given type.
pub open spec fn debug_value(typ: Type, bytes: Seq<u8>) -> Seq<char>
    decreases bytes.len(),
{
    match typ {
        Type::Str => if valid_utf8(bytes) {
            debug_quoted(decode_utf8(bytes))
        } else {
            Seq::empty()
        },
        Type::U64 => if bytes.len() == 8 {
            decimal(be_value(bytes))
        } else {
            Seq::empty()
        },
        Type::I64 => if bytes.len() == 8 {
            signed_decimal(u64_to_i64_spec(be_value(bytes) as u64) as int)
        } else {
            Seq::empty()
        },
        Type::Bool => if bytes.len() == 8 {
            if be_value(bytes) != 0 {
                seq!['t', 'r', 'u', 'e']
            } else {
                seq!['f', 'a', 'l', 's', 'e']
            }
        } else {
            Seq::empty()
        },
        Type::Date => if bytes.len() == 8 && rfc3339_of((u64_to_i64_spec(be_value(bytes) as u64) as i128 * 1000) as i128) is Some {
            rfc3339_of((u64_to_i64_spec(be_value(bytes) as u64) as i128 * 1000) as i128)->0
        } else {
            Seq::empty()
        },
        Type::Facet => if valid_utf8(bytes) {
            facet_path(decode_utf8(bytes))
        } else {
            Seq::empty()
        },
        Type::Bytes => debug_byte_list(bytes),
        Type::Json => match first_end_of_path(bytes) {
            Some(p) => {
                let pos = p as int;
                let path = bytes.subrange(0, pos);
                if pos + 1 < bytes.len() && valid_utf8(path) && type_of_code(bytes[pos + 1]) is Some {
                    let leaf = type_of_code(bytes[pos + 1])->0;
                    seq!['p', 'a', 't', 'h', '='] + pretty_path(path) + seq![
                        ',',
                        ' ',
                        'v',
                        't',
                        'y',
                        'p',
                        'e',
                        '=',
                    ] + leaf.spec_name() + seq![',', ' '] + debug_value(
                        leaf,
                        bytes.subrange(pos + 2, bytes.len() as int),
                    )
                } else {
                    Seq::empty()
                }
            },
            None => Seq::empty(),
        },
        // Floats are not rendered; IP address terms are not rendered either.
        _ => Seq::empty(),
    }
}

/// The debug rendering of a well-formed term.
pub open spec fn debug_term(t: Seq<u8>) -> Seq<char> {
    let typ = type_of_code(t[4])->0;
    seq!['T', 'e', 'r', 'm', '(', 't', 'y', 'p', 'e', '='] + typ.spec_name() + seq![
        ',',
        ' ',
        'f',
        'i',
        'e',
        'l',
        'd',
        '=',
    ] + decimal(be_value(t.subrange(0, 4))) + seq![',', ' '] + debug_value(
        typ,
        t.subrange(5, t.len() as int),
    ) + seq![')']
}

/// Returns the position of the first end-of-path marker.
fn find_end_of_path(bytes: &[u8]) -> (r: Option<usize>)
    ensures
        r is Some <==> first_end_of_path(bytes@) is Some,
        r is Some ==> r->0 as nat == first_end_of_path(bytes@)->0 && r->0 < bytes@.len(),
{
    let mut i: usize = 0;
    while i < bytes.len()
        invariant
            i <= bytes@.len(),
            forall|j: int| 0 <= j < i ==> bytes@[j] != JSON_END_OF_PATH,
        decreases bytes@.len() - i,
    {
        if bytes[i] == JSON_END_OF_PATH {
            proof {
                lemma_first_end_of_path(bytes@, i as int);
            }
            return Some(i);
        }
        i = i + 1;
    }
    proof {
        lemma_first_end_of_path(bytes@, i as int);
    }
    None
}

/// Appends a byte list as `{:?}` shows it.
fn push_byte_list(out: &mut String, bytes: &[u8])
    ensures
        final(out)@ == old(out)@ + debug_byte_list(bytes@),
{
    push_char(out, '[');
    let mut i: usize = 0;
    while i < bytes.len()
        invariant
            i <= bytes@.len(),
            out@ == old(out)@ + seq!['['] + byte_list_items(bytes@.take(i as int)),
        decreases bytes@.len() - i,
    {
        if i > 0 {
            push_char(out, ',');
            push_char(out, ' ');
        }
        push_decimal(out, bytes[i] as u64);
        proof {
            let t = bytes@.take(i + 1);
            assert(t.drop_last() =~= bytes@.take(i as int));
            assert(out@ =~= old(out)@ + seq!['['] + byte_list_items(t));
        }
        i = i + 1;
    }
    push_char(out, ']');
    assert(bytes@.take(bytes@.len() as int) =~= bytes@);
    assert(out@ =~= old(out)@ + debug_byte_list(bytes@));
}

/// Replaces the segment separators of a path by dots.
fn push_pretty_path(out: &mut String, path: &str)
    ensures
        final(out)@ == old(out)@ + path@.map_values(|c: char| if c == '\u{1}' { '.' } else { c }),
{
    let n = path.unicode_len();
    let mut i: usize = 0;
    while i < n
        invariant
            n == path@.len(),
            i <= n,
            out@ == old(out)@ + path@.take(i as int).map_values(
                |c: char| if c == '\u{1}' { '.' } else { c },
            ),
        decreases n - i,
    {
        let c = path.get_char(i);
        if c == '\u{1}' {
            push_char(out, '.');
        } else {
            push_char(out, c);
        }
        assert(path@.take(i + 1) =~= path@.take(i as int).push(c));
        assert(out@ =~= old(out)@ + path@.take(i + 1).map_values(
            |c: char| if c == '\u{1}' { '.' } else { c },
        ));
        i = i + 1;
    }
    assert(path@.take(n as int) =~= path@);
}

/// Appends what the debug rendering shows of value bytes of the given type.
fn push_debug_value(out: &mut String, typ: Type, bytes: &[u8])
    ensures
        final(out)@ == old(out)@ + debug_value(typ, bytes@),
    decreases bytes@.len(),
{
    proof {
        if bytes@.len() == 8 {
            lemma_be_value_bound(bytes@);
            lemma_radix_u64();
        }
    }
    match typ {
        Type::Str => {
            if let Some(s) = str_from_utf8(bytes) {
                let quoted = debug_str(s);
                push_str(out, quoted.as_str());
                proof {
                    encode_utf8_decode_utf8(s@);
                }
            }
        },
        Type::U64 => {
            if bytes.len() == 8 {
                push_decimal(out, be_bytes_to_u64(bytes));
            }
        },
        Type::I64 => {
            if bytes.len() == 8 {
                push_signed_decimal(out, u64_to_i64(be_bytes_to_u64(bytes)));
            }
        },
        Type::Bool => {
            if bytes.len() == 8 {
                if be_bytes_to_u64(bytes) != 0 {
                    push_str(out, "true");
                    proof { reveal_strlit("true"); }
                } else {
                    push_str(out, "false");
                    proof { reveal_strlit("false"); }
                }
                assert(final(out)@ =~= old(out)@ + debug_value(typ, bytes@));
            }
        },
        Type::Date => {
            if bytes.len() == 8 {
                let micros = u64_to_i64(be_bytes_to_u64(bytes));
                if let Some(text) = format_rfc3339(micros as i128 * 1000) {
                    push_str(out, text.as_str());
                }
            }
        },
        Type::Facet => {
            if let Some(s) = str_from_utf8(bytes) {
                let path = Facet::from_encoded_string(s.to_string()).to_path_string();
                push_str(out, path.as_str());
                proof {
                    encode_utf8_decode_utf8(s@);
                }
            }
        },
        Type::Bytes => {
            push_byte_list(out, bytes);
        },
        Type::Json => {
            let found = find_end_of_path(bytes);
            if found.is_some() {
                let pos = found.unwrap();
                if pos < bytes.len() - 1 {
                    let path = &bytes[0..pos];
                    let path_str = str_from_utf8(path);
                    let leaf = Type::from_code(bytes[pos + 1]);
                    if path_str.is_some() && leaf.is_some() {
                        let path_str = path_str.unwrap();
                        let leaf = leaf.unwrap();
                        proof {
                            encode_utf8_decode_utf8(path_str@);
                            reveal_strlit("path=");
                            reveal_strlit(", vtype=");
                            reveal_strlit(", ");
                        }
                        let ghost start = out@;
                        push_str(out, "path=");
                        push_pretty_path(out, path_str);
                        push_str(out, ", vtype=");
                        push_str(out, leaf.name());
                        push_str(out, ", ");
                        let rest = &bytes[pos + 2..bytes.len()];
                        push_debug_value(out, leaf, rest);
                        assert(out@ =~= start + debug_value(typ, bytes@));
                    }
                }
            }
        },
        _ => {},
    }
}

impl Term {
    /// A readable rendering of the term:
    /// `Term(type=Json, field=1, path=a.b, vtype=Str, "red")`.
    pub fn debug_string(&self) -> (r: String)
        requires
            self.wf(),
        ensures
            r@ == debug_term(self@),
    {
        let mut out = String::new();
        push_str(&mut out, "Term(type=");
        let typ = self.typ();
        push_str(&mut out, typ.name());
        push_str(&mut out, ", field=");
        push_decimal(&mut out, self.field().field_id() as u64);
        push_str(&mut out, ", ");
        push_debug_value(&mut out, typ, self.value_bytes());
        push_char(&mut out, ')');
        proof {
            reveal_strlit("Term(type=");
            reveal_strlit(", field=");
            reveal_strlit(", ");
        }
        assert(out@ =~= debug_term(self@));
        out
    }
}

} // verus!
