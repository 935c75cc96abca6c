//! The dictionary of a columnar store: each column is keyed by
//! `column_name || 0x00 || type_code` and holds the byte range of its data.
//! Several columns may share a name when their types differ.
use vstd::prelude::*;
use vstd::string::StringSliceAdditionalSpecFns;
use vstd::utf8::*;
use crate::term::{Type, type_of_code};

verus! {

/// The rows of a columnar store.
pub type RowId = u32;

/// A column found in the dictionary: its type and the byte range of its data.
#[derive(Clone, Copy, Debug, PartialEq, Eq, Structural)]
pub struct DynamicColumnHandle {
    pub column_type: Type,
    pub start: u64,
    pub end: u64,
}

/// Why the dictionary could not be read.
#[derive(Clone, Copy, Debug, PartialEq, Eq, Structural)]
pub enum ColumnarError {
    /// A key whose last byte is no known type code.
    UnknownColumnCode(u8),
    /// A key too short to hold a name separator and a type code.
    KeyTooShort,
}

/// The key of a column: its name, a `0` byte, its type code.
pub open spec fn column_key(name: Seq<u8>, typ: Type) -> Seq<u8> {
    name.push(0u8).push(typ.spec_code())
}

/// The text of possibly invalid UTF-8, invalid sequences replaced by U+FFFD.
pub uninterp spec fn utf8_lossy(bytes: Seq<u8>) -> Seq<char>;

/// Relies on `String::from_utf8_lossy`: invalid sequences become U+FFFD, so
/// valid UTF-8 decodes as it is.
#[verifier::external_body]
fn string_from_utf8_lossy(bytes: &[u8]) -> (r: String)
    ensures
        r@ == utf8_lossy(bytes@),
        valid_utf8(bytes@) ==> r@ == decode_utf8(bytes@),
{
    String::from_utf8_lossy(bytes).to_string()
}

/// The handle of a dictionary entry, if its key ends in a known type code.
pub open spec fn entry_handle(key: Seq<u8>, range: (u64, u64)) -> Option<DynamicColumnHandle> {
    if key.len() >= 1 && type_of_code(key.last()) is Some {
        Some(DynamicColumnHandle { column_type: type_of_code(key.last())->0, start: range.0, end: range.1 })
    } else {
        None
    }
}

/// The entries whose key starts with `prefix`, in dictionary order.
pub open spec fn entries_with_prefix(entries: Seq<(Vec<u8>, (u64, u64))>, prefix: Seq<u8>) -> Seq<(Vec<u8>, (u64, u64))>
    decreases entries.len(),
{
    if entries.len() == 0 {
        Seq::empty()
    } else {
        let rest = entries_with_prefix(entries.drop_last(), prefix);
        let e = entries.last();
        if e.0@.len() >= prefix.len() && e.0@.take(prefix.len() as int) == prefix {
            rest.push(e)
        } else {
            rest
        }
    }
}

/// Whether `bytes` starts with `prefix`.
fn starts_with(bytes: &[u8], prefix: &[u8]) -> (r: bool)
    ensures
        r == (bytes@.len() >= prefix@.len() && bytes@.take(prefix@.len() as int) == prefix@),
{
    if bytes.len() < prefix.len() {
        return false;
    }
    let mut i: usize = 0;
    while i < prefix.len()
        invariant
            i <= prefix@.len() <= bytes@.len(),
            bytes@.take(i as int) == prefix@.take(i as int),
        decreases prefix@.len() - i,
    {
        if bytes[i] != prefix[i] {
            assert(bytes@.take(prefix@.len() as int)[i as int] != prefix@[i as int]);
            return false;
        }
        assert(bytes@.take(i + 1) =~= bytes@.take(i as int).push(bytes@[i as int]));
        assert(prefix@.take(i + 1) =~= prefix@.take(i as int).push(prefix@[i as int]));
        i = i + 1;
    }
    assert(prefix@.take(prefix@.len() as int) =~= prefix@);
    true
}

/// Strict lexicographic order on byte strings of any lengths.
pub open spec fn key_lt(a: Seq<u8>, b: Seq<u8>) -> bool
    decreases a.len(),
{
    if b.len() == 0 {
        false
    } else if a.len() == 0 {
        true
    } else if a[0] != b[0] {
        a[0] < b[0]
    } else {
        key_lt(a.drop_first(), b.drop_first())
    }
}

/// Whether `a` comes strictly before `b`.
fn bytes_lt(a: &[u8], b: &[u8]) -> (r: bool)
    ensures
        r == key_lt(a@, b@),
{
    let mut i: usize = 0;
    assert(a@.skip(0) =~= a@);
    assert(b@.skip(0) =~= b@);
    while i < a.len() && i < b.len()
        invariant
            i <= a@.len(),
            i <= b@.len(),
            a@.take(i as int) == b@.take(i as int),
            key_lt(a@, b@) == key_lt(a@.skip(i as int), b@.skip(i as int)),
        decreases a@.len() - i,
    {
        if a[i] != b[i] {
            return a[i] < b[i];
        }
        proof {
            assert(a@.skip(i as int).drop_first() =~= a@.skip(i + 1));
            assert(b@.skip(i as int).drop_first() =~= b@.skip(i + 1));
            assert(a@.take(i + 1) =~= a@.take(i as int).push(a@[i as int]));
            assert(b@.take(i + 1) =~= b@.take(i as int).push(b@[i as int]));
        }
        i = i + 1;
    }
    i < b.len()
}

/// Keys in strictly increasing order.
pub open spec fn keys_sorted(entries: Seq<(Vec<u8>, (u64, u64))>) -> bool {
    forall|i: int| 0 <= i < entries.len() - 1 ==> key_lt(#[trigger] entries[i].0@, entries[i + 1].0@)
}

/// The set of columns of a columnar store, with the number of its rows.
pub struct ColumnarReader {
    column_dictionary: Vec<(Vec<u8>, (u64, u64))>,
    num_rows: RowId,
}

impl ColumnarReader {
    /// The dictionary entries, in key order.
    pub closed spec fn entries(&self) -> Seq<(Vec<u8>, (u64, u64))> {
        self.column_dictionary@
    }

    /// The number of rows.
    pub closed spec fn spec_num_rows(&self) -> RowId {
        self.num_rows
    }

    /// The keys of the dictionary are in strictly increasing order.
    pub open spec fn wf(&self) -> bool {
        keys_sorted(self.entries())
    }

    /// A reader over a dictionary of `(key, byte range)` entries; `None`
    /// unless the keys are in strictly increasing order.
    pub fn new(column_dictionary: Vec<(Vec<u8>, (u64, u64))>, num_rows: RowId) -> (r: Option<ColumnarReader>)
        ensures
            r is Some <==> keys_sorted(column_dictionary@),
            r is Some ==> r->0.entries() == column_dictionary@ && r->0.spec_num_rows() == num_rows && r->0.wf(),
    {
        let mut i: usize = 1;
        while i < column_dictionary.len()
            invariant
                1 <= i,
                forall|k: int| 0 <= k < i - 1 && k < column_dictionary@.len() - 1 ==> key_lt(
                    #[trigger] column_dictionary@[k].0@,
                    column_dictionary@[k + 1].0@,
                ),
            decreases column_dictionary@.len() - i,
        {
            if !bytes_lt(column_dictionary[i - 1].0.as_slice(), column_dictionary[i].0.as_slice()) {
                return None;
            }
            i = i + 1;
        }
        Some(ColumnarReader { column_dictionary, num_rows })
    }

    /// The number of rows.
    pub fn num_rows(&self) -> (r: RowId)
        ensures
            r == self.spec_num_rows(),
    {
        self.num_rows
    }

    /// The number of columns.
    pub fn num_columns(&self) -> (r: usize)
        ensures
            r == self.entries().len(),
    {
        self.column_dictionary.len()
    }

    /// All the columns, with their names; fails on a key without a known type code.
    pub fn list_columns(&self) -> (r: Result<Vec<(String, DynamicColumnHandle)>, ColumnarError>)
        ensures
            (forall|i: int|
                0 <= i < self.entries().len() ==> (#[trigger] self.entries()[i]).0@.len() >= 2
                    && entry_handle(self.entries()[i].0@, self.entries()[i].1) is Some) <==> r is Ok,
            r is Ok ==> r->Ok_0@.len() == self.entries().len() && forall|i: int|
                0 <= i < self.entries().len() ==> {
                    let key = (#[trigger] self.entries()[i]).0@;
                    &&& r->Ok_0@[i].0@ == utf8_lossy(key.take(key.len() - 2))
                    &&& valid_utf8(key.take(key.len() - 2)) ==> r->Ok_0@[i].0@ == decode_utf8(key.take(key.len() - 2))
                    &&& Some(r->Ok_0@[i].1) == entry_handle(key, self.entries()[i].1)
                },
    {
        let mut results: Vec<(String, DynamicColumnHandle)> = Vec::new();
        let mut i: usize = 0;
        while i < self.column_dictionary.len()
            invariant
                i <= self.entries().len(),
                results@.len() == i,
                forall|k: int|
                    0 <= k < i ==> (#[trigger] self.entries()[k]).0@.len() >= 2 && entry_handle(self.entries()[k].0@, self.entries()[k].1) is Some,
                forall|k: int|
                    0 <= k < i ==> {
                        let key = (#[trigger] self.entries()[k]).0@;
                        &&& results@[k].0@ == utf8_lossy(key.take(key.len() - 2))
                        &&& valid_utf8(key.take(key.len() - 2)) ==> results@[k].0@ == decode_utf8(key.take(key.len() - 2))
                        &&& Some(results@[k].1) == entry_handle(key, self.entries()[k].1)
                    },
            decreases self.entries().len() - i,
        {
            let key_bytes = self.column_dictionary[i].0.as_slice();
            if key_bytes.len() < 2 {
                return Err(ColumnarError::KeyTooShort);
            }
            let column_code = key_bytes[key_bytes.len() - 1];
            let column_type = match Type::from_code(column_code) {
                Some(t) => t,
                None => {
                    return Err(ColumnarError::UnknownColumnCode(column_code));
                },
            };
            let range = self.column_dictionary[i].1;
            // The last two bytes are the `0` separator and the column type.
            let column_name = string_from_utf8_lossy(&key_bytes[0..key_bytes.len() - 2]);
            proof {
                assert(key_bytes@.subrange(0, key_bytes@.len() - 2) =~= key_bytes@.take(key_bytes@.len() - 2));
            }
            results.push((column_name, DynamicColumnHandle { column_type, start: range.0, end: range.1 }));
            i = i + 1;
        }
        Ok(results)
    }

    /// The columns of the given name, one per type: the keys in
    /// `[name || 0x00, name || 0x01)`, that is those starting with `name || 0x00`.
    pub fn read_columns(&self, column_name: &str) -> (r: Result<Vec<DynamicColumnHandle>, ColumnarError>)
        ensures
            ({
                let matching = entries_with_prefix(self.entries(), column_name.spec_bytes().push(0u8));
                &&& (forall|i: int| 0 <= i < matching.len() ==> entry_handle(#[trigger] matching[i].0@, matching[i].1) is Some) <==> r is Ok
                &&& r is Ok ==> r->Ok_0@.len() == matching.len() && forall|i: int|
                    0 <= i < matching.len() ==> Some(#[trigger] r->Ok_0@[i]) == entry_handle(matching[i].0@, matching[i].1)
            }),
    {
        let mut start_key: Vec<u8> = Vec::new();
        start_key.extend_from_slice(column_name.as_bytes());
        start_key.push(0u8);
        let ghost prefix = start_key@;
        let mut results: Vec<DynamicColumnHandle> = Vec::new();
        let mut i: usize = 0;
        while i < self.column_dictionary.len()
            invariant
                i <= self.entries().len(),
                prefix == start_key@,
                prefix == column_name.spec_bytes().push(0u8),
                results@.len() == entries_with_prefix(self.entries().take(i as int), prefix).len(),
                forall|k: int|
                    0 <= k < results@.len() ==> Some(#[trigger] results@[k]) == entry_handle(
                        entries_with_prefix(self.entries().take(i as int), prefix)[k].0@,
                        entries_with_prefix(self.entries().take(i as int), prefix)[k].1,
                    ),
                forall|k: int|
                    0 <= k < entries_with_prefix(self.entries().take(i as int), prefix).len() ==> entry_handle(
                        #[trigger] entries_with_prefix(self.entries().take(i as int), prefix)[k].0@,
                        entries_with_prefix(self.entries().take(i as int), prefix)[k].1,
                    ) is Some,
            decreases self.entries().len() - i,
        {
            proof {
                assert(self.entries().take(i + 1).drop_last() =~= self.entries().take(i as int));
            }
            let key_bytes = self.column_dictionary[i].0.as_slice();
            if starts_with(key_bytes, start_key.as_slice()) {
                let column_code = key_bytes[key_bytes.len() - 1];
                let column_type = match Type::from_code(column_code) {
                    Some(t) => t,
                    None => {
                        proof {
                            lemma_prefix_entries_grow(self.entries(), prefix, i as int);
                        }
                        return Err(ColumnarError::UnknownColumnCode(column_code));
                    },
                };
                let range = self.column_dictionary[i].1;
                results.push(DynamicColumnHandle { column_type, start: range.0, end: range.1 });
            }
            i = i + 1;
        }
        assert(self.entries().take(self.entries().len() as int) =~= self.entries());
        Ok(results)
    }
}

/// An entry that matches the prefix in the first `i + 1` entries is among the
/// matching entries of the whole dictionary.
proof fn lemma_prefix_entries_grow(entries: Seq<(Vec<u8>, (u64, u64))>, prefix: Seq<u8>, i: int)
    requires
        0 <= i < entries.len(),
        entries[i].0@.len() >= prefix.len() && entries[i].0@.take(prefix.len() as int) == prefix,
    ensures
        exists|k: int|
            0 <= k < entries_with_prefix(entries, prefix).len() && #[trigger] entries_with_prefix(entries, prefix)[k] == entries[i],
    decreases entries.len(),
{
    let rest = entries_with_prefix(entries.drop_last(), prefix);
    if i == entries.len() - 1 {
        assert(entries_with_prefix(entries, prefix)[rest.len() as int] == entries[i]);
    } else {
        lemma_prefix_entries_grow(entries.drop_last(), prefix, i);
        let k = choose|k: int| 0 <= k < rest.len() && #[trigger] rest[k] == entries.drop_last()[i];
        assert(entries_with_prefix(entries, prefix)[k] == rest[k]);
    }
}

/// The number that bytes spell, least significant first.
pub open spec fn le_value(bytes: Seq<u8>) -> nat
    decreases bytes.len(),
{
    if bytes.len() == 0 {
        0
    } else {
        bytes[0] as nat + 256 * le_value(bytes.drop_first())
    }
}

proof fn lemma_le_value_bound(bytes: Seq<u8>)
    ensures
        bytes.len() <= 8 ==> le_value(bytes) < crate::codec::radix(bytes.len()),
    decreases bytes.len(),
{
    if bytes.len() > 0 && bytes.len() <= 8 {
        lemma_le_value_bound(bytes.drop_first());
        let r = crate::codec::radix((bytes.len() - 1) as nat);
        let v = le_value(bytes.drop_first());
        assert(bytes[0] + 256 * v < 256 * r) by (nonlinear_arith)
            requires
                v < r,
                bytes[0] < 256,
        ;
    }
}

/// Reads the number that `len` bytes from `start` spell, least significant first.
fn read_le(bytes: &[u8], start: usize, len: usize) -> (r: u64)
    requires
        len <= 8,
        start + len <= bytes@.len(),
    ensures
        r as nat == le_value(bytes@.subrange(start as int, start + len)),
{
    let n = bytes.len();
    let mut v: u64 = 0;
    let mut i: usize = len;
    proof {
        crate::codec::lemma_radix_u64();
    }
    while i > 0
        invariant
            i <= len <= 8,
            start + len <= bytes@.len(),
            n == bytes@.len(),
            v as nat == le_value(bytes@.subrange(start + i, start + len)),
            v < crate::codec::radix((len - i) as nat),
            crate::codec::radix(8) == 0x1_0000_0000_0000_0000,
        decreases i,
    {
        let b = bytes[start + i - 1] as u64;
        let ghost tail = bytes@.subrange(start + i, start + len);
        let ghost s = bytes@.subrange(start + i - 1, start + len);
        proof {
            assert(s.drop_first() =~= tail);
            crate::codec::lemma_radix_monotone((len - i + 1) as nat, 8);
            let r = crate::codec::radix((len - i) as nat);
            assert(crate::codec::radix((len - i + 1) as nat) == 256 * r);
            assert(bytes@[start + i - 1] + 256 * v < 256 * r) by (nonlinear_arith)
                requires
                    v < r,
                    bytes@[start + i - 1] < 256,
            ;
            assert(256 * r <= 0x1_0000_0000_0000_0000);
            assert(256 * v < 0x1_0000_0000_0000_0000) by (nonlinear_arith)
                requires
                    v < r,
                    256 * r <= 0x1_0000_0000_0000_0000,
            ;
        }
        assert(b + 256 * v < 0x1_0000_0000_0000_0000);
        v = b + 256 * v;
        i = i - 1;
    }
    v
}

/// The footer of a columnar file: `[columns | dictionary | dictionary_len:u64 LE
/// | num_rows:u32 LE | version footer]`, read from the end. Returns where the
/// column data ends (and the dictionary starts), the dictionary's length and
/// the number of rows; `None` when the lengths do not fit in the file.
pub open spec fn columnar_footer(file: Seq<u8>, version_footer_len: int) -> Option<(int, int, u32)> {
    let footer_start = file.len() - version_footer_len - 12;
    if version_footer_len < 0 || footer_start < 0 {
        None
    } else {
        let dictionary_len = le_value(file.subrange(footer_start, footer_start + 8)) as int;
        let num_rows = le_value(file.subrange(footer_start + 8, footer_start + 12)) as u32;
        if dictionary_len > footer_start {
            None
        } else {
            Some((footer_start - dictionary_len, dictionary_len, num_rows))
        }
    }
}

/// Reads the footer of a columnar file (see `columnar_footer`).
pub fn parse_columnar_footer(file: &[u8], version_footer_len: usize) -> (r: Option<(usize, usize, u32)>)
    ensures
        match columnar_footer(file@, version_footer_len as int) {
            Some((data_end, dictionary_len, num_rows)) => r == Some((data_end as usize, dictionary_len as usize, num_rows)),
            None => r is None,
        },
{
    if file.len() < 12 || file.len() - 12 < version_footer_len {
        return None;
    }
    let footer_start = file.len() - 12 - version_footer_len;
    let dictionary_len = read_le(file, footer_start, 8);
    let num_rows = read_le(file, footer_start + 8, 4);
    proof {
        lemma_le_value_bound(file@.subrange(footer_start + 8, footer_start + 12));
        crate::codec::lemma_radix_u64();
    }
    if dictionary_len > footer_start as u64 {
        return None;
    }
    Some((footer_start - dictionary_len as usize, dictionary_len as usize, num_rows as u32))
}

} // verus!
