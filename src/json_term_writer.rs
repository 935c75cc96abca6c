//! Flattening of JSON paths and typed leaves into the term space of one field:
//! `[path segments joined by 0x01 | 0x00 | leaf type code | leaf value bytes]`.
use vstd::prelude::*;
use vstd::string::*;
use vstd::utf8::encode_utf8;
use crate::codec::{be_bytes, lemma_be_bytes_len};
use crate::datetime::DatePrecision;
use crate::text::push_char;
use crate::term::{
    F64Bits, FastValue, Field, JSON_END_OF_PATH, JSON_PATH_SEGMENT_SEP, Term, Type,
    f64_bits_to_u64_spec, i64_to_u64_spec,
};

verus! {

/// The path segments joined by the segment separator.
pub open spec fn joined_path(segs: Seq<Seq<u8>>) -> Seq<u8>
    decreases segs.len(),
{
    if segs.len() == 0 {
        Seq::empty()
    } else if segs.len() == 1 {
        segs[0]
    } else {
        joined_path(segs.drop_last()) + seq![JSON_PATH_SEGMENT_SEP] + segs.last()
    }
}

/// The bytes of each segment of a split path, as the writer writes them.
pub open spec fn path_segments(segments: Seq<Seq<char>>, expand_dots_enabled: bool) -> Seq<Seq<u8>> {
    segments.map_values(|seg: Seq<char>| segment_bytes(encode_utf8(seg), expand_dots_enabled))
}

/// Where the path ends in the value bytes, separator included (0 for no path).
pub open spec fn path_end(segs: Seq<Seq<u8>>) -> int {
    if segs.len() == 0 {
        0
    } else {
        joined_path(segs).len() + 1int
    }
}

/// The end of the path after each number of segments.
pub open spec fn stack_of(segs: Seq<Seq<u8>>) -> Seq<int>
    decreases segs.len(),
{
    if segs.len() == 0 {
        seq![0]
    } else {
        stack_of(segs.drop_last()).push(path_end(segs))
    }
}

proof fn lemma_stack_of(segs: Seq<Seq<u8>>)
    ensures
        stack_of(segs).len() == segs.len() + 1,
        stack_of(segs).last() == path_end(segs),
    decreases segs.len(),
{
    if segs.len() > 0 {
        lemma_stack_of(segs.drop_last());
    }
}

/// A path segment with every `.` replaced by the segment separator.
pub open spec fn expand_dots(seg: Seq<u8>) -> Seq<u8> {
    seg.map_values(|b: u8| if b == 46u8 { JSON_PATH_SEGMENT_SEP } else { b })
}

/// The bytes a segment adds to the path, dots expanded or not.
pub open spec fn segment_bytes(seg: Seq<u8>, expand_dots_enabled: bool) -> Seq<u8> {
    if expand_dots_enabled {
        expand_dots(seg)
    } else {
        seg
    }
}

/// Writes JSON terms: keeps a stack of path segments in the term buffer, so that
/// a leaf can be closed and typed, and the path reopened for the next leaf.
pub struct JsonTermWriter {
    term_buffer: Term,
    path_stack: Vec<usize>,
    expand_dots_enabled: bool,
    segments: Ghost<Seq<Seq<u8>>>,
}

impl JsonTermWriter {
    /// The path segments currently open, as they are written in the term.
    pub closed spec fn segments(&self) -> Seq<Seq<u8>> {
        self.segments@
    }

    /// Whether dots in segments become segment separators.
    pub closed spec fn expands_dots(&self) -> bool {
        self.expand_dots_enabled
    }

    /// The bytes of the term being written.
    pub closed spec fn term_bytes(&self) -> Seq<u8> {
        self.term_buffer@
    }

    pub closed spec fn wf(&self) -> bool {
        let segs = self.segments@;
        let value = self.term_buffer.spec_value_bytes();
        &&& self.term_buffer@.len() >= 5
        &&& self.path_stack@.map_values(|x: usize| x as int) == stack_of(segs)
        &&& value.len() >= path_end(segs)
        &&& segs.len() > 0 ==> value.subrange(0, path_end(segs) - 1) == joined_path(segs)
    }

    proof fn lemma_stack_top(&self)
        requires
            self.wf(),
        ensures
            self.path_stack@.len() == self.segments@.len() + 1,
            self.path_stack@.last() as int == path_end(self.segments@),
    {
        lemma_stack_of(self.segments@);
        let m = self.path_stack@.map_values(|x: usize| x as int);
        assert(m.len() == self.path_stack@.len());
        assert(m[m.len() - 1] == self.path_stack@.last() as int);
    }

    /// The header of the term followed by the path, still open for another segment.
    pub open spec fn open_path_bytes(&self) -> Seq<u8> {
        if self.segments().len() == 0 {
            self.term_bytes().subrange(0, 5)
        } else {
            self.term_bytes().subrange(0, 5) + joined_path(self.segments()) + seq![
                JSON_PATH_SEGMENT_SEP,
            ]
        }
    }

    /// The header of the term followed by the closed path and the leaf type.
    pub open spec fn typed_path_bytes(&self, typ: Type) -> Seq<u8> {
        self.term_bytes().subrange(0, 5) + joined_path(self.segments()) + seq![
            JSON_END_OF_PATH,
            typ.spec_code(),
        ]
    }

    /// Creates a writer for the given field, opened at the given (dot separated,
    /// `\`-escaped) path.
    pub fn from_field_and_json_path(
        field: Field,
        json_path: &str,
        expand_dots_enabled: bool,
        term_buffer: Term,
    ) -> (r: Self)
        requires
            term_buffer@.len() == 5,
        ensures
            r.wf(),
            r.expands_dots() == expand_dots_enabled,
            r.term_bytes().subrange(0, 5) == crate::term::term_header(field.id, Type::Json),
            r.segments() == path_segments(split_path(json_path@), expand_dots_enabled),
            r.term_bytes() == r.open_path_bytes(),
    {
        let mut term_buffer = term_buffer;
        term_buffer.set_field_and_type(field, Type::Json);
        let mut json_term_writer = Self::wrap(term_buffer, expand_dots_enabled);
        proof {
            lemma_be_bytes_len(field.id as nat, 4);
            assert(json_term_writer.term_bytes() =~= crate::term::term_header(field.id, Type::Json));
            assert(json_term_writer.term_bytes().subrange(0, 5) =~= json_term_writer.term_bytes());
        }
        let segments = split_json_path(json_path);
        let mut i: usize = 0;
        while i < segments.len()
            invariant
                json_term_writer.wf(),
                json_term_writer.expands_dots() == expand_dots_enabled,
                json_term_writer.term_bytes().subrange(0, 5) == crate::term::term_header(
                    field.id,
                    Type::Json,
                ),
                json_term_writer.segments() == path_segments(split_path(json_path@), expand_dots_enabled).take(i as int),
                json_term_writer.term_bytes() == json_term_writer.open_path_bytes(),
                i <= segments@.len(),
                segments@.len() == split_path(json_path@).len(),
                forall|k: int| 0 <= k < segments@.len() ==> #[trigger] segments@[k]@ == split_path(json_path@)[k],
            decreases segments@.len() - i,
        {
            json_term_writer.push_path_segment(segments[i].as_str());
            proof {
                let all = path_segments(split_path(json_path@), expand_dots_enabled);
                assert(json_term_writer.segments() =~= all.take(i + 1));
            }
            i = i + 1;
        }
        proof {
            let all = path_segments(split_path(json_path@), expand_dots_enabled);
            assert(all.take(i as int) =~= all);
        }
        json_term_writer
    }

    /// Starts writing a JSON term in the given buffer, keeping its field.
    pub fn wrap(term_buffer: Term, expand_dots_enabled: bool) -> (r: Self)
        requires
            term_buffer@.len() >= 5,
        ensures
            r.wf(),
            r.segments() == Seq::<Seq<u8>>::empty(),
            r.expands_dots() == expand_dots_enabled,
            r.term_bytes() == term_buffer@.subrange(0, 4).push(Type::Json.spec_code()),
    {
        let mut term_buffer = term_buffer;
        term_buffer.clear_with_type(Type::Json);
        let mut path_stack: Vec<usize> = Vec::with_capacity(10);
        path_stack.push(0);
        let r = Self { term_buffer, path_stack, expand_dots_enabled, segments: Ghost(Seq::empty()) };
        assert(r.path_stack@.map_values(|x: usize| x as int) =~= stack_of(Seq::empty()));
        r
    }

    fn trim_to_end_of_path(&mut self)
        requires
            old(self).wf(),
        ensures
            final(self).wf(),
            final(self).segments() == old(self).segments(),
            final(self).expands_dots() == old(self).expands_dots(),
            final(self).term_bytes() == old(self).term_bytes().subrange(
                0,
                5 + path_end(old(self).segments@),
            ),
            final(self).path_stack@ == old(self).path_stack@,
    {
        proof {
            self.lemma_stack_top();
        }
        let end_of_path = self.path_stack[self.path_stack.len() - 1];
        self.term_buffer.truncate_value_bytes(end_of_path);
        proof {
            let v = self.term_buffer.spec_value_bytes();
            let ov = old(self).term_buffer.spec_value_bytes();
            assert(v =~= ov.subrange(0, end_of_path as int));
            if self.segments@.len() > 0 {
                assert(v.subrange(0, end_of_path - 1) =~= ov.subrange(0, end_of_path - 1));
            }
        }
    }

    /// Ends the path and writes the type of the leaf.
    pub fn close_path_and_set_type(&mut self, typ: Type)
        requires
            old(self).wf(),
            old(self).segments().len() > 0,
        ensures
            final(self).wf(),
            final(self).segments() == old(self).segments(),
            final(self).expands_dots() == old(self).expands_dots(),
            final(self).term_bytes() == old(self).typed_path_bytes(typ),
    {
        self.trim_to_end_of_path();
        let ghost t1 = self.term_buffer@;
        self.term_buffer.pop_byte();
        self.term_buffer.push_byte(JSON_END_OF_PATH);
        self.term_buffer.push_byte(typ.to_code());
        proof {
            let segs = self.segments@;
            let last = path_end(segs);
            let value = self.term_buffer.spec_value_bytes();
            assert(t1.subrange(5, 5 + last - 1) == joined_path(segs));
            assert(self.term_buffer@ =~= old(self).term_buffer@.subrange(0, 5) + joined_path(segs)
                + seq![JSON_END_OF_PATH, typ.spec_code()]);
            assert(value.subrange(0, last - 1) =~= joined_path(segs));
        }
    }

    /// Opens a new path segment below the current one.
    pub fn push_path_segment(&mut self, segment: &str)
        requires
            old(self).wf(),
        ensures
            final(self).wf(),
            final(self).expands_dots() == old(self).expands_dots(),
            final(self).segments() == old(self).segments().push(
                segment_bytes(segment.spec_bytes(), old(self).expands_dots()),
            ),
            final(self).term_bytes() == final(self).open_path_bytes(),
            final(self).term_bytes().subrange(0, 5) == old(self).term_bytes().subrange(0, 5),
    {
        self.trim_to_end_of_path();
        proof {
            self.lemma_stack_top();
        }
        let ghost t1 = self.term_buffer@;
        if self.path_stack.len() > 1 {
            self.term_buffer.pop_byte();
            self.term_buffer.push_byte(JSON_PATH_SEGMENT_SEP);
        }
        let ghost t2 = self.term_buffer@;
        let bytes = segment.as_bytes();
        append_segment_bytes(&mut self.term_buffer, bytes, self.expand_dots_enabled);
        self.term_buffer.push_byte(JSON_PATH_SEGMENT_SEP);
        let new_end = self.term_buffer.len_bytes();
        let ghost old_stack = self.path_stack@;
        self.path_stack.push(new_end);
        proof {
            let seg = segment_bytes(bytes@, self.expand_dots_enabled);
            let old_segs = self.segments@;
            let new_segs = old_segs.push(seg);
            self.segments = Ghost(new_segs);
            assert(new_segs.drop_last() =~= old_segs);
            let head = old(self).term_buffer@.subrange(0, 5);
            if old_segs.len() > 0 {
                assert(t1 =~= head + joined_path(old_segs) + seq![t1.last()]);
                assert(t2 =~= head + joined_path(old_segs) + seq![JSON_PATH_SEGMENT_SEP]);
            } else {
                assert(t2 =~= head);
            }
            assert(self.term_buffer@ =~= head + joined_path(new_segs) + seq![JSON_PATH_SEGMENT_SEP]);
            assert(new_end as int == path_end(new_segs));
            assert(self.path_stack@.map_values(|x: usize| x as int) =~= old_stack.map_values(
                |x: usize| x as int,
            ).push(new_end as int));
            let value = self.term_buffer.spec_value_bytes();
            assert(value.subrange(0, path_end(new_segs) - 1) =~= joined_path(new_segs));
        }
    }

    /// Closes the innermost path segment.
    pub fn pop_path_segment(&mut self)
        requires
            old(self).wf(),
            old(self).segments().len() > 0,
        ensures
            final(self).wf(),
            final(self).expands_dots() == old(self).expands_dots(),
            final(self).segments() == old(self).segments().drop_last(),
            final(self).term_bytes() == final(self).open_path_bytes(),
            final(self).term_bytes().subrange(0, 5) == old(self).term_bytes().subrange(0, 5),
    {
        proof {
            self.lemma_stack_top();
        }
        let ghost old_segs = self.segments@;
        let ghost old_stack = self.path_stack@;
        let ghost ov = self.term_buffer.spec_value_bytes();
        self.path_stack.pop();
        proof {
            let segs = old_segs.drop_last();
            self.segments = Ghost(segs);
            assert(stack_of(old_segs) == stack_of(segs).push(path_end(old_segs)));
            assert(stack_of(old_segs).drop_last() =~= stack_of(segs));
            assert(self.path_stack@.map_values(|x: usize| x as int) =~= old_stack.map_values(
                |x: usize| x as int,
            ).drop_last());
            if segs.len() > 0 {
                assert(joined_path(old_segs) == joined_path(segs) + seq![JSON_PATH_SEGMENT_SEP]
                    + old_segs.last());
                assert(ov.subrange(0, path_end(segs) - 1) =~= joined_path(old_segs).subrange(
                    0,
                    path_end(segs) - 1,
                ));
                assert(joined_path(old_segs).subrange(0, path_end(segs) - 1) =~= joined_path(segs));
            }
        }
        self.trim_to_end_of_path();
        proof {
            let segs = self.segments@;
            let head = old(self).term_buffer@.subrange(0, 5);
            assert(old(self).term_buffer@ =~= head + ov);
            assert(self.term_buffer@ =~= head + ov.subrange(0, path_end(segs)));
            if segs.len() > 0 {
                assert(joined_path(old_segs) == joined_path(segs) + seq![JSON_PATH_SEGMENT_SEP]
                    + old_segs.last());
                assert(ov.subrange(0, path_end(old_segs) - 1) == joined_path(old_segs));
                assert(ov.subrange(0, path_end(segs)) =~= joined_path(old_segs).subrange(
                    0,
                    path_end(segs),
                ));
                assert(joined_path(old_segs).subrange(0, path_end(segs)) =~= joined_path(segs)
                    + seq![JSON_PATH_SEGMENT_SEP]);
                assert(self.term_buffer@ =~= head + joined_path(segs) + seq![
                    JSON_PATH_SEGMENT_SEP,
                ]);
            } else {
                assert(self.term_buffer@ =~= head);
            }
        }
    }

    /// The path of the term being built, segments joined by the separator.
    pub fn path(&self) -> (r: &[u8])
        requires
            self.wf(),
            self.segments().len() > 0,
        ensures
            r@ == joined_path(self.segments()),
    {
        proof {
            self.lemma_stack_top();
        }
        let end_of_path = self.path_stack[self.path_stack.len() - 1];
        let value = self.term_buffer.value_bytes();
        &value[0..end_of_path - 1]
    }

    /// Closes the path and writes a fast value as the leaf; dates keep whole seconds.
    pub fn set_fast_value<T: FastValue>(&mut self, val: T)
        requires
            old(self).wf(),
            old(self).segments().len() > 0,
        ensures
            final(self).wf(),
            final(self).segments() == old(self).segments(),
            final(self).expands_dots() == old(self).expands_dots(),
            final(self).term_bytes() == old(self).typed_path_bytes(T::spec_type()) + be_bytes(
                fast_leaf_u64(T::spec_type(), val.spec_to_u64()) as nat,
                8,
            ),
    {
        self.close_path_and_set_type(T::to_type());
        let value = if T::to_type() == Type::Date {
            crate::datetime::DateTime::from_u64(val.to_u64()).truncate(
                DatePrecision::Seconds,
            ).to_u64()
        } else {
            val.to_u64()
        };
        let bytes = crate::codec::u64_to_be_bytes(value);
        self.term_buffer.append_bytes(bytes.as_slice());
        proof {
            lemma_be_bytes_len(value as nat, 8);
            let segs = self.segments@;
            let v1 = self.term_buffer.spec_value_bytes();
            assert(v1.subrange(0, path_end(segs) - 1) =~= joined_path(segs));
        }
    }

    /// Closes the path and writes a string leaf.
    pub fn set_str(&mut self, text: &str)
        requires
            old(self).wf(),
            old(self).segments().len() > 0,
        ensures
            final(self).wf(),
            final(self).segments() == old(self).segments(),
            final(self).expands_dots() == old(self).expands_dots(),
            final(self).term_bytes() == old(self).typed_path_bytes(Type::Str) + text.spec_bytes(),
    {
        self.close_path_and_set_type(Type::Str);
        self.term_buffer.append_bytes(text.as_bytes());
        proof {
            let segs = self.segments@;
            let v1 = self.term_buffer.spec_value_bytes();
            assert(v1.subrange(0, path_end(segs) - 1) =~= joined_path(segs));
        }
    }

    /// The number of open path segments.
    pub fn path_depth(&self) -> (r: usize)
        requires
            self.wf(),
        ensures
            r == self.segments().len(),
    {
        proof {
            self.lemma_stack_top();
        }
        self.path_stack.len() - 1
    }

    /// The term being built.
    pub fn term(&self) -> (r: &Term)
        ensures
            r@ == self.term_bytes(),
    {
        &self.term_buffer
    }
}

/// Appends the bytes of a path segment, dots expanded or not.
fn append_segment_bytes(term: &mut Term, bytes: &[u8], expand_dots_enabled: bool)
    ensures
        final(term)@ == old(term)@ + segment_bytes(bytes@, expand_dots_enabled),
{
    let mut i: usize = 0;
    while i < bytes.len()
        invariant
            i <= bytes@.len(),
            term@ == old(term)@ + segment_bytes(bytes@, expand_dots_enabled).take(i as int),
        decreases bytes@.len() - i,
    {
        let b = bytes[i];
        if expand_dots_enabled && b == 46u8 {
            term.push_byte(JSON_PATH_SEGMENT_SEP);
        } else {
            term.push_byte(b);
        }
        assert(segment_bytes(bytes@, expand_dots_enabled).take(i + 1) =~= segment_bytes(
            bytes@,
            expand_dots_enabled,
        ).take(i as int).push(segment_bytes(bytes@, expand_dots_enabled)[i as int]));
        i = i + 1;
    }
    assert(segment_bytes(bytes@, expand_dots_enabled).take(bytes@.len() as int) =~= segment_bytes(
        bytes@,
        expand_dots_enabled,
    ));
}

/// The `u64` written for a fast leaf: dates keep whole seconds.
pub open spec fn fast_leaf_u64(typ: Type, v: u64) -> u64 {
    if typ == Type::Date {
        crate::term::date_to_seconds(crate::datetime::DateTime::spec_from_u64(v)).spec_to_u64()
    } else {
        v
    }
}

/// Where the splitter stands after reading some characters of a path: whether
/// the next character is escaped, the segment being read, and the segments done.
pub open spec fn split_state(chars: Seq<char>) -> (bool, Seq<char>, Seq<Seq<char>>)
    decreases chars.len(),
{
    if chars.len() == 0 {
        (false, Seq::empty(), Seq::empty())
    } else {
        let (escaped, buffer, segments) = split_state(chars.drop_last());
        let ch = chars.last();
        if escaped {
            (false, buffer.push(ch), segments)
        } else if ch == '\\' {
            (true, buffer, segments)
        } else if ch == '.' {
            (false, Seq::empty(), segments.push(buffer))
        } else {
            (false, buffer.push(ch), segments)
        }
    }
}

/// The segments of a dot separated path in which `\` escapes the next character.
pub open spec fn split_path(chars: Seq<char>) -> Seq<Seq<char>> {
    let (_, buffer, segments) = split_state(chars);
    segments.push(buffer)
}

/// Splits a path given to the query parser at its dots; `\` escapes the next
/// character, so `k8s\.node` is the single segment `k8s.node`.
pub fn split_json_path(json_path: &str) -> (r: Vec<String>)
    ensures
        r@.len() == split_path(json_path@).len(),
        forall|i: int| 0 <= i < r@.len() ==> #[trigger] r@[i]@ == split_path(json_path@)[i],
{
    let mut escaped_state: bool = false;
    let mut json_path_segments: Vec<String> = Vec::new();
    let mut buffer = String::new();
    let n = json_path.unicode_len();
    let mut i: usize = 0;
    while i < n
        invariant
            n == json_path@.len(),
            i <= n,
            split_state(json_path@.take(i as int)) == (escaped_state, buffer@, json_path_segments@.map_values(|s: String| s@)),
        decreases n - i,
    {
        let ch = json_path.get_char(i);
        proof {
            assert(json_path@.take(i + 1).drop_last() =~= json_path@.take(i as int));
        }
        if escaped_state {
            push_char(&mut buffer, ch);
            escaped_state = false;
        } else if ch == '\\' {
            escaped_state = true;
        } else if ch == '.' {
            let new_segment = buffer;
            buffer = String::new();
            let ghost done = json_path_segments@;
            json_path_segments.push(new_segment);
            proof {
                assert(json_path_segments@.map_values(|s: String| s@) =~= done.map_values(
                    |s: String| s@,
                ).push(new_segment@));
            }
        } else {
            push_char(&mut buffer, ch);
        }
        i = i + 1;
    }
    proof {
        assert(json_path@.take(n as int) =~= json_path@);
    }
    let ghost before = json_path_segments@;
    json_path_segments.push(buffer);
    proof {
        assert(json_path_segments@.map_values(|s: String| s@) =~= before.map_values(|s: String| s@).push(
            json_path_segments@.last()@,
        ));
    }
    json_path_segments
}

} // verus!

verus! {

/// Whether `c` is an ASCII decimal digit.
pub open spec fn is_digit(c: char) -> bool {
    '0' <= c && c <= '9'
}

/// The number that a string of decimal digits spells.
pub open spec fn digits_value(s: Seq<char>) -> nat
    decreases s.len(),
{
    if s.len() == 0 {
        0
    } else {
        digits_value(s.drop_last()) * 10 + ((s.last() as u32) - 48) as nat
    }
}

/// A non-empty string of decimal digits.
pub open spec fn all_digits(s: Seq<char>) -> bool {
    s.len() > 0 && forall|i: int| 0 <= i < s.len() ==> is_digit(#[trigger] s[i])
}

/// The digits after an optional leading `+`.
pub open spec fn strip_plus(s: Seq<char>) -> Seq<char> {
    if s.len() > 0 && s[0] == '+' {
        s.drop_first()
    } else {
        s
    }
}

/// What `u64::from_str` reads: an optional `+` and decimal digits, in range.
pub open spec fn parsed_u64(s: Seq<char>) -> Option<u64> {
    let d = strip_plus(s);
    if all_digits(d) && digits_value(d) <= u64::MAX {
        Some(digits_value(d) as u64)
    } else {
        None
    }
}

/// What `i64::from_str` reads: an optional sign and decimal digits, in range.
pub open spec fn parsed_i64(s: Seq<char>) -> Option<i64> {
    if s.len() > 0 && s[0] == '-' {
        let d = s.drop_first();
        if all_digits(d) && digits_value(d) <= 0x8000_0000_0000_0000 {
            Some((0 - digits_value(d)) as i64)
        } else {
            None
        }
    } else {
        let d = strip_plus(s);
        if all_digits(d) && digits_value(d) <= i64::MAX {
            Some(digits_value(d) as i64)
        } else {
            None
        }
    }
}

/// What `bool::from_str` reads: exactly `true` or `false`.
pub open spec fn parsed_bool(s: Seq<char>) -> Option<bool> {
    if s == seq!['t', 'r', 'u', 'e'] {
        Some(true)
    } else if s == seq!['f', 'a', 'l', 's', 'e'] {
        Some(false)
    } else {
        None
    }
}

proof fn lemma_digits_prefix(d: Seq<char>, k: int)
    requires
        0 <= k <= d.len(),
        forall|i: int| 0 <= i < d.len() ==> is_digit(#[trigger] d[i]),
    ensures
        digits_value(d.take(k)) <= digits_value(d),
    decreases d.len(),
{
    if k < d.len() {
        assert(d.drop_last().take(k) =~= d.take(k));
        assert forall|i: int| 0 <= i < d.drop_last().len() implies is_digit(#[trigger] d.drop_last()[i]) by {
            assert(d.drop_last()[i] == d[i]);
        }
        lemma_digits_prefix(d.drop_last(), k);
    } else {
        assert(d.take(k) =~= d);
    }
}

/// Reads the decimal digits of `s` from `start` on, up to `bound`: `None`
/// when they are absent, when a character is no digit or when the value
/// exceeds the bound.
fn parse_digits(s: &str, start: usize, bound: u64) -> (r: Option<u64>)
    requires
        start <= s@.len(),
        bound >= 9,
    ensures
        r == if all_digits(s@.skip(start as int)) && digits_value(s@.skip(start as int)) <= bound {
            Some(digits_value(s@.skip(start as int)) as u64)
        } else {
            None::<u64>
        },
{
    let n = s.unicode_len();
    let ghost d = s@.skip(start as int);
    if start == n {
        return None;
    }
    let mut v: u64 = 0;
    let mut i: usize = start;
    while i < n
        invariant
            n == s@.len(),
            start <= i <= n,
            d == s@.skip(start as int),
            bound >= 9,
            forall|j: int| 0 <= j < i - start ==> is_digit(#[trigger] d[j]),
            v as nat == digits_value(d.take(i - start)),
            v <= bound,
        decreases n - i,
    {
        let c = s.get_char(i);
        proof {
            assert(d[i - start] == c);
        }
        if !('0' <= c && c <= '9') {
            return None;
        }
        let digit = (c as u32 - 48) as u64;
        proof {
            assert(d.take(i - start + 1).drop_last() =~= d.take(i - start));
            assert(d.take(i - start + 1).last() == c);
        }
        if v > (bound - digit) / 10 {
            proof {
                assert(v * 10 + digit > bound) by (nonlinear_arith)
                    requires
                        v > (bound - digit) / 10,
                        digit <= 9,
                        bound >= 9,
                ;
                if all_digits(d) {
                    lemma_digits_prefix(d, i - start + 1);
                }
            }
            return None;
        }
        proof {
            assert(v * 10 + digit <= bound) by (nonlinear_arith)
                requires
                    v <= (bound - digit) / 10,
                    digit <= 9,
                    bound >= 9,
            ;
        }
        v = v * 10 + digit;
        i = i + 1;
    }
    proof {
        assert(d.take(n - start) =~= d);
    }
    Some(v)
}

/// Reads a `u64` as `u64::from_str` does: an optional `+` and decimal digits, in range.
fn parse_u64(s: &str) -> (r: Option<u64>)
    ensures
        r == parsed_u64(s@),
{
    let start: usize = if s.unicode_len() > 0 && s.get_char(0) == '+' {
        1
    } else {
        0
    };
    proof {
        assert(s@.skip(1) =~= s@.drop_first());
        assert(s@.skip(0) =~= s@);
    }
    parse_digits(s, start, u64::MAX)
}

/// Reads an `i64` as `i64::from_str` does: an optional sign and decimal digits, in range.
fn parse_i64(s: &str) -> (r: Option<i64>)
    ensures
        r == parsed_i64(s@),
{
    proof {
        assert(s@.skip(1) =~= s@.drop_first());
        assert(s@.skip(0) =~= s@);
    }
    if s.unicode_len() > 0 && s.get_char(0) == '-' {
        match parse_digits(s, 1, 0x8000_0000_0000_0000) {
            Some(m) => {
                if m == 0x8000_0000_0000_0000 {
                    Some(i64::MIN)
                } else {
                    Some(-(m as i64))
                }
            },
            None => None,
        }
    } else {
        let start: usize = if s.unicode_len() > 0 && s.get_char(0) == '+' {
            1
        } else {
            0
        };
        match parse_digits(s, start, i64::MAX as u64) {
            Some(m) => Some(m as i64),
            None => None,
        }
    }
}

/// Reads a `bool` as `bool::from_str` does: exactly `true` or `false`.
fn parse_bool(s: &str) -> (r: Option<bool>)
    ensures
        r == parsed_bool(s@),
{
    let n = s.unicode_len();
    if n == 4 && s.get_char(0) == 't' && s.get_char(1) == 'r' && s.get_char(2) == 'u' && s.get_char(3) == 'e' {
        assert(s@ =~= seq!['t', 'r', 'u', 'e']);
        return Some(true);
    }
    if n == 5 && s.get_char(0) == 'f' && s.get_char(1) == 'a' && s.get_char(2) == 'l' && s.get_char(3) == 's'
        && s.get_char(4) == 'e' {
        assert(s@ =~= seq!['f', 'a', 'l', 's', 'e']);
        return Some(false);
    }
    proof {
        if s@ == seq!['t', 'r', 'u', 'e'] {
            assert(s@[0] == 't' && s@[1] == 'r' && s@[2] == 'u' && s@[3] == 'e');
        }
        if s@ == seq!['f', 'a', 'l', 's', 'e'] {
            assert(s@[0] == 'f' && s@[1] == 'a' && s@[2] == 'l' && s@[3] == 's' && s@[4] == 'e');
        }
    }
    None
}

/// The whole seconds since the epoch and the microseconds within the second
/// of an RFC 3339 date-time, if the text is one.
pub uninterp spec fn rfc3339_parts(s: Seq<char>) -> Option<(i64, u32)>;

/// Relies on `OffsetDateTime::parse` with `Rfc3339`, then on
/// `OffsetDateTime::unix_timestamp` and `OffsetDateTime::microsecond` of the
/// result: whether and how the text parses depends on the text alone, and the
/// parts lie in the supported years.
#[verifier::external_body]
fn parse_rfc3339(text: &str) -> (r: Option<(i64, u32)>)
    ensures
        r == rfc3339_parts(text@),
        match r {
            Some((secs, micros)) => -400_000_000_000 <= secs <= 400_000_000_000 && micros
                < 1_000_000,
            None => true,
        },
{
    time::OffsetDateTime::parse(text, &time::format_description::well_known::Rfc3339)
        .ok()
        .map(|dt| (dt.unix_timestamp(), dt.microsecond()))
}

/// A string of a JSON document: plain text, or a date-time in RFC 3339.
pub enum TextOrDateTime<'a> {
    Text(&'a str),
    DateTime(crate::datetime::DateTime),
}

/// Reads a string as a date-time where it is RFC 3339, as text otherwise.
pub fn infer_type_from_str(text: &str) -> (r: TextOrDateTime)
    ensures
        match rfc3339_parts(text@) {
            Some((secs, micros)) => r matches TextOrDateTime::DateTime(d) && d.timestamp_micros
                == secs * 1_000_000 + micros,
            None => r matches TextOrDateTime::Text(t) && t@ == text@,
        },
{
    match parse_rfc3339(text) {
        Some((secs, micros)) => TextOrDateTime::DateTime(
            crate::datetime::DateTime::from_unix_parts(secs, micros),
        ),
        None => TextOrDateTime::Text(text),
    }
}

/// The type and the `u64` of the fast value that a query phrase reads as,
/// trying in turn a date, a `u64`, an `i64`, a float (parsed by the caller)
/// and a `bool`.
pub open spec fn phrase_fast_value(phrase: Seq<char>, parsed_f64: Option<F64Bits>) -> Option<(Type, u64)> {
    if rfc3339_parts(phrase) is Some {
        let (secs, micros) = rfc3339_parts(phrase)->0;
        Some(
            (
                Type::Date,
                crate::datetime::DateTime { timestamp_micros: (secs * 1_000_000 + micros) as i64 }.spec_to_u64(),
            ),
        )
    } else if parsed_u64(phrase) is Some {
        Some((Type::U64, parsed_u64(phrase)->0))
    } else if parsed_i64(phrase) is Some {
        Some((Type::I64, i64_to_u64_spec(parsed_i64(phrase)->0)))
    } else if parsed_f64 is Some {
        Some((Type::F64, f64_bits_to_u64_spec(parsed_f64->0.bits)))
    } else if parsed_bool(phrase) is Some {
        Some((Type::Bool, parsed_bool(phrase)->0.spec_to_u64()))
    } else {
        None
    }
}

/// Writes a fast value as the leaf and returns a copy of the term.
pub fn set_fastvalue_and_get_term<T: FastValue>(json_term_writer: &mut JsonTermWriter, value: T) -> (r:
    Term)
    requires
        old(json_term_writer).wf(),
        old(json_term_writer).segments().len() > 0,
    ensures
        final(json_term_writer).wf(),
        final(json_term_writer).segments() == old(json_term_writer).segments(),
        final(json_term_writer).expands_dots() == old(json_term_writer).expands_dots(),
        r@ == final(json_term_writer).term_bytes(),
        r@ == old(json_term_writer).typed_path_bytes(T::spec_type()) + be_bytes(
            fast_leaf_u64(T::spec_type(), value.spec_to_u64()) as nat,
            8,
        ),
{
    json_term_writer.set_fast_value(value);
    json_term_writer.term().clone_term()
}

/// Reads a query phrase as a typed JSON leaf (see `phrase_fast_value`); the
/// float reading of the phrase, if any, is given by the caller as a bit pattern.
pub fn convert_to_fast_value_and_get_term(
    json_term_writer: &mut JsonTermWriter,
    phrase: &str,
    parsed_f64: Option<F64Bits>,
) -> (r: Option<Term>)
    requires
        old(json_term_writer).wf(),
        old(json_term_writer).segments().len() > 0,
    ensures
        final(json_term_writer).wf(),
        final(json_term_writer).segments() == old(json_term_writer).segments(),
        r is Some <==> phrase_fast_value(phrase@, parsed_f64) is Some,
        r is Some ==> r->0@ == final(json_term_writer).term_bytes(),
        r is None ==> final(json_term_writer).term_bytes() == old(json_term_writer).term_bytes(),
        final(json_term_writer).expands_dots() == old(json_term_writer).expands_dots(),
        r is Some ==> ({
            let (typ, v) = phrase_fast_value(phrase@, parsed_f64)->0;
            r->0@ == old(json_term_writer).typed_path_bytes(typ) + be_bytes(
                fast_leaf_u64(typ, v) as nat,
                8,
            )
        }),
{
    if let Some((secs, micros)) = parse_rfc3339(phrase) {
        let dt = crate::datetime::DateTime::from_unix_parts(secs, micros);
        return Some(set_fastvalue_and_get_term(json_term_writer, dt));
    }
    if let Some(u64_val) = parse_u64(phrase) {
        return Some(set_fastvalue_and_get_term(json_term_writer, u64_val));
    }
    if let Some(i64_val) = parse_i64(phrase) {
        return Some(set_fastvalue_and_get_term(json_term_writer, i64_val));
    }
    if let Some(f64_val) = parsed_f64 {
        return Some(set_fastvalue_and_get_term(json_term_writer, f64_val));
    }
    if let Some(bool_val) = parse_bool(phrase) {
        return Some(set_fastvalue_and_get_term(json_term_writer, bool_val));
    }
    None
}

/// A token of a text: its text and its position in the token stream.
pub struct Token {
    pub position: usize,
    pub text: String,
}

/// Writes each token of a text value as a string leaf and returns the terms
/// with their positions.
pub fn set_string_and_get_terms(json_term_writer: &mut JsonTermWriter, tokens: &[Token]) -> (r: Vec<
    (usize, Term),
>)
    requires
        old(json_term_writer).wf(),
        old(json_term_writer).segments().len() > 0,
    ensures
        final(json_term_writer).wf(),
        final(json_term_writer).segments() == old(json_term_writer).segments(),
        r@.len() == tokens@.len(),
        forall|i: int|
            0 <= i < r@.len() ==> (#[trigger] r@[i]).0 == tokens@[i].position && r@[i].1@
                == old(json_term_writer).typed_path_bytes(Type::Str) + encode_utf8(tokens@[i].text@),
{
    let mut positions_and_terms: Vec<(usize, Term)> = Vec::new();
    let ghost typed = old(json_term_writer).typed_path_bytes(Type::Str);
    let mut i: usize = 0;
    while i < tokens.len()
        invariant
            i <= tokens@.len(),
            json_term_writer.wf(),
            json_term_writer.segments() == old(json_term_writer).segments(),
            json_term_writer.segments().len() > 0,
            json_term_writer.term_bytes().len() >= 5,
            old(json_term_writer).term_bytes().len() >= 5,
            typed == old(json_term_writer).typed_path_bytes(Type::Str),
            json_term_writer.term_bytes().subrange(0, 5) == old(json_term_writer).term_bytes().subrange(0, 5),
            positions_and_terms@.len() == i,
            forall|k: int|
                0 <= k < i ==> (#[trigger] positions_and_terms@[k]).0 == tokens@[k].position
                    && positions_and_terms@[k].1@ == typed + encode_utf8(tokens@[k].text@),
        decreases tokens@.len() - i,
    {
        let ghost cur = json_term_writer.term_bytes();
        json_term_writer.set_str(tokens[i].text.as_str());
        proof {
            let w = &*json_term_writer;
            assert(cur.subrange(0, 5) + joined_path(w.segments()) + seq![
                JSON_END_OF_PATH,
                Type::Str.spec_code(),
            ] =~= typed);
            assert(w.term_bytes().subrange(0, 5) =~= cur.subrange(0, 5));
        }
        positions_and_terms.push((tokens[i].position, json_term_writer.term().clone_term()));
        i = i + 1;
    }
    positions_and_terms
}

} // verus!
