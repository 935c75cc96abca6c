//! Indexing of JSON documents: every leaf becomes a term of the field's term
//! space, recorded in the postings of the segment being built.
use rustc_hash::FxHashMap;
use vstd::prelude::*;
use crate::arena_hashmap::{murmur2_of, murmurhash2};
use crate::json_term_writer::{
    fast_leaf_u64, infer_type_from_str, joined_path, rfc3339_parts, segment_bytes, JsonTermWriter,
    TextOrDateTime, Token,
};
use crate::postings::{IndexingError, Occurrence, PostingsWriter};
use crate::codec::be_bytes;
use crate::term::{F64Bits, FastValue, Field, Term, Type, f64_bits_to_u64_spec, i64_to_u64_spec};
use vstd::utf8::encode_utf8;
use crate::DocId;

verus! {

broadcast use vstd::std_specs::vec::group_vec_axioms;

#[verifier::external_type_specification]
#[verifier::external_body]
pub struct ExFxHasher(rustc_hash::FxHasher);

#[verifier::external_type_specification]
#[verifier::external_body]
#[verifier::reject_recursive_types(H)]
pub struct ExBuildHasherDefault<H>(std::hash::BuildHasherDefault<H>);

/// The position reached for each path hash.
pub type PathPositionMap = FxHashMap<u32, IndexingPosition>;

/// Relies on `FxHashMap::default` (`HashMap::default` with rustc_hash's
/// hasher): an empty map.
#[verifier::external_body]
fn fx_map_new() -> (r: PathPositionMap)
    ensures
        r@.dom() == Set::<u32>::empty(),
{
    FxHashMap::default()
}

/// Relies on `HashMap::get` over rustc_hash's hasher: the value of the key, if any.
#[verifier::external_body]
fn fx_map_get(m: &PathPositionMap, key: u32) -> (r: Option<IndexingPosition>)
    ensures
        r == if m@.contains_key(key) {
            Some(m@[key])
        } else {
            None::<IndexingPosition>
        },
{
    m.get(&key).copied()
}

/// Relies on `HashMap::insert` over rustc_hash's hasher: the key now maps to the value.
#[verifier::external_body]
fn fx_map_insert(m: &mut PathPositionMap, key: u32, value: IndexingPosition)
    ensures
        final(m)@ == old(m)@.insert(key, value),
{
    m.insert(key, value);
}

/// The positions left free between two texts indexed at the same JSON path,
/// so that a phrase cannot match across them.
pub const POSITION_GAP: u32 = 2;

/// A JSON value whose string leaves come with their tokens.
pub enum JsonValue {
    Null,
    Bool(bool),
    U64(u64),
    I64(i64),
    F64(F64Bits),
    Str { text: String, tokens: Vec<Token> },
    Array(Vec<JsonValue>),
    Object(Vec<(String, JsonValue)>),
}

/// The type and `u64` of a number or boolean leaf.
pub open spec fn fast_leaf(value: JsonValue) -> Option<(Type, u64)> {
    match value {
        JsonValue::Bool(b) => Some((Type::Bool, b.spec_to_u64())),
        JsonValue::U64(v) => Some((Type::U64, v)),
        JsonValue::I64(v) => Some((Type::I64, i64_to_u64_spec(v))),
        JsonValue::F64(v) => Some((Type::F64, f64_bits_to_u64_spec(v.bits))),
        _ => None,
    }
}

/// The number of occurrences that indexing a value records: one per number,
/// boolean or date, one per token of a text, and those of every element or member.
pub open spec fn occurrence_count(value: JsonValue) -> nat
    decreases value,
{
    match value {
        JsonValue::Null => 0,
        JsonValue::Str { text, tokens } => if rfc3339_parts(text@) is Some {
            1
        } else {
            tokens@.len()
        },
        JsonValue::Array(arr) => elements_count(arr@),
        JsonValue::Object(map) => members_count(map@),
        _ => 1,
    }
}

/// The occurrences recorded by a sequence of values.
pub open spec fn elements_count(values: Seq<JsonValue>) -> nat
    decreases values,
{
    if values.len() == 0 {
        0
    } else {
        elements_count(values.drop_last()) + occurrence_count(values.last())
    }
}

/// The occurrences recorded by the members of an object.
pub open spec fn members_count(members: Seq<(String, JsonValue)>) -> nat
    decreases members,
{
    if members.len() == 0 {
        0
    } else {
        members_count(members.drop_last()) + occurrence_count(members.last().1)
    }
}

/// How far past its start a text moves the position of its path, gap included.
pub open spec fn text_span(tokens: Seq<Token>) -> nat
    decreases tokens.len(),
{
    if tokens.len() == 0 {
        POSITION_GAP as nat
    } else {
        let prev = text_span(tokens.drop_last());
        let here = tokens.last().position + 1 + POSITION_GAP;
        if prev >= here {
            prev
        } else {
            here as nat
        }
    }
}

proof fn lemma_text_span(tokens: Seq<Token>)
    ensures
        text_span(tokens) >= POSITION_GAP,
        forall|i: int| 0 <= i < tokens.len() ==> (#[trigger] tokens[i]).position + 1 + POSITION_GAP <= text_span(tokens),
    decreases tokens.len(),
{
    if tokens.len() > 0 {
        lemma_text_span(tokens.drop_last());
        assert forall|i: int| 0 <= i < tokens.len() implies (#[trigger] tokens[i]).position + 1 + POSITION_GAP <= text_span(tokens) by {
            if i < tokens.len() - 1 {
                assert(tokens[i] == tokens.drop_last()[i]);
            }
        }
    }
}

/// What indexing a value can add to the positions of its paths: the spans of
/// its texts, and their numbers of tokens.
pub open spec fn value_budget(value: JsonValue) -> (nat, nat)
    decreases value,
{
    match value {
        JsonValue::Str { text, tokens } => if rfc3339_parts(text@) is Some {
            (0, 0)
        } else {
            (text_span(tokens@), tokens@.len())
        },
        JsonValue::Array(arr) => elements_budget(arr@),
        JsonValue::Object(map) => members_budget(map@),
        _ => (0, 0),
    }
}

/// The budgets of a sequence of values, added up.
pub open spec fn elements_budget(values: Seq<JsonValue>) -> (nat, nat)
    decreases values,
{
    if values.len() == 0 {
        (0, 0)
    } else {
        let p = elements_budget(values.drop_last());
        let b = value_budget(values.last());
        (p.0 + b.0, p.1 + b.1)
    }
}

/// The budgets of the members of an object, added up.
pub open spec fn members_budget(members: Seq<(String, JsonValue)>) -> (nat, nat)
    decreases members,
{
    if members.len() == 0 {
        (0, 0)
    } else {
        let p = members_budget(members.drop_last());
        let b = value_budget(members.last().1);
        (p.0 + b.0, p.1 + b.1)
    }
}

proof fn lemma_elements_budget_prefix(values: Seq<JsonValue>, j: int)
    requires
        0 <= j <= values.len(),
    ensures
        elements_budget(values.take(j)).0 <= elements_budget(values).0,
        elements_budget(values.take(j)).1 <= elements_budget(values).1,
    decreases values.len(),
{
    if j < values.len() {
        assert(values.drop_last().take(j) =~= values.take(j));
        lemma_elements_budget_prefix(values.drop_last(), j);
    } else {
        assert(values.take(j) =~= values);
    }
}

proof fn lemma_members_budget_prefix(members: Seq<(String, JsonValue)>, j: int)
    requires
        0 <= j <= members.len(),
    ensures
        members_budget(members.take(j)).0 <= members_budget(members).0,
        members_budget(members.take(j)).1 <= members_budget(members).1,
    decreases members.len(),
{
    if j < members.len() {
        assert(members.drop_last().take(j) =~= members.take(j));
        lemma_members_budget_prefix(members.drop_last(), j);
    } else {
        assert(members.take(j) =~= members);
    }
}

proof fn lemma_subscribe_error_kind(w: &PostingsWriter, doc: DocId, term: Seq<u8>, position: u32)
    ensures
        w.subscribe_error(doc, term, position) != Some(IndexingError::PositionOverflow),
{
}

/// The budgets of a sequence of JSON objects, added up.
pub open spec fn objects_budget(objects: Seq<Vec<(String, JsonValue)>>) -> (nat, nat)
    decreases objects.len(),
{
    if objects.len() == 0 {
        (0, 0)
    } else {
        let p = objects_budget(objects.drop_last());
        let b = members_budget(objects.last()@);
        (p.0 + b.0, p.1 + b.1)
    }
}

proof fn lemma_objects_budget_prefix(objects: Seq<Vec<(String, JsonValue)>>, j: int)
    requires
        0 <= j <= objects.len(),
    ensures
        objects_budget(objects.take(j)).0 <= objects_budget(objects).0,
        objects_budget(objects.take(j)).1 <= objects_budget(objects).1,
    decreases objects.len(),
{
    if j < objects.len() {
        assert(objects.drop_last().take(j) =~= objects.take(j));
        lemma_objects_budget_prefix(objects.drop_last(), j);
    } else {
        assert(objects.take(j) =~= objects);
    }
}

/// The position past the last token of a text starting at `e`, or `e` for no token.
pub open spec fn text_reach(tokens: Seq<Token>, e: int) -> int
    decreases tokens.len(),
{
    if tokens.len() == 0 {
        e
    } else {
        let p = text_reach(tokens.drop_last(), e);
        let h = e + tokens.last().position + 1;
        if p >= h {
            p
        } else {
            h
        }
    }
}

/// Where a path stands after a text that started at `start`.
pub open spec fn text_end(tokens: Seq<Token>, start: IndexingPosition) -> IndexingPosition {
    IndexingPosition {
        num_tokens: (start.num_tokens + tokens.len()) as u32,
        end_position: (text_reach(tokens, start.end_position as int) + POSITION_GAP) as u32,
    }
}

/// The bytes of a term of type `typ` at the path `segs` of a field header, before its value.
pub open spec fn typed_at(header: Seq<u8>, segs: Seq<Seq<u8>>, typ: Type) -> Seq<u8> {
    header + joined_path(segs) + seq![crate::term::JSON_END_OF_PATH, typ.spec_code()]
}

/// A (term, position) pair that indexing records.
pub type Record = (Seq<u8>, u32);

/// The records of a text whose path starts at position `start`.
pub open spec fn text_records(typed: Seq<u8>, tokens: Seq<Token>, start: u32) -> Seq<Record> {
    Seq::new(tokens.len(), |i: int| (typed + encode_utf8(tokens[i].text@), (start + tokens[i].position) as u32))
}

/// The records that indexing `value` at the path `segs` of a field header
/// produces, in order, with the positions reached per path before and after.
pub open spec fn json_records(
    value: JsonValue,
    header: Seq<u8>,
    segs: Seq<Seq<u8>>,
    expand: bool,
    m: Map<u32, IndexingPosition>,
) -> (Seq<Record>, Map<u32, IndexingPosition>)
    decreases value,
{
    match value {
        JsonValue::Null => (Seq::empty(), m),
        JsonValue::Str { text, tokens } => match rfc3339_parts(text@) {
            Some((secs, micros)) => (
                seq![
                    (
                        typed_at(header, segs, Type::Date) + be_bytes(
                            fast_leaf_u64(Type::Date, date_leaf_u64(secs, micros)) as nat,
                            8,
                        ),
                        0u32,
                    ),
                ],
                m,
            ),
            None => {
                let typed = typed_at(header, segs, Type::Str);
                let key = murmur2_of(typed);
                let start = position_at(m, key);
                (text_records(typed, tokens@, start.end_position), m.insert(key, text_end(tokens@, start)))
            },
        },
        JsonValue::Array(arr) => elements_records(arr@, header, segs, expand, m),
        JsonValue::Object(map) => members_records(map@, header, segs, expand, m),
        _ => {
            let (typ, v) = fast_leaf(value)->0;
            (seq![(typed_at(header, segs, typ) + be_bytes(fast_leaf_u64(typ, v) as nat, 8), 0u32)], m)
        },
    }
}

/// The records of a sequence of values at one path, one after the other.
pub open spec fn elements_records(
    values: Seq<JsonValue>,
    header: Seq<u8>,
    segs: Seq<Seq<u8>>,
    expand: bool,
    m: Map<u32, IndexingPosition>,
) -> (Seq<Record>, Map<u32, IndexingPosition>)
    decreases values,
{
    if values.len() == 0 {
        (Seq::empty(), m)
    } else {
        let before = elements_records(values.drop_last(), header, segs, expand, m);
        let last = json_records(values.last(), header, segs, expand, before.1);
        (before.0 + last.0, last.1)
    }
}

/// The records of the members of an object, each one segment deeper.
pub open spec fn members_records(
    members: Seq<(String, JsonValue)>,
    header: Seq<u8>,
    segs: Seq<Seq<u8>>,
    expand: bool,
    m: Map<u32, IndexingPosition>,
) -> (Seq<Record>, Map<u32, IndexingPosition>)
    decreases members,
{
    if members.len() == 0 {
        (Seq::empty(), m)
    } else {
        let before = members_records(members.drop_last(), header, segs, expand, m);
        let member = members.last();
        let last = json_records(
            member.1,
            header,
            segs.push(segment_bytes(encode_utf8(member.0@), expand)),
            expand,
            before.1,
        );
        (before.0 + last.0, last.1)
    }
}

/// The records of a sequence of top-level objects, from no positions at all.
pub open spec fn objects_records(
    objects: Seq<Vec<(String, JsonValue)>>,
    header: Seq<u8>,
    expand: bool,
) -> (Seq<Record>, Map<u32, IndexingPosition>)
    decreases objects.len(),
{
    if objects.len() == 0 {
        (Seq::empty(), Map::empty())
    } else {
        let before = objects_records(objects.drop_last(), header, expand);
        let last = members_records(objects.last()@, header, Seq::empty(), expand, before.1);
        (before.0 + last.0, last.1)
    }
}

/// The occurrences recorded between the two states are exactly `records`, in order.
pub open spec fn records_match(before: &PostingsWriter, after: &PostingsWriter, records: Seq<Record>) -> bool {
    let o = before.spec_occurrences();
    let f = after.spec_occurrences();
    &&& f.len() == o.len() + records.len()
    &&& forall|k: int|
        0 <= k < records.len() ==> {
            let e = #[trigger] f[o.len() + k];
            &&& e.2 == records[k].1
            &&& 0 <= e.0 < after.spec_terms().len()
            &&& after.spec_terms()[e.0 as int] == records[k].0
        }
}

/// The records of a value indexed at the current path of a writer.
pub open spec fn writer_records(w: &JsonTermWriter, value: JsonValue, m: Map<u32, IndexingPosition>) -> (
    Seq<Record>,
    Map<u32, IndexingPosition>,
) {
    json_records(value, w.term_bytes().subrange(0, 5), w.segments(), w.expands_dots(), m)
}

proof fn lemma_records_text_match(
    a: &PostingsWriter,
    b: &PostingsWriter,
    w: &JsonTermWriter,
    tokens: Seq<Token>,
    start: u32,
    end: u32,
)
    requires
        records_text(a, b, w, tokens, start, end),
    ensures
        records_match(a, b, text_records(w.typed_path_bytes(Type::Str), tokens, start)),
{
    let r = text_records(w.typed_path_bytes(Type::Str), tokens, start);
    assert forall|k: int| 0 <= k < r.len() implies {
        let e = #[trigger] b.spec_occurrences()[a.spec_occurrences().len() + k];
        &&& e.2 == r[k].1
        &&& 0 <= e.0 < b.spec_terms().len()
        &&& b.spec_terms()[e.0 as int] == r[k].0
    } by {
        let e = b.spec_occurrences()[a.spec_occurrences().len() + k];
        assert(e.2 == start + tokens[k].position);
    }
}

proof fn lemma_text_reach(tokens: Seq<Token>, e: int)
    ensures
        text_reach(tokens, e) >= e,
        text_reach(tokens, e) + POSITION_GAP <= e + text_span(tokens),
        forall|i: int| 0 <= i < tokens.len() ==> e + (#[trigger] tokens[i]).position + 1 <= text_reach(tokens, e),
    decreases tokens.len(),
{
    if tokens.len() > 0 {
        lemma_text_reach(tokens.drop_last(), e);
        assert forall|i: int| 0 <= i < tokens.len() implies e + (#[trigger] tokens[i]).position + 1 <= text_reach(tokens, e) by {
            if i < tokens.len() - 1 {
                assert(tokens[i] == tokens.drop_last()[i]);
            }
        }
    }
}

/// Two objects of an array, each naming the same member with a text, are
/// indexed at one path with one position counter: every token of the second
/// text lies more than the gap after every token of the first, so no phrase
/// matches across the two.
pub proof fn lemma_same_path_texts_apart(
    arr: Vec<JsonValue>,
    first: Vec<(String, JsonValue)>,
    second: Vec<(String, JsonValue)>,
    header: Seq<u8>,
    segs: Seq<Seq<u8>>,
    expand: bool,
    m: Map<u32, IndexingPosition>,
)
    requires
        arr@ == seq![JsonValue::Object(first), JsonValue::Object(second)],
        first@.len() == 1,
        second@.len() == 1,
        first@[0].0@ == second@[0].0@,
        first@[0].1 is Str,
        second@[0].1 is Str,
        rfc3339_parts(first@[0].1->text@) is None,
        rfc3339_parts(second@[0].1->text@) is None,
        ({
            let typed = typed_at(header, segs.push(segment_bytes(encode_utf8(first@[0].0@), expand)), Type::Str);
            position_at(m, murmur2_of(typed)).end_position + text_span(first@[0].1->tokens@) + text_span(
                second@[0].1->tokens@,
            ) <= u32::MAX
        }),
    ensures
        ({
            let t1 = first@[0].1->tokens@;
            let t2 = second@[0].1->tokens@;
            let recs = elements_records(arr@, header, segs, expand, m).0;
            &&& recs.len() == t1.len() + t2.len()
            &&& forall|i: int, j: int|
                0 <= i < t1.len() && 0 <= j < t2.len() ==> #[trigger] recs[i].1 + POSITION_GAP < #[trigger] recs[t1.len() + j].1
        }),
{
    let t1 = first@[0].1->tokens@;
    let t2 = second@[0].1->tokens@;
    let segs1 = segs.push(segment_bytes(encode_utf8(first@[0].0@), expand));
    let typed = typed_at(header, segs1, Type::Str);
    let key = murmur2_of(typed);
    let start = position_at(m, key);
    let s1 = start.end_position;
    assert(first@.drop_last() =~= Seq::<(String, JsonValue)>::empty());
    assert(second@.drop_last() =~= Seq::<(String, JsonValue)>::empty());
    assert(arr@.drop_last() =~= seq![JsonValue::Object(first)]);
    assert(arr@.drop_last().drop_last() =~= Seq::<JsonValue>::empty());
    let m1 = m.insert(key, text_end(t1, start));
    let r1 = text_records(typed, t1, s1);
    assert(first@.last() == first@[0]);
    assert(second@.last() == second@[0]);
    assert(json_records(first@[0].1, header, segs1, expand, m) == (r1, m1));
    assert(members_records(first@.drop_last(), header, segs, expand, m) == (Seq::<Record>::empty(), m));
    assert(members_records(first@, header, segs, expand, m) == (Seq::<Record>::empty() + r1, m1));
    let s2 = text_end(t1, start).end_position;
    let r2 = text_records(typed, t2, s2);
    assert(position_at(m1, key) == text_end(t1, start));
    assert(segs.push(segment_bytes(encode_utf8(second@[0].0@), expand)) == segs1);
    assert(json_records(second@[0].1, header, segs1, expand, m1).0 == r2);
    assert(members_records(second@.drop_last(), header, segs, expand, m1) == (Seq::<Record>::empty(), m1));
    assert(members_records(second@, header, segs, expand, m1).0 == Seq::<Record>::empty() + r2);
    lemma_text_span(t1);
    lemma_text_span(t2);
    lemma_text_reach(t1, s1 as int);
    let recs = elements_records(arr@, header, segs, expand, m).0;
    let a1 = arr@.drop_last();
    assert(a1.last() == JsonValue::Object(first));
    assert(json_records(JsonValue::Object(first), header, segs, expand, m) == members_records(first@, header, segs, expand, m));
    assert(elements_records(a1.drop_last(), header, segs, expand, m) == (Seq::<Record>::empty(), m));
    assert(elements_records(a1, header, segs, expand, m) == (Seq::<Record>::empty() + (Seq::<Record>::empty() + r1), m1));
    assert(Seq::<Record>::empty() + (Seq::<Record>::empty() + r1) =~= r1);
    assert(arr@.last() == JsonValue::Object(second));
    assert(json_records(JsonValue::Object(second), header, segs, expand, m1) == members_records(second@, header, segs, expand, m1));
    assert(Seq::<Record>::empty() + r2 =~= r2);
    assert(recs == r1 + r2);
    assert forall|i: int, j: int| 0 <= i < t1.len() && 0 <= j < t2.len() implies #[trigger] recs[i].1 + POSITION_GAP < #[trigger] recs[t1.len() + j].1 by {
        assert(recs[i] == r1[i]);
        assert(recs[t1.len() + j] == r2[j]);
        assert(t2[j].position + 1 + POSITION_GAP <= text_span(t2));
    }
}

/// A refused term among the records: recording `records[k]` fails with `e`.
pub open spec fn refused_record(w: &PostingsWriter, doc: DocId, records: Seq<Record>, e: IndexingError) -> bool {
    exists|k: int| 0 <= k < records.len() && w.subscribe_error(doc, (#[trigger] records[k]).0, records[k].1) == Some(e)
}

proof fn lemma_records_match_trans(a: &PostingsWriter, b: &PostingsWriter, c: &PostingsWriter, r1: Seq<Record>, r2: Seq<Record>)
    requires
        records_match(a, b, r1),
        records_match(b, c, r2),
        grows(b, c),
        c.spec_occurrences().take(b.spec_occurrences().len() as int) == b.spec_occurrences(),
    ensures
        records_match(a, c, r1 + r2),
{
    let o = a.spec_occurrences();
    let f = c.spec_occurrences();
    let r = r1 + r2;
    assert forall|k: int| 0 <= k < r.len() implies {
        let e = #[trigger] f[o.len() + k];
        &&& e.2 == r[k].1
        &&& 0 <= e.0 < c.spec_terms().len()
        &&& c.spec_terms()[e.0 as int] == r[k].0
    } by {
        if k < r1.len() {
            assert(f.take(b.spec_occurrences().len() as int)[o.len() + k] == f[o.len() + k]);
            let e = b.spec_occurrences()[o.len() + k];
            assert(c.spec_terms().take(b.spec_terms().len() as int)[e.0 as int] == c.spec_terms()[e.0 as int]);
        } else {
            let j = k - r1.len();
            assert(b.spec_occurrences().len() + j == o.len() + k);
            assert(r[k] == r2[j]);
        }
    }
}

proof fn lemma_records_one_match(a: &PostingsWriter, b: &PostingsWriter, term: Seq<u8>, position: u32)
    requires
        records_one(a, b, term, position),
    ensures
        records_match(a, b, seq![(term, position)]),
{
    assert(b.spec_occurrences()[a.spec_occurrences().len() as int] == b.spec_occurrences().last());
}

/// A refused record of a part is a refused record of a list that holds the part.
proof fn lemma_refused_in_prefix(
    w: &PostingsWriter,
    doc: DocId,
    before: Seq<Record>,
    part: Seq<Record>,
    all: Seq<Record>,
    e: IndexingError,
)
    requires
        refused_record(w, doc, part, e),
        all.len() >= before.len() + part.len(),
        all.take((before.len() + part.len()) as int) == before + part,
    ensures
        refused_record(w, doc, all, e),
{
    let k = choose|k: int| 0 <= k < part.len() && w.subscribe_error(doc, (#[trigger] part[k]).0, part[k].1) == Some(e);
    let j = before.len() + k;
    assert(all.take((before.len() + part.len()) as int)[j] == all[j]);
    assert((before + part)[j] == part[k]);
    assert(w.subscribe_error(doc, all[j].0, all[j].1) == Some(e));
}

proof fn lemma_elements_records_prefix(
    values: Seq<JsonValue>,
    header: Seq<u8>,
    segs: Seq<Seq<u8>>,
    expand: bool,
    m: Map<u32, IndexingPosition>,
    j: int,
)
    requires
        0 <= j <= values.len(),
    ensures
        elements_records(values, header, segs, expand, m).0.len() >= elements_records(values.take(j), header, segs, expand, m).0.len(),
        elements_records(values, header, segs, expand, m).0.take(
            elements_records(values.take(j), header, segs, expand, m).0.len() as int,
        ) == elements_records(values.take(j), header, segs, expand, m).0,
    decreases values.len(),
{
    if j < values.len() {
        assert(values.drop_last().take(j) =~= values.take(j));
        lemma_elements_records_prefix(values.drop_last(), header, segs, expand, m, j);
        let p = elements_records(values.take(j), header, segs, expand, m).0;
        let d = elements_records(values.drop_last(), header, segs, expand, m).0;
        let all = elements_records(values, header, segs, expand, m).0;
        assert(all.take(p.len() as int) =~= d.take(p.len() as int));
    } else {
        assert(values.take(j) =~= values);
        let all = elements_records(values, header, segs, expand, m).0;
        assert(all.take(all.len() as int) =~= all);
    }
}

proof fn lemma_members_records_prefix(
    members: Seq<(String, JsonValue)>,
    header: Seq<u8>,
    segs: Seq<Seq<u8>>,
    expand: bool,
    m: Map<u32, IndexingPosition>,
    j: int,
)
    requires
        0 <= j <= members.len(),
    ensures
        members_records(members, header, segs, expand, m).0.len() >= members_records(members.take(j), header, segs, expand, m).0.len(),
        members_records(members, header, segs, expand, m).0.take(
            members_records(members.take(j), header, segs, expand, m).0.len() as int,
        ) == members_records(members.take(j), header, segs, expand, m).0,
    decreases members.len(),
{
    if j < members.len() {
        assert(members.drop_last().take(j) =~= members.take(j));
        lemma_members_records_prefix(members.drop_last(), header, segs, expand, m, j);
        let p = members_records(members.take(j), header, segs, expand, m).0;
        let d = members_records(members.drop_last(), header, segs, expand, m).0;
        let all = members_records(members, header, segs, expand, m).0;
        assert(all.take(p.len() as int) =~= d.take(p.len() as int));
    } else {
        assert(members.take(j) =~= members);
        let all = members_records(members, header, segs, expand, m).0;
        assert(all.take(all.len() as int) =~= all);
    }
}

proof fn lemma_objects_records_prefix(objects: Seq<Vec<(String, JsonValue)>>, header: Seq<u8>, expand: bool, j: int)
    requires
        0 <= j <= objects.len(),
    ensures
        objects_records(objects, header, expand).0.len() >= objects_records(objects.take(j), header, expand).0.len(),
        objects_records(objects, header, expand).0.take(objects_records(objects.take(j), header, expand).0.len() as int)
            == objects_records(objects.take(j), header, expand).0,
    decreases objects.len(),
{
    if j < objects.len() {
        assert(objects.drop_last().take(j) =~= objects.take(j));
        lemma_objects_records_prefix(objects.drop_last(), header, expand, j);
        let p = objects_records(objects.take(j), header, expand).0;
        let d = objects_records(objects.drop_last(), header, expand).0;
        let all = objects_records(objects, header, expand).0;
        assert(all.take(p.len() as int) =~= d.take(p.len() as int));
    } else {
        assert(objects.take(j) =~= objects);
        let all = objects_records(objects, header, expand).0;
        assert(all.take(all.len() as int) =~= all);
    }
}

proof fn lemma_records_match_empty(a: &PostingsWriter)
    ensures
        records_match(a, a, Seq::empty()),
{
}

/// Every path has reached at most position `e` and `n` tokens.
pub open spec fn map_bounded(m: Map<u32, IndexingPosition>, e: int, n: int) -> bool {
    forall|k: u32| m.contains_key(k) ==> (#[trigger] m[k]).end_position <= e && m[k].num_tokens <= n
}

/// The occurrences recorded by a sequence of JSON objects.
pub open spec fn objects_count(objects: Seq<Vec<(String, JsonValue)>>) -> nat
    decreases objects.len(),
{
    if objects.len() == 0 {
        0
    } else {
        objects_count(objects.drop_last()) + members_count(objects.last()@)
    }
}

/// How far the texts indexed at one path have gone.
#[derive(Clone, Copy, Debug, PartialEq, Eq, Structural)]
pub struct IndexingPosition {
    pub num_tokens: u32,
    pub end_position: u32,
}

/// The position reached by the texts of each path of the current document,
/// keyed by a hash of the path; two paths may share an entry, which only
/// spreads positions further apart.
pub struct IndexingPositionsPerPath {
    positions_per_path: PathPositionMap,
}

impl IndexingPositionsPerPath {
    /// The position reached for each path hash.
    pub closed spec fn spec_positions(&self) -> Map<u32, IndexingPosition> {
        self.positions_per_path@
    }

    /// No path indexed yet.
    pub fn new() -> (r: Self)
        ensures
            r.spec_positions() == Map::<u32, IndexingPosition>::empty(),
    {
        IndexingPositionsPerPath { positions_per_path: fx_map_new() }
    }

    /// The position reached at the path of the term, zero for a new path.
    pub fn get_position(&self, term: &Term) -> (r: IndexingPosition)
        ensures
            r == if self.spec_positions().contains_key(murmur2_of(term@)) {
                self.spec_positions()[murmur2_of(term@)]
            } else {
                IndexingPosition { num_tokens: 0, end_position: 0 }
            },
    {
        let key = murmurhash2(term.as_slice());
        match fx_map_get(&self.positions_per_path, key) {
            Some(pos) => pos,
            None => IndexingPosition { num_tokens: 0, end_position: 0 },
        }
    }

    /// Records the position reached at the path of the term.
    pub fn set_position(&mut self, term: &Term, position: IndexingPosition)
        ensures
            final(self).spec_positions() == old(self).spec_positions().insert(murmur2_of(term@), position),
    {
        let key = murmurhash2(term.as_slice());
        fx_map_insert(&mut self.positions_per_path, key, position);
    }
}

/// What indexing keeps of the postings and of the writer: earlier occurrences
/// stay, new ones are in the document being indexed, the writer is back at the
/// same path of the same field.
pub open spec fn indexed_in_doc(
    old_postings: Seq<Occurrence>,
    new_postings: Seq<Occurrence>,
    doc: DocId,
) -> bool {
    &&& old_postings.len() <= new_postings.len()
    &&& new_postings.take(old_postings.len() as int) == old_postings
    &&& forall|i: int| old_postings.len() <= i < new_postings.len() ==> (#[trigger] new_postings[i]).1 == doc
}

proof fn lemma_indexed_in_doc_trans(a: Seq<Occurrence>, b: Seq<Occurrence>, c: Seq<Occurrence>, doc: DocId)
    requires
        indexed_in_doc(a, b, doc),
        indexed_in_doc(b, c, doc),
    ensures
        indexed_in_doc(a, c, doc),
{
    assert(c.take(a.len() as int) =~= c.take(b.len() as int).take(a.len() as int));
    assert forall|i: int| a.len() <= i < c.len() implies (#[trigger] c[i]).1 == doc by {
        if i < b.len() {
            assert(c[i] == c.take(b.len() as int)[i]);
        }
    }
}

proof fn lemma_indexed_in_doc_refl(a: Seq<Occurrence>, doc: DocId)
    ensures
        indexed_in_doc(a, a, doc),
{
    assert(a.take(a.len() as int) =~= a);
}

/// Records the occurrence of the term being written, at `position`.
fn subscribe_current(
    doc: DocId,
    position: u32,
    json_term_writer: &JsonTermWriter,
    postings_writer: &mut PostingsWriter,
) -> (r: Result<(), IndexingError>)
    requires
        old(postings_writer).wf(),
    ensures
        final(postings_writer).wf(),
        indexed_in_doc(old(postings_writer).spec_occurrences(), final(postings_writer).spec_occurrences(), doc),
        final(postings_writer).spec_terms().len() >= old(postings_writer).spec_terms().len(),
        final(postings_writer).spec_terms().take(old(postings_writer).spec_terms().len() as int) == old(postings_writer).spec_terms(),
        r is Err <==> old(postings_writer).subscribe_error(doc, json_term_writer.term_bytes(), position) is Some,
        r is Err ==> Some(r->Err_0) == old(postings_writer).subscribe_error(doc, json_term_writer.term_bytes(), position)
            && final(postings_writer).spec_occurrences() == old(postings_writer).spec_occurrences()
            && final(postings_writer).spec_terms() == old(postings_writer).spec_terms()
            && final(postings_writer).spec_arena_len() == old(postings_writer).spec_arena_len(),
        r is Ok ==> records_one(&*old(postings_writer), &*final(postings_writer), json_term_writer.term_bytes(), position),
        grows(&*old(postings_writer), &*final(postings_writer)),
        terms_under(&*old(postings_writer), &*final(postings_writer), json_term_writer.term_bytes()),
{
    let r = postings_writer.subscribe(doc, json_term_writer.term().as_slice(), position);
    proof {
        let o = old(postings_writer).spec_occurrences();
        let f = postings_writer.spec_occurrences();
        if r is Ok {
            assert(f.take(o.len() as int) =~= o);
            let t = f.last().0 as int;
            assert(postings_writer.spec_terms()[t].take(json_term_writer.term_bytes().len() as int) =~= json_term_writer.term_bytes());
            assert(f[f.len() - 1] == f.last());
        } else {
            lemma_indexed_in_doc_refl(o, doc);
            assert(postings_writer.spec_terms().take(old(postings_writer).spec_terms().len() as int) =~= old(postings_writer).spec_terms());
        }
    }
    r
}

/// The positions of a text fit in 32 bits, with the gap that follows it.
pub open spec fn text_fits(tokens: Seq<Token>, indexing_position: IndexingPosition) -> bool {
    &&& indexing_position.end_position + POSITION_GAP <= u32::MAX
    &&& indexing_position.num_tokens + tokens.len() <= u32::MAX
    &&& forall|i: int|
        0 <= i < tokens.len() ==> indexing_position.end_position + (#[trigger] tokens[i]).position + 1
            + POSITION_GAP <= u32::MAX
}

/// The term of token `i` of a text written at the path of `w`.
pub open spec fn token_term(w: &JsonTermWriter, tokens: Seq<Token>, i: int) -> Seq<u8> {
    w.typed_path_bytes(Type::Str) + encode_utf8(tokens[i].text@)
}

/// Exactly one occurrence was recorded: `term` at `position`.
pub open spec fn records_one(before: &PostingsWriter, after: &PostingsWriter, term: Seq<u8>, position: u32) -> bool {
    let f = after.spec_occurrences();
    &&& f.len() == before.spec_occurrences().len() + 1
    &&& f.last().2 == position
    &&& (f.last().0 as int) < after.spec_terms().len()
    &&& after.spec_terms()[f.last().0 as int] == term
}

/// Each token of a text was recorded, in order, at `start` plus its own
/// position, as the term of the token at the path of `w`; every position lies
/// more than the gap below `end`.
pub open spec fn records_text(
    before: &PostingsWriter,
    after: &PostingsWriter,
    w: &JsonTermWriter,
    tokens: Seq<Token>,
    start: u32,
    end: u32,
) -> bool {
    let o = before.spec_occurrences();
    let f = after.spec_occurrences();
    &&& f.len() == o.len() + tokens.len()
    &&& forall|i: int|
        0 <= i < tokens.len() ==> {
            let e = #[trigger] f[o.len() + i];
            &&& e.2 == start + tokens[i].position
            &&& e.2 + POSITION_GAP < end
            &&& (e.0 as int) < after.spec_terms().len()
            &&& after.spec_terms()[e.0 as int] == token_term(w, tokens, i)
        }
}

/// Two texts indexed one after the other at one path, the second starting
/// where the first left its path, are more than the gap apart: no phrase can
/// match across them.
pub proof fn lemma_texts_apart(
    p0: &PostingsWriter,
    p1: &PostingsWriter,
    p2: &PostingsWriter,
    w: &JsonTermWriter,
    first: Seq<Token>,
    second: Seq<Token>,
    start: u32,
    end_first: u32,
    end_second: u32,
    i: int,
    j: int,
)
    requires
        records_text(p0, p1, w, first, start, end_first),
        records_text(p1, p2, w, second, end_first, end_second),
        p2.spec_occurrences().take(p1.spec_occurrences().len() as int) == p1.spec_occurrences(),
        0 <= i < first.len(),
        0 <= j < second.len(),
    ensures
        p2.spec_occurrences()[p0.spec_occurrences().len() + i].2 + POSITION_GAP < p2.spec_occurrences()[p1.spec_occurrences().len() + j].2,
{
    let k = p0.spec_occurrences().len() + i;
    assert(p2.spec_occurrences().take(p1.spec_occurrences().len() as int)[k] == p2.spec_occurrences()[k]);
    assert(p1.spec_occurrences()[k].2 + POSITION_GAP < end_first);
}

/// Terms recorded earlier keep their ids: the term list only grows.
pub open spec fn grows(before: &PostingsWriter, after: &PostingsWriter) -> bool {
    &&& after.spec_terms().len() >= before.spec_terms().len()
    &&& after.spec_terms().take(before.spec_terms().len() as int) == before.spec_terms()
}

/// Every occurrence recorded between the two states is of a term that starts with `prefix`.
pub open spec fn terms_under(before: &PostingsWriter, after: &PostingsWriter, prefix: Seq<u8>) -> bool {
    forall|k: int|
        before.spec_occurrences().len() <= k < after.spec_occurrences().len() ==> {
            let t = (#[trigger] after.spec_occurrences()[k]).0 as int;
            &&& 0 <= t < after.spec_terms().len()
            &&& after.spec_terms()[t].len() >= prefix.len()
            &&& after.spec_terms()[t].take(prefix.len() as int) == prefix
        }
}

/// The header of the writer's term followed by its path.
pub open spec fn path_prefix(w: &JsonTermWriter) -> Seq<u8> {
    w.term_bytes().subrange(0, 5) + joined_path(w.segments())
}

proof fn lemma_terms_under_trans(a: &PostingsWriter, b: &PostingsWriter, c: &PostingsWriter, prefix: Seq<u8>)
    requires
        terms_under(a, b, prefix),
        terms_under(b, c, prefix),
        grows(b, c),
        a.spec_occurrences().len() <= b.spec_occurrences().len(),
        b.spec_occurrences().len() <= c.spec_occurrences().len(),
        c.spec_occurrences().take(b.spec_occurrences().len() as int) == b.spec_occurrences(),
    ensures
        terms_under(a, c, prefix),
{
    assert forall|k: int| a.spec_occurrences().len() <= k < c.spec_occurrences().len() implies {
        let t = (#[trigger] c.spec_occurrences()[k]).0 as int;
        &&& 0 <= t < c.spec_terms().len()
        &&& c.spec_terms()[t].len() >= prefix.len()
        &&& c.spec_terms()[t].take(prefix.len() as int) == prefix
    } by {
        if k < b.spec_occurrences().len() {
            assert(c.spec_occurrences().take(b.spec_occurrences().len() as int)[k] == c.spec_occurrences()[k]);
            let t = b.spec_occurrences()[k].0 as int;
            assert(c.spec_terms().take(b.spec_terms().len() as int)[t] == c.spec_terms()[t]);
        }
    }
}

proof fn lemma_path_extends(header: Seq<u8>, segs: Seq<Seq<u8>>, seg: Seq<u8>)
    ensures
        (header + joined_path(segs.push(seg))).len() >= (header + joined_path(segs)).len(),
        (header + joined_path(segs.push(seg))).take((header + joined_path(segs)).len() as int) == header
            + joined_path(segs),
{
    assert(segs.push(seg).drop_last() =~= segs);
    if segs.len() == 0 {
        assert(joined_path(segs) =~= Seq::<u8>::empty());
        assert((header + joined_path(segs.push(seg))).take(header.len() as int) =~= header + joined_path(segs));
    } else {
        assert((header + joined_path(segs.push(seg))).take((header + joined_path(segs)).len() as int)
            =~= header + joined_path(segs));
    }
}

proof fn lemma_grows_trans(a: &PostingsWriter, b: &PostingsWriter, c: &PostingsWriter)
    requires
        grows(a, b),
        grows(b, c),
    ensures
        grows(a, c),
{
    assert(c.spec_terms().take(a.spec_terms().len() as int) =~= c.spec_terms().take(b.spec_terms().len() as int).take(
        a.spec_terms().len() as int,
    ));
}

proof fn lemma_grows_refl(a: &PostingsWriter)
    ensures
        grows(a, a),
        terms_under(a, a, Seq::empty()),
{
    assert(a.spec_terms().take(a.spec_terms().len() as int) =~= a.spec_terms());
}

proof fn lemma_terms_under_weaken(a: &PostingsWriter, b: &PostingsWriter, long: Seq<u8>, short: Seq<u8>)
    requires
        terms_under(a, b, long),
        short.len() <= long.len(),
        long.take(short.len() as int) == short,
    ensures
        terms_under(a, b, short),
{
    assert forall|k: int| a.spec_occurrences().len() <= k < b.spec_occurrences().len() implies {
        let t = (#[trigger] b.spec_occurrences()[k]).0 as int;
        &&& 0 <= t < b.spec_terms().len()
        &&& b.spec_terms()[t].len() >= short.len()
        &&& b.spec_terms()[t].take(short.len() as int) == short
    } by {
        let t = b.spec_occurrences()[k].0 as int;
        assert(b.spec_terms()[t].take(short.len() as int) =~= b.spec_terms()[t].take(long.len() as int).take(short.len() as int));
    }
}

/// The position reached at a path hash, zero for a new one.
pub open spec fn position_at(m: Map<u32, IndexingPosition>, key: u32) -> IndexingPosition {
    if m.contains_key(key) {
        m[key]
    } else {
        IndexingPosition { num_tokens: 0, end_position: 0 }
    }
}

/// The term of a fast leaf written at the path of `w`.
pub open spec fn leaf_term(w: &JsonTermWriter, typ: Type, v: u64) -> Seq<u8> {
    w.typed_path_bytes(typ) + be_bytes(fast_leaf_u64(typ, v) as nat, 8)
}

/// The `u64` of a date read from RFC 3339 text.
pub open spec fn date_leaf_u64(secs: i64, micros: u32) -> u64 {
    crate::datetime::DateTime { timestamp_micros: (secs * 1_000_000 + micros) as i64 }.spec_to_u64()
}

/// The facts about the writer that indexing a value keeps.
pub open spec fn same_writer_path(a: &JsonTermWriter, b: &JsonTermWriter) -> bool {
    &&& b.wf()
    &&& b.segments() == a.segments()
    &&& b.expands_dots() == a.expands_dots()
    &&& b.term_bytes().len() >= 5
    &&& b.term_bytes().subrange(0, 5) == a.term_bytes().subrange(0, 5)
}

/// Indexes the tokens of a text at the current path: each token is recorded
/// at the position reached so far plus its own position; the path then moves
/// on past the last token and a gap.
pub fn index_text(
    doc: DocId,
    tokens: &[Token],
    json_term_writer: &mut JsonTermWriter,
    postings_writer: &mut PostingsWriter,
    indexing_position: IndexingPosition,
) -> (r: Result<IndexingPosition, IndexingError>)
    requires
        old(json_term_writer).wf(),
        old(json_term_writer).segments().len() > 0,
        old(json_term_writer).term_bytes().len() >= 5,
        old(postings_writer).wf(),
    ensures
        same_writer_path(&*old(json_term_writer), &*final(json_term_writer)),
        final(postings_writer).wf(),
        indexed_in_doc(old(postings_writer).spec_occurrences(), final(postings_writer).spec_occurrences(), doc),
        r is Ok ==> r->Ok_0.end_position >= indexing_position.end_position + POSITION_GAP,
        r is Ok ==> r->Ok_0.num_tokens == indexing_position.num_tokens + tokens@.len(),
        r is Ok ==> r->Ok_0.end_position <= indexing_position.end_position + text_span(tokens@),
        r is Ok ==> r->Ok_0 == text_end(tokens@, indexing_position),
        grows(&*old(postings_writer), &*final(postings_writer)),
        terms_under(&*old(postings_writer), &*final(postings_writer), old(json_term_writer).typed_path_bytes(Type::Str)),
        r is Err ==> (r->Err_0 == IndexingError::PositionOverflow && !text_fits(tokens@, indexing_position))
            || exists|i: int|
            0 <= i < tokens@.len() && final(postings_writer).subscribe_error(
                doc,
                #[trigger] token_term(&*old(json_term_writer), tokens@, i),
                (indexing_position.end_position + tokens@[i].position) as u32,
            ) == Some(r->Err_0),
        r is Ok ==> records_text(
            &*old(postings_writer),
            &*final(postings_writer),
            &*old(json_term_writer),
            tokens@,
            indexing_position.end_position,
            r->Ok_0.end_position,
        ),
{
    let mut end_position: u32 = indexing_position.end_position;
    let mut num_tokens: u32 = 0;
    let mut i: usize = 0;
    proof {
        lemma_grows_refl(&*postings_writer);
        lemma_indexed_in_doc_refl(postings_writer.spec_occurrences(), doc);
        assert(json_term_writer.term_bytes().subrange(0, 5) =~= old(json_term_writer).term_bytes().subrange(0, 5));
    }
    while i < tokens.len()
        invariant
            same_writer_path(&*old(json_term_writer), &*json_term_writer),
            json_term_writer.segments().len() > 0,
            postings_writer.wf(),
            indexed_in_doc(old(postings_writer).spec_occurrences(), postings_writer.spec_occurrences(), doc),
            i <= tokens@.len(),
            num_tokens == i,
            end_position >= indexing_position.end_position,
            text_fits(tokens@, indexing_position) ==> end_position + POSITION_GAP <= u32::MAX,
            end_position + POSITION_GAP <= indexing_position.end_position + text_span(tokens@.take(i as int)),
            end_position == text_reach(tokens@.take(i as int), indexing_position.end_position as int),
            grows(&*old(postings_writer), &*postings_writer),
            terms_under(&*old(postings_writer), &*postings_writer, old(json_term_writer).typed_path_bytes(Type::Str)),
            postings_writer.spec_occurrences().len() == old(postings_writer).spec_occurrences().len() + i,
            forall|k: int|
                0 <= k < i ==> {
                    let e = #[trigger] postings_writer.spec_occurrences()[old(postings_writer).spec_occurrences().len() + k];
                    &&& e.2 == indexing_position.end_position + tokens@[k].position
                    &&& e.2 < end_position
                    &&& (e.0 as int) < postings_writer.spec_terms().len()
                    &&& postings_writer.spec_terms()[e.0 as int] == old(json_term_writer).typed_path_bytes(Type::Str)
                        + encode_utf8(tokens@[k].text@)
                },
        decreases tokens@.len() - i,
    {
        let token = &tokens[i];
        if indexing_position.end_position == u32::MAX || num_tokens == u32::MAX || token.position
            > (u32::MAX - indexing_position.end_position - 1) as usize {
            return Err(IndexingError::PositionOverflow);
        }
        let ghost w0 = *json_term_writer;
        json_term_writer.set_str(token.text.as_str());
        proof {
            assert(json_term_writer.term_bytes().subrange(0, 5) =~= w0.term_bytes().subrange(0, 5));
        }
        let start_position = indexing_position.end_position + token.position as u32;
        let ghost occ_start = postings_writer.spec_occurrences();
        let ghost terms0 = postings_writer.spec_terms();
        let ghost pw_before = *postings_writer;
        let sub = subscribe_current(doc, start_position, json_term_writer, postings_writer);
        proof {
            let typed0 = old(json_term_writer).typed_path_bytes(Type::Str);
            let tb = json_term_writer.term_bytes();
            assert(w0.typed_path_bytes(Type::Str) =~= typed0);
            assert(tb.take(typed0.len() as int) =~= typed0);
            lemma_terms_under_weaken(&pw_before, &*postings_writer, tb, typed0);
            lemma_grows_trans(&*old(postings_writer), &pw_before, &*postings_writer);
            assert(postings_writer.spec_occurrences().take(occ_start.len() as int) == occ_start);
            lemma_terms_under_trans(&*old(postings_writer), &pw_before, &*postings_writer, typed0);
        }
        match sub {
            Ok(()) => {},
            Err(e) => {
                proof {
                    lemma_indexed_in_doc_trans(old(postings_writer).spec_occurrences(), occ_start, postings_writer.spec_occurrences(), doc);
                    assert(w0.typed_path_bytes(Type::Str) =~= old(json_term_writer).typed_path_bytes(Type::Str));
                    assert(json_term_writer.term_bytes() == token_term(&*old(json_term_writer), tokens@, i as int));
                }
                return Err(e);
            },
        }
        proof {
            lemma_indexed_in_doc_trans(old(postings_writer).spec_occurrences(), occ_start, postings_writer.spec_occurrences(), doc);
            let n0 = old(postings_writer).spec_occurrences().len();
            let f = postings_writer.spec_occurrences();
            assert(w0.typed_path_bytes(Type::Str) =~= old(json_term_writer).typed_path_bytes(Type::Str));
            assert forall|k: int| 0 <= k < i implies #[trigger] f[n0 + k] == occ_start[n0 + k] by {
                assert(f.take(occ_start.len() as int)[n0 + k] == f[n0 + k]);
            }
            assert(f[n0 + i] == f.last());
        }
        proof {
            assert(tokens@.take(i + 1).drop_last() =~= tokens@.take(i as int));
        }
        if start_position + 1 > end_position {
            end_position = start_position + 1;
        }
        num_tokens = num_tokens + 1;
        i = i + 1;
    }
    proof {
        assert(tokens@.take(i as int) =~= tokens@);
    }
    if end_position > u32::MAX - POSITION_GAP || indexing_position.num_tokens > u32::MAX - num_tokens {
        return Err(IndexingError::PositionOverflow);
    }
    Ok(IndexingPosition {
        num_tokens: indexing_position.num_tokens + num_tokens,
        end_position: end_position + POSITION_GAP,
    })
}

/// Writes a fast value as the leaf at the current path and records it at position 0.
fn index_fast_leaf<T: FastValue>(
    doc: DocId,
    val: T,
    json_term_writer: &mut JsonTermWriter,
    postings_writer: &mut PostingsWriter,
) -> (r: Result<(), IndexingError>)
    requires
        old(json_term_writer).wf(),
        old(json_term_writer).segments().len() > 0,
        old(json_term_writer).term_bytes().len() >= 5,
        old(postings_writer).wf(),
    ensures
        same_writer_path(&*old(json_term_writer), &*final(json_term_writer)),
        final(postings_writer).wf(),
        indexed_in_doc(old(postings_writer).spec_occurrences(), final(postings_writer).spec_occurrences(), doc),
        ({
            let term = leaf_term(&*old(json_term_writer), T::spec_type(), val.spec_to_u64());
            &&& r is Err <==> old(postings_writer).subscribe_error(doc, term, 0) is Some
            &&& r is Err ==> final(postings_writer).subscribe_error(doc, term, 0) == Some(r->Err_0)
            &&& r is Ok ==> records_one(&*old(postings_writer), &*final(postings_writer), term, 0)
        }),
        r is Err ==> exists|term: Seq<u8>, position: u32|
            final(postings_writer).subscribe_error(doc, term, position) == Some(r->Err_0),
        r is Err ==> r->Err_0 != IndexingError::PositionOverflow,
        grows(&*old(postings_writer), &*final(postings_writer)),
        terms_under(&*old(postings_writer), &*final(postings_writer), path_prefix(&*old(json_term_writer))),
{
    let ghost w0 = *json_term_writer;
    json_term_writer.set_fast_value(val);
    proof {
        assert(json_term_writer.term_bytes().subrange(0, 5) =~= w0.term_bytes().subrange(0, 5));
    }
    let r = subscribe_current(doc, 0, json_term_writer, postings_writer);
    proof {
        let tb = json_term_writer.term_bytes();
        let pp = path_prefix(&w0);
        assert(tb.take(pp.len() as int) =~= pp);
        lemma_terms_under_weaken(&*old(postings_writer), &*postings_writer, tb, pp);
        if r is Err {
            let term = leaf_term(&w0, T::spec_type(), val.spec_to_u64());
            assert(postings_writer.subscribe_error(doc, term, 0) == Some(r->Err_0));
            lemma_subscribe_error_kind(&*postings_writer, doc, term, 0);
        }
    }
    r
}

/// Indexes a JSON value at the current path of the writer: a number or a
/// boolean at position 0, a date string as a date, any other string as
/// text, each element of an array at the same path, each member of an object
/// one segment deeper.
pub fn index_json_value(
    doc: DocId,
    json_value: &JsonValue,
    json_term_writer: &mut JsonTermWriter,
    postings_writer: &mut PostingsWriter,
    positions_per_path: &mut IndexingPositionsPerPath,
) -> (r: Result<(), IndexingError>)
    requires
        old(json_term_writer).wf(),
        old(json_term_writer).segments().len() > 0,
        old(json_term_writer).term_bytes().len() >= 5,
        old(postings_writer).wf(),
    ensures
        same_writer_path(&*old(json_term_writer), &*final(json_term_writer)),
        grows(&*old(postings_writer), &*final(postings_writer)),
        terms_under(&*old(postings_writer), &*final(postings_writer), path_prefix(&*old(json_term_writer))),
        final(postings_writer).wf(),
        indexed_in_doc(old(postings_writer).spec_occurrences(), final(postings_writer).spec_occurrences(), doc),
        *json_value is Null ==> r is Ok && final(postings_writer).spec_occurrences() == old(postings_writer).spec_occurrences(),
        r is Err ==> r->Err_0 == IndexingError::PositionOverflow || refused_record(
            &*final(postings_writer),
            doc,
            writer_records(&*old(json_term_writer), *json_value, old(positions_per_path).spec_positions()).0,
            r->Err_0,
        ),
        r is Ok ==> records_match(
            &*old(postings_writer),
            &*final(postings_writer),
            writer_records(&*old(json_term_writer), *json_value, old(positions_per_path).spec_positions()).0,
        ),
        r is Ok ==> final(positions_per_path).spec_positions() == writer_records(
            &*old(json_term_writer),
            *json_value,
            old(positions_per_path).spec_positions(),
        ).1,
        r is Ok ==> final(postings_writer).spec_occurrences().len() == old(postings_writer).spec_occurrences().len()
            + occurrence_count(*json_value),
        forall|e: int, n: int|
            0 <= e && 0 <= n && #[trigger] map_bounded(old(positions_per_path).spec_positions(), e, n)
                && e + value_budget(*json_value).0 <= u32::MAX && n + value_budget(*json_value).1 <= u32::MAX
                ==> map_bounded(
                final(positions_per_path).spec_positions(),
                e + value_budget(*json_value).0,
                n + value_budget(*json_value).1,
            ) && r != Err::<(), IndexingError>(IndexingError::PositionOverflow),
        fast_leaf(*json_value) is Some ==> ({
            let (typ, v) = fast_leaf(*json_value)->0;
            let term = leaf_term(&*old(json_term_writer), typ, v);
            &&& r is Err <==> old(postings_writer).subscribe_error(doc, term, 0) is Some
            &&& r is Ok ==> records_one(&*old(postings_writer), &*final(postings_writer), term, 0)
        }),
        match *json_value {
            JsonValue::Str { text, tokens } => match rfc3339_parts(text@) {
                Some((secs, micros)) => {
                    let term = leaf_term(&*old(json_term_writer), Type::Date, date_leaf_u64(secs, micros));
                    &&& r is Err <==> old(postings_writer).subscribe_error(doc, term, 0) is Some
                    &&& r is Ok ==> records_one(&*old(postings_writer), &*final(postings_writer), term, 0)
                },
                None => {
                    let key = murmur2_of(old(json_term_writer).typed_path_bytes(Type::Str));
                    let start = position_at(old(positions_per_path).spec_positions(), key);
                    &&& r is Err ==> (r->Err_0 == IndexingError::PositionOverflow && !text_fits(tokens@, start))
                        || exists|i: int|
                        0 <= i < tokens@.len() && final(postings_writer).subscribe_error(
                            doc,
                            #[trigger] token_term(&*old(json_term_writer), tokens@, i),
                            (start.end_position + tokens@[i].position) as u32,
                        ) == Some(r->Err_0)
                    &&& r is Ok ==> final(positions_per_path).spec_positions().contains_key(key)
                    &&& r is Ok ==> records_text(
                        &*old(postings_writer),
                        &*final(postings_writer),
                        &*old(json_term_writer),
                        tokens@,
                        start.end_position,
                        final(positions_per_path).spec_positions()[key].end_position,
                    )
                    &&& r is Ok ==> final(positions_per_path).spec_positions() == old(positions_per_path).spec_positions().insert(
                        key,
                        final(positions_per_path).spec_positions()[key],
                    )
                    &&& r is Ok ==> final(positions_per_path).spec_positions()[key].end_position >= start.end_position + POSITION_GAP
                },
            },
            _ => true,
        },
    decreases json_value,
{
    let ghost w0 = *json_term_writer;
    let ghost occ_start = postings_writer.spec_occurrences();
    let ghost pw0 = *postings_writer;
    proof {
        lemma_grows_refl(&*postings_writer);
        lemma_indexed_in_doc_refl(occ_start, doc);
        assert(w0.term_bytes().subrange(0, 5) =~= w0.term_bytes().subrange(0, 5));
    }
    match json_value {
        JsonValue::Null => {
            proof {
                lemma_records_match_empty(&*postings_writer);
            }
            Ok(())
        },
        JsonValue::Bool(val) => {
            let r = index_fast_leaf(doc, *val, json_term_writer, postings_writer);
            proof {
                let (typ, v) = fast_leaf(*json_value)->0;
                let term = leaf_term(&w0, typ, v);
                if r is Ok {
                    lemma_records_one_match(&pw0, &*postings_writer, term, 0);
                } else {
                    assert(writer_records(&w0, *json_value, old(positions_per_path).spec_positions()).0[0] == (term, 0u32));
                }
            }
            r
        },
        JsonValue::U64(val) => {
            let r = index_fast_leaf(doc, *val, json_term_writer, postings_writer);
            proof {
                let (typ, v) = fast_leaf(*json_value)->0;
                let term = leaf_term(&w0, typ, v);
                if r is Ok {
                    lemma_records_one_match(&pw0, &*postings_writer, term, 0);
                } else {
                    assert(writer_records(&w0, *json_value, old(positions_per_path).spec_positions()).0[0] == (term, 0u32));
                }
            }
            r
        },
        JsonValue::I64(val) => {
            let r = index_fast_leaf(doc, *val, json_term_writer, postings_writer);
            proof {
                let (typ, v) = fast_leaf(*json_value)->0;
                let term = leaf_term(&w0, typ, v);
                if r is Ok {
                    lemma_records_one_match(&pw0, &*postings_writer, term, 0);
                } else {
                    assert(writer_records(&w0, *json_value, old(positions_per_path).spec_positions()).0[0] == (term, 0u32));
                }
            }
            r
        },
        JsonValue::F64(val) => {
            let r = index_fast_leaf(doc, *val, json_term_writer, postings_writer);
            proof {
                let (typ, v) = fast_leaf(*json_value)->0;
                let term = leaf_term(&w0, typ, v);
                if r is Ok {
                    lemma_records_one_match(&pw0, &*postings_writer, term, 0);
                } else {
                    assert(writer_records(&w0, *json_value, old(positions_per_path).spec_positions()).0[0] == (term, 0u32));
                }
            }
            r
        },
        JsonValue::Str { text, tokens } => match infer_type_from_str(text.as_str()) {
            TextOrDateTime::Text(_) => {
                json_term_writer.close_path_and_set_type(Type::Str);
                let ghost w1 = *json_term_writer;
                proof {
                    assert(json_term_writer.term_bytes().subrange(0, 5) =~= w0.term_bytes().subrange(0, 5));
                    assert(w1.typed_path_bytes(Type::Str) =~= w0.typed_path_bytes(Type::Str));
                    assert forall|i: int| 0 <= i < tokens@.len() implies #[trigger] token_term(&w1, tokens@, i)
                        == token_term(&w0, tokens@, i) by {}
                }
                let path_term = json_term_writer.term().clone_term();
                let indexing_position = positions_per_path.get_position(&path_term);
                let ghost start = indexing_position;
                let ghost key = murmur2_of(path_term@);
                let text_result = index_text(doc, tokens.as_slice(), json_term_writer, postings_writer, indexing_position);
                proof {
                    let typed = w1.typed_path_bytes(Type::Str);
                    let pp = path_prefix(&w0);
                    assert(typed.take(pp.len() as int) =~= pp);
                    lemma_terms_under_weaken(&pw0, &*postings_writer, typed, pp);
                }
                match text_result {
                    Ok(new_position) => {
                        positions_per_path.set_position(&path_term, new_position);
                        proof {
                            assert(positions_per_path.spec_positions()[key] == new_position);
                            assert(records_text(&*old(postings_writer), &*postings_writer, &w0, tokens@, start.end_position, new_position.end_position));
                            lemma_records_text_match(&*old(postings_writer), &*postings_writer, &w0, tokens@, start.end_position, new_position.end_position);
                            assert(rfc3339_parts(text@) is None);
                            assert(key == murmur2_of(typed_at(w0.term_bytes().subrange(0, 5), w0.segments(), Type::Str)));
                            assert(w0.typed_path_bytes(Type::Str) == typed_at(w0.term_bytes().subrange(0, 5), w0.segments(), Type::Str));
                            let m0 = old(positions_per_path).spec_positions();
                            let m1 = positions_per_path.spec_positions();
                            assert forall|e: int, n: int|
                                0 <= e && 0 <= n && #[trigger] map_bounded(m0, e, n) && e + value_budget(*json_value).0 <= u32::MAX
                                    && n + value_budget(*json_value).1 <= u32::MAX implies map_bounded(
                                m1,
                                e + value_budget(*json_value).0,
                                n + value_budget(*json_value).1,
                            ) by {
                                if m0.contains_key(key) {
                                    assert(m0[key].end_position <= e);
                                }
                                assert forall|k: u32| m1.contains_key(k) implies (#[trigger] m1[k]).end_position
                                    <= e + value_budget(*json_value).0 && m1[k].num_tokens <= n + value_budget(*json_value).1 by {
                                    if k != key {
                                        assert(m1[k] == m0[k]);
                                    }
                                }
                            }
                        }
                        Ok(())
                    },
                    Err(e) => {
                        proof {
                            lemma_text_span(tokens@);
                            let m0 = old(positions_per_path).spec_positions();
                            assert forall|b: int, n: int|
                                0 <= b && 0 <= n && #[trigger] map_bounded(m0, b, n) && b + value_budget(*json_value).0 <= u32::MAX
                                    && n + value_budget(*json_value).1 <= u32::MAX implies map_bounded(
                                m0,
                                b + value_budget(*json_value).0,
                                n + value_budget(*json_value).1,
                            ) && e != IndexingError::PositionOverflow by {
                                if m0.contains_key(key) {
                                    assert(m0[key].end_position <= b);
                                }
                                assert(text_fits(tokens@, start));
                                if e == IndexingError::PositionOverflow {
                                    let i = choose|i: int|
                                        0 <= i < tokens@.len() && postings_writer.subscribe_error(
                                            doc,
                                            #[trigger] token_term(&w1, tokens@, i),
                                            (start.end_position + tokens@[i].position) as u32,
                                        ) == Some(e);
                                    lemma_subscribe_error_kind(&*postings_writer, doc, token_term(&w1, tokens@, i), (start.end_position + tokens@[i].position) as u32);
                                }
                            }
                            if !(e == IndexingError::PositionOverflow && !text_fits(tokens@, start)) {
                                let i = choose|i: int|
                                    0 <= i < tokens@.len() && postings_writer.subscribe_error(
                                        doc,
                                        #[trigger] token_term(&w1, tokens@, i),
                                        (start.end_position + tokens@[i].position) as u32,
                                    ) == Some(e);
                                assert(postings_writer.subscribe_error(doc, token_term(&w0, tokens@, i), (start.end_position + tokens@[i].position) as u32) == Some(e));
                                assert(rfc3339_parts(text@) is None);
                                assert(w0.typed_path_bytes(Type::Str) == typed_at(w0.term_bytes().subrange(0, 5), w0.segments(), Type::Str));
                                let recs = writer_records(&w0, *json_value, old(positions_per_path).spec_positions()).0;
                                assert(recs[i] == (token_term(&w0, tokens@, i), (start.end_position + tokens@[i].position) as u32));
                            }
                        }
                        Err(e)
                    },
                }
            },
            TextOrDateTime::DateTime(dt) => {
                let r = index_fast_leaf(doc, dt, json_term_writer, postings_writer);
                proof {
                    let term = leaf_term(&w0, Type::Date, dt.spec_to_u64());
                    assert(rfc3339_parts(text@) is Some);
                    let (secs, micros) = rfc3339_parts(text@)->0;
                    assert(dt.spec_to_u64() == date_leaf_u64(secs, micros));
                    if r is Ok {
                        lemma_records_one_match(&pw0, &*postings_writer, term, 0);
                    } else {
                        assert(writer_records(&w0, *json_value, old(positions_per_path).spec_positions()).0[0] == (term, 0u32));
                    }
                }
                r
            },
        },
        JsonValue::Array(arr) => {
            proof {
                assert(decreases_to!(*json_value => *arr));
                assert(arr@.take(0) =~= Seq::<JsonValue>::empty());
                lemma_records_match_empty(&*postings_writer);
            }
            let mut i: usize = 0;
            while i < arr.len()
                invariant
                    decreases_to!(*json_value => *arr),
                    *json_value is Array,
                    *json_value == JsonValue::Array(*arr),
                    postings_writer.spec_occurrences().len() == occ_start.len() + elements_count(arr@.take(i as int)),
                    forall|e: int, n: int|
                        0 <= e && 0 <= n && #[trigger] map_bounded(old(positions_per_path).spec_positions(), e, n)
                            && e + elements_budget(arr@).0 <= u32::MAX && n + elements_budget(arr@).1 <= u32::MAX
                            ==> map_bounded(
                            positions_per_path.spec_positions(),
                            e + elements_budget(arr@.take(i as int)).0,
                            n + elements_budget(arr@.take(i as int)).1,
                        ),
                    same_writer_path(&w0, &*json_term_writer),
                    w0 == *old(json_term_writer),
                    w0.segments().len() > 0,
                    occ_start == old(postings_writer).spec_occurrences(),
                    pw0 == *old(postings_writer),
                    records_match(&pw0, &*postings_writer, elements_records(
                        arr@.take(i as int),
                        w0.term_bytes().subrange(0, 5),
                        w0.segments(),
                        w0.expands_dots(),
                        old(positions_per_path).spec_positions(),
                    ).0),
                    positions_per_path.spec_positions() == elements_records(
                        arr@.take(i as int),
                        w0.term_bytes().subrange(0, 5),
                        w0.segments(),
                        w0.expands_dots(),
                        old(positions_per_path).spec_positions(),
                    ).1,
                    grows(&pw0, &*postings_writer),
                    terms_under(&pw0, &*postings_writer, path_prefix(&w0)),
                    postings_writer.wf(),
                    indexed_in_doc(occ_start, postings_writer.spec_occurrences(), doc),
                    i <= arr@.len(),
                decreases arr@.len() - i,
            {
                let ghost occ_before = postings_writer.spec_occurrences();
                let ghost pw_before = *postings_writer;
                let ghost m_before = positions_per_path.spec_positions();
                proof {
                    vstd::std_specs::vec::axiom_vec_index_decreases(*arr, i as int);
                }
                let r = index_json_value(doc, &arr[i], json_term_writer, postings_writer, positions_per_path);
                proof {
                    lemma_indexed_in_doc_trans(occ_start, occ_before, postings_writer.spec_occurrences(), doc);
                    assert(arr@.take(i + 1).drop_last() =~= arr@.take(i as int));
                    assert(path_prefix(&w0) =~= path_prefix(&*json_term_writer));
                    lemma_grows_trans(&pw0, &pw_before, &*postings_writer);
                    lemma_terms_under_trans(&pw0, &pw_before, &*postings_writer, path_prefix(&w0));
                    let (h0, s0, x0, m0) = (w0.term_bytes().subrange(0, 5), w0.segments(), w0.expands_dots(), old(positions_per_path).spec_positions());
                    let prev = elements_records(arr@.take(i as int), h0, s0, x0, m0);
                    let last = json_records(arr@[i as int], h0, s0, x0, prev.1);
                    assert(arr@.take(i + 1).last() == arr@[i as int]);
                    assert(elements_records(arr@.take(i + 1), h0, s0, x0, m0) == (prev.0 + last.0, last.1));
                    if r is Ok {
                        lemma_records_match_trans(&pw0, &pw_before, &*postings_writer, prev.0, last.0);
                    } else if r->Err_0 != IndexingError::PositionOverflow {
                        lemma_elements_records_prefix(arr@, h0, s0, x0, m0, i + 1);
                        lemma_refused_in_prefix(&*postings_writer, doc, prev.0, last.0, elements_records(arr@, h0, s0, x0, m0).0, r->Err_0);
                    }
                    lemma_elements_budget_prefix(arr@, i + 1);
                    let m0 = old(positions_per_path).spec_positions();
                    assert forall|e: int, n: int|
                        0 <= e && 0 <= n && #[trigger] map_bounded(m0, e, n) && e + elements_budget(arr@).0 <= u32::MAX
                            && n + elements_budget(arr@).1 <= u32::MAX implies map_bounded(
                        positions_per_path.spec_positions(),
                        e + elements_budget(arr@.take(i + 1)).0,
                        n + elements_budget(arr@.take(i + 1)).1,
                    ) && r != Err::<(), IndexingError>(IndexingError::PositionOverflow) by {
                        let e1 = e + elements_budget(arr@.take(i as int)).0;
                        let n1 = n + elements_budget(arr@.take(i as int)).1;
                        assert(map_bounded(m_before, e1, n1));
                    }
                }
                if r.is_err() {
                    return r;
                }
                i = i + 1;
            }
            proof {
                assert(arr@.take(i as int) =~= arr@);
            }
            Ok(())
        },
        JsonValue::Object(map) => {
            proof {
                assert(decreases_to!(*json_value => *map));
            }
            index_json_object(doc, map, json_term_writer, postings_writer, positions_per_path)
        },
    }
}

/// Indexes each member of a JSON object, one path segment deeper.
pub fn index_json_object(
    doc: DocId,
    json_object: &Vec<(String, JsonValue)>,
    json_term_writer: &mut JsonTermWriter,
    postings_writer: &mut PostingsWriter,
    positions_per_path: &mut IndexingPositionsPerPath,
) -> (r: Result<(), IndexingError>)
    requires
        old(json_term_writer).wf(),
        old(json_term_writer).term_bytes().len() >= 5,
        old(postings_writer).wf(),
    ensures
        same_writer_path(&*old(json_term_writer), &*final(json_term_writer)),
        grows(&*old(postings_writer), &*final(postings_writer)),
        terms_under(&*old(postings_writer), &*final(postings_writer), path_prefix(&*old(json_term_writer))),
        final(postings_writer).wf(),
        indexed_in_doc(old(postings_writer).spec_occurrences(), final(postings_writer).spec_occurrences(), doc),
        r is Ok ==> final(postings_writer).spec_occurrences().len() == old(postings_writer).spec_occurrences().len()
            + members_count(json_object@),
        r is Err ==> r->Err_0 == IndexingError::PositionOverflow || refused_record(
            &*final(postings_writer),
            doc,
            members_records(
                json_object@,
                old(json_term_writer).term_bytes().subrange(0, 5),
                old(json_term_writer).segments(),
                old(json_term_writer).expands_dots(),
                old(positions_per_path).spec_positions(),
            ).0,
            r->Err_0,
        ),
        r is Ok ==> records_match(
            &*old(postings_writer),
            &*final(postings_writer),
            members_records(
                json_object@,
                old(json_term_writer).term_bytes().subrange(0, 5),
                old(json_term_writer).segments(),
                old(json_term_writer).expands_dots(),
                old(positions_per_path).spec_positions(),
            ).0,
        ),
        r is Ok ==> final(positions_per_path).spec_positions() == members_records(
            json_object@,
            old(json_term_writer).term_bytes().subrange(0, 5),
            old(json_term_writer).segments(),
            old(json_term_writer).expands_dots(),
            old(positions_per_path).spec_positions(),
        ).1,
        forall|e: int, n: int|
            0 <= e && 0 <= n && #[trigger] map_bounded(old(positions_per_path).spec_positions(), e, n)
                && e + members_budget(json_object@).0 <= u32::MAX && n + members_budget(json_object@).1 <= u32::MAX
                ==> map_bounded(
                final(positions_per_path).spec_positions(),
                e + members_budget(json_object@).0,
                n + members_budget(json_object@).1,
            ) && r != Err::<(), IndexingError>(IndexingError::PositionOverflow),
    decreases json_object,
{
    let ghost w0 = *json_term_writer;
    let ghost occ_start = postings_writer.spec_occurrences();
    let ghost pw0 = *postings_writer;
    proof {
        lemma_grows_refl(&*postings_writer);
        lemma_records_match_empty(&*postings_writer);
        assert(json_object@.take(0) =~= Seq::<(String, JsonValue)>::empty());
        lemma_indexed_in_doc_refl(occ_start, doc);
        assert(w0.term_bytes().subrange(0, 5) =~= w0.term_bytes().subrange(0, 5));
    }
    let mut i: usize = 0;
    while i < json_object.len()
        invariant
            same_writer_path(&w0, &*json_term_writer),
            w0 == *old(json_term_writer),
            occ_start == old(postings_writer).spec_occurrences(),
            pw0 == *old(postings_writer),
            records_match(&pw0, &*postings_writer, members_records(
                json_object@.take(i as int),
                w0.term_bytes().subrange(0, 5),
                w0.segments(),
                w0.expands_dots(),
                old(positions_per_path).spec_positions(),
            ).0),
            positions_per_path.spec_positions() == members_records(
                json_object@.take(i as int),
                w0.term_bytes().subrange(0, 5),
                w0.segments(),
                w0.expands_dots(),
                old(positions_per_path).spec_positions(),
            ).1,
            grows(&pw0, &*postings_writer),
            terms_under(&pw0, &*postings_writer, path_prefix(&w0)),
            postings_writer.wf(),
            indexed_in_doc(occ_start, postings_writer.spec_occurrences(), doc),
            postings_writer.spec_occurrences().len() == occ_start.len() + members_count(json_object@.take(i as int)),
            i <= json_object@.len(),
            forall|e: int, n: int|
                0 <= e && 0 <= n && #[trigger] map_bounded(old(positions_per_path).spec_positions(), e, n)
                    && e + members_budget(json_object@).0 <= u32::MAX && n + members_budget(json_object@).1 <= u32::MAX
                    ==> map_bounded(
                    positions_per_path.spec_positions(),
                    e + members_budget(json_object@.take(i as int)).0,
                    n + members_budget(json_object@.take(i as int)).1,
                ),
        decreases json_object@.len() - i,
    {
        let (json_path_segment, json_value) = &json_object[i];
        let ghost occ_before = postings_writer.spec_occurrences();
        let ghost m_before = positions_per_path.spec_positions();
        let ghost pw_before = *postings_writer;
        let ghost w1 = *json_term_writer;
        json_term_writer.push_path_segment(json_path_segment.as_str());
        let ghost w2 = *json_term_writer;
        proof {
            vstd::std_specs::vec::axiom_vec_index_decreases(*json_object, i as int);
            assert(decreases_to!(json_object@[i as int] => json_object@[i as int].1));
        }
        let r = index_json_value(doc, json_value, json_term_writer, postings_writer, positions_per_path);
        proof {
            lemma_indexed_in_doc_trans(occ_start, occ_before, postings_writer.spec_occurrences(), doc);
            let header = w0.term_bytes().subrange(0, 5);
            lemma_path_extends(header, w0.segments(), segment_bytes(encode_utf8(json_path_segment@), w0.expands_dots()));
            assert(path_prefix(&w2) =~= header + joined_path(w0.segments().push(segment_bytes(encode_utf8(json_path_segment@), w0.expands_dots()))));
            assert(path_prefix(&w0) =~= header + joined_path(w0.segments()));
            lemma_terms_under_weaken(&pw_before, &*postings_writer, path_prefix(&w2), path_prefix(&w0));
            lemma_grows_trans(&pw0, &pw_before, &*postings_writer);
            lemma_terms_under_trans(&pw0, &pw_before, &*postings_writer, path_prefix(&w0));
            let (h0, s0, x0, m0) = (w0.term_bytes().subrange(0, 5), w0.segments(), w0.expands_dots(), old(positions_per_path).spec_positions());
            let prev = members_records(json_object@.take(i as int), h0, s0, x0, m0);
            let member = json_object@[i as int];
            assert(w2.segments() == s0.push(segment_bytes(encode_utf8(member.0@), x0)));
            assert(w2.term_bytes().subrange(0, 5) == h0);
            let last = json_records(member.1, h0, s0.push(segment_bytes(encode_utf8(member.0@), x0)), x0, prev.1);
            assert(json_object@.take(i + 1).last() == member);
            assert(json_object@.take(i + 1).drop_last() =~= json_object@.take(i as int));
            assert(members_records(json_object@.take(i + 1), h0, s0, x0, m0) == (prev.0 + last.0, last.1));
            if r is Ok {
                lemma_records_match_trans(&pw0, &pw_before, &*postings_writer, prev.0, last.0);
            } else if r->Err_0 != IndexingError::PositionOverflow {
                lemma_members_records_prefix(json_object@, h0, s0, x0, m0, i + 1);
                lemma_refused_in_prefix(&*postings_writer, doc, prev.0, last.0, members_records(json_object@, h0, s0, x0, m0).0, r->Err_0);
            }
        }
        json_term_writer.pop_path_segment();
        proof {
            assert(json_term_writer.segments() =~= w1.segments());
            assert(json_object@.take(i + 1).drop_last() =~= json_object@.take(i as int));
            assert(json_object@.take(i + 1).last() == json_object@[i as int]);
            lemma_members_budget_prefix(json_object@, i + 1);
            let m0 = old(positions_per_path).spec_positions();
            assert forall|e: int, n: int|
                0 <= e && 0 <= n && #[trigger] map_bounded(m0, e, n) && e + members_budget(json_object@).0 <= u32::MAX
                    && n + members_budget(json_object@).1 <= u32::MAX implies map_bounded(
                positions_per_path.spec_positions(),
                e + members_budget(json_object@.take(i + 1)).0,
                n + members_budget(json_object@.take(i + 1)).1,
            ) && r != Err::<(), IndexingError>(IndexingError::PositionOverflow) by {
                let e1 = e + members_budget(json_object@.take(i as int)).0;
                let n1 = n + members_budget(json_object@.take(i as int)).1;
                assert(map_bounded(m_before, e1, n1));
            }
        }
        if r.is_err() {
            return r;
        }
        i = i + 1;
    }
    proof {
        assert(json_object@.take(i as int) =~= json_object@);
    }
    Ok(())
}

/// Indexes the JSON objects of a document under a field.
pub fn index_json_values(
    doc: DocId,
    field: Field,
    json_values: &[Vec<(String, JsonValue)>],
    expand_dots_enabled: bool,
    postings_writer: &mut PostingsWriter,
) -> (r: Result<(), IndexingError>)
    requires
        old(postings_writer).wf(),
    ensures
        final(postings_writer).wf(),
        indexed_in_doc(old(postings_writer).spec_occurrences(), final(postings_writer).spec_occurrences(), doc),
        r is Ok ==> final(postings_writer).spec_occurrences().len() == old(postings_writer).spec_occurrences().len()
            + objects_count(json_values@),
        r is Err ==> r->Err_0 == IndexingError::PositionOverflow || refused_record(
            &*final(postings_writer),
            doc,
            objects_records(json_values@, crate::term::term_header(field.id, Type::Json), expand_dots_enabled).0,
            r->Err_0,
        ),
        r is Ok ==> records_match(&*old(postings_writer), &*final(postings_writer), objects_records(json_values@, crate::term::term_header(field.id, Type::Json), expand_dots_enabled).0),
        objects_budget(json_values@).0 <= u32::MAX && objects_budget(json_values@).1 <= u32::MAX ==> r
            != Err::<(), IndexingError>(IndexingError::PositionOverflow),
        grows(&*old(postings_writer), &*final(postings_writer)),
        terms_under(&*old(postings_writer), &*final(postings_writer), crate::term::term_header(field.id, Type::Json)),
{
    let term_buffer = Term::with_type_and_field(Type::Json, field);
    let mut json_term_writer = JsonTermWriter::wrap(term_buffer, expand_dots_enabled);
    let mut positions_per_path = IndexingPositionsPerPath::new();
    let ghost occ_start = postings_writer.spec_occurrences();
    let ghost pw0 = *postings_writer;
    let ghost header = crate::term::term_header(field.id, Type::Json);
    proof {
        lemma_indexed_in_doc_refl(occ_start, doc);
        lemma_grows_refl(&*postings_writer);
        crate::codec::lemma_be_bytes_len(field.id as nat, 4);
        assert(json_term_writer.term_bytes() =~= header);
        assert(path_prefix(&json_term_writer) =~= header);
        assert(json_term_writer.term_bytes().subrange(0, 5) =~= header);
        lemma_records_match_empty(&*postings_writer);
        assert(json_values@.take(0) =~= Seq::<Vec<(String, JsonValue)>>::empty());
    }
    let ghost fits = objects_budget(json_values@).0 <= u32::MAX && objects_budget(json_values@).1 <= u32::MAX;
    proof {
        assert(json_values@.take(0) =~= Seq::<Vec<(String, JsonValue)>>::empty());
    }
    let mut i: usize = 0;
    while i < json_values.len()
        invariant
            json_term_writer.wf(),
            json_term_writer.term_bytes().len() >= 5,
            occ_start == old(postings_writer).spec_occurrences(),
            pw0 == *old(postings_writer),
            grows(&pw0, &*postings_writer),
            terms_under(&pw0, &*postings_writer, header),
            header == crate::term::term_header(field.id, Type::Json),
            json_term_writer.segments() == Seq::<Seq<u8>>::empty(),
            json_term_writer.expands_dots() == expand_dots_enabled,
            json_term_writer.term_bytes().subrange(0, 5) == header,
            records_match(&pw0, &*postings_writer, objects_records(json_values@.take(i as int), header, expand_dots_enabled).0),
            positions_per_path.spec_positions() == objects_records(json_values@.take(i as int), header, expand_dots_enabled).1,
            path_prefix(&json_term_writer) == header,
            postings_writer.wf(),
            indexed_in_doc(occ_start, postings_writer.spec_occurrences(), doc),
            postings_writer.spec_occurrences().len() == occ_start.len() + objects_count(json_values@.take(i as int)),
            i <= json_values@.len(),
            fits == (objects_budget(json_values@).0 <= u32::MAX && objects_budget(json_values@).1 <= u32::MAX),
            fits ==> map_bounded(
                positions_per_path.spec_positions(),
                objects_budget(json_values@.take(i as int)).0 as int,
                objects_budget(json_values@.take(i as int)).1 as int,
            ),
        decreases json_values@.len() - i,
    {
        let ghost occ_before = postings_writer.spec_occurrences();
        let ghost pw_before = *postings_writer;
        let ghost w_before = json_term_writer;
        let ghost b_i = objects_budget(json_values@.take(i as int));
        let ghost m_before = positions_per_path.spec_positions();
        proof {
            lemma_objects_budget_prefix(json_values@, i + 1);
            assert(json_values@.take(i + 1).drop_last() =~= json_values@.take(i as int));
            assert(json_values@.take(i + 1).last() == json_values@[i as int]);
        }
        let r = index_json_object(doc, &json_values[i], &mut json_term_writer, postings_writer, &mut positions_per_path);
        proof {
            lemma_indexed_in_doc_trans(occ_start, occ_before, postings_writer.spec_occurrences(), doc);
            if fits {
                assert(map_bounded(m_before, b_i.0 as int, b_i.1 as int));
            }
            assert(path_prefix(&w_before) == header);
            assert(terms_under(&pw_before, &*postings_writer, header));
            assert(postings_writer.spec_occurrences().take(occ_before.len() as int) == occ_before);
            lemma_grows_trans(&pw0, &pw_before, &*postings_writer);
            lemma_terms_under_trans(&pw0, &pw_before, &*postings_writer, header);
            let prev = objects_records(json_values@.take(i as int), header, expand_dots_enabled);
            let last = members_records(json_values@[i as int]@, header, Seq::empty(), expand_dots_enabled, prev.1);
            assert(objects_records(json_values@.take(i + 1), header, expand_dots_enabled) == (prev.0 + last.0, last.1));
            if r is Ok {
                lemma_records_match_trans(&pw0, &pw_before, &*postings_writer, prev.0, last.0);
            } else if r->Err_0 != IndexingError::PositionOverflow {
                lemma_objects_records_prefix(json_values@, header, expand_dots_enabled, i + 1);
                lemma_refused_in_prefix(&*postings_writer, doc, prev.0, last.0, objects_records(json_values@, header, expand_dots_enabled).0, r->Err_0);
            }
        }
        if r.is_err() {
            return r;
        }
        i = i + 1;
    }
    proof {
        assert(json_values@.take(i as int) =~= json_values@);
    }
    Ok(())
}

} // verus!
