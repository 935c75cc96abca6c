//! Sets of documents as strictly increasing lists of doc ids, and the boolean
//! combinations that queries make of them.
use vstd::prelude::*;
use crate::DocId;

verus! {

/// The doc id that a finished doc set reports.
pub const TERMINATED: DocId = 0xFFFF_FFFF;

/// Doc ids in strictly increasing order.
pub open spec fn strictly_sorted(s: Seq<DocId>) -> bool {
    forall|i: int, j: int| 0 <= i < j < s.len() ==> s[i] < s[j]
}

/// The documents of `a` that are also in `b`, in the order of `a`.
pub open spec fn and_docs(a: Seq<DocId>, b: Seq<DocId>) -> Seq<DocId>
    decreases a.len(),
{
    if a.len() == 0 {
        Seq::empty()
    } else if b.contains(a.last()) {
        and_docs(a.drop_last(), b).push(a.last())
    } else {
        and_docs(a.drop_last(), b)
    }
}

/// The documents of `a` that are not in `b`, in the order of `a`.
pub open spec fn not_docs(a: Seq<DocId>, b: Seq<DocId>) -> Seq<DocId>
    decreases a.len(),
{
    if a.len() == 0 {
        Seq::empty()
    } else if b.contains(a.last()) {
        not_docs(a.drop_last(), b)
    } else {
        not_docs(a.drop_last(), b).push(a.last())
    }
}

/// `r` is the union of `a` and `b`: every document of either, once, in order.
pub open spec fn is_union(a: Seq<DocId>, b: Seq<DocId>, r: Seq<DocId>) -> bool {
    strictly_sorted(r) && forall|x: DocId| r.contains(x) <==> (a.contains(x) || b.contains(x))
}

proof fn lemma_push_contains(s: Seq<DocId>, e: DocId, x: DocId)
    ensures
        s.push(e).contains(x) <==> s.contains(x) || x == e,
{
    if s.contains(x) {
        let i = choose|i: int| 0 <= i < s.len() && s[i] == x;
        assert(s.push(e)[i] == x);
    }
    if x == e {
        assert(s.push(e)[s.len() as int] == e);
    }
    if s.push(e).contains(x) && x != e {
        let i = choose|i: int| 0 <= i < s.len() + 1 && s.push(e)[i] == x;
        assert(i < s.len());
        assert(s[i] == x);
    }
}

proof fn lemma_and_docs_contains(a: Seq<DocId>, b: Seq<DocId>, x: DocId)
    ensures
        and_docs(a, b).contains(x) <==> a.contains(x) && b.contains(x),
    decreases a.len(),
{
    if a.len() > 0 {
        let a1 = a.drop_last();
        lemma_and_docs_contains(a1, b, x);
        assert(a =~= a1.push(a.last()));
        lemma_push_contains(a1, a.last(), x);
        lemma_push_contains(and_docs(a1, b), a.last(), x);
    }
}

proof fn lemma_not_docs_contains(a: Seq<DocId>, b: Seq<DocId>, x: DocId)
    ensures
        not_docs(a, b).contains(x) <==> a.contains(x) && !b.contains(x),
    decreases a.len(),
{
    if a.len() > 0 {
        let a1 = a.drop_last();
        lemma_not_docs_contains(a1, b, x);
        assert(a =~= a1.push(a.last()));
        lemma_push_contains(a1, a.last(), x);
        lemma_push_contains(not_docs(a1, b), a.last(), x);
    }
}

/// Every document of the result lies before `bound` when every one of `a` does.
proof fn lemma_and_docs_bounded(a: Seq<DocId>, b: Seq<DocId>, bound: DocId)
    requires
        forall|i: int| 0 <= i < a.len() ==> a[i] < bound,
    ensures
        forall|i: int| 0 <= i < and_docs(a, b).len() ==> and_docs(a, b)[i] < bound,
    decreases a.len(),
{
    if a.len() > 0 {
        let a1 = a.drop_last();
        assert forall|i: int| 0 <= i < a1.len() implies a1[i] < bound by {
            assert(a1[i] == a[i]);
        }
        lemma_and_docs_bounded(a1, b, bound);
        assert(a[a.len() - 1] < bound);
        let p = and_docs(a1, b);
        let r = and_docs(a, b);
        assert(r == p || r == p.push(a.last()));
        assert forall|i: int| 0 <= i < r.len() implies r[i] < bound by {
            if i < p.len() {
                assert(r[i] == p[i]);
            }
        }
    }
}

proof fn lemma_not_docs_bounded(a: Seq<DocId>, b: Seq<DocId>, bound: DocId)
    requires
        forall|i: int| 0 <= i < a.len() ==> a[i] < bound,
    ensures
        forall|i: int| 0 <= i < not_docs(a, b).len() ==> not_docs(a, b)[i] < bound,
    decreases a.len(),
{
    if a.len() > 0 {
        let a1 = a.drop_last();
        assert forall|i: int| 0 <= i < a1.len() implies a1[i] < bound by {
            assert(a1[i] == a[i]);
        }
        lemma_not_docs_bounded(a1, b, bound);
        assert(a[a.len() - 1] < bound);
        let p = not_docs(a1, b);
        let r = not_docs(a, b);
        assert(r == p || r == p.push(a.last()));
        assert forall|i: int| 0 <= i < r.len() implies r[i] < bound by {
            if i < p.len() {
                assert(r[i] == p[i]);
            }
        }
    }
}

/// The documents in both lists: advance through `a`, seeking each of its
/// documents in `b`.
pub fn intersection(a: &[DocId], b: &[DocId]) -> (r: Vec<DocId>)
    requires
        strictly_sorted(a@),
        strictly_sorted(b@),
    ensures
        r@ == and_docs(a@, b@),
        strictly_sorted(r@),
{
    let mut out: Vec<DocId> = Vec::new();
    let mut i: usize = 0;
    let mut j: usize = 0;
    while i < a.len()
        invariant
            strictly_sorted(a@),
            strictly_sorted(b@),
            i <= a@.len(),
            j <= b@.len(),
            out@ == and_docs(a@.take(i as int), b@),
            strictly_sorted(out@),
            i < a@.len() ==> forall|k: int| 0 <= k < j ==> b@[k] < a@[i as int],
            i < a@.len() ==> forall|k: int| 0 <= k < out@.len() ==> out@[k] < a@[i as int],
        decreases a@.len() - i,
    {
        let target = a[i];
        while j < b.len() && b[j] < target
            invariant
                j <= b@.len(),
                i < a@.len(),
                target == a@[i as int],
                strictly_sorted(b@),
                forall|k: int| 0 <= k < j ==> b@[k] < target,
            decreases b@.len() - j,
        {
            j = j + 1;
        }
        let found = j < b.len() && b[j] == target;
        proof {
            assert(found == b@.contains(target)) by {
                if b@.contains(target) {
                    let k = choose|k: int| 0 <= k < b@.len() && b@[k] == target;
                    if k >= j {
                        if k > j {
                            assert(b@[j as int] < b@[k]);
                        }
                    }
                }
            }
            assert(a@.take(i + 1).drop_last() =~= a@.take(i as int));
        }
        if found {
            out.push(target);
        }
        proof {
            if i + 1 < a@.len() {
                assert(a@[i as int] < a@[i + 1]);
            }
        }
        i = i + 1;
    }
    assert(a@.take(a@.len() as int) =~= a@);
    out
}

/// The documents of `a` that are not in `b`: a must-not clause as a filter.
pub fn exclusion(a: &[DocId], b: &[DocId]) -> (r: Vec<DocId>)
    requires
        strictly_sorted(a@),
        strictly_sorted(b@),
    ensures
        r@ == not_docs(a@, b@),
        strictly_sorted(r@),
{
    let mut out: Vec<DocId> = Vec::new();
    let mut i: usize = 0;
    let mut j: usize = 0;
    while i < a.len()
        invariant
            strictly_sorted(a@),
            strictly_sorted(b@),
            i <= a@.len(),
            j <= b@.len(),
            out@ == not_docs(a@.take(i as int), b@),
            strictly_sorted(out@),
            i < a@.len() ==> forall|k: int| 0 <= k < j ==> b@[k] < a@[i as int],
            i < a@.len() ==> forall|k: int| 0 <= k < out@.len() ==> out@[k] < a@[i as int],
        decreases a@.len() - i,
    {
        let target = a[i];
        while j < b.len() && b[j] < target
            invariant
                j <= b@.len(),
                i < a@.len(),
                target == a@[i as int],
                strictly_sorted(b@),
                forall|k: int| 0 <= k < j ==> b@[k] < target,
            decreases b@.len() - j,
        {
            j = j + 1;
        }
        let found = j < b.len() && b[j] == target;
        proof {
            assert(found == b@.contains(target)) by {
                if b@.contains(target) {
                    let k = choose|k: int| 0 <= k < b@.len() && b@[k] == target;
                    if k > j {
                        assert(b@[j as int] < b@[k]);
                    }
                }
            }
            assert(a@.take(i + 1).drop_last() =~= a@.take(i as int));
        }
        if !found {
            out.push(target);
        }
        proof {
            if i + 1 < a@.len() {
                assert(a@[i as int] < a@[i + 1]);
            }
        }
        i = i + 1;
    }
    assert(a@.take(a@.len() as int) =~= a@);
    out
}

/// The documents in either list, merged in order.
pub fn union(a: &[DocId], b: &[DocId]) -> (r: Vec<DocId>)
    requires
        strictly_sorted(a@),
        strictly_sorted(b@),
    ensures
        is_union(a@, b@, r@),
{
    let mut out: Vec<DocId> = Vec::new();
    let mut i: usize = 0;
    let mut j: usize = 0;
    while i < a.len() || j < b.len()
        invariant
            strictly_sorted(a@),
            strictly_sorted(b@),
            i <= a@.len(),
            j <= b@.len(),
            strictly_sorted(out@),
            forall|x: DocId| out@.contains(x) <==> (a@.take(i as int).contains(x) || b@.take(j as int).contains(x)),
            i < a@.len() ==> forall|k: int| 0 <= k < out@.len() ==> out@[k] < a@[i as int],
            j < b@.len() ==> forall|k: int| 0 <= k < out@.len() ==> out@[k] < b@[j as int],
        decreases a@.len() + b@.len() - i - j,
    {
        let ghost (i0, j0) = (i as int, j as int);
        let ghost before = out@;
        let x: DocId;
        if i < a.len() && (j >= b.len() || a[i] < b[j]) {
            x = a[i];
            i = i + 1;
        } else if j < b.len() && (i >= a.len() || b[j] < a[i]) {
            x = b[j];
            j = j + 1;
        } else {
            x = a[i];
            i = i + 1;
            j = j + 1;
        }
        out.push(x);
        proof {
            assert forall|y: DocId| out@.contains(y) <==> (a@.take(i as int).contains(y) || b@.take(j as int).contains(y)) by {
                if out@.contains(y) && y != x {
                    let k = choose|k: int| 0 <= k < out@.len() && out@[k] == y;
                    assert(before[k] == y);
                }
                if a@.take(i as int).contains(y) && y != x {
                    let k = choose|k: int| 0 <= k < i && a@.take(i as int)[k] == y;
                    assert(k < i0);
                    assert(a@.take(i0)[k] == y);
                }
                if b@.take(j as int).contains(y) && y != x {
                    let k = choose|k: int| 0 <= k < j && b@.take(j as int)[k] == y;
                    assert(k < j0);
                    assert(b@.take(j0)[k] == y);
                }
                if before.contains(y) {
                    let k = choose|k: int| 0 <= k < before.len() && before[k] == y;
                    assert(out@[k] == y);
                }
                if a@.take(i0).contains(y) {
                    let k = choose|k: int| 0 <= k < i0 && a@.take(i0)[k] == y;
                    assert(a@.take(i as int)[k] == y);
                }
                if b@.take(j0).contains(y) {
                    let k = choose|k: int| 0 <= k < j0 && b@.take(j0)[k] == y;
                    assert(b@.take(j as int)[k] == y);
                }
                if y == x {
                    assert(out@[out@.len() - 1] == x);
                    if i > i0 {
                        assert(a@.take(i as int)[i0] == x);
                    } else {
                        assert(b@.take(j as int)[j0] == x);
                    }
                }
            }
            if i < a@.len() {
                if i > i0 {
                    assert(a@[i0] < a@[i as int]);
                }
            }
            if j < b@.len() {
                if j > j0 {
                    assert(b@[j0] < b@[j as int]);
                }
            }
        }
    }
    proof {
        assert(a@.take(a@.len() as int) =~= a@);
        assert(b@.take(b@.len() as int) =~= b@);
    }
    out
}

/// Two sorted lists with the same documents are the same list.
pub proof fn lemma_sorted_unique(s: Seq<DocId>, t: Seq<DocId>)
    requires
        strictly_sorted(s),
        strictly_sorted(t),
        forall|x: DocId| s.contains(x) <==> t.contains(x),
    ensures
        s == t,
    decreases s.len() + t.len(),
{
    if s.len() == 0 {
        if t.len() > 0 {
            assert(t.contains(t[0]));
        }
        assert(s =~= t);
    } else if t.len() == 0 {
        assert(s.contains(s[0]));
    } else {
        let (m, n) = (s.last(), t.last());
        assert(s.contains(m));
        assert(t.contains(n));
        let i = choose|i: int| 0 <= i < t.len() && t[i] == m;
        let k = choose|k: int| 0 <= k < s.len() && s[k] == n;
        if i < t.len() - 1 {
            assert(t[i] < n);
        }
        if k < s.len() - 1 {
            assert(s[k] < m);
        }
        assert(m == n);
        let (s1, t1) = (s.drop_last(), t.drop_last());
        assert forall|x: DocId| s1.contains(x) <==> t1.contains(x) by {
            if s1.contains(x) {
                let a = choose|a: int| 0 <= a < s1.len() && s1[a] == x;
                assert(s[a] == x && x < m);
                assert(t.contains(x));
                let b = choose|b: int| 0 <= b < t.len() && t[b] == x;
                assert(b < t.len() - 1);
                assert(t1[b] == x);
            }
            if t1.contains(x) {
                let a = choose|a: int| 0 <= a < t1.len() && t1[a] == x;
                assert(t[a] == x && x < n);
                assert(s.contains(x));
                let b = choose|b: int| 0 <= b < s.len() && s[b] == x;
                assert(b < s.len() - 1);
                assert(s1[b] == x);
            }
        }
        lemma_sorted_unique(s1, t1);
        assert(s =~= s1.push(m));
        assert(t =~= t1.push(n));
    }
}

/// Keeping the documents of `a` that lie in a superset of it keeps all of `a`.
proof fn lemma_and_docs_within(a: Seq<DocId>, b: Seq<DocId>)
    requires
        forall|i: int| 0 <= i < a.len() ==> b.contains(a[i]),
    ensures
        and_docs(a, b) == a,
    decreases a.len(),
{
    if a.len() > 0 {
        lemma_and_docs_within(a.drop_last(), b);
        assert(b.contains(a[a.len() - 1]));
        assert(a.drop_last().push(a.last()) =~= a);
    }
}

/// `q AND q` matches exactly what `q` matches.
pub proof fn lemma_and_idempotent(q: Seq<DocId>)
    ensures
        and_docs(q, q) == q,
{
    assert forall|i: int| 0 <= i < q.len() implies q.contains(q[i]) by {}
    lemma_and_docs_within(q, q);
}

/// `q OR q` matches exactly what `q` matches.
pub proof fn lemma_or_idempotent(q: Seq<DocId>, r: Seq<DocId>)
    requires
        strictly_sorted(q),
        is_union(q, q, r),
    ensures
        r == q,
{
    lemma_sorted_unique(r, q);
}

/// `q AND NOT q` matches nothing.
pub proof fn lemma_and_not_self_empty(q: Seq<DocId>)
    ensures
        not_docs(q, q) == Seq::<DocId>::empty(),
{
    assert forall|x: DocId| !not_docs(q, q).contains(x) by {
        lemma_not_docs_contains(q, q, x);
    }
    if not_docs(q, q).len() > 0 {
        assert(not_docs(q, q).contains(not_docs(q, q)[0]));
    }
    assert(not_docs(q, q) =~= Seq::<DocId>::empty());
}

/// `nothing OR q` matches exactly what `q` matches.
pub proof fn lemma_empty_or(q: Seq<DocId>, r: Seq<DocId>)
    requires
        strictly_sorted(q),
        is_union(Seq::<DocId>::empty(), q, r),
    ensures
        r == q,
{
    lemma_sorted_unique(r, q);
}

/// A document is in the intersection exactly when it is in both lists.
pub proof fn lemma_and_docs_members(a: Seq<DocId>, b: Seq<DocId>, x: DocId)
    ensures
        and_docs(a, b).contains(x) <==> a.contains(x) && b.contains(x),
{
    lemma_and_docs_contains(a, b, x);
}

/// The intersection and the exclusion of sorted lists are sorted.
pub proof fn lemma_results_sorted(a: Seq<DocId>, b: Seq<DocId>)
    requires
        strictly_sorted(a),
    ensures
        strictly_sorted(and_docs(a, b)),
        strictly_sorted(not_docs(a, b)),
    decreases a.len(),
{
    if a.len() > 0 {
        let a1 = a.drop_last();
        assert(strictly_sorted(a1));
        lemma_results_sorted(a1, b);
        assert forall|i: int| 0 <= i < a1.len() implies a1[i] < a.last() by {
            assert(a[i] < a[a.len() - 1]);
        }
        lemma_and_docs_bounded(a1, b, a.last());
        lemma_not_docs_bounded(a1, b, a.last());
    }
}

/// A posting list with positions: each document once, with its positions.
pub type PositionedPostings = Vec<(DocId, Vec<u32>)>;

/// The documents of a posting list.
pub open spec fn postings_docs(list: Seq<(DocId, Vec<u32>)>) -> Seq<DocId> {
    list.map_values(|e: (DocId, Vec<u32>)| e.0)
}

/// The positions of `doc` in a posting list, if it is there.
pub open spec fn positions_of(list: Seq<(DocId, Vec<u32>)>, doc: DocId) -> Option<Seq<u32>> {
    if exists|i: int| 0 <= i < list.len() && list[i].0 == doc {
        Some(list[choose|i: int| 0 <= i < list.len() && list[i].0 == doc].1@)
    } else {
        None
    }
}

/// Term `k` of the phrase occurs in `doc` at `start + k`, for every term.
pub open spec fn aligned_at(lists: Seq<PositionedPostings>, doc: DocId, start: int) -> bool {
    forall|k: int|
        0 <= k < lists.len() ==> positions_of(#[trigger] lists[k]@, doc) is Some && exists|j: int|
            0 <= j < positions_of(lists[k]@, doc)->0.len() && positions_of(lists[k]@, doc)->0[j] as int
                == start + k
}

/// The terms occur one after the other somewhere in `doc`.
pub open spec fn phrase_matches(lists: Seq<PositionedPostings>, doc: DocId) -> bool {
    exists|start: int| aligned_at(lists, doc, start)
}

/// The documents of the first list in which the phrase matches, in order.
pub open spec fn phrase_docs(lists: Seq<PositionedPostings>, first: Seq<(DocId, Vec<u32>)>) -> Seq<DocId>
    decreases first.len(),
{
    if first.len() == 0 {
        Seq::empty()
    } else if phrase_matches(lists, first.last().0) {
        phrase_docs(lists, first.drop_last()).push(first.last().0)
    } else {
        phrase_docs(lists, first.drop_last())
    }
}

/// Each document is listed once.
pub open spec fn distinct_docs(list: Seq<(DocId, Vec<u32>)>) -> bool {
    forall|i: int, j: int| 0 <= i < j < list.len() ==> list[i].0 != list[j].0
}

/// Looks up the positions of `doc` in a posting list.
fn find_positions(list: &PositionedPostings, doc: DocId) -> (r: Option<usize>)
    requires
        distinct_docs(list@),
    ensures
        r is Some <==> positions_of(list@, doc) is Some,
        r is Some ==> r->0 < list@.len() && list@[r->0 as int].1@ == positions_of(list@, doc)->0,
{
    let mut i: usize = 0;
    while i < list.len()
        invariant
            i <= list@.len(),
            distinct_docs(list@),
            forall|j: int| 0 <= j < i ==> list@[j].0 != doc,
        decreases list@.len() - i,
    {
        if list[i].0 == doc {
            proof {
                let c = choose|c: int| 0 <= c < list@.len() && list@[c].0 == doc;
                if c != i {
                    if c < i {
                    } else {
                        assert(list@[i as int].0 != list@[c].0);
                    }
                }
            }
            return Some(i);
        }
        i = i + 1;
    }
    None
}

/// Whether `value` is among the positions.
fn contains_position(positions: &Vec<u32>, value: u64) -> (r: bool)
    ensures
        r == exists|j: int| 0 <= j < positions@.len() && positions@[j] as int == value as int,
{
    let mut i: usize = 0;
    while i < positions.len()
        invariant
            i <= positions@.len(),
            forall|j: int| 0 <= j < i ==> positions@[j] as int != value as int,
        decreases positions@.len() - i,
    {
        if positions[i] as u64 == value {
            return true;
        }
        i = i + 1;
    }
    false
}

/// Whether every term `k` of the phrase occurs in `doc` at `start + k`.
fn aligned(lists: &Vec<PositionedPostings>, doc: DocId, start: u32) -> (r: bool)
    requires
        forall|k: int| 0 <= k < lists@.len() ==> distinct_docs(#[trigger] lists@[k]@),
        lists@.len() <= u32::MAX,
    ensures
        r == aligned_at(lists@, doc, start as int),
{
    let mut k: usize = 0;
    while k < lists.len()
        invariant
            k <= lists@.len(),
            lists@.len() <= u32::MAX,
            forall|k: int| 0 <= k < lists@.len() ==> distinct_docs(#[trigger] lists@[k]@),
            forall|q: int|
                0 <= q < k ==> positions_of(#[trigger] lists@[q]@, doc) is Some && exists|j: int|
                    0 <= j < positions_of(lists@[q]@, doc)->0.len() && positions_of(lists@[q]@, doc)->0[j] as int
                        == start + q,
        decreases lists@.len() - k,
    {
        let list = &lists[k];
        match find_positions(list, doc) {
            None => {
                return false;
            },
            Some(e) => {
                if !contains_position(&list[e].1, start as u64 + k as u64) {
                    return false;
                }
            },
        }
        k = k + 1;
    }
    true
}

/// The documents in which the terms of a phrase occur one after the other,
/// the list of term `k` giving its positions in each document.
pub fn phrase_match(lists: &Vec<PositionedPostings>) -> (r: Vec<DocId>)
    requires
        lists@.len() >= 1,
        lists@.len() <= u32::MAX,
        forall|k: int| 0 <= k < lists@.len() ==> distinct_docs(#[trigger] lists@[k]@),
    ensures
        r@ == phrase_docs(lists@, lists@[0]@),
{
    let first = &lists[0];
    let mut out: Vec<DocId> = Vec::new();
    let mut i: usize = 0;
    while i < first.len()
        invariant
            i <= first@.len(),
            *first == lists@[0],
            lists@.len() >= 1,
            lists@.len() <= u32::MAX,
            forall|k: int| 0 <= k < lists@.len() ==> distinct_docs(#[trigger] lists@[k]@),
            out@ == phrase_docs(lists@, first@.take(i as int)),
        decreases first@.len() - i,
    {
        let doc = first[i].0;
        let positions = &first[i].1;
        let mut matched = false;
        let mut j: usize = 0;
        while j < positions.len()
            invariant
                j <= positions@.len(),
                lists@.len() >= 1,
                lists@.len() <= u32::MAX,
                forall|k: int| 0 <= k < lists@.len() ==> distinct_docs(#[trigger] lists@[k]@),
                matched ==> phrase_matches(lists@, doc),
                !matched ==> forall|q: int| 0 <= q < j ==> !aligned_at(lists@, doc, positions@[q] as int),
            decreases positions@.len() - j,
        {
            if aligned(lists, doc, positions[j]) {
                matched = true;
            }
            j = j + 1;
        }
        proof {
            assert(first@.take(i + 1).drop_last() =~= first@.take(i as int));
            if !matched && phrase_matches(lists@, doc) {
                let start = choose|start: int| aligned_at(lists@, doc, start);
                assert(positions_of(lists@[0]@, doc) is Some);
                let c = choose|c: int| 0 <= c < lists@[0]@.len() && lists@[0]@[c].0 == doc;
                if c != i {
                    if c < i {
                        assert(lists@[0]@[c].0 != lists@[0]@[i as int].0);
                    } else {
                        assert(lists@[0]@[i as int].0 != lists@[0]@[c].0);
                    }
                }
                let q = choose|q: int| 0 <= q < positions_of(lists@[0]@, doc)->0.len() && positions_of(lists@[0]@, doc)->0[q] as int == start + 0;
                assert(aligned_at(lists@, doc, positions@[q] as int));
            }
        }
        if matched {
            out.push(doc);
        }
        i = i + 1;
    }
    assert(first@.take(first@.len() as int) =~= first@);
    out
}

/// A document that matches a phrase contains every term of it: the phrase
/// query matches within the conjunction of its terms.
pub proof fn lemma_phrase_within_and(lists: Seq<PositionedPostings>, doc: DocId, k: int)
    requires
        phrase_matches(lists, doc),
        0 <= k < lists.len(),
    ensures
        postings_docs(lists[k]@).contains(doc),
{
    let start = choose|start: int| aligned_at(lists, doc, start);
    assert(positions_of(lists[k]@, doc) is Some);
    let i = choose|i: int| 0 <= i < lists[k]@.len() && lists[k]@[i].0 == doc;
    assert(postings_docs(lists[k]@)[i] == doc);
}

/// Every document that the phrase query returns is in the intersection of
/// the documents of its first two terms.
pub proof fn lemma_phrase_docs_within_and(lists: Seq<PositionedPostings>, first: Seq<(DocId, Vec<u32>)>, x: DocId)
    requires
        lists.len() >= 2,
        phrase_docs(lists, first).contains(x),
    ensures
        and_docs(postings_docs(lists[0]@), postings_docs(lists[1]@)).contains(x),
    decreases first.len(),
{
    if first.len() > 0 {
        let rest = phrase_docs(lists, first.drop_last());
        if phrase_matches(lists, first.last().0) {
            lemma_push_contains(rest, first.last().0, x);
            if x == first.last().0 {
                lemma_phrase_within_and(lists, x, 0);
                lemma_phrase_within_and(lists, x, 1);
                lemma_and_docs_contains(postings_docs(lists[0]@), postings_docs(lists[1]@), x);
            } else {
                lemma_phrase_docs_within_and(lists, first.drop_last(), x);
            }
        } else {
            lemma_phrase_docs_within_and(lists, first.drop_last(), x);
        }
    }
}

} // verus!
