//! The postings accumulator: for each term of the segment being built, the
//! documents and positions at which it occurs, in the order they were recorded.
use vstd::prelude::*;
use crate::arena_hashmap::ArenaHashMap;
use crate::memory_arena::NULL_OFFSET;
use crate::DocId;

verus! {

/// Why an occurrence could not be recorded.
#[derive(Clone, Copy, Debug, PartialEq, Eq, Structural)]
pub enum IndexingError {
    /// A position lower than the last one of the same term in the same document.
    PositionNonIncreasing,
    /// A document lower than the last one recorded for the term.
    DocNotIncreasing,
    /// The term is longer than a key of the term map can be.
    TermTooLong,
    /// The term map is full.
    MemoryExhausted,
    /// A position does not fit in 32 bits.
    PositionOverflow,
}

/// One recorded occurrence: term id, document, position.
pub type Occurrence = (u32, DocId, u32);

/// Occurrences of each term are ordered by document, then by position.
pub open spec fn occurrences_ordered(events: Seq<Occurrence>) -> bool {
    forall|i: int, j: int|
        0 <= i < j < events.len() && (#[trigger] events[i]).0 == (#[trigger] events[j]).0 ==> events[i].1
            < events[j].1 || (events[i].1 == events[j].1 && events[i].2 <= events[j].2)
}

/// The last occurrence of term `t`, if any.
pub open spec fn last_occurrence(events: Seq<Occurrence>, t: u32) -> Option<(DocId, u32)>
    decreases events.len(),
{
    if events.len() == 0 {
        None
    } else if events.last().0 == t {
        Some((events.last().1, events.last().2))
    } else {
        last_occurrence(events.drop_last(), t)
    }
}

/// The document of the last occurrence of term `t` (0 if none).
pub open spec fn last_doc(events: Seq<Occurrence>, t: u32) -> DocId {
    match last_occurrence(events, t) {
        Some((d, _)) => d,
        None => 0,
    }
}

/// The position of the last occurrence of term `t` (0 if none).
pub open spec fn last_position(events: Seq<Occurrence>, t: u32) -> u32 {
    match last_occurrence(events, t) {
        Some((_, p)) => p,
        None => 0,
    }
}

/// The documents in which term `t` occurs, each once, in the order recorded.
pub open spec fn term_docs(events: Seq<Occurrence>, t: u32) -> Seq<DocId>
    decreases events.len(),
{
    if events.len() == 0 {
        Seq::empty()
    } else {
        let prev = term_docs(events.drop_last(), t);
        let e = events.last();
        if e.0 == t && (prev.len() == 0 || prev.last() != e.1) {
            prev.push(e.1)
        } else {
            prev
        }
    }
}

/// The number of documents in which term `t` occurs.
pub open spec fn doc_freq(events: Seq<Occurrence>, t: u32) -> nat {
    term_docs(events, t).len()
}

/// The per-term state kept to check the next occurrence: last document and
/// last position.
#[derive(Clone, Copy, Debug, PartialEq, Eq, Structural)]
pub struct LastOccurrence {
    pub doc: DocId,
    pub position: u32,
}

/// Records the occurrences of the terms of one segment.
pub struct PostingsWriter {
    term_index: ArenaHashMap,
    last: Vec<LastOccurrence>,
    occurrences: Vec<Occurrence>,
}

impl PostingsWriter {
    /// The terms, in the order of their ids.
    pub closed spec fn spec_terms(&self) -> Seq<Seq<u8>> {
        self.term_index.spec_keys()
    }

    /// The occurrences, in the order they were recorded.
    pub closed spec fn spec_occurrences(&self) -> Seq<Occurrence> {
        self.occurrences@
    }

    pub closed spec fn wf(&self) -> bool {
        let n = self.term_index.spec_keys().len();
        &&& self.term_index.wf()
        &&& forall|u: int| 0 <= u < n ==> #[trigger] self.term_index.spec_values()[u] == u
        &&& self.last@.len() == n
        &&& forall|i: int| 0 <= i < self.occurrences@.len() ==> (#[trigger] self.occurrences@[i]).0 < n
        &&& forall|t: int|
            0 <= t < n ==> last_occurrence(self.occurrences@, t as u32) == Some(
                ((#[trigger] self.last@[t]).doc, self.last@[t].position),
            )
        &&& occurrences_ordered(self.occurrences@)
    }

    /// An empty accumulator.
    pub fn new() -> (r: PostingsWriter)
        ensures
            r.wf(),
            r.spec_terms() == Seq::<Seq<u8>>::empty(),
            r.spec_occurrences() == Seq::<Occurrence>::empty(),
    {
        PostingsWriter { term_index: ArenaHashMap::new(1024), last: Vec::new(), occurrences: Vec::new() }
    }

    /// The number of distinct terms.
    pub fn num_terms(&self) -> (r: usize)
        requires
            self.wf(),
        ensures
            r == self.spec_terms().len(),
    {
        self.term_index.len()
    }

    /// The number of bytes the term map's arena holds.
    pub closed spec fn spec_arena_len(&self) -> nat {
        self.term_index.arena_len()
    }

    /// Why recording `term` in `doc` at `position` would fail, if it would:
    /// a term too long for the term map, a full term map, a document below the
    /// term's last one, or a position below the term's last one in the same document.
    pub open spec fn subscribe_error(&self, doc: DocId, term: Seq<u8>, position: u32) -> Option<IndexingError> {
        if term.len() > 0xFFFF {
            Some(IndexingError::TermTooLong)
        } else if self.spec_terms().len() >= 0x4000_0000 || self.spec_arena_len() + 6 + term.len()
            >= NULL_OFFSET {
            Some(IndexingError::MemoryExhausted)
        } else {
            match self.term_id(term) {
                Some(t) => {
                    let last = last_occurrence(self.spec_occurrences(), t as u32);
                    match last {
                        Some((d, p)) => if doc < d {
                            Some(IndexingError::DocNotIncreasing)
                        } else if doc == d && position < p {
                            Some(IndexingError::PositionNonIncreasing)
                        } else {
                            None
                        },
                        None => None,
                    }
                },
                None => None,
            }
        }
    }

    /// Records that `term` occurs in `doc` at `position`. Documents come in
    /// increasing order for each term, and within a document positions do not
    /// go down.
    pub fn subscribe(&mut self, doc: DocId, term: &[u8], position: u32) -> (r: Result<(), IndexingError>)
        requires
            old(self).wf(),
        ensures
            final(self).wf(),
            r is Err <==> old(self).subscribe_error(doc, term@, position) is Some,
            r is Err ==> Some(r->Err_0) == old(self).subscribe_error(doc, term@, position),
            r is Ok ==> final(self).spec_arena_len() <= old(self).spec_arena_len() + term@.len() + 6,
            r is Err ==> final(self).spec_arena_len() == old(self).spec_arena_len(),
            r is Ok ==> exists|t: u32|
                (t as int) < final(self).spec_terms().len() && final(self).spec_terms()[t as int] == term@
                    && final(self).spec_occurrences() == old(self).spec_occurrences().push((t, doc, position)),
            r is Ok ==> old(self).spec_terms().len() <= final(self).spec_terms().len(),
            r is Ok ==> final(self).spec_terms().take(old(self).spec_terms().len() as int) == old(self).spec_terms(),
            r is Err ==> final(self).spec_occurrences() == old(self).spec_occurrences(),
            r is Err ==> final(self).spec_terms() == old(self).spec_terms(),
    {
        if term.len() > 0xFFFF {
            return Err(IndexingError::TermTooLong);
        }
        if self.term_index.len() >= 0x4000_0000 || self.term_index.arena_size() >= (NULL_OFFSET
            as usize) - 6 - term.len() {
            return Err(IndexingError::MemoryExhausted);
        }
        let n = self.term_index.len() as u32;
        let ghost old_keys = self.term_index.spec_keys();
        let ghost old_values = self.term_index.spec_values();
        let ghost was = self.term_index.id_of(term@);
        proof {
            self.term_index.lemma_keys_distinct();
            if was is Some {
                let a = self.term_id(term@)->0;
                assert(self.spec_terms()[a] == term@);
                assert(old_keys[was->0] == term@);
            } else {
                if self.term_id(term@) is Some {
                    let a = self.term_id(term@)->0;
                    assert(old_keys[a] == term@);
                }
            }
        }
        let id_or_next = (move |v: Option<u32>| -> (r: u32)
            ensures
                v is Some ==> r == v->0,
                v is None ==> r == n,
            { v.unwrap_or(n) });
        let t = self.term_index.mutate_or_create(term, id_or_next);
        proof {
            old(self).term_index.lemma_values_len();
            self.term_index.lemma_values_len();
            if was is Some {
                let u = was->0;
                assert(t == u);
                assert(old_keys[u] == term@);
                assert(old_values[u] == u);
                assert(self.term_index.spec_values() =~= old_values);
            } else {
                assert(t == n);
                assert(self.term_index.spec_keys()[t as int] == term@);
                assert forall|u: int| 0 <= u < self.term_index.spec_keys().len() implies #[trigger] self.term_index.spec_values()[u] == u by {
                    if u < n {
                        assert(self.term_index.spec_values()[u] == self.term_index.spec_values().drop_last()[u]);
                    }
                }
            }
        }
        let ghost ev = self.occurrences@;
        if (t as usize) < self.last.len() {
            let prev = self.last[t as usize];
            if doc < prev.doc || (doc == prev.doc && position < prev.position) {
                proof {
                    assert(self.term_index.spec_values() =~= old_values);
                }
                if doc < prev.doc {
                    return Err(IndexingError::DocNotIncreasing);
                }
                return Err(IndexingError::PositionNonIncreasing);
            }
            self.occurrences.push((t, doc, position));
            self.last.set(t as usize, LastOccurrence { doc, position });
            proof {
                lemma_push_keeps_last(ev, (t, doc, position));
                lemma_push_keeps_order(ev, t, doc, position);
                assert(self.term_index.spec_keys().take(old_keys.len() as int) =~= old_keys);
            }
        } else {
            self.occurrences.push((t, doc, position));
            self.last.push(LastOccurrence { doc, position });
            proof {
                lemma_push_keeps_last(ev, (t, doc, position));
                lemma_no_occurrence(ev, t);
                lemma_push_keeps_order(ev, t, doc, position);
                assert(self.term_index.spec_keys().take(old_keys.len() as int) =~= old_keys);
            }
        }
        assert(self.spec_terms()[t as int] == term@);
        Ok(())
    }

    /// The documents and positions recorded for `term`, grouped by document.
    pub fn term_postings(&self, term: &[u8]) -> (r: Vec<(DocId, Vec<u32>)>)
        requires
            self.wf(),
        ensures
            self.term_id(term@) is None ==> r@.len() == 0,
            self.term_id(term@) is Some ==> r@.map_values(|p: (DocId, Vec<u32>)| p.0) == term_docs(
                self.spec_occurrences(),
                self.term_id(term@)->0 as u32,
            ),
            forall|i: int| 0 <= i < r@.len() ==> (#[trigger] r@[i]).1@.len() > 0,
    {
        let mut out: Vec<(DocId, Vec<u32>)> = Vec::new();
        let found = self.term_index.get(term);
        if found.is_none() {
            return out;
        }
        let tid = found.unwrap();
        let ghost t = tid;
        proof {
            self.term_index.lemma_keys_distinct();
            let a = self.term_id(term@)->0;
            let b = self.term_index.id_of(term@)->0;
            assert(self.spec_terms()[a] == term@);
            assert(self.term_index.spec_keys()[b] == term@);
            assert(a == b);
        }
        let mut i: usize = 0;
        while i < self.occurrences.len()
            invariant
                self.wf(),
                tid == t,
                i <= self.occurrences@.len(),
                out@.map_values(|p: (DocId, Vec<u32>)| p.0) == term_docs(self.occurrences@.take(i as int), t),
                forall|k: int| 0 <= k < out@.len() ==> (#[trigger] out@[k]).1@.len() > 0,
            decreases self.occurrences@.len() - i,
        {
            let (term_id, doc, position) = self.occurrences[i];
            let ghost before = out@;
            if term_id == tid {
                let n = out.len();
                if n > 0 && out[n - 1].0 == doc {
                    let (d, mut positions) = out.pop().unwrap();
                    positions.push(position);
                    out.push((d, positions));
                } else {
                    let mut positions: Vec<u32> = Vec::new();
                    positions.push(position);
                    out.push((doc, positions));
                }
            }
            proof {
                let tk = self.occurrences@.take(i + 1);
                assert(tk.drop_last() =~= self.occurrences@.take(i as int));
                assert(out@.map_values(|p: (DocId, Vec<u32>)| p.0) =~= term_docs(tk, t));
            }
            i = i + 1;
        }
        assert(self.occurrences@.take(self.occurrences@.len() as int) =~= self.occurrences@);
        out
    }

    /// The id of a term, if it was recorded.
    pub open spec fn term_id(&self, term: Seq<u8>) -> Option<int> {
        if exists|t: int| 0 <= t < self.spec_terms().len() && self.spec_terms()[t] == term {
            Some(choose|t: int| 0 <= t < self.spec_terms().len() && self.spec_terms()[t] == term)
        } else {
            None
        }
    }

}

proof fn lemma_no_occurrence(events: Seq<Occurrence>, t: u32)
    requires
        forall|i: int| 0 <= i < events.len() ==> (#[trigger] events[i]).0 < t,
    ensures
        last_occurrence(events, t) is None,
    decreases events.len(),
{
    if events.len() > 0 {
        lemma_no_occurrence(events.drop_last(), t);
    }
}

proof fn lemma_push_keeps_last(events: Seq<Occurrence>, e: Occurrence)
    ensures
        forall|t: u32| t != e.0 ==> #[trigger] last_occurrence(events.push(e), t) == last_occurrence(events, t),
        last_occurrence(events.push(e), e.0) == Some((e.1, e.2)),
{
    assert(events.push(e).drop_last() =~= events);
}

proof fn lemma_last_is_latest(events: Seq<Occurrence>, t: u32, i: int)
    requires
        0 <= i < events.len(),
        events[i].0 == t,
        occurrences_ordered(events),
    ensures
        last_occurrence(events, t) is Some,
        ({
            let (d, p) = last_occurrence(events, t)->0;
            events[i].1 < d || (events[i].1 == d && events[i].2 <= p)
        }),
    decreases events.len(),
{
    if events.last().0 != t {
        lemma_last_is_latest(events.drop_last(), t, i);
    } else if i < events.len() - 1 {
    }
}

proof fn lemma_push_keeps_order(events: Seq<Occurrence>, t: u32, doc: DocId, position: u32)
    requires
        occurrences_ordered(events),
        match last_occurrence(events, t) {
            Some((d, p)) => d < doc || (d == doc && p <= position),
            None => true,
        },
    ensures
        occurrences_ordered(events.push((t, doc, position))),
{
    let ev = events.push((t, doc, position));
    assert forall|i: int, j: int|
        0 <= i < j < ev.len() && (#[trigger] ev[i]).0 == (#[trigger] ev[j]).0 implies ev[i].1 < ev[j].1
            || (ev[i].1 == ev[j].1 && ev[i].2 <= ev[j].2) by {
        if j == events.len() {
            lemma_last_is_latest(events, t, i);
        }
    }
}

proof fn lemma_last_occurrence_found(events: Seq<Occurrence>, t: u32)
    requires
        last_occurrence(events, t) is Some,
    ensures
        exists|i: int|
            0 <= i < events.len() && #[trigger] events[i] == (t, last_doc(events, t), last_position(events, t)),
    decreases events.len(),
{
    if events.last().0 != t {
        lemma_last_occurrence_found(events.drop_last(), t);
        let i = choose|i: int|
            0 <= i < events.drop_last().len() && #[trigger] events.drop_last()[i] == (
                t,
                last_doc(events.drop_last(), t),
                last_position(events.drop_last(), t),
            );
        assert(events[i] == events.drop_last()[i]);
    } else {
        assert(events[events.len() - 1] == events.last());
    }
}

proof fn lemma_term_docs_last(events: Seq<Occurrence>, t: u32)
    ensures
        term_docs(events, t).len() > 0 <==> last_occurrence(events, t) is Some,
        term_docs(events, t).len() > 0 ==> term_docs(events, t).last() == last_doc(events, t),
    decreases events.len(),
{
    if events.len() > 0 {
        lemma_term_docs_last(events.drop_last(), t);
    }
}

/// The documents of a term come out strictly increasing, and within one
/// document its positions do not go down: what the accumulator records is
/// ordered as a posting list must be.
pub proof fn lemma_postings_ordered(w: &PostingsWriter, t: u32)
    requires
        w.wf(),
    ensures
        forall|i: int, j: int|
            0 <= i < j < term_docs(w.spec_occurrences(), t).len() ==> #[trigger] term_docs(
                w.spec_occurrences(),
                t,
            )[i] < #[trigger] term_docs(w.spec_occurrences(), t)[j],
        forall|i: int, j: int|
            0 <= i < j < w.spec_occurrences().len() && (#[trigger] w.spec_occurrences()[i]).0 == t
                && (#[trigger] w.spec_occurrences()[j]).0 == t && w.spec_occurrences()[i].1
                == w.spec_occurrences()[j].1 ==> w.spec_occurrences()[i].2 <= w.spec_occurrences()[j].2,
{
    lemma_term_docs_sorted(w.spec_occurrences(), t);
}

proof fn lemma_term_docs_sorted(events: Seq<Occurrence>, t: u32)
    requires
        occurrences_ordered(events),
    ensures
        forall|i: int, j: int|
            0 <= i < j < term_docs(events, t).len() ==> #[trigger] term_docs(events, t)[i]
                < #[trigger] term_docs(events, t)[j],
    decreases events.len(),
{
    if events.len() > 0 {
        let prev_events = events.drop_last();
        assert(occurrences_ordered(prev_events)) by {
            assert forall|i: int, j: int|
                0 <= i < j < prev_events.len() && (#[trigger] prev_events[i]).0 == (#[trigger] prev_events[j]).0
                    implies prev_events[i].1 < prev_events[j].1 || (prev_events[i].1 == prev_events[j].1
                    && prev_events[i].2 <= prev_events[j].2) by {
                assert(prev_events[i] == events[i]);
                assert(prev_events[j] == events[j]);
            }
        }
        lemma_term_docs_sorted(prev_events, t);
        let prev = term_docs(prev_events, t);
        let e = events.last();
        if e.0 == t && prev.len() > 0 && prev.last() != e.1 {
            lemma_term_docs_last(prev_events, t);
            lemma_last_occurrence_found(prev_events, t);
            let k = choose|i: int|
                0 <= i < prev_events.len() && #[trigger] prev_events[i] == (
                    t,
                    last_doc(prev_events, t),
                    last_position(prev_events, t),
                );
            assert(events[k] == prev_events[k]);
            assert(events[events.len() - 1] == e);
            assert(prev.last() < e.1);
            let docs = term_docs(events, t);
            assert forall|i: int, j: int| 0 <= i < j < docs.len() implies #[trigger] docs[i] < #[trigger] docs[j] by {
                if j == docs.len() - 1 {
                    if i < prev.len() - 1 {
                        assert(prev[i] < prev[prev.len() - 1]);
                    }
                }
            }
        }
    }
}

} // verus!
