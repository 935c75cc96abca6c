//! The index lifecycle: every add and delete gets an opstamp; a commit makes
//! all operations so far visible at once, a rollback discards those that were
//! not committed. Deletes by term apply to documents added before them.
use vstd::prelude::*;
use crate::Opstamp;

verus! {

/// The file that holds the meta record: the live segments and the opstamp.
pub const META_FILEPATH: &'static str = "meta.json";

/// The file that lists the files the index created, for garbage collection.
pub const MANAGED_FILEPATH: &'static str = ".managed.json";

/// An operation on the index. A document is the list of its term ids.
pub enum Operation {
    Add { opstamp: Opstamp, doc: Vec<u64> },
    Delete { opstamp: Opstamp, term: u64 },
}

/// The opstamp of an operation.
pub open spec fn op_stamp(op: Operation) -> Opstamp {
    match op {
        Operation::Add { opstamp, .. } => opstamp,
        Operation::Delete { opstamp, .. } => opstamp,
    }
}

/// The documents left by a sequence of operations, applied in order: an add
/// appends its document, a delete removes every document holding its term.
pub open spec fn live_docs(ops: Seq<Operation>) -> Seq<Seq<u64>>
    decreases ops.len(),
{
    if ops.len() == 0 {
        Seq::empty()
    } else {
        let before = live_docs(ops.drop_last());
        match ops.last() {
            Operation::Add { doc, .. } => before.push(doc@),
            Operation::Delete { term, .. } => before.filter(|d: Seq<u64>| !d.contains(term)),
        }
    }
}

/// The number of documents of `docs` that hold `term`.
pub open spec fn count_with_term(docs: Seq<Seq<u64>>, term: u64) -> nat
    decreases docs.len(),
{
    if docs.len() == 0 {
        0
    } else {
        count_with_term(docs.drop_last(), term) + if docs.last().contains(term) {
            1nat
        } else {
            0nat
        }
    }
}

/// Operations whose opstamps increase strictly and stay below `bound`.
pub open spec fn stamps_increasing_below(ops: Seq<Operation>, bound: Opstamp) -> bool {
    &&& forall|i: int, j: int| 0 <= i < j < ops.len() ==> op_stamp(ops[i]) < op_stamp(ops[j])
    &&& forall|i: int| 0 <= i < ops.len() ==> op_stamp(#[trigger] ops[i]) < bound
}

fn copy_doc(doc: &Vec<u64>) -> (r: Vec<u64>)
    ensures
        r@ == doc@,
{
    let mut r: Vec<u64> = Vec::new();
    let mut i: usize = 0;
    while i < doc.len()
        invariant
            i <= doc@.len(),
            r@ == doc@.take(i as int),
        decreases doc@.len() - i,
    {
        r.push(doc[i]);
        i = i + 1;
    }
    assert(r@ =~= doc@);
    r
}

fn doc_contains(doc: &Vec<u64>, term: u64) -> (r: bool)
    ensures
        r == doc@.contains(term),
{
    let mut i: usize = 0;
    while i < doc.len()
        invariant
            i <= doc@.len(),
            forall|j: int| 0 <= j < i ==> doc@[j] != term,
        decreases doc@.len() - i,
    {
        if doc[i] == term {
            return true;
        }
        i = i + 1;
    }
    false
}

/// The committed operations of an index and those still pending.
pub struct Index {
    committed: Vec<Operation>,
    pending: Vec<Operation>,
    next_opstamp: Opstamp,
    committed_opstamp: Opstamp,
}

impl Index {
    /// The operations that a commit made visible, in opstamp order.
    pub closed spec fn committed_ops(&self) -> Seq<Operation> {
        self.committed@
    }

    /// The operations made since the last commit or rollback.
    pub closed spec fn pending_ops(&self) -> Seq<Operation> {
        self.pending@
    }

    /// The opstamp the next operation will get.
    pub closed spec fn spec_next_opstamp(&self) -> Opstamp {
        self.next_opstamp
    }

    /// The opstamp of the last commit.
    pub closed spec fn spec_committed_opstamp(&self) -> Opstamp {
        self.committed_opstamp
    }

    /// Committed operations come before the last commit, pending ones after it.
    pub closed spec fn wf(&self) -> bool {
        &&& stamps_increasing_below(self.committed@ + self.pending@, self.next_opstamp)
        &&& self.committed_opstamp < self.next_opstamp || (self.committed@.len() == 0 && self.committed_opstamp == 0)
        &&& forall|i: int| 0 <= i < self.committed@.len() ==> op_stamp(#[trigger] self.committed@[i]) < self.committed_opstamp
        &&& forall|i: int| 0 <= i < self.pending@.len() ==> op_stamp(#[trigger] self.pending@[i]) > self.committed_opstamp || self.committed_opstamp == 0
    }

    /// An empty index.
    pub fn new() -> (r: Index)
        ensures
            r.wf(),
            r.committed_ops().len() == 0,
            r.pending_ops().len() == 0,
            r.spec_next_opstamp() == 0,
    {
        Index { committed: Vec::new(), pending: Vec::new(), next_opstamp: 0, committed_opstamp: 0 }
    }

    /// Adds a document, visible after the next commit; returns its opstamp.
    pub fn add_document(&mut self, doc: Vec<u64>) -> (r: Opstamp)
        requires
            old(self).wf(),
            old(self).spec_next_opstamp() < u64::MAX,
        ensures
            final(self).wf(),
            r == old(self).spec_next_opstamp(),
            final(self).spec_next_opstamp() == r + 1,
            final(self).committed_ops() == old(self).committed_ops(),
            final(self).pending_ops() == old(self).pending_ops().push(Operation::Add { opstamp: r, doc }),
    {
        let opstamp = self.next_opstamp;
        self.pending.push(Operation::Add { opstamp, doc });
        self.next_opstamp = opstamp + 1;
        proof {
            let all = self.committed@ + self.pending@;
            assert(all =~= (old(self).committed@ + old(self).pending@).push(self.pending@.last()));
        }
        opstamp
    }

    /// Deletes, at the next commit, the documents added before it that hold
    /// `term`; returns its opstamp.
    pub fn delete_term(&mut self, term: u64) -> (r: Opstamp)
        requires
            old(self).wf(),
            old(self).spec_next_opstamp() < u64::MAX,
        ensures
            final(self).wf(),
            r == old(self).spec_next_opstamp(),
            final(self).spec_next_opstamp() == r + 1,
            final(self).committed_ops() == old(self).committed_ops(),
            final(self).pending_ops() == old(self).pending_ops().push(Operation::Delete { opstamp: r, term }),
    {
        let opstamp = self.next_opstamp;
        self.pending.push(Operation::Delete { opstamp, term });
        self.next_opstamp = opstamp + 1;
        proof {
            let all = self.committed@ + self.pending@;
            assert(all =~= (old(self).committed@ + old(self).pending@).push(self.pending@.last()));
        }
        opstamp
    }

    /// Makes every pending operation visible at once; returns the opstamp of
    /// the commit, above that of every operation it publishes.
    pub fn commit(&mut self) -> (r: Opstamp)
        requires
            old(self).wf(),
            old(self).spec_next_opstamp() < u64::MAX,
        ensures
            final(self).wf(),
            r == old(self).spec_next_opstamp(),
            final(self).spec_committed_opstamp() == r,
            final(self).spec_next_opstamp() == r + 1,
            final(self).committed_ops() == old(self).committed_ops() + old(self).pending_ops(),
            final(self).pending_ops().len() == 0,
    {
        let opstamp = self.next_opstamp;
        let mut pending: Vec<Operation> = Vec::new();
        std::mem::swap(&mut pending, &mut self.pending);
        let ghost before = self.committed@;
        self.committed.append(&mut pending);
        self.next_opstamp = opstamp + 1;
        self.committed_opstamp = opstamp;
        proof {
            assert(self.committed@ =~= before + old(self).pending@);
            assert(self.committed@ + self.pending@ =~= old(self).committed@ + old(self).pending@);
            assert forall|i: int| 0 <= i < self.committed@.len() implies op_stamp(#[trigger] self.committed@[i]) < self.committed_opstamp by {
                assert(self.committed@[i] == (old(self).committed@ + old(self).pending@)[i]);
            }
        }
        opstamp
    }

    /// Discards the operations made since the last commit.
    pub fn rollback(&mut self)
        requires
            old(self).wf(),
        ensures
            final(self).wf(),
            final(self).committed_ops() == old(self).committed_ops(),
            final(self).pending_ops().len() == 0,
            final(self).spec_next_opstamp() == old(self).spec_next_opstamp(),
            final(self).spec_committed_opstamp() == old(self).spec_committed_opstamp(),
    {
        self.pending.clear();
        proof {
            let all = self.committed@ + self.pending@;
            assert(all =~= old(self).committed@);
            assert forall|i: int, j: int| 0 <= i < j < all.len() implies op_stamp(all[i]) < op_stamp(all[j]) by {
                assert(all[i] == (old(self).committed@ + old(self).pending@)[i]);
                assert(all[j] == (old(self).committed@ + old(self).pending@)[j]);
            }
            assert forall|i: int| 0 <= i < all.len() implies op_stamp(#[trigger] all[i]) < self.next_opstamp by {
                assert(all[i] == (old(self).committed@ + old(self).pending@)[i]);
            }
        }
    }

    /// The documents that a reader sees: the committed operations applied in order.
    pub fn searcher_docs(&self) -> (r: Vec<Vec<u64>>)
        ensures
            r@.len() == live_docs(self.committed_ops()).len(),
            forall|i: int| 0 <= i < r@.len() ==> (#[trigger] r@[i])@ == live_docs(self.committed_ops())[i],
    {
        let mut docs: Vec<Vec<u64>> = Vec::new();
        let mut i: usize = 0;
        while i < self.committed.len()
            invariant
                i <= self.committed@.len(),
                docs@.len() == live_docs(self.committed@.take(i as int)).len(),
                forall|k: int| 0 <= k < docs@.len() ==> (#[trigger] docs@[k])@ == live_docs(self.committed@.take(i as int))[k],
            decreases self.committed@.len() - i,
        {
            let ghost prev = live_docs(self.committed@.take(i as int));
            proof {
                assert(self.committed@.take(i + 1).drop_last() =~= self.committed@.take(i as int));
            }
            match &self.committed[i] {
                Operation::Add { doc, .. } => {
                    docs.push(copy_doc(doc));
                    proof {
                        assert(live_docs(self.committed@.take(i + 1)) == prev.push(doc@));
                    }
                },
                Operation::Delete { term, .. } => {
                    let term = *term;
                    let mut kept: Vec<Vec<u64>> = Vec::new();
                    let mut k: usize = 0;
                    while k < docs.len()
                        invariant
                            k <= docs@.len(),
                            docs@.len() == prev.len(),
                            forall|m: int| 0 <= m < docs@.len() ==> (#[trigger] docs@[m])@ == prev[m],
                            kept@.len() == prev.take(k as int).filter(|d: Seq<u64>| !d.contains(term)).len(),
                            forall|m: int| 0 <= m < kept@.len() ==> (#[trigger] kept@[m])@ == prev.take(k as int).filter(|d: Seq<u64>| !d.contains(term))[m],
                        decreases docs@.len() - k,
                    {
                        let keep = !doc_contains(&docs[k], term);
                        proof {
                            let t = prev.take(k + 1);
                            assert(t.drop_last() =~= prev.take(k as int));
                            assert(t.last() == prev[k as int]);
                            reveal_with_fuel(Seq::filter, 1);
                        }
                        if keep {
                            kept.push(copy_doc(&docs[k]));
                        }
                        k = k + 1;
                    }
                    proof {
                        assert(prev.take(prev.len() as int) =~= prev);
                        assert(live_docs(self.committed@.take(i + 1)) == prev.filter(|d: Seq<u64>| !d.contains(term)));
                    }
                    docs = kept;
                },
            }
            i = i + 1;
        }
        assert(self.committed@.take(self.committed@.len() as int) =~= self.committed@);
        docs
    }

    /// The number of documents a reader sees.
    pub fn num_docs(&self) -> (r: usize)
        ensures
            r == live_docs(self.committed_ops()).len(),
    {
        self.searcher_docs().len()
    }

    /// The number of documents a reader sees that hold `term`.
    pub fn doc_freq(&self, term: u64) -> (r: usize)
        ensures
            r == count_with_term(live_docs(self.committed_ops()), term),
    {
        let docs = self.searcher_docs();
        let ghost live = live_docs(self.committed_ops());
        let mut count: usize = 0;
        let mut i: usize = 0;
        while i < docs.len()
            invariant
                i <= docs@.len(),
                docs@.len() == live.len(),
                forall|k: int| 0 <= k < docs@.len() ==> (#[trigger] docs@[k])@ == live[k],
                count == count_with_term(live.take(i as int), term),
                count <= i,
            decreases docs@.len() - i,
        {
            proof {
                assert(live.take(i + 1).drop_last() =~= live.take(i as int));
            }
            if doc_contains(&docs[i], term) {
                count = count + 1;
            }
            i = i + 1;
        }
        assert(live.take(live.len() as int) =~= live);
        count
    }
}

/// After a delete of `term`, no document that a reader sees holds it until
/// a later add: the document frequency of `term` counts exactly the documents
/// added after the delete.
pub proof fn lemma_delete_consistency(ops: Seq<Operation>, opstamp: Opstamp, term: u64)
    ensures
        count_with_term(live_docs(ops.push(Operation::Delete { opstamp, term })), term) == 0,
{
    let docs = live_docs(ops).filter(|d: Seq<u64>| !d.contains(term));
    assert(live_docs(ops.push(Operation::Delete { opstamp, term })) == docs) by {
        assert(ops.push(Operation::Delete { opstamp, term }).drop_last() =~= ops);
    }
    lemma_count_none(docs, term);
}

proof fn lemma_count_none(docs: Seq<Seq<u64>>, term: u64)
    requires
        forall|i: int| 0 <= i < docs.len() ==> !(#[trigger] docs[i]).contains(term),
    ensures
        count_with_term(docs, term) == 0,
    decreases docs.len(),
{
    if docs.len() > 0 {
        lemma_count_none(docs.drop_last(), term);
    }
}

/// A commit publishes exactly the operations made before it and not rolled
/// back: what a reader sees after the commit is those operations applied in
/// order, and every one of them has an opstamp below the commit's.
pub proof fn lemma_commit_atomicity(before: Index, after: Index, stamp: Opstamp)
    requires
        before.wf(),
        after.wf(),
        after.committed_ops() == before.committed_ops() + before.pending_ops(),
        stamp == before.spec_next_opstamp(),
        after.spec_committed_opstamp() == stamp,
    ensures
        live_docs(after.committed_ops()) == live_docs(before.committed_ops() + before.pending_ops()),
        forall|i: int| 0 <= i < after.committed_ops().len() ==> op_stamp(#[trigger] after.committed_ops()[i]) < stamp,
{
}

} // verus!
