//! The offset index of a multi-valued column: `offsets[d]` is the first value
//! row of document `d`, and `offsets[num_rows]` the number of values.
use vstd::prelude::*;

verus! {

/// Row ids of documents and of values.
pub type RowId = u32;

/// Offsets are non-decreasing and there is one more than there are documents.
/// The first document's values start at row 0.
pub open spec fn valid_offsets(offsets: Seq<u32>) -> bool {
    &&& 1 <= offsets.len() <= u32::MAX
    &&& offsets[0] == 0
    &&& forall|i: int, j: int| 0 <= i <= j < offsets.len() ==> offsets[i] <= offsets[j]
}

/// The first document at or after `d` whose values end after rank `r`.
pub open spec fn owner_from(offsets: Seq<u32>, d: int, r: u32) -> int
    decreases offsets.len() - d,
{
    if d + 1 >= offsets.len() || offsets[d + 1] > r {
        d
    } else {
        owner_from(offsets, d + 1, r)
    }
}

/// The document that owns the value at rank `r`.
pub open spec fn rank_to_doc(offsets: Seq<u32>, r: u32) -> int {
    owner_from(offsets, 0, r)
}

/// The sequence with each run of equal neighbours kept once.
pub open spec fn dedup_consecutive(s: Seq<u32>) -> Seq<u32>
    decreases s.len(),
{
    if s.len() == 0 {
        s
    } else {
        let p = dedup_consecutive(s.drop_last());
        if s.len() >= 2 && s[s.len() - 2] == s.last() {
            p
        } else {
            p.push(s.last())
        }
    }
}

/// Each rank replaced by the document that owns it.
pub open spec fn ranks_to_docs(offsets: Seq<u32>, ranks: Seq<u32>) -> Seq<u32> {
    ranks.map_values(|r: u32| rank_to_doc(offsets, r) as u32)
}

/// Ranks sorted in ascending order.
pub open spec fn is_sorted(ranks: Seq<u32>) -> bool {
    forall|i: int, j: int| 0 <= i <= j < ranks.len() ==> ranks[i] <= ranks[j]
}

proof fn lemma_owner_bounds(offsets: Seq<u32>, d: int, r: u32)
    requires
        0 <= d < offsets.len(),
    ensures
        d <= owner_from(offsets, d, r) < offsets.len(),
        owner_from(offsets, d, r) + 1 < offsets.len() ==> r < offsets[owner_from(offsets, d, r) + 1],
    decreases offsets.len() - d,
{
    if !(d + 1 >= offsets.len() || offsets[d + 1] > r) {
        lemma_owner_bounds(offsets, d + 1, r);
    }
}

/// Starting the search at any document up to the owner finds the same owner.
proof fn lemma_owner_skip(offsets: Seq<u32>, s: int, d: int, r: u32)
    requires
        0 <= s <= d <= owner_from(offsets, s, r),
        d < offsets.len(),
    ensures
        owner_from(offsets, d, r) == owner_from(offsets, s, r),
    decreases d - s,
{
    if s < d {
        lemma_owner_bounds(offsets, s, r);
        assert(!(s + 1 >= offsets.len() || offsets[s + 1] > r));
        lemma_owner_skip(offsets, s + 1, d, r);
    }
}

/// A larger rank has an owner at least as far.
proof fn lemma_owner_monotone(offsets: Seq<u32>, s: int, r1: u32, r2: u32)
    requires
        valid_offsets(offsets),
        0 <= s < offsets.len(),
        r1 <= r2,
    ensures
        owner_from(offsets, s, r1) <= owner_from(offsets, s, r2),
    decreases offsets.len() - s,
{
    lemma_owner_bounds(offsets, s, r2);
    if !(s + 1 >= offsets.len() || offsets[s + 1] > r1) {
        lemma_owner_monotone(offsets, s + 1, r1, r2);
    }
}

/// Where the search starts at a document whose first value is at or before the
/// rank, the owner is the same as from the first document.
pub proof fn lemma_owner_from_start(offsets: Seq<u32>, s: int, r: u32)
    requires
        valid_offsets(offsets),
        0 <= s < offsets.len(),
        offsets[s] <= r,
    ensures
        owner_from(offsets, s, r) == rank_to_doc(offsets, r),
{
    lemma_owner_bounds(offsets, 0, r);
    if s <= rank_to_doc(offsets, r) {
        lemma_owner_skip(offsets, 0, s, r);
    } else {
        let o = rank_to_doc(offsets, r);
        // The owner's values end after `r`, so no later document starts at or before it.
        assert(o + 1 < offsets.len());
        assert(offsets[o + 1] <= offsets[s]);
    }
}

/// The owner of a rank below the number of values holds that rank:
/// `offsets[d] <= r < offsets[d + 1]`.
pub proof fn lemma_rank_to_doc_holds(offsets: Seq<u32>, r: u32)
    requires
        valid_offsets(offsets),
        offsets[0] <= r < offsets.last(),
    ensures
        0 <= rank_to_doc(offsets, r) < offsets.len() - 1,
        offsets[rank_to_doc(offsets, r)] <= r < offsets[rank_to_doc(offsets, r) + 1],
{
    lemma_owner_bounds(offsets, 0, r);
    lemma_owner_holds(offsets, 0, r);
}

proof fn lemma_owner_holds(offsets: Seq<u32>, d: int, r: u32)
    requires
        valid_offsets(offsets),
        0 <= d < offsets.len(),
        offsets[d] <= r < offsets.last(),
    ensures
        owner_from(offsets, d, r) < offsets.len() - 1,
        offsets[owner_from(offsets, d, r)] <= r,
    decreases offsets.len() - d,
{
    if !(d + 1 >= offsets.len() || offsets[d + 1] > r) {
        lemma_owner_holds(offsets, d + 1, r);
    }
}

/// Why a batch of ranks could not be converted.
#[derive(Clone, Copy, Debug, PartialEq, Eq, Structural)]
pub enum SelectBatchError {
    /// The ranks are not in ascending order.
    UnsortedRanks,
    /// The first rank lies before the first value of the first document.
    RankBeforeStart,
}

/// Index to resolve the value range of a document.
#[derive(Clone, Debug)]
pub struct MultiValueIndex {
    start_index_column: Vec<RowId>,
}

impl View for MultiValueIndex {
    type V = Seq<u32>;

    closed spec fn view(&self) -> Seq<u32> {
        self.start_index_column@
    }
}

impl MultiValueIndex {
    pub open spec fn wf(&self) -> bool {
        valid_offsets(self@)
    }

    /// An index over the given offsets, which must be non-decreasing and hold
    /// one entry more than there are documents; `None` otherwise.
    pub fn from_offsets(start_offsets: Vec<RowId>) -> (r: Option<MultiValueIndex>)
        ensures
            r is Some <==> valid_offsets(start_offsets@),
            r is Some ==> r->0@ == start_offsets@,
    {
        if start_offsets.len() == 0 || start_offsets.len() > u32::MAX as usize || start_offsets[0] != 0 {
            return None;
        }
        let mut i: usize = 1;
        while i < start_offsets.len()
            invariant
                1 <= i <= start_offsets@.len(),
                forall|a: int, b: int| 0 <= a <= b < i ==> start_offsets@[a] <= start_offsets@[b],
            decreases start_offsets@.len() - i,
        {
            if start_offsets[i - 1] > start_offsets[i] {
                return None;
            }
            i = i + 1;
        }
        Some(MultiValueIndex { start_index_column: start_offsets })
    }

    /// An index over a copy of the given offsets.
    pub fn for_test(start_offsets: &[RowId]) -> (r: MultiValueIndex)
        requires
            valid_offsets(start_offsets@),
        ensures
            r@ == start_offsets@,
            r.wf(),
    {
        let mut offsets: Vec<RowId> = Vec::new();
        let mut i: usize = 0;
        while i < start_offsets.len()
            invariant
                i <= start_offsets@.len(),
                offsets@ == start_offsets@.take(i as int),
            decreases start_offsets@.len() - i,
        {
            offsets.push(start_offsets[i]);
            i = i + 1;
        }
        assert(offsets@ =~= start_offsets@);
        MultiValueIndex { start_index_column: offsets }
    }

    /// `[start, end)`: the value rows of the given document.
    pub fn range(&self, row_id: RowId) -> (r: std::ops::Range<RowId>)
        requires
            (row_id as int) + 1 < self@.len(),
        ensures
            r.start == self@[row_id as int],
            r.end == self@[row_id + 1],
    {
        let n = self.start_index_column.len();
        assert(row_id < n - 1);
        let start = self.start_index_column[row_id as usize];
        let end = self.start_index_column[row_id as usize + 1];
        start..end
    }

    /// The number of values: where the last document's values end.
    pub open spec fn spec_num_values(&self) -> u32 {
        self@.last()
    }

    /// The number of values of the column.
    pub fn num_values(&self) -> (r: u32)
        requires
            self.wf(),
        ensures
            r == self.spec_num_values(),
    {
        self.start_index_column[self.start_index_column.len() - 1]
    }

    /// The number of documents in the index.
    pub fn num_rows(&self) -> (r: u32)
        requires
            self.wf(),
            self@.len() <= u32::MAX,
        ensures
            r == self@.len() - 1,
    {
        (self.start_index_column.len() - 1) as u32
    }

    /// Converts ascending value ranks, in place, into the documents that own
    /// them, keeping one of each run of equal documents. The search starts at
    /// document `row_start`, whose first value must not come after the first rank.
    pub fn select_batch_in_place(&self, row_start: RowId, ranks: &mut Vec<u32>) -> (r: Result<
        (),
        SelectBatchError,
    >)
        requires
            self.wf(),
            (row_start as int) < self@.len(),
            forall|i: int| 0 <= i < old(ranks)@.len() ==> #[trigger] old(ranks)@[i] < self@.last(),
        ensures
            old(ranks)@.len() == 0 ==> r is Ok && final(ranks)@ == old(ranks)@,
            old(ranks)@.len() > 0 ==> (r is Ok <==> is_sorted(old(ranks)@) && self@[row_start as int]
                <= old(ranks)@[0]),
            old(ranks)@.len() > 0 && !is_sorted(old(ranks)@) ==> r == Err::<(), SelectBatchError>(
                SelectBatchError::UnsortedRanks,
            ),
            old(ranks)@.len() > 0 && is_sorted(old(ranks)@) && old(ranks)@[0] < self@[row_start as int]
                ==> r == Err::<(), SelectBatchError>(SelectBatchError::RankBeforeStart),
            r is Ok ==> final(ranks)@ == dedup_consecutive(ranks_to_docs(self@, old(ranks)@)),
            r is Err ==> final(ranks)@ == old(ranks)@,
    {
        if ranks.len() == 0 {
            return Ok(());
        }
        let mut k: usize = 1;
        while k < ranks.len()
            invariant
                1 <= k <= ranks@.len(),
                ranks@ == old(ranks)@,
                forall|a: int, b: int| 0 <= a <= b < k ==> ranks@[a] <= ranks@[b],
            decreases ranks@.len() - k,
        {
            if ranks[k - 1] > ranks[k] {
                return Err(SelectBatchError::UnsortedRanks);
            }
            k = k + 1;
        }
        if self.start_index_column[row_start as usize] > ranks[0] {
            return Err(SelectBatchError::RankBeforeStart);
        }
        let ghost offsets = self@;
        let ghost orig = ranks@;
        let ghost docs = ranks_to_docs(offsets, orig);
        let mut cur_doc: RowId = row_start;
        let mut last_doc: Option<RowId> = None;
        let mut write_doc_pos: usize = 0;
        let mut i: usize = 0;
        while i < ranks.len()
            invariant
                self.wf(),
                offsets == self@,
                orig == old(ranks)@,
                docs == ranks_to_docs(offsets, orig),
                is_sorted(orig),
                offsets[row_start as int] <= orig[0],
                forall|a: int| 0 <= a < orig.len() ==> #[trigger] orig[a] < offsets.last(),
                ranks@.len() == orig.len(),
                0 <= i <= orig.len(),
                write_doc_pos <= i,
                forall|a: int| i <= a < orig.len() ==> ranks@[a] == orig[a],
                ranks@.take(write_doc_pos as int) == dedup_consecutive(docs.take(i as int)),
                i == 0 ==> last_doc is None && cur_doc == row_start,
                i > 0 ==> last_doc == Some(cur_doc) && cur_doc as int == rank_to_doc(offsets, orig[i - 1]),
                i > 0 ==> write_doc_pos > 0,
                (row_start as int) <= cur_doc < offsets.len() - 1,
            decreases orig.len() - i,
        {
            let pos = ranks[i];
            let n = self.start_index_column.len();
            proof {
                assert(pos == orig[i as int]);
                assert(orig[0] <= orig[i as int]);
                assert(pos < offsets.last());
                lemma_owner_bounds(offsets, row_start as int, pos);
                lemma_owner_from_start(offsets, row_start as int, pos);
                lemma_owner_holds(offsets, row_start as int, pos);
                if i > 0 {
                    lemma_owner_monotone(offsets, row_start as int, orig[i - 1], pos);
                    lemma_owner_from_start(offsets, row_start as int, orig[i - 1]);
                }
                lemma_owner_skip(offsets, row_start as int, cur_doc as int, pos);
            }
            loop
                invariant
                    self.wf(),
                    offsets == self@,
                    (row_start as int) <= cur_doc <= owner_from(offsets, row_start as int, pos),
                    owner_from(offsets, cur_doc as int, pos) == rank_to_doc(offsets, pos),
                    owner_from(offsets, row_start as int, pos) == rank_to_doc(offsets, pos),
                    rank_to_doc(offsets, pos) < offsets.len() - 1,
                    n == offsets.len(),
                ensures
                    cur_doc as int == rank_to_doc(offsets, pos),
                decreases offsets.len() - cur_doc,
            {
                let end = self.start_index_column[cur_doc as usize + 1];
                if end > pos {
                    break;
                }
                proof {
                    lemma_owner_bounds(offsets, cur_doc + 1, pos);
                }
                cur_doc = cur_doc + 1;
            }
            let ghost prev_take = ranks@.take(write_doc_pos as int);
            ranks.set(write_doc_pos, cur_doc);
            let same = match last_doc {
                Some(d) => d == cur_doc,
                None => false,
            };
            if !same {
                write_doc_pos = write_doc_pos + 1;
            }
            last_doc = Some(cur_doc);
            proof {
                let t = docs.take(i + 1);
                assert(t.drop_last() =~= docs.take(i as int));
                assert(t.last() == cur_doc);
                if i > 0 {
                    assert(t[t.len() - 2] == docs[i - 1]);
                }
                assert(ranks@.take(write_doc_pos as int) =~= dedup_consecutive(t));
            }
            i = i + 1;
        }
        ranks.truncate(write_doc_pos);
        proof {
            assert(docs.take(orig.len() as int) =~= docs);
        }
        Ok(())
    }
}

/// The offsets of a valid index start at 0, do not decrease, and end at the
/// number of values: the document ranges tile `[0, num_values)`.
pub proof fn lemma_offsets_monotone(index: MultiValueIndex, d: int)
    requires
        index.wf(),
        0 <= d < index@.len() - 1,
    ensures
        index@[0] == 0,
        index@[d] <= index@[d + 1] <= index@.last(),
        index@[index@.len() - 1] == index.spec_num_values(),
{
}

/// For an ascending batch of ranks that starts at or after the first value of
/// the start document, the document that each rank is mapped to holds it:
/// `offsets[d] <= rank < offsets[d + 1]`.
pub proof fn lemma_batch_owners_hold_ranks(offsets: Seq<u32>, row_start: int, ranks: Seq<u32>, i: int)
    requires
        valid_offsets(offsets),
        0 <= row_start < offsets.len(),
        is_sorted(ranks),
        ranks.len() > 0,
        offsets[row_start] <= ranks[0],
        forall|k: int| 0 <= k < ranks.len() ==> #[trigger] ranks[k] < offsets.last(),
        0 <= i < ranks.len(),
    ensures
        offsets[rank_to_doc(offsets, ranks[i])] <= ranks[i] < offsets[rank_to_doc(offsets, ranks[i]) + 1],
{
    lemma_rank_to_doc_holds(offsets, ranks[i]);
    assert(offsets[0] <= offsets[row_start]);
    assert(ranks[0] <= ranks[i]);
}

} // verus!
