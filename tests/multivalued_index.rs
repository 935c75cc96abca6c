use std::ops::Range;

use tantivy::multivalued_index::{MultiValueIndex, SelectBatchError};

fn index_to_pos_helper(index: &MultiValueIndex, doc_id_range: Range<u32>, positions: &[u32]) -> Vec<u32> {
    let mut positions = positions.to_vec();
    index
        .select_batch_in_place(doc_id_range.start, &mut positions)
        .unwrap();
    positions
}

#[test]
fn test_positions_to_docid() {
    let offsets: Vec<u32> = vec![0, 10, 12, 15, 22, 23]; // docid values are [0..10, 10..12, 12..15, etc.]
    let index = MultiValueIndex::for_test(&offsets);
    assert_eq!(index.num_rows(), 5);
    let positions = &[10u32, 11, 15, 20, 21, 22];
    assert_eq!(index_to_pos_helper(&index, 0..5, positions), vec![1, 3, 4]);
    assert_eq!(index_to_pos_helper(&index, 1..5, positions), vec![1, 3, 4]);
    assert_eq!(index_to_pos_helper(&index, 0..5, &[9]), vec![0]);
    assert_eq!(index_to_pos_helper(&index, 1..5, &[10]), vec![1]);
    assert_eq!(index_to_pos_helper(&index, 1..5, &[11]), vec![1]);
    assert_eq!(index_to_pos_helper(&index, 2..5, &[12]), vec![2]);
    assert_eq!(index_to_pos_helper(&index, 2..5, &[12, 14]), vec![2]);
    assert_eq!(index_to_pos_helper(&index, 2..5, &[12, 14, 15]), vec![2, 3]);
}

#[test]
fn select_batch_rejects_unsorted_ranks() {
    let index = MultiValueIndex::for_test(&[0, 10, 12, 15, 22, 23]);
    let mut ranks = vec![11u32, 10];
    assert_eq!(
        index.select_batch_in_place(0, &mut ranks),
        Err(SelectBatchError::UnsortedRanks)
    );
    assert_eq!(ranks, vec![11, 10]);
}

#[test]
fn select_batch_rejects_rank_before_start() {
    let index = MultiValueIndex::for_test(&[0, 10, 12, 15, 22, 23]);
    let mut ranks = vec![9u32, 12];
    assert_eq!(
        index.select_batch_in_place(1, &mut ranks),
        Err(SelectBatchError::RankBeforeStart)
    );
    assert_eq!(ranks, vec![9, 12]);
}

#[test]
fn select_batch_empty_ranks() {
    let index = MultiValueIndex::for_test(&[0, 3]);
    let mut ranks: Vec<u32> = Vec::new();
    assert_eq!(index.select_batch_in_place(0, &mut ranks), Ok(()));
    assert!(ranks.is_empty());
}

#[test]
fn select_batch_skips_empty_documents() {
    // Documents 1 and 2 hold no values.
    let index = MultiValueIndex::for_test(&[0, 2, 2, 2, 5]);
    let mut ranks = vec![0u32, 1, 2, 4];
    index.select_batch_in_place(0, &mut ranks).unwrap();
    assert_eq!(ranks, vec![0, 3]);
}

#[test]
fn range_of_documents() {
    let index = MultiValueIndex::for_test(&[0, 10, 12, 15]);
    assert_eq!(index.range(0), 0..10);
    assert_eq!(index.range(1), 10..12);
    assert_eq!(index.range(2), 12..15);
}

#[test]
fn offsets_must_be_non_decreasing() {
    assert!(MultiValueIndex::from_offsets(vec![0, 3, 2]).is_none());
    assert!(MultiValueIndex::from_offsets(vec![]).is_none());
    let index = MultiValueIndex::from_offsets(vec![0, 3, 3, 7]).unwrap();
    assert_eq!(index.num_rows(), 3);
}

#[test]
fn offsets_start_at_zero_and_end_at_value_count() {
    assert!(MultiValueIndex::from_offsets(vec![1, 3]).is_none());
    let index = MultiValueIndex::from_offsets(vec![0, 10, 12, 15, 22, 23]).unwrap();
    assert_eq!(index.num_rows(), 5);
    assert_eq!(index.num_values(), 23);
}
