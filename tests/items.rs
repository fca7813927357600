use arroy::{
    binary_quantized_euclidean_distance, first_free_id, partition_by_side, split_is_balanced,
    split_is_degenerate, BinaryQuantizedEuclidean, ConcurrentNodeIds, LeafIndex, LeafIndexError,
    NodeSpans, Side, SubsetIndex,
};

#[test]
fn node_ids_count_up_and_wrap() {
    let mut ids = ConcurrentNodeIds::new(5);
    assert_eq!(ids.next(), 5);
    assert_eq!(ids.next(), 6);
    assert_eq!(ids.current(), 7);
    let mut last = ConcurrentNodeIds::new(u32::MAX);
    assert_eq!(last.next(), u32::MAX);
    assert_eq!(last.current(), 0);
}

#[test]
fn first_free_id_follows_the_last() {
    assert_eq!(first_free_id(None), Some(0));
    assert_eq!(first_free_id(Some(3)), Some(4));
    assert_eq!(first_free_id(Some(u32::MAX)), None);
}

#[test]
fn split_thresholds() {
    assert!(!split_is_balanced(19, 1));
    assert!(split_is_balanced(18, 2));
    assert!(split_is_balanced(2, 2));
    assert!(!split_is_balanced(0, 0));
    assert!(split_is_degenerate(0, 0));
    assert!(split_is_degenerate(4, 0));
    assert!(!split_is_degenerate(99, 1));
    assert!(split_is_degenerate(100, 1));
}

#[test]
fn partition_keeps_order() {
    let (l, r) = partition_by_side(&vec![7, 8, 9, 10], &vec![Side::Right, Side::Left, Side::Right, Side::Left]);
    assert_eq!(l, vec![8, 10]);
    assert_eq!(r, vec![7, 9]);
}

#[test]
fn hamming_distance_of_bytes() {
    assert_eq!(binary_quantized_euclidean_distance(&[0b1010_1010], &[0b0101_0101]), 8);
    assert_eq!(binary_quantized_euclidean_distance(&[0xFF, 0x0F], &[0x00]), 8);
    assert_eq!(binary_quantized_euclidean_distance(&[0x01, 0x03], &[0x01, 0x00]), 2);
    let p = 1.0f32.to_le_bytes();
    let q = (-1.0f32).to_le_bytes();
    assert_eq!(BinaryQuantizedEuclidean::built_distance(&p, &q), 1);
    assert_eq!(BinaryQuantizedEuclidean::built_distance(&p, &p), 0);
    assert_eq!(BinaryQuantizedEuclidean::name(), "binary quantized euclidean");
    assert_eq!(BinaryQuantizedEuclidean::header_len(), 4);
}

#[test]
fn leaf_index_slots() {
    let mut idx = LeafIndex::new();
    assert_eq!(idx.slot(0), None);
    assert_eq!(idx.push(0, 17), Ok(()));
    assert_eq!(idx.push(2, 17), Ok(()));
    assert_eq!(idx.push(10, 17), Ok(()));
    assert_eq!(idx.push(11, 16), Err(LeafIndexError::LengthMismatch));
    assert_eq!(idx.push(10, 17), Err(LeafIndexError::NotAscending));
    assert_eq!(idx.len(), 3);
    assert_eq!(idx.constant_length(), Some(17));
    assert_eq!(idx.slot(0), Some(0));
    assert_eq!(idx.slot(2), Some(1));
    assert_eq!(idx.slot(10), Some(2));
    assert_eq!(idx.slot(1), None);
    assert_eq!(idx.slot(11), None);
}

#[test]
fn subset_picks_by_rank() {
    let s = SubsetIndex::from_item_ids(&[100, 0, 10, 10]);
    assert_eq!(s.len(), 3);
    assert!(s.contains(10));
    assert!(!s.contains(5));
    assert_eq!(s.pick(0), Some(0));
    assert_eq!(s.pick(1), Some(10));
    assert_eq!(s.pick(2), Some(100));
    assert_eq!(s.pick(3), None);
    assert_eq!(s.pick_two(2, 0), Some((100, 0)));
    assert_eq!(s.pick_two(1, 3), None);
}

#[test]
fn node_spans_bounds() {
    let mut spans = NodeSpans::new();
    assert!(spans.put(7, 10));
    assert!(spans.put(9, 5));
    assert_eq!(spans.len(), 2);
    assert_eq!(spans.get(0), Some((7, 0, 10)));
    assert_eq!(spans.get(1), Some((9, 10, 15)));
    assert_eq!(spans.get(2), None);
    assert!(!spans.put(1, usize::MAX));
    assert_eq!(spans.len(), 2);
}
