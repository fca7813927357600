use arroy::{default_search_k, Candidates, Node};
use roaring::RoaringBitmap;

#[test]
fn candidates_keep_first_order_without_repeats() {
    let mut c = Candidates::new();
    assert!(c.insert(3, None));
    assert!(c.insert(1, None));
    assert!(!c.insert(3, None));
    c.insert_all(&[1, 7, 3, 0], None);
    assert_eq!(c.len(), 4);
    assert_eq!(c.into_ids(), vec![3, 1, 7, 0]);
}

#[test]
fn candidates_respect_the_filter() {
    let filter: RoaringBitmap = [1u32, 2].into_iter().collect();
    let mut c = Candidates::new();
    assert!(!c.insert(3, Some(&filter)));
    c.insert_all(&[3, 2, 1, 2, 5], Some(&filter));
    assert_eq!(c.into_ids(), vec![2, 1]);
}

#[test]
fn a_filter_that_excludes_everything_leaves_no_candidate() {
    let filter = RoaringBitmap::new();
    let mut c = Candidates::new();
    c.insert_all(&[0, 1, 2], Some(&filter));
    assert_eq!(c.len(), 0);
}

#[test]
fn default_search_budget() {
    assert_eq!(default_search_k(5, 50), 500);
    assert_eq!(default_search_k(0, 10), 0);
    assert_eq!(default_search_k(usize::MAX, 2), usize::MAX);
    assert_eq!(default_search_k(usize::MAX / 2 + 1, 1), usize::MAX);
}

#[test]
fn visiting_nodes() {
    let filter: RoaringBitmap = [0u32, 4, 5].into_iter().collect();
    let mut c = Candidates::new();
    let split = Node::SplitPlaneNormal { normal: vec![0; 8], left: 3, right: 9 };
    assert_eq!(c.visit(10, split, Some(&filter)), Some((vec![0; 8], 3, 9)));
    assert_eq!(c.len(), 0);
    let leaf = Node::Leaf { header: vec![0; 4], vector: vec![0; 8] };
    assert_eq!(c.visit(0, leaf.clone(), Some(&filter)), None);
    assert_eq!(c.visit(1, leaf, Some(&filter)), None);
    let descendants = Node::Descendants { descendants: vec![2, 5, 4, 0] };
    assert_eq!(c.visit(11, descendants, Some(&filter)), None);
    assert_eq!(c.into_ids(), vec![0, 5, 4]);
}
