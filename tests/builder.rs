use arroy::{build_is_complete, Action, Phase, Side, SplitVerdict, TreeBuilder};

/// A node that the builder asked to write.
#[derive(Debug, PartialEq)]
enum Written {
    Descendants(u32, Vec<u32>),
    Split(u32, Option<usize>, u32, u32),
}

/// Runs one tree to its root; `splits` gives the sides of each split asked for, in turn.
fn run_tree(b: &mut TreeBuilder, indices: Vec<u32>, splits: &[Vec<Side>], out: &mut Vec<Written>) -> u32 {
    assert!(b.start_tree(indices));
    let mut next_split = 0;
    loop {
        match b.next_action() {
            Action::Reuse { .. } => {}
            Action::WriteDescendants { id, descendants } => out.push(Written::Descendants(id, descendants)),
            Action::NeedSplit { indices } => {
                let sides = splits[next_split].clone();
                assert_eq!(sides.len(), indices.len());
                let verdict = b.split_attempt(next_split, sides);
                assert_eq!(verdict, SplitVerdict::Accepted);
                next_split += 1;
            }
            Action::WriteSplit { id, plane, left, right } => out.push(Written::Split(id, plane, left, right)),
            Action::Done { root } => return root,
            Action::Idle | Action::OutOfIds => panic!("unexpected action"),
        }
    }
}

#[test]
fn one_item_one_tree() {
    let mut b = TreeBuilder::new(3, 1, 1);
    let mut out = Vec::new();
    let root = run_tree(&mut b, vec![0], &[], &mut out);
    assert_eq!(root, 1);
    assert_eq!(out, vec![Written::Descendants(1, vec![0])]);
    assert!(b.is_idle());
}

#[test]
fn one_item_ten_trees() {
    let mut b = TreeBuilder::new(3, 1, 1);
    let mut out = Vec::new();
    let mut roots = Vec::new();
    while !build_is_complete(Some(10), roots.len(), 0, 1) {
        roots.push(run_tree(&mut b, vec![0], &[], &mut out));
    }
    assert_eq!(roots, (1..=10).collect::<Vec<u32>>());
    let expected: Vec<Written> = (1..=10).map(|id| Written::Descendants(id, vec![0])).collect();
    assert_eq!(out, expected);
}

#[test]
fn three_items_fit_one_descendants_node() {
    let mut b = TreeBuilder::new(3, 3, 3);
    let mut out = Vec::new();
    let root = run_tree(&mut b, vec![0, 1, 2], &[], &mut out);
    assert_eq!(root, 3);
    assert_eq!(out, vec![Written::Descendants(3, vec![0, 1, 2])]);
}

#[test]
fn four_items_are_split() {
    let mut b = TreeBuilder::new(3, 4, 4);
    let mut out = Vec::new();
    let sides = vec![Side::Left, Side::Right, Side::Right, Side::Right];
    let root = run_tree(&mut b, vec![0, 1, 2, 3], &[sides], &mut out);
    assert_eq!(root, 5);
    assert_eq!(out, vec![Written::Descendants(4, vec![1, 2, 3]), Written::Split(5, Some(0), 0, 4)]);
}

#[test]
fn unbalanced_splits_are_retried_then_randomized() {
    let mut b = TreeBuilder::new(1, 4, 4);
    assert!(b.start_tree(vec![0, 1, 2, 3]));
    match b.next_action() {
        Action::NeedSplit { indices } => assert_eq!(indices, vec![0, 1, 2, 3]),
        other => panic!("{other:?}"),
    }
    assert_eq!(b.phase(), Phase::Splitting);
    assert_eq!(b.pending_len(), Some(4));
    let all_left = vec![Side::Left; 4];
    for _ in 0..3 {
        assert_eq!(b.split_attempt(7, all_left.clone()), SplitVerdict::Retry);
    }
    assert_eq!(b.split_attempt(7, all_left.clone()), SplitVerdict::Randomize);
    assert_eq!(b.phase(), Phase::Randomizing);
    assert!(!b.random_split(all_left));
    assert!(b.random_split(vec![Side::Left, Side::Right, Side::Left, Side::Right]));
    assert_eq!(b.phase(), Phase::Walking);
    // left half [0, 2], then right half [1, 3], each split again at random
    let mut writes = Vec::new();
    loop {
        match b.next_action() {
            Action::NeedSplit { .. } => {
                assert_eq!(b.split_attempt(9, vec![Side::Left, Side::Right]), SplitVerdict::Accepted);
            }
            Action::WriteSplit { id, plane, left, right } => writes.push((id, plane, left, right)),
            Action::Done { root } => {
                assert_eq!(root, 6);
                break;
            }
            Action::Reuse { .. } => {}
            other => panic!("{other:?}"),
        }
    }
    assert_eq!(writes, vec![(4, Some(9), 0, 2), (5, Some(9), 1, 3), (6, None, 4, 5)]);
}

#[test]
fn a_nineteen_to_one_split_is_retried() {
    let mut b = TreeBuilder::new(2, 20, 20);
    assert!(b.start_tree((0..20).collect()));
    assert!(matches!(b.next_action(), Action::NeedSplit { .. }));
    let mut sides = vec![Side::Left; 19];
    sides.push(Side::Right);
    assert_eq!(b.split_attempt(0, sides), SplitVerdict::Retry);
    let mut sides = vec![Side::Left; 18];
    sides.extend([Side::Right, Side::Right]);
    assert_eq!(b.split_attempt(1, sides), SplitVerdict::Accepted);
}

#[test]
fn root_of_a_large_index_is_split_even_when_small() {
    // two items below the root, but the index holds more items than dimensions
    let mut b = TreeBuilder::new(3, 10, 10);
    assert!(b.start_tree(vec![4, 5]));
    assert!(matches!(b.next_action(), Action::NeedSplit { .. }));
}

#[test]
fn start_tree_refuses_node_ids() {
    let mut b = TreeBuilder::new(3, 2, 2);
    assert!(!b.start_tree(vec![0, 2]));
    assert!(b.is_idle());
    assert!(matches!(b.next_action(), Action::Idle));
}

#[test]
fn no_id_is_given_past_the_metadata_key() {
    let mut b = TreeBuilder::new(3, 1, u32::MAX);
    assert!(b.start_tree(vec![0]));
    assert!(matches!(b.next_action(), Action::OutOfIds));
    assert_eq!(b.next_id(), u32::MAX);
}

#[test]
fn build_stops_at_twice_the_items_without_a_tree_count() {
    assert!(!build_is_complete(None, 3, 199, 100));
    assert!(build_is_complete(None, 3, 200, 100));
    assert!(!build_is_complete(Some(10), 9, 1000, 1));
    assert!(build_is_complete(Some(10), 10, 0, 1));
}
