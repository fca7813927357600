//! Random access to the item leaves during a build.
//!
//! The leaves are stored in ascending id order, all of the same length. A
//! compressed bitmap of their ids turns an item id into the position of its
//! leaf: the number of smaller ids. A subset of the items is a bitmap too, from
//! which items are drawn by their rank.
use crate::bitmap::{
    bitmap_contains, bitmap_from_ids, bitmap_ids, bitmap_len, bitmap_new, bitmap_push,
    bitmap_rank, bitmap_select, count_below,
};
use roaring::RoaringBitmap;
use vstd::prelude::*;

verus! {

proof fn lemma_rank_of_member(s: Set<u32>, x: u32)
    requires
        s.finite(),
        s.contains(x),
    ensures
        s.filter(|y: u32| y <= x).len() == count_below(s, x) + 1,
{
    let below = s.filter(|y: u32| y < x);
    s.lemma_len_filter(|y: u32| y < x);
    assert(s.filter(|y: u32| y <= x) =~= below.insert(x));
}

/// Why a leaf could not be added to the index.
#[derive(Debug, Clone, Copy, PartialEq, Eq, Structural)]
pub enum LeafIndexError {
    /// The leaf's length differs from that of the leaves before it.
    LengthMismatch,
    /// The item id is not above every id added before it.
    NotAscending,
}

/// The ids of the leaves and their common length.
pub struct LeafIndexView {
    pub ids: Set<u32>,
    pub constant_length: Option<usize>,
}

/// The ids of the item leaves, in ascending order, and their common length.
/// The leaf of an id lies at the position that `slot` gives.
#[derive(Debug)]
pub struct LeafIndex {
    leaf_ids: RoaringBitmap,
    constant_length: Option<usize>,
}

impl View for LeafIndex {
    type V = LeafIndexView;

    closed spec fn view(&self) -> LeafIndexView {
        LeafIndexView { ids: bitmap_ids(self.leaf_ids), constant_length: self.constant_length }
    }
}

impl LeafIndex {
    /// The id set is finite, and a length is known once there is a leaf.
    pub open spec fn wf(&self) -> bool {
        &&& self@.ids.finite()
        &&& self@.constant_length is None ==> self@.ids.is_empty()
    }

    /// No leaf yet.
    pub fn new() -> (r: LeafIndex)
        ensures
            r.wf(),
            r@.ids.is_empty(),
            r@.constant_length is None,
    {
        LeafIndex { leaf_ids: bitmap_new(), constant_length: None }
    }

    /// Adds the leaf of `item_id`, `len` bytes long. Refused (and nothing
    /// changes) when the length differs from that of the leaves before, or
    /// when the id is not above all of theirs.
    pub fn push(&mut self, item_id: u32, len: usize) -> (r: Result<(), LeafIndexError>)
        requires
            old(self).wf(),
        ensures
            final(self).wf(),
            r == Err::<(), LeafIndexError>(LeafIndexError::LengthMismatch) <==> (old(
                self,
            )@.constant_length matches Some(c) && c != len),
            r == Err::<(), LeafIndexError>(LeafIndexError::NotAscending) <==> (!(old(
                self,
            )@.constant_length matches Some(c) && c != len) && exists|x: u32|
                old(self)@.ids.contains(x) && x >= item_id),
            r is Ok ==> final(self)@ == (LeafIndexView {
                ids: old(self)@.ids.insert(item_id),
                constant_length: Some(len),
            }),
            r is Err ==> final(self)@ == old(self)@,
    {
        match self.constant_length {
            Some(c) => {
                if c != len {
                    return Err(LeafIndexError::LengthMismatch);
                }
            },
            None => {},
        }
        if bitmap_push(&mut self.leaf_ids, item_id) {
            self.constant_length = Some(len);
            Ok(())
        } else {
            assert(exists|x: u32| old(self)@.ids.contains(x) && x >= item_id);
            Err(LeafIndexError::NotAscending)
        }
    }

    /// The common length of the leaves, once there is one.
    pub fn constant_length(&self) -> (r: Option<usize>)
        ensures
            r == self@.constant_length,
    {
        self.constant_length
    }

    /// The number of leaves.
    pub fn len(&self) -> (r: u64)
        ensures
            r == self@.ids.len(),
    {
        bitmap_len(&self.leaf_ids)
    }

    /// The position of the leaf of `item_id` among the leaves, or `None` when
    /// there is no such leaf.
    pub fn slot(&self, item_id: u32) -> (r: Option<u64>)
        requires
            self.wf(),
        ensures
            r == (if self@.ids.contains(item_id) {
                Some(count_below(self@.ids, item_id) as u64)
            } else {
                None::<u64>
            }),
    {
        if !bitmap_contains(&self.leaf_ids, item_id) {
            return None;
        }
        let rank = bitmap_rank(&self.leaf_ids, item_id);
        proof {
            lemma_rank_of_member(self@.ids, item_id);
        }
        Some(rank - 1)
    }
}

/// The ids of a subset of the items, from which items are drawn.
#[derive(Debug)]
pub struct SubsetIndex {
    subset: RoaringBitmap,
}

impl View for SubsetIndex {
    type V = Set<u32>;

    closed spec fn view(&self) -> Set<u32> {
        bitmap_ids(self.subset)
    }
}

impl SubsetIndex {
    /// The subset of the given ids.
    pub fn from_item_ids(ids: &[u32]) -> (r: SubsetIndex)
        ensures
            r@ == ids@.to_set(),
    {
        SubsetIndex { subset: bitmap_from_ids(ids) }
    }

    /// Whether `item_id` is in the subset.
    pub fn contains(&self, item_id: u32) -> (r: bool)
        ensures
            r == self@.contains(item_id),
    {
        bitmap_contains(&self.subset, item_id)
    }

    /// The number of items in the subset.
    pub fn len(&self) -> (r: u64)
        ensures
            r == self@.len(),
    {
        bitmap_len(&self.subset)
    }

    /// The `n`-th smallest item of the subset, counting from zero.
    pub fn pick(&self, n: u32) -> (r: Option<u32>)
        ensures
            r is None <==> n >= self@.len(),
            r matches Some(x) ==> self@.contains(x) && count_below(self@, x) == n,
    {
        bitmap_select(&self.subset, n)
    }

    /// The `i`-th and the `j`-th smallest items of the subset, when both exist.
    pub fn pick_two(&self, i: u32, j: u32) -> (r: Option<(u32, u32)>)
        ensures
            r is None <==> (i >= self@.len() || j >= self@.len()),
            r matches Some((a, b)) ==> {
                &&& self@.contains(a) && count_below(self@, a) == i
                &&& self@.contains(b) && count_below(self@, b) == j
            },
    {
        match (self.pick(i), self.pick(j)) {
            (Some(a), Some(b)) => Some((a, b)),
            _ => None,
        }
    }
}

} // verus!
