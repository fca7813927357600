//! The candidates that a query gathers while it walks the trees.
//!
//! Items reach the candidates from leaves and descendants nodes. An item
//! enters once, in the order in which it was first met, and only when the
//! query's filter, if any, holds it.
use crate::bitmap::{bitmap_contains, bitmap_ids, bitmap_insert, bitmap_new};
use crate::codec::{Node, NodeView};
use roaring::RoaringBitmap;
use vstd::prelude::*;

verus! {

/// The filter lets `id` through: there is none, or it holds `id`.
pub open spec fn admits(filter: Option<&RoaringBitmap>, id: u32) -> bool {
    match filter {
        None => true,
        Some(f) => bitmap_ids(*f).contains(id),
    }
}

/// The candidates after meeting `ids` in turn: each one that the filter lets
/// through and that is not yet a candidate is appended.
pub open spec fn gather(c: Seq<u32>, ids: Seq<u32>, filter: Option<&RoaringBitmap>) -> Seq<u32>
    decreases ids.len(),
{
    if ids.len() == 0 {
        c
    } else {
        let before = gather(c, ids.drop_last(), filter);
        if admits(filter, ids.last()) && !before.contains(ids.last()) {
            before.push(ids.last())
        } else {
            before
        }
    }
}

proof fn lemma_gather_one(c: Seq<u32>, id: u32, filter: Option<&RoaringBitmap>)
    ensures
        gather(c, seq![id], filter) == if admits(filter, id) && !c.contains(id) {
            c.push(id)
        } else {
            c
        },
{
    assert(seq![id].drop_last() =~= Seq::<u32>::empty());
    reveal_with_fuel(gather, 2);
}

/// The candidate items of a query, without repetition, in the order met.
#[derive(Debug)]
pub struct Candidates {
    ids: Vec<u32>,
    seen: RoaringBitmap,
}

impl View for Candidates {
    type V = Seq<u32>;

    closed spec fn view(&self) -> Seq<u32> {
        self.ids@
    }
}

impl Candidates {
    /// No candidate repeats, and the bitmap of those seen holds exactly the candidates.
    pub closed spec fn wf(&self) -> bool {
        &&& self.ids@.no_duplicates()
        &&& bitmap_ids(self.seen) == self.ids@.to_set()
    }

    /// No candidate yet.
    pub fn new() -> (r: Candidates)
        ensures
            r.wf(),
            r@ == Seq::<u32>::empty(),
    {
        let r = Candidates { ids: Vec::new(), seen: bitmap_new() };
        assert(r.ids@.to_set() =~= Set::<u32>::empty());
        r
    }

    /// The number of candidates.
    pub fn len(&self) -> (r: usize)
        ensures
            r == self@.len(),
    {
        self.ids.len()
    }

    /// Meets item `id`: it becomes a candidate if the filter lets it through and
    /// it is not one yet. The result says whether it did.
    pub fn insert(&mut self, id: u32, filter: Option<&RoaringBitmap>) -> (r: bool)
        requires
            old(self).wf(),
        ensures
            final(self).wf(),
            r == (admits(filter, id) && !old(self)@.contains(id)),
            final(self)@ == gather(old(self)@, seq![id], filter),
    {
        proof {
            lemma_gather_one(self@, id, filter);
        }
        let allowed = match filter {
            None => true,
            Some(f) => bitmap_contains(f, id),
        };
        if !allowed {
            return false;
        }
        let ghost before = self.ids@;
        if bitmap_insert(&mut self.seen, id) {
            self.ids.push(id);
            proof {
                assert(!before.contains(id));
                assert(self.ids@ == before.push(id));
                before.lemma_push_to_set_commute(id);
                assert forall|i: int, j: int|
                    0 <= i < self.ids@.len() && 0 <= j < self.ids@.len() && i != j implies
                    self.ids@[i] != self.ids@[j] by {
                    if i < before.len() && j < before.len() {
                        assert(self.ids@[i] == before[i]);
                        assert(self.ids@[j] == before[j]);
                    } else if i < before.len() {
                        assert(self.ids@[i] == before[i]);
                        assert(before.contains(before[i]));
                    } else {
                        assert(self.ids@[j] == before[j]);
                        assert(before.contains(before[j]));
                    }
                }
            }
            true
        } else {
            proof {
                assert(before.to_set().contains(id));
                assert(bitmap_ids(self.seen) =~= before.to_set());
            }
            false
        }
    }

    /// Meets the items of a descendants node, in their order.
    pub fn insert_all(&mut self, ids: &[u32], filter: Option<&RoaringBitmap>)
        requires
            old(self).wf(),
        ensures
            final(self).wf(),
            final(self)@ == gather(old(self)@, ids@, filter),
    {
        let mut i: usize = 0;
        while i < ids.len()
            invariant
                i <= ids@.len(),
                self.wf(),
                self@ == gather(old(self)@, ids@.take(i as int), filter),
            decreases ids@.len() - i,
        {
            let ghost before = self@;
            self.insert(ids[i], filter);
            proof {
                let t = ids@.take(i + 1);
                assert(t.drop_last() =~= ids@.take(i as int));
                lemma_gather_one(before, ids@[i as int], filter);
            }
            i = i + 1;
        }
        assert(ids@.take(i as int) =~= ids@);
    }

    /// Meets node `id`: a leaf is a candidate itself, a descendants node
    /// brings the items it lists; a split node brings none, and its normal
    /// and its two subtrees are handed back to be scored.
    pub fn visit(&mut self, id: u32, node: Node, filter: Option<&RoaringBitmap>) -> (r: Option<
        (Vec<u8>, u32, u32),
    >)
        requires
            old(self).wf(),
        ensures
            final(self).wf(),
            match node@ {
                NodeView::Leaf { .. } => r is None && final(self)@ == gather(
                    old(self)@,
                    seq![id],
                    filter,
                ),
                NodeView::Descendants { descendants } => r is None && final(self)@ == gather(
                    old(self)@,
                    descendants,
                    filter,
                ),
                NodeView::SplitPlaneNormal { normal, left, right } => {
                    &&& final(self)@ == old(self)@
                    &&& r matches Some((n, l, rt)) && n@ == normal && l == left && rt == right
                },
            },
    {
        match node {
            Node::Leaf { .. } => {
                self.insert(id, filter);
                None
            },
            Node::Descendants { descendants } => {
                self.insert_all(descendants.as_slice(), filter);
                None
            },
            Node::SplitPlaneNormal { normal, left, right } => Some((normal, left, right)),
        }
    }

    /// The candidates, in the order met.
    pub fn into_ids(self) -> (r: Vec<u32>)
        ensures
            r@ == self@,
    {
        self.ids
    }
}

/// Every candidate passes the filter and none repeats, whatever items are met,
/// as long as that held of the candidates before; those stay first, in their order.
pub proof fn lemma_gather_respects_filter(
    c: Seq<u32>,
    ids: Seq<u32>,
    filter: Option<&RoaringBitmap>,
)
    requires
        c.no_duplicates(),
        forall|i: int| 0 <= i < c.len() ==> admits(filter, #[trigger] c[i]),
    ensures
        gather(c, ids, filter).len() >= c.len(),
        gather(c, ids, filter).no_duplicates(),
        forall|i: int|
            0 <= i < gather(c, ids, filter).len() ==> admits(
                filter,
                #[trigger] gather(c, ids, filter)[i],
            ),
        forall|x: u32| #[trigger] gather(c, ids, filter).contains(x) ==> c.contains(x) || ids.contains(x),
        gather(c, ids, filter).subrange(0, c.len() as int) == c,
    decreases ids.len(),
{
    if ids.len() > 0 {
        let p = ids.drop_last();
        let before = gather(c, p, filter);
        lemma_gather_respects_filter(c, p, filter);
        let r = gather(c, ids, filter);
        assert forall|x: u32| #[trigger] r.contains(x) implies c.contains(x) || ids.contains(x) by {
            if before.contains(x) {
                if p.contains(x) {
                    let j = choose|j: int| 0 <= j < p.len() && p[j] == x;
                    assert(ids[j] == x);
                }
            } else {
                assert(x == ids.last());
                assert(ids[ids.len() - 1] == x);
            }
        }
        if admits(filter, ids.last()) && !before.contains(ids.last()) {
            assert(r.subrange(0, c.len() as int) =~= before.subrange(0, c.len() as int));
            assert forall|i: int, j: int|
                0 <= i < r.len() && 0 <= j < r.len() && i != j implies r[i] != r[j] by {
                if i < before.len() && j < before.len() {
                } else if i < before.len() {
                    assert(before.contains(before[i]));
                } else {
                    assert(before.contains(before[j]));
                }
            }
        }
    }
}

/// The search budget when the caller gives none: twice `k` candidates per tree,
/// saturating at `usize::MAX`.
pub fn default_search_k(k: usize, n_trees: usize) -> (r: usize)
    ensures
        r == if 2 * (k * n_trees) <= usize::MAX {
            2 * (k * n_trees)
        } else {
            usize::MAX as int
        },
{
    match k.checked_mul(n_trees) {
        Some(a) => match a.checked_mul(2) {
            Some(b) => b,
            None => usize::MAX,
        },
        None => {
            assert(k * n_trees > usize::MAX);
            usize::MAX
        },
    }
}

} // verus!
