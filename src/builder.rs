//! The decisions of the tree builder.
//!
//! A tree is built depth first over an explicit stack of frames. The builder
//! decides, for each group of items, whether the group stands for itself, is
//! written as a descendants node, or must be split; it allocates node ids and
//! says which nodes to write. The split planes themselves are computed by the
//! caller, who hands back the side of each item; the builder then decides
//! whether the split is kept, tried again, or replaced by a random one.
use crate::node_ids::ConcurrentNodeIds;
use crate::split::{
    imbalance_above, imbalance_below, on_side, partition_by_side, split_is_balanced,
    split_is_degenerate, Side,
};
use vstd::prelude::*;

verus! {

/// How many times a split is tried again before the last attempt is kept.
pub const SPLIT_RETRIES: u32 = 3;

/// A piece of work on the builder's stack.
#[derive(Debug)]
pub enum Frame {
    /// Build the subtree of these items.
    Make { indices: Vec<u32>, is_root: bool },
    /// Write the split node over the two subtrees built last.
    Join { plane: Option<usize> },
}

/// What a frame holds.
pub enum FrameView {
    Make { indices: Seq<u32>, is_root: bool },
    Join { plane: Option<usize> },
}

impl View for Frame {
    type V = FrameView;

    open spec fn view(&self) -> FrameView {
        match self {
            Frame::Make { indices, is_root } => FrameView::Make {
                indices: indices@,
                is_root: *is_root,
            },
            Frame::Join { plane } => FrameView::Join { plane: *plane },
        }
    }
}

/// What the builder expects its caller to do next.
#[derive(Debug, Clone, Copy, PartialEq, Eq, Structural)]
pub enum Phase {
    /// Call `next_action`.
    Walking,
    /// Compute a split plane for the pending items and call `split_attempt`.
    Splitting,
    /// Draw a random side for each pending item and call `random_split`.
    Randomizing,
}

/// What the caller is to do.
#[derive(Debug)]
pub enum Action {
    /// The subtree is the item itself: nothing to write.
    Reuse { item: u32 },
    /// Write a descendants node listing these items under `id`.
    WriteDescendants { id: u32, descendants: Vec<u32> },
    /// Compute a split plane over these items (the phase is now `Splitting`).
    NeedSplit { indices: Vec<u32> },
    /// Write a split node under `id`, over the subtrees `left` and `right`.
    /// Its normal is the plane with that handle, or all zeros for `None`.
    WriteSplit { id: u32, plane: Option<usize>, left: u32, right: u32 },
    /// The tree is complete; this is its root.
    Done { root: u32 },
    /// No tree is being built.
    Idle,
    /// The next node would take the id reserved for the metadata.
    OutOfIds,
}

/// What an action holds.
pub enum ActionView {
    Reuse { item: u32 },
    WriteDescendants { id: u32, descendants: Seq<u32> },
    NeedSplit { indices: Seq<u32> },
    WriteSplit { id: u32, plane: Option<usize>, left: u32, right: u32 },
    Done { root: u32 },
    Idle,
    OutOfIds,
}

impl View for Action {
    type V = ActionView;

    open spec fn view(&self) -> ActionView {
        match self {
            Action::Reuse { item } => ActionView::Reuse { item: *item },
            Action::WriteDescendants { id, descendants } => ActionView::WriteDescendants {
                id: *id,
                descendants: descendants@,
            },
            Action::NeedSplit { indices } => ActionView::NeedSplit { indices: indices@ },
            Action::WriteSplit { id, plane, left, right } => ActionView::WriteSplit {
                id: *id,
                plane: *plane,
                left: *left,
                right: *right,
            },
            Action::Done { root } => ActionView::Done { root: *root },
            Action::Idle => ActionView::Idle,
            Action::OutOfIds => ActionView::OutOfIds,
        }
    }
}

/// What became of a proposed split.
#[derive(Debug, Clone, Copy, PartialEq, Eq, Structural)]
pub enum SplitVerdict {
    /// The split is kept; the phase is `Walking` again.
    Accepted,
    /// Compute another split plane for the same items.
    Retry,
    /// Give up on planes: the phase is now `Randomizing`.
    Randomize,
}

/// The state of a builder: the index it builds for, the next node id, the
/// stack of frames, the roots of the subtrees finished and not yet joined,
/// and where the pending split stands.
pub struct BuilderView {
    pub dimensions: nat,
    pub n_items: nat,
    pub first_id: u32,
    pub next_id: u32,
    pub stack: Seq<FrameView>,
    pub results: Seq<u32>,
    pub attempts_left: u32,
    pub phase: Phase,
}

/// Builds the trees of one index, one at a time.
#[derive(Debug)]
pub struct TreeBuilder {
    dimensions: usize,
    n_items: usize,
    first_id: u32,
    ids: ConcurrentNodeIds,
    stack: Vec<Frame>,
    results: Vec<u32>,
    attempts_left: u32,
    phase: Phase,
}

impl View for TreeBuilder {
    type V = BuilderView;

    closed spec fn view(&self) -> BuilderView {
        BuilderView {
            dimensions: self.dimensions as nat,
            n_items: self.n_items as nat,
            first_id: self.first_id,
            next_id: self.ids@,
            stack: self.stack@.map_values(|f: Frame| f@),
            results: self.results@,
            attempts_left: self.attempts_left,
            phase: self.phase,
        }
    }
}

/// Subtrees still to be built on the stack, less the split nodes still to be written.
pub open spec fn net(s: Seq<FrameView>) -> int
    decreases s.len(),
{
    if s.len() == 0 {
        0
    } else {
        net(s.drop_last()) + if s.last() is Make {
            1int
        } else {
            -1int
        }
    }
}

/// A group of items that is its own subtree: a single item below the root.
pub open spec fn stands_alone(indices: Seq<u32>, is_root: bool) -> bool {
    indices.len() == 1 && !is_root
}

/// A group of items that is written as one descendants node: at most
/// `dimensions` items, unless it is the root of an index with more items than that.
pub open spec fn fits_descendants(
    indices: Seq<u32>,
    is_root: bool,
    dimensions: nat,
    n_items: nat,
) -> bool {
    indices.len() <= dimensions && (!is_root || n_items <= dimensions || indices.len() == 1)
}

/// The stack and the finished subtrees fit together, and every item id is
/// below the first node id.
pub open spec fn builder_wf(v: BuilderView) -> bool {
    &&& (v.stack.len() == 0 && v.results.len() == 0) || v.results.len() + net(v.stack) == 1
    &&& forall|i: int| 0 <= i < v.stack.len() ==> net(#[trigger] v.stack.take(i)) <= 0
    &&& v.phase != Phase::Walking ==> v.stack.len() > 0 && v.stack.last() is Make
    &&& v.first_id <= v.next_id
    &&& forall|i: int, j: int|
        0 <= i < v.stack.len() && v.stack[i] is Make && 0 <= j < v.stack[i]->indices.len()
            ==> #[trigger] v.stack[i]->indices[j] < v.first_id
    &&& forall|k: int| 0 <= k < v.results.len() ==> #[trigger] v.results[k] < v.next_id
}

/// What `next_action` does: one frame of the stack is handled.
pub open spec fn walk_step(v: BuilderView, w: BuilderView, a: ActionView) -> bool {
    let kept = w.dimensions == v.dimensions && w.n_items == v.n_items && w.first_id
        == v.first_id;
    let unchanged = w == v;
    kept && if v.stack.len() == 0 {
        if v.results.len() == 0 {
            a == ActionView::Idle && unchanged
        } else {
            a == ActionView::Done { root: v.results[0] } && w == BuilderView {
                results: Seq::empty(),
                ..v
            }
        }
    } else {
        match v.stack.last() {
            FrameView::Make { indices, is_root } => if stands_alone(indices, is_root) {
                a == ActionView::Reuse { item: indices[0] } && w == BuilderView {
                    stack: v.stack.drop_last(),
                    results: v.results.push(indices[0]),
                    ..v
                }
            } else if fits_descendants(indices, is_root, v.dimensions, v.n_items) {
                if v.next_id == u32::MAX {
                    a == ActionView::OutOfIds && unchanged
                } else {
                    a == ActionView::WriteDescendants { id: v.next_id, descendants: indices }
                        && w == BuilderView {
                        next_id: (v.next_id + 1) as u32,
                        stack: v.stack.drop_last(),
                        results: v.results.push(v.next_id),
                        ..v
                    }
                }
            } else {
                a == ActionView::NeedSplit { indices } && w == BuilderView {
                    phase: Phase::Splitting,
                    attempts_left: SPLIT_RETRIES,
                    ..v
                }
            },
            FrameView::Join { plane } => if v.next_id == u32::MAX {
                a == ActionView::OutOfIds && unchanged
            } else {
                let n = v.results.len() as int;
                a == ActionView::WriteSplit {
                    id: v.next_id,
                    plane,
                    left: v.results[n - 2],
                    right: v.results[n - 1],
                } && w == BuilderView {
                    next_id: (v.next_id + 1) as u32,
                    stack: v.stack.drop_last(),
                    results: v.results.take(n - 2).push(v.next_id),
                    ..v
                }
            },
        }
    }
}

/// The stack once the pending items are split into `left` and `right`: the left
/// subtree is built first, then the right one, then the split node is written.
pub open spec fn split_stack(
    stack: Seq<FrameView>,
    plane: Option<usize>,
    left: Seq<u32>,
    right: Seq<u32>,
) -> Seq<FrameView> {
    stack.drop_last().push(FrameView::Join { plane }).push(
        FrameView::Make { indices: right, is_root: false },
    ).push(FrameView::Make { indices: left, is_root: false })
}

proof fn lemma_net_push(s: Seq<FrameView>, f: FrameView)
    ensures
        net(s.push(f)) == net(s) + if f is Make {
            1int
        } else {
            -1int
        },
{
    assert(s.push(f).drop_last() =~= s);
}

/// Whether enough trees are built: `n_trees` of them when it is given, else
/// as many as it takes for the store to hold twice as many nodes as items.
pub fn build_is_complete(n_trees: Option<usize>, n_roots: usize, n_nodes: u64, n_items: usize) -> (r:
    bool)
    ensures
        r == match n_trees {
            Some(n) => n_roots >= n,
            None => n_nodes >= 2 * n_items,
        },
{
    match n_trees {
        Some(n) => n_roots >= n,
        None => (n_nodes as u128) >= 2 * (n_items as u128),
    }
}

/// Every node that the builder has written is below the next id; a
/// descendants node lists items only, at most `dimensions` of them, under a
/// fresh id; a split node takes a fresh id above both of its subtrees; ids
/// only grow.
pub proof fn lemma_written_nodes(v: BuilderView, w: BuilderView, a: ActionView)
    requires
        builder_wf(v),
        v.phase == Phase::Walking,
        walk_step(v, w, a),
    ensures
        v.next_id <= w.next_id,
        a matches ActionView::WriteDescendants { id, descendants } ==> {
            &&& v.first_id <= id && id == v.next_id && id < w.next_id
            &&& descendants.len() <= v.dimensions
            &&& forall|k: int|
                0 <= k < descendants.len() ==> #[trigger] descendants[k] < v.first_id
        },
        a matches ActionView::WriteSplit { id, left, right, .. } ==> {
            &&& v.first_id <= id && id == v.next_id && id < w.next_id
            &&& left < id && right < id
        },
        a matches ActionView::Reuse { item } ==> item < v.first_id,
        a matches ActionView::Done { root } ==> root < w.next_id,
{
    if v.stack.len() > 0 {
        let n = v.stack.len() - 1;
        if v.stack.last() is Make {
            assert(v.stack[n] == v.stack.last());
        } else if v.next_id != u32::MAX {
            let m = v.results.len() as int;
            assert(v.stack =~= v.stack.drop_last().push(v.stack.last()));
            assert(v.stack.take(n) =~= v.stack.drop_last());
            lemma_net_push(v.stack.drop_last(), v.stack.last());
            assert(v.results[m - 2] < v.next_id);
            assert(v.results[m - 1] < v.next_id);
        }
    } else if v.results.len() > 0 {
        assert(v.results[0] < v.next_id);
    }
}

/// The builder decides alone: from one state, handling the top frame always
/// gives the same action and the same next state.
pub proof fn lemma_walk_step_deterministic(
    v: BuilderView,
    w1: BuilderView,
    a1: ActionView,
    w2: BuilderView,
    a2: ActionView,
)
    requires
        walk_step(v, w1, a1),
        walk_step(v, w2, a2),
    ensures
        w1 == w2,
        a1 == a2,
{
}

impl TreeBuilder {
    /// The builder is consistent; every public operation keeps it so.
    pub open spec fn wf(&self) -> bool {
        builder_wf(self@)
    }

    /// A builder for an index of `dimensions` dimensions holding `n_items`
    /// items, whose node ids start at `first_id`, after every item id.
    pub fn new(dimensions: usize, n_items: usize, first_id: u32) -> (r: TreeBuilder)
        ensures
            r.wf(),
            r@ == (BuilderView {
                dimensions: dimensions as nat,
                n_items: n_items as nat,
                first_id,
                next_id: first_id,
                stack: Seq::empty(),
                results: Seq::empty(),
                attempts_left: SPLIT_RETRIES,
                phase: Phase::Walking,
            }),
    {
        let r = TreeBuilder {
            dimensions,
            n_items,
            first_id,
            ids: ConcurrentNodeIds::new(first_id),
            stack: Vec::new(),
            results: Vec::new(),
            attempts_left: SPLIT_RETRIES,
            phase: Phase::Walking,
        };
        assert(r@.stack =~= Seq::<FrameView>::empty());
        r
    }

    /// No tree is being built.
    pub fn is_idle(&self) -> (r: bool)
        ensures
            r == (self@.stack.len() == 0 && self@.results.len() == 0),
    {
        self.stack.len() == 0 && self.results.len() == 0
    }

    /// What the builder expects next.
    pub fn phase(&self) -> (r: Phase)
        ensures
            r == self@.phase,
    {
        self.phase
    }

    /// The id that the next node written will take.
    pub fn next_id(&self) -> (r: u32)
        ensures
            r == self@.next_id,
    {
        self.ids.current()
    }

    /// The number of items whose split is pending, if a split is pending.
    pub fn pending_len(&self) -> (r: Option<usize>)
        requires
            self.wf(),
        ensures
            r == (if self@.phase == Phase::Walking {
                None
            } else {
                Some(self@.stack.last()->indices.len() as usize)
            }),
    {
        proof {
            self.lemma_view_stack();
        }
        if self.phase == Phase::Walking {
            None
        } else {
            match &self.stack[self.stack.len() - 1] {
                Frame::Make { indices, .. } => Some(indices.len()),
                Frame::Join { .. } => None,
            }
        }
    }

    proof fn lemma_view_stack(&self)
        ensures
            self@.stack.len() == self.stack@.len(),
            forall|i: int| 0 <= i < self.stack@.len() ==> #[trigger] self@.stack[i] == self.stack@[i]@,
    {
    }

    /// Starts a tree over `indices`; refused (and nothing changes) unless every
    /// index is below the first node id.
    pub fn start_tree(&mut self, indices: Vec<u32>) -> (r: bool)
        requires
            old(self).wf(),
            old(self)@.stack.len() == 0,
            old(self)@.results.len() == 0,
            old(self)@.phase == Phase::Walking,
        ensures
            final(self).wf(),
            r == (forall|j: int| 0 <= j < indices@.len() ==> indices@[j] < old(self)@.first_id),
            r ==> final(self)@ == (BuilderView {
                stack: seq![FrameView::Make { indices: indices@, is_root: true }],
                ..old(self)@
            }),
            !r ==> final(self)@ == old(self)@,
    {
        let mut j: usize = 0;
        while j < indices.len()
            invariant
                j <= indices@.len(),
                self@ == old(self)@,
                self.wf(),
                forall|k: int| 0 <= k < j ==> indices@[k] < self.first_id,
            decreases indices@.len() - j,
        {
            if indices[j] >= self.first_id {
                return false;
            }
            j = j + 1;
        }
        self.stack.push(Frame::Make { indices, is_root: true });
        proof {
            let v = self@;
            assert(v.stack =~= seq![FrameView::Make { indices: indices@, is_root: true }]);
            assert(v.stack.take(0) =~= Seq::<FrameView>::empty());
            assert(v.stack.drop_last() =~= Seq::<FrameView>::empty());
            assert forall|i: int| 0 <= i < v.stack.len() implies net(
                #[trigger] v.stack.take(i),
            ) <= 0 by {
                assert(i == 0);
            }
        }
        true
    }

    /// Handles the top frame of the stack.
    pub fn next_action(&mut self) -> (r: Action)
        requires
            old(self).wf(),
            old(self)@.phase == Phase::Walking,
        ensures
            final(self).wf(),
            walk_step(old(self)@, final(self)@, r@),
    {
        proof {
            self.lemma_view_stack();
        }
        let ghost v = self@;
        let n = self.stack.len();
        if n == 0 {
            if self.results.len() == 0 {
                return Action::Idle;
            }
            let root = self.results[0];
            self.results.clear();
            assert(self@ == BuilderView { results: Seq::empty(), ..v });
            return Action::Done { root };
        }
        proof {
            assert(v.stack.take(n - 1) =~= v.stack.drop_last());
            assert(v.stack =~= v.stack.drop_last().push(v.stack.last()));
            lemma_net_push(v.stack.drop_last(), v.stack.last());
        }
        let is_make = match &self.stack[n - 1] {
            Frame::Make { .. } => true,
            Frame::Join { .. } => false,
        };
        if is_make {
            let (alone, fits) = match &self.stack[n - 1] {
                Frame::Make { indices, is_root } => (
                    indices.len() == 1 && !*is_root,
                    indices.len() <= self.dimensions && (!*is_root || self.n_items
                        <= self.dimensions || indices.len() == 1),
                ),
                Frame::Join { .. } => (false, false),
            };
            if !alone && !fits {
                let indices = match &self.stack[n - 1] {
                    Frame::Make { indices, .. } => indices.clone(),
                    Frame::Join { .. } => Vec::new(),
                };
                assert(indices@ =~= v.stack.last()->indices);
                self.phase = Phase::Splitting;
                self.attempts_left = SPLIT_RETRIES;
                assert(self@ == BuilderView {
                    phase: Phase::Splitting,
                    attempts_left: SPLIT_RETRIES,
                    ..v
                });
                return Action::NeedSplit { indices };
            }
            if !alone && self.ids.current() == u32::MAX {
                return Action::OutOfIds;
            }
            let frame = self.stack.pop().unwrap();
            let indices = match frame {
                Frame::Make { indices, .. } => indices,
                Frame::Join { .. } => Vec::new(),
            };
            assert(self@.stack =~= v.stack.drop_last());
            if alone {
                let item = indices[0];
                self.results.push(item);
                proof {
                    self.lemma_keep_wf_after_pop(v, item);
                }
                Action::Reuse { item }
            } else {
                let id = self.ids.next();
                self.results.push(id);
                proof {
                    self.lemma_keep_wf_after_pop(v, id);
                }
                Action::WriteDescendants { id, descendants: indices }
            }
        } else {
            if self.ids.current() == u32::MAX {
                return Action::OutOfIds;
            }
            let frame = self.stack.pop().unwrap();
            let plane = match frame {
                Frame::Join { plane } => plane,
                Frame::Make { .. } => None,
            };
            assert(self@.stack =~= v.stack.drop_last());
            let m = self.results.len();
            assert(m >= 2);
            let right = self.results.pop().unwrap();
            let left = self.results.pop().unwrap();
            let id = self.ids.next();
            self.results.push(id);
            proof {
                assert(self@.results =~= v.results.take(m - 2).push(v.next_id));
                assert forall|k: int| 0 <= k < self@.results.len() implies #[trigger] self@.results[k]
                    < self@.next_id by {
                    if k < m - 2 {
                        assert(self@.results[k] == v.results[k]);
                    }
                }
                assert forall|i: int| 0 <= i < self@.stack.len() implies net(
                    #[trigger] self@.stack.take(i),
                ) <= 0 by {
                    assert(self@.stack.take(i) =~= v.stack.take(i));
                }
            }
            Action::WriteSplit { id, plane, left, right }
        }
    }

    /// The items of the pending split.
    fn pending_indices(&self) -> (r: Vec<u32>)
        requires
            self.wf(),
            self@.phase != Phase::Walking,
        ensures
            r@ == self@.stack.last()->indices,
    {
        proof {
            self.lemma_view_stack();
        }
        match &self.stack[self.stack.len() - 1] {
            Frame::Make { indices, .. } => indices.clone(),
            Frame::Join { .. } => Vec::new(),
        }
    }

    /// Replaces the pending items by their two halves and the split node over them.
    fn accept(&mut self, plane: Option<usize>, left: Vec<u32>, right: Vec<u32>)
        requires
            old(self).wf(),
            old(self)@.phase != Phase::Walking,
            forall|k: int|
                0 <= k < left@.len() ==> old(self)@.stack.last()->indices.contains(
                    #[trigger] left@[k],
                ),
            forall|k: int|
                0 <= k < right@.len() ==> old(self)@.stack.last()->indices.contains(
                    #[trigger] right@[k],
                ),
        ensures
            final(self).wf(),
            final(self)@ == (BuilderView {
                stack: split_stack(old(self)@.stack, plane, left@, right@),
                phase: Phase::Walking,
                ..old(self)@
            }),
    {
        let ghost v = self@;
        proof {
            self.lemma_view_stack();
        }
        let _ = self.stack.pop();
        self.stack.push(Frame::Join { plane });
        self.stack.push(Frame::Make { indices: right, is_root: false });
        self.stack.push(Frame::Make { indices: left, is_root: false });
        self.phase = Phase::Walking;
        proof {
            let w = self@;
            let p = v.stack.drop_last();
            let n = v.stack.len() as int;
            let pj = p.push(FrameView::Join { plane });
            let pjr = pj.push(FrameView::Make { indices: right@, is_root: false });
            assert(w.stack =~= split_stack(v.stack, plane, left@, right@));
            assert(w.stack == pjr.push(FrameView::Make { indices: left@, is_root: false }));
            assert(v.stack =~= p.push(v.stack.last()));
            assert(v.stack.take(n - 1) =~= p);
            lemma_net_push(p, v.stack.last());
            lemma_net_push(p, FrameView::Join { plane });
            lemma_net_push(pj, FrameView::Make { indices: right@, is_root: false });
            lemma_net_push(pjr, FrameView::Make { indices: left@, is_root: false });
            assert forall|i: int| 0 <= i < w.stack.len() implies net(#[trigger] w.stack.take(i))
                <= 0 by {
                if i < n - 1 {
                    assert(w.stack.take(i) =~= v.stack.take(i));
                } else if i == n - 1 {
                    assert(w.stack.take(i) =~= p);
                } else if i == n {
                    assert(w.stack.take(i) =~= pj);
                } else {
                    assert(w.stack.take(i) =~= pjr);
                }
            }
            let ix = v.stack.last()->indices;
            assert forall|i: int, j: int|
                0 <= i < w.stack.len() && w.stack[i] is Make && 0 <= j
                    < w.stack[i]->indices.len() implies #[trigger] w.stack[i]->indices[j]
                < w.first_id by {
                if i < n - 1 {
                    assert(w.stack[i] == v.stack[i]);
                } else if i == n {
                    assert(w.stack[i]->indices == right@);
                    let x = right@[j];
                    assert(ix.contains(x));
                    let t = choose|t: int| 0 <= t < ix.len() && ix[t] == x;
                    assert(v.stack[n - 1]->indices[t] == x);
                } else {
                    assert(i == n + 1);
                    assert(w.stack[i]->indices == left@);
                    let x = left@[j];
                    assert(ix.contains(x));
                    let t = choose|t: int| 0 <= t < ix.len() && ix[t] == x;
                    assert(v.stack[n - 1]->indices[t] == x);
                }
            }
        }
    }

    /// Weighs a proposed split of the pending items: `sides[i]` is the side of the
    /// `i`-th pending item, `plane` the caller's handle on the split plane.
    ///
    /// The split is kept when its imbalance is below 0.95, or when no retry is
    /// left; a kept split whose imbalance is above 0.99 gives way to a random one.
    pub fn split_attempt(&mut self, plane: usize, sides: Vec<Side>) -> (r: SplitVerdict)
        requires
            old(self).wf(),
            old(self)@.phase == Phase::Splitting,
            sides@.len() == old(self)@.stack.last()->indices.len(),
        ensures
            final(self).wf(),
            ({
                let v = old(self)@;
                let ix = v.stack.last()->indices;
                let l = on_side(ix, sides@, Side::Left);
                let rt = on_side(ix, sides@, Side::Right);
                let keep = imbalance_below(l.len(), rt.len(), 95, 100) || v.attempts_left == 0;
                &&& r == if !keep {
                    SplitVerdict::Retry
                } else if imbalance_above(l.len(), rt.len(), 99, 100) {
                    SplitVerdict::Randomize
                } else {
                    SplitVerdict::Accepted
                }
                &&& r == SplitVerdict::Retry ==> final(self)@ == BuilderView {
                    attempts_left: (v.attempts_left - 1) as u32,
                    ..v
                }
                &&& r == SplitVerdict::Randomize ==> final(self)@ == BuilderView {
                    phase: Phase::Randomizing,
                    ..v
                }
                &&& r == SplitVerdict::Accepted ==> final(self)@ == BuilderView {
                    stack: split_stack(v.stack, Some(plane), l, rt),
                    phase: Phase::Walking,
                    ..v
                }
            }),
    {
        let indices = self.pending_indices();
        let (left, right) = partition_by_side(&indices, &sides);
        if !split_is_balanced(left.len(), right.len()) && self.attempts_left > 0 {
            self.attempts_left = self.attempts_left - 1;
            return SplitVerdict::Retry;
        }
        if split_is_degenerate(left.len(), right.len()) {
            self.phase = Phase::Randomizing;
            return SplitVerdict::Randomize;
        }
        self.accept(Some(plane), left, right);
        SplitVerdict::Accepted
    }

    /// Weighs a random split of the pending items: `sides[i]` is the side drawn
    /// for the `i`-th one. It is kept unless its imbalance is above 0.99; the
    /// split node then gets an all-zero normal.
    pub fn random_split(&mut self, sides: Vec<Side>) -> (r: bool)
        requires
            old(self).wf(),
            old(self)@.phase == Phase::Randomizing,
            sides@.len() == old(self)@.stack.last()->indices.len(),
        ensures
            final(self).wf(),
            ({
                let v = old(self)@;
                let ix = v.stack.last()->indices;
                let l = on_side(ix, sides@, Side::Left);
                let rt = on_side(ix, sides@, Side::Right);
                &&& r == !imbalance_above(l.len(), rt.len(), 99, 100)
                &&& r ==> final(self)@ == BuilderView {
                    stack: split_stack(v.stack, None, l, rt),
                    phase: Phase::Walking,
                    ..v
                }
                &&& !r ==> final(self)@ == v
            }),
    {
        let indices = self.pending_indices();
        let (left, right) = partition_by_side(&indices, &sides);
        if split_is_degenerate(left.len(), right.len()) {
            return false;
        }
        self.accept(None, left, right);
        true
    }

    /// After the top frame was popped and `item` pushed as a finished subtree.
    proof fn lemma_keep_wf_after_pop(&self, v: BuilderView, item: u32)
        requires
            builder_wf(v),
            v.stack.len() > 0,
            v.stack.last() is Make,
            self@.stack == v.stack.drop_last(),
            self@.results == v.results.push(item),
            item < self@.next_id,
            v.next_id <= self@.next_id,
            self@.first_id == v.first_id,
            self@.phase == Phase::Walking,
        ensures
            builder_wf(self@),
    {
        let w = self@;
        assert(v.stack =~= v.stack.drop_last().push(v.stack.last()));
        lemma_net_push(v.stack.drop_last(), v.stack.last());
        assert forall|i: int| 0 <= i < w.stack.len() implies net(#[trigger] w.stack.take(i))
            <= 0 by {
            assert(w.stack.take(i) =~= v.stack.take(i));
        }
        assert forall|k: int| 0 <= k < w.results.len() implies #[trigger] w.results[k]
            < w.next_id by {
            if k < v.results.len() {
                assert(w.results[k] == v.results[k]);
            }
        }
        assert forall|i: int, j: int|
            0 <= i < w.stack.len() && w.stack[i] is Make && 0 <= j
                < w.stack[i]->indices.len() implies #[trigger] w.stack[i]->indices[j]
            < w.first_id by {
            assert(w.stack[i] == v.stack[i]);
        }
    }
}

} // verus!
