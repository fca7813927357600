//! Where each node record lies in a file of records written one after the other.
use vstd::prelude::*;

verus! {

/// The node ids of the records appended so far, and their bounds: record `i`
/// occupies the bytes from `bounds[i]` to `bounds[i + 1]`.
#[derive(Debug)]
pub struct NodeSpans {
    ids: Vec<u32>,
    bounds: Vec<usize>,
}

/// The ids of the records and their bounds.
pub struct NodeSpansView {
    pub ids: Seq<u32>,
    pub bounds: Seq<usize>,
}

impl View for NodeSpans {
    type V = NodeSpansView;

    closed spec fn view(&self) -> NodeSpansView {
        NodeSpansView { ids: self.ids@, bounds: self.bounds@ }
    }
}

/// One bound more than records, starting at zero and never decreasing.
pub open spec fn spans_wf(v: NodeSpansView) -> bool {
    &&& v.bounds.len() == v.ids.len() + 1
    &&& v.bounds[0] == 0
    &&& forall|i: int| 0 <= i < v.ids.len() ==> v.bounds[i] <= #[trigger] v.bounds[i + 1]
}

impl NodeSpans {
    pub open spec fn wf(&self) -> bool {
        spans_wf(self@)
    }

    /// No record yet.
    pub fn new() -> (r: NodeSpans)
        ensures
            r.wf(),
            r@.ids.len() == 0,
            r@.bounds == seq![0usize],
    {
        let r = NodeSpans { ids: Vec::new(), bounds: vec![0] };
        assert(r@.bounds =~= seq![0usize]);
        r
    }

    /// Records that `len` bytes for node `item` were appended; refused (and
    /// nothing changes) when the file would outgrow `usize`.
    pub fn put(&mut self, item: u32, len: usize) -> (r: bool)
        requires
            old(self).wf(),
        ensures
            final(self).wf(),
            r == (old(self)@.bounds.last() + len <= usize::MAX),
            r ==> final(self)@ == (NodeSpansView {
                ids: old(self)@.ids.push(item),
                bounds: old(self)@.bounds.push((old(self)@.bounds.last() + len) as usize),
            }),
            !r ==> final(self)@ == old(self)@,
    {
        let last = self.bounds[self.bounds.len() - 1];
        match last.checked_add(len) {
            Some(end) => {
                self.bounds.push(end);
                self.ids.push(item);
                proof {
                    let v = self@;
                    assert forall|i: int| 0 <= i < v.ids.len() implies v.bounds[i]
                        <= #[trigger] v.bounds[i + 1] by {
                        if i + 1 < v.ids.len() {
                            assert(v.bounds[i] == old(self)@.bounds[i]);
                            assert(v.bounds[i + 1] == old(self)@.bounds[i + 1]);
                        }
                    }
                }
                true
            },
            None => false,
        }
    }

    /// The number of records.
    pub fn len(&self) -> (r: usize)
        requires
            self.wf(),
        ensures
            r == self@.ids.len(),
    {
        self.ids.len()
    }

    /// The node id of record `i` and the bounds of its bytes.
    pub fn get(&self, i: usize) -> (r: Option<(u32, usize, usize)>)
        requires
            self.wf(),
        ensures
            i < self@.ids.len() ==> r == Some(
                (self@.ids[i as int], self@.bounds[i as int], self@.bounds[i + 1]),
            ),
            i >= self@.ids.len() ==> r is None,
            r matches Some((_, start, end)) ==> start <= end,
    {
        if i < self.ids.len() {
            Some((self.ids[i], self.bounds[i], self.bounds[i + 1]))
        } else {
            None
        }
    }
}

} // verus!
