use vstd::prelude::*;

verus! {

/// Hands out node ids in increasing order, one at a time.
///
/// The counter wraps around after `u32::MAX`, as an atomic `fetch_add` does.
#[derive(Debug)]
pub struct ConcurrentNodeIds {
    next_id: u32,
}

impl View for ConcurrentNodeIds {
    type V = u32;

    open spec fn view(&self) -> u32 {
        self.spec_current()
    }
}

impl ConcurrentNodeIds {
    /// The id that the next call of `next` returns.
    pub closed spec fn spec_current(&self) -> u32 {
        self.next_id
    }

    /// Creates the id generator starting at `v`.
    pub fn new(v: u32) -> (r: ConcurrentNodeIds)
        ensures
            r@ == v,
    {
        ConcurrentNodeIds { next_id: v }
    }

    /// Returns the current id and moves on to the following one.
    pub fn next(&mut self) -> (r: u32)
        ensures
            r == old(self)@,
            final(self)@ == (if r == u32::MAX { 0 } else { (r + 1) as u32 }),
    {
        let r = self.next_id;
        self.next_id = self.next_id.wrapping_add(1);
        r
    }

    /// Returns the id that `next` would hand out now.
    pub fn current(&self) -> (r: u32)
        ensures
            r == self@,
    {
        self.next_id
    }
}

/// The first id after `last`, the largest id in use; `0` when none is in use.
///
/// `None` when `last` is already `u32::MAX`.
pub fn first_free_id(last: Option<u32>) -> (r: Option<u32>)
    ensures
        r == (match last {
            None => Some(0u32),
            Some(l) => if l == u32::MAX { None } else { Some((l + 1) as u32) },
        }),
{
    match last {
        None => Some(0),
        Some(l) => l.checked_add(1),
    }
}

} // verus!
