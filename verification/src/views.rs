//! Views: the monotonic counter that frames are stamped with, and the fence
//! that the highest stamp seen puts up.
use vstd::prelude::*;

verus! {

pub open spec fn max_u64(a: u64, b: u64) -> u64 {
    if a < b {
        b
    } else {
        a
    }
}

/// The greater of two views.
pub fn greater(a: u64, b: u64) -> (m: u64)
    ensures
        m == max_u64(a, b),
{
    if a < b {
        b
    } else {
        a
    }
}

/// Raises the fence to `view` and reports whether the frame is stale.
pub fn observe_view(max_view: &mut u64, view: u64) -> (stale: bool)
    ensures
        stale == (view < *old(max_view)),
        *final(max_view) == max_u64(*old(max_view), view),
{
    let stale = view < *max_view;
    if *max_view < view {
        *max_view = view;
    }
    stale
}

/// Monotonic view counter for frame stamping. It starts at 0 and only moves
/// forward.
#[derive(Debug, PartialEq, Eq)]
pub struct Views {
    current: u64,
}

impl View for Views {
    type V = u64;

    closed spec fn view(&self) -> u64 {
        self.current
    }
}

impl Views {
    pub fn new() -> (views: Views)
        ensures
            views@ == 0,
    {
        Views { current: 0 }
    }

    pub fn with_current(value: u64) -> (views: Views)
        ensures
            views@ == value,
    {
        Views { current: value }
    }

    /// Current view. Frames are stamped with this value on write.
    pub fn current(&self) -> (view: u64)
        ensures
            view == self@,
    {
        self.current
    }

    /// Advances to the next view and returns it.
    pub fn bump(&mut self) -> (view: u64)
        requires
            old(self)@ < u64::MAX,
        ensures
            view == old(self)@ + 1,
            final(self)@ == view,
    {
        self.current = self.current + 1;
        self.current
    }
}

} // verus!
