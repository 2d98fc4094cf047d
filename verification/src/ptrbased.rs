//! Uniform position-based navigation over every container in the pool family.
use vstd::prelude::*;

verus! {

/// Begin/end/next/prev navigation over positions — slot offsets for blocks
/// and buffers, node handles for chains — plus a derived O(n) distance count,
/// so traversal code is written once and reused.
pub trait PtrBased {
    /// First valid position, or `None` on an empty container.
    spec fn begin_spec(&self) -> Option<usize>;

    /// The sentinel position navigation stops at: one-past-last for
    /// offset-based containers, the last node for chains.
    spec fn end_spec(&self) -> Option<usize>;

    /// The position following `pos`, or `None` at the end.
    spec fn next_spec(&self, pos: usize) -> Option<usize>;

    /// The position preceding `pos`, or `None` at the beginning.
    spec fn prev_spec(&self, pos: usize) -> Option<usize>;

    /// When the distance from `first` to `last` is well defined: `last` must
    /// be reachable from `first` by `next` steps.
    spec fn dist_ok(&self, first: usize, last: usize) -> bool;

    /// The number of `next` steps from `first` to `last`.
    spec fn dist_spec(&self, first: usize, last: usize) -> int;

    fn begin(&self) -> (r: Option<usize>)
        ensures
            r == self.begin_spec(),
    ;

    fn end(&self) -> (r: Option<usize>)
        ensures
            r == self.end_spec(),
    ;

    fn next(&self, pos: usize) -> (r: Option<usize>)
        ensures
            r == self.next_spec(pos),
    ;

    fn prev(&self, pos: usize) -> (r: Option<usize>)
        ensures
            r == self.prev_spec(pos),
    ;

    fn distance(&self, first: usize, last: usize) -> (r: usize)
        requires
            self.dist_ok(first, last),
        ensures
            r as int == self.dist_spec(first, last),
    ;
}

} // verus!
