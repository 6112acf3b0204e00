//! Ranges of positions, as taken by `range`.
use vstd::prelude::*;
use core::ops::{Range, RangeFrom, RangeFull};

verus! {

#[verifier::external_type_specification]
#[verifier::reject_recursive_types(Idx)]
pub struct ExRangeFrom<Idx>(RangeFrom<Idx>);

#[verifier::external_type_specification]
pub struct ExRangeFull(RangeFull);

/// A set of positions with a least candidate.
pub trait PositionRange {
    /// True iff position `p` is in the range.
    spec fn includes(&self, p: u64) -> bool;

    /// No position below this one is in the range.
    spec fn lower(&self) -> u64;

    fn start_position(&self) -> (r: u64)
        ensures
            r == self.lower(),
            forall|p: u64| #[trigger] self.includes(p) ==> r <= p,
    ;

    fn contains_position(&self, p: u64) -> (r: bool)
        ensures
            r == self.includes(p),
    ;
}

impl PositionRange for RangeFrom<u64> {
    open spec fn includes(&self, p: u64) -> bool {
        self.start <= p
    }

    open spec fn lower(&self) -> u64 {
        self.start
    }

    fn start_position(&self) -> (r: u64) {
        self.start
    }

    fn contains_position(&self, p: u64) -> (r: bool) {
        self.start <= p
    }
}

impl PositionRange for Range<u64> {
    open spec fn includes(&self, p: u64) -> bool {
        self.start <= p < self.end
    }

    open spec fn lower(&self) -> u64 {
        self.start
    }

    fn start_position(&self) -> (r: u64) {
        self.start
    }

    fn contains_position(&self, p: u64) -> (r: bool) {
        self.start <= p && p < self.end
    }
}

impl PositionRange for RangeFull {
    open spec fn includes(&self, p: u64) -> bool {
        true
    }

    open spec fn lower(&self) -> u64 {
        0
    }

    fn start_position(&self) -> (r: u64) {
        0
    }

    fn contains_position(&self, p: u64) -> (r: bool) {
        true
    }
}

} // verus!
