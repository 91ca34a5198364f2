//! Positive integers, and inclusive ranges of them.

use vstd::prelude::*;

verus! {

/// A `u32` that is never zero.
#[derive(Clone, Copy, PartialEq, Eq, Debug, Structural, PartialOrd, Ord, Hash)]
pub struct NonZeroU32 {
    value: u32,
}

impl NonZeroU32 {
    #[verifier::type_invariant]
    spec fn inv(self) -> bool {
        self.value > 0
    }

    /// The value held.
    pub closed spec fn val(self) -> u32 {
        self.value
    }

    /// `n` as a positive integer, or `None` when it is zero.
    pub fn new(n: u32) -> (r: Option<NonZeroU32>)
        ensures
            n == 0 ==> r.is_none(),
            n != 0 ==> r.is_some() && r.unwrap().val() == n,
    {
        if n == 0 {
            None
        } else {
            Some(NonZeroU32 { value: n })
        }
    }

    /// The value held, which is positive.
    pub fn get(&self) -> (r: u32)
        ensures
            r == self.val(),
            r > 0,
    {
        proof {
            use_type_invariant(self);
        }
        self.value
    }
}

/// A `usize` that is never zero.
#[derive(Clone, Copy, PartialEq, Eq, Debug, Structural, PartialOrd, Ord, Hash)]
pub struct NonZeroUsize {
    value: usize,
}

impl NonZeroUsize {
    #[verifier::type_invariant]
    spec fn inv(self) -> bool {
        self.value > 0
    }

    /// The value held.
    pub closed spec fn val(self) -> usize {
        self.value
    }

    /// `n` as a positive integer, or `None` when it is zero.
    pub fn new(n: usize) -> (r: Option<NonZeroUsize>)
        ensures
            n == 0 ==> r.is_none(),
            n != 0 ==> r.is_some() && r.unwrap().val() == n,
    {
        if n == 0 {
            None
        } else {
            Some(NonZeroUsize { value: n })
        }
    }

    /// The value held, which is positive.
    pub fn get(&self) -> (r: usize)
        ensures
            r == self.val(),
            r > 0,
    {
        proof {
            use_type_invariant(self);
        }
        self.value
    }
}

/// The positive integers from `start` to `end`, both included (empty when
/// `start` is above `end`).
#[derive(Clone, Copy, PartialEq, Eq, Debug, Structural, Hash)]
pub struct NonZeroUsizeRange {
    pub start: NonZeroUsize,
    pub end: NonZeroUsize,
}

impl NonZeroUsizeRange {
    /// The range from `start` to `end`.
    pub fn new(start: NonZeroUsize, end: NonZeroUsize) -> (r: NonZeroUsizeRange)
        ensures
            r.start == start,
            r.end == end,
    {
        NonZeroUsizeRange { start, end }
    }

    /// The lower bound.
    pub fn start(&self) -> (r: NonZeroUsize)
        ensures
            r == self.start,
    {
        self.start
    }

    /// The upper bound.
    pub fn end(&self) -> (r: NonZeroUsize)
        ensures
            r == self.end,
    {
        self.end
    }

    /// Whether the range holds no integer.
    pub fn is_empty(&self) -> (r: bool)
        ensures
            r == (self.start.val() > self.end.val()),
    {
        self.start.get() > self.end.get()
    }
}

} // verus!
