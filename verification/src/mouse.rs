//! Mouse motion accumulated between two frames.
//!
//! The event thread adds every raw motion delta to the accumulator; the
//! render thread drains it once per frame, which reads the sum and resets
//! it in one step. The scalar type and its addition are the caller's.

use vstd::prelude::*;

verus! {

/// The motion summed since the accumulator was last drained.
pub struct MouseDelta<T> {
    dx: T,
    dy: T,
    zero: T,
}

impl<T: Copy> MouseDelta<T> {
    /// The accumulated motion along x and y.
    pub closed spec fn pending(&self) -> (T, T) {
        (self.dx, self.dy)
    }

    /// The value that stands for no motion.
    pub closed spec fn zero(&self) -> T {
        self.zero
    }

    /// An accumulator with no motion in it; `zero` is the value it is reset
    /// to.
    pub fn new(zero: T) -> (delta: Self)
        ensures
            delta.zero() == zero,
            delta.pending() == (zero, zero),
    {
        MouseDelta { dx: zero, dy: zero, zero }
    }

    /// The accumulated motion, left in place.
    pub fn peek(&self) -> (motion: (T, T))
        ensures
            motion == self.pending(),
    {
        (self.dx, self.dy)
    }

    /// Adds one motion event to what is pending: each component becomes
    /// `sum(pending, delta)`, so earlier motion is never overwritten.
    pub fn accumulate<F: Fn(T, T) -> T>(&mut self, dx: T, dy: T, sum: F)
        requires
            sum.requires((old(self).pending().0, dx)),
            sum.requires((old(self).pending().1, dy)),
        ensures
            sum.ensures((old(self).pending().0, dx), final(self).pending().0),
            sum.ensures((old(self).pending().1, dy), final(self).pending().1),
            final(self).zero() == old(self).zero(),
    {
        let x = sum(self.dx, dx);
        let y = sum(self.dy, dy);
        self.dx = x;
        self.dy = y;
    }

    /// Reads the accumulated motion and resets the accumulator, so that no
    /// motion is handed out twice.
    pub fn drain(&mut self) -> (motion: (T, T))
        ensures
            motion == old(self).pending(),
            final(self).pending() == (old(self).zero(), old(self).zero()),
            final(self).zero() == old(self).zero(),
    {
        let motion = (self.dx, self.dy);
        self.dx = self.zero;
        self.dy = self.zero;
        motion
    }
}

} // verus!
