//! The congruence-modulus operation.
//!
//! The native `%` of the integer types is a truncating remainder, not a
//! modular congruence: its sign follows the dividend. The operation here
//! adds the divisor once to that remainder. Note what this means for a
//! dividend whose remainder is already non-negative: the result then lands
//! in `[b, 2b)` rather than `[0, b)` (for example, the operation on 38 and
//! 12 yields 14, not 2). The formula is stated exactly in the contract; it
//! is deliberately not re-reduced into `[0, b)`.

use crate::numbers::Integers;
use crate::numbers::trunc_rem;
use vstd::prelude::*;

verus! {

/// A congruence representative of `self` modulo `b`: the truncating
/// remainder of `self` by `b`, plus `b` once.
pub trait Modulus<T: Integers>: Integers {
    /// Returns `trunc_rem(self, b) + b`, a value congruent to `self`
    /// modulo `b`.
    ///
    /// The divisor must be nonzero; the two machine limits are also
    /// excluded: the remainder of the smallest value by minus one does not
    /// exist in the type, and the sum with `b` must fit.
    fn modulus(self, b: T) -> (r: T)
        requires
            b.v() != 0,
            !(self.v() == Self::min_val() && b.v() == -1),
            T::min_val() <= trunc_rem(self.v(), b.v()) + b.v() <= T::max_val(),
        ensures
            r.v() == trunc_rem(self.v(), b.v()) + b.v(),
    ;
}

impl<T: Integers> Modulus<T> for T {
    fn modulus(self, b: T) -> (r: T) {
        self.rem(b).plus(b)
    }
}

} // verus!
