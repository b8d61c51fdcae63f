//! A Pauli exponential: a Pauli string together with a rotation angle.

use vstd::prelude::*;

use crate::pauli::Negate;
use crate::pauli_string::{PauliString, equiv, sandwiched, spec_commutes, spec_flip};

verus! {

/// A Pauli exponential $e^{i\theta P}$ with angle $\theta$ and string $P$.
#[derive(Debug)]
pub struct PauliExp<A: Negate> {
    pub string: PauliString,
    pub angle: A,
}

impl<A: Negate> PauliExp<A> {
    /// The number of non-identity letters of the string.
    pub fn len(&self) -> (r: usize)
        ensures
            r == self.string.slen(),
    {
        self.string.len()
    }

    pub fn is_empty(&self) -> (r: bool)
        ensures
            r == (self.string.slen() == 0),
    {
        self.string.is_empty()
    }

    /// Pushes $e^{\pm i\frac{\pi}{4}O}$ through `self`: the string is
    /// conjugated, and when the sandwich reports a sign change the angle is
    /// negated.
    pub fn push_pi_over_4(&mut self, neg: bool, o: &PauliString)
        ensures
            sandwiched(old(self).string, *o, final(self).string),
            spec_commutes(old(self).string, *o) ==> final(self).angle == old(self).angle,
            !spec_commutes(old(self).string, *o) ==> final(self).angle == (if spec_flip(
                old(self).string,
                *o,
                neg,
            ) {
                old(self).angle.spec_negated()
            } else {
                old(self).angle
            }),
    {
        if self.string.pi_over_4_sandwitch(neg, o) {
            self.angle.negate();
        }
    }
}

} // verus!
