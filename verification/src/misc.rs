//! Small helpers: the validated gate size.

use vstd::prelude::*;

verus! {

/// A gate size: a non-zero even number of qubits.
#[derive(Debug, Clone, Copy)]
pub struct NonZeroEvenUsize {
    value: usize,
}

impl NonZeroEvenUsize {
    /// The wrapped value.
    pub closed spec fn as_int(&self) -> int {
        self.value as int
    }

    /// Accepts exactly the non-zero even values.
    pub fn new(value: usize) -> (r: Option<Self>)
        ensures
            match r {
                Some(g) => value % 2 == 0 && value != 0 && g.as_int() == value,
                None => value % 2 != 0 || value == 0,
            },
    {
        if value == 0 {
            return None;
        }
        if value % 2 == 0 {
            Some(NonZeroEvenUsize { value })
        } else {
            None
        }
    }

    pub fn as_value(self) -> (r: usize)
        ensures
            r == self.as_int(),
            r % 2 == 0,
            r >= 2,
    {
        proof {
            use_type_invariant(&self);
        }
        self.value
    }

    /// The wrapped value is always even and at least two.
    #[verifier::type_invariant]
    closed spec fn wf(&self) -> bool {
        self.value % 2 == 0 && self.value >= 2
    }
}

} // verus!
