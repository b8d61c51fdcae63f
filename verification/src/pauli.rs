//! Pauli letters, rotation angles, and the negation interface shared by the
//! angle kinds.

use vstd::prelude::*;

verus! {

/// An enum with variants that correspond to the $X$, $Y$, and $Z$ Pauli matrices and $I$.
#[derive(Clone, Copy, Debug, PartialEq, Eq, Structural)]
pub enum PauliLetter {
    I,
    X,
    Y,
    Z,
}

/// Whether the letter has an X component (X or Y).
pub open spec fn lx(a: PauliLetter) -> bool {
    a == PauliLetter::X || a == PauliLetter::Y
}

/// Whether the letter has a Z component (Z or Y).
pub open spec fn lz(a: PauliLetter) -> bool {
    a == PauliLetter::Z || a == PauliLetter::Y
}

/// The letter with the given X and Z components.
pub open spec fn letter_of_bits(x: bool, z: bool) -> PauliLetter {
    if x && z {
        PauliLetter::Y
    } else if x {
        PauliLetter::X
    } else if z {
        PauliLetter::Z
    } else {
        PauliLetter::I
    }
}

/// The support of the product of two letters: componentwise exclusive or.
/// Equal non-identity letters cancel to I; distinct non-identity letters
/// multiply to the third one.
pub open spec fn letter_prod(a: PauliLetter, b: PauliLetter) -> PauliLetter {
    letter_of_bits(lx(a) != lx(b), lz(a) != lz(b))
}

/// The symplectic pairing of two letters: true exactly when both are
/// non-identity and different, that is when the letters anticommute.
pub open spec fn letter_anti(a: PauliLetter, b: PauliLetter) -> bool {
    (lx(a) && lz(b)) != (lz(a) && lx(b))
}

/// True when the single-qubit product $O\cdot P$ carries a $-i$ factor,
/// that is for the pairs $(X,Z)$, $(Z,Y)$ and $(Y,X)$.
pub open spec fn letter_minus(o: PauliLetter, p: PauliLetter) -> bool {
    (o == PauliLetter::X && p == PauliLetter::Z) || (o == PauliLetter::Z && p == PauliLetter::Y)
        || (o == PauliLetter::Y && p == PauliLetter::X)
}

/// The successor in the cycle X -> Y -> Z -> X, with I mapped to X.
pub open spec fn spec_next(a: PauliLetter) -> PauliLetter {
    match a {
        PauliLetter::I => PauliLetter::X,
        PauliLetter::X => PauliLetter::Y,
        PauliLetter::Y => PauliLetter::Z,
        PauliLetter::Z => PauliLetter::X,
    }
}

impl PauliLetter {
    pub fn commutes_with(&self, other: &Self) -> (r: bool)
        ensures
            r == !letter_anti(*self, *other),
            r == ((*self == PauliLetter::I) || (*other == PauliLetter::I) || (*self == *other)),
    {
        (*self == PauliLetter::I) || (*other == PauliLetter::I) || (*self == *other)
    }

    pub fn anticommutes_with(&self, other: &Self) -> (r: bool)
        ensures
            r == letter_anti(*self, *other),
    {
        !self.commutes_with(other)
    }

    /// This gives the next Pauli matrix according to the (looping) order
    ///
    /// X -> Y -> Z -> X ->
    ///
    /// As a special case the next matrix after I is X.
    pub fn next(self) -> (r: Self)
        ensures
            r == spec_next(self),
    {
        match self {
            PauliLetter::I => PauliLetter::X,
            PauliLetter::X => PauliLetter::Y,
            PauliLetter::Y => PauliLetter::Z,
            PauliLetter::Z => PauliLetter::X,
        }
    }

    /// The letter as its upper-case character.
    pub fn as_char(&self) -> (r: char)
        ensures
            r == spec_letter_char(*self),
    {
        match self {
            PauliLetter::I => 'I',
            PauliLetter::X => 'X',
            PauliLetter::Y => 'Y',
            PauliLetter::Z => 'Z',
        }
    }
}

/// The character that stands for a letter in the textual exchange format.
pub open spec fn spec_letter_char(a: PauliLetter) -> char {
    match a {
        PauliLetter::I => 'I',
        PauliLetter::X => 'X',
        PauliLetter::Y => 'Y',
        PauliLetter::Z => 'Z',
    }
}

/// Negation in place, the small interface shared by the angle kinds.
pub trait Negate: Sized {
    /// The negated value.
    spec fn spec_negated(&self) -> Self;

    /// Negates the value in place.
    fn negate(&mut self)
        ensures
            *final(self) == old(self).spec_negated(),
    ;
}

/// An angle for a Pauli exponential that is always Clifford.
#[derive(Debug, Clone, Copy, PartialEq, Eq, Structural)]
pub enum CliffordPauliAngle {
    NegPiOver2,
    NegPiOver4,
    Zero,
    PiOver4,
    PiOver2,
}

/// The negation of a Clifford angle.
pub open spec fn spec_neg_clifford(a: CliffordPauliAngle) -> CliffordPauliAngle {
    match a {
        CliffordPauliAngle::NegPiOver2 => CliffordPauliAngle::PiOver2,
        CliffordPauliAngle::NegPiOver4 => CliffordPauliAngle::PiOver4,
        CliffordPauliAngle::Zero => CliffordPauliAngle::Zero,
        CliffordPauliAngle::PiOver4 => CliffordPauliAngle::NegPiOver4,
        CliffordPauliAngle::PiOver2 => CliffordPauliAngle::NegPiOver2,
    }
}

impl Negate for CliffordPauliAngle {
    open spec fn spec_negated(&self) -> Self {
        spec_neg_clifford(*self)
    }

    fn negate(&mut self) {
        *self = match *self {
            CliffordPauliAngle::NegPiOver2 => CliffordPauliAngle::PiOver2,
            CliffordPauliAngle::NegPiOver4 => CliffordPauliAngle::PiOver4,
            CliffordPauliAngle::Zero => CliffordPauliAngle::Zero,
            CliffordPauliAngle::PiOver4 => CliffordPauliAngle::NegPiOver4,
            CliffordPauliAngle::PiOver2 => CliffordPauliAngle::NegPiOver2,
        };
    }
}

/// An angle for a Pauli exponential that can be whatever.
///
/// A free multiple of pi is carried as the raw bit pattern of its 64-bit
/// IEEE-754 value: floating-point values cannot flow through verified code,
/// and none of the synthesis logic reads the magnitude. Negating such an
/// angle flips the sign bit, which is exactly IEEE-754 negation.
#[derive(Debug, Clone)]
pub enum PauliAngle {
    MultipleOfPi(u64),
    Clifford(CliffordPauliAngle),
    Parameter { neg: bool, name: String },
}

/// The negation of a general angle.
pub open spec fn spec_neg_angle(a: PauliAngle) -> PauliAngle {
    match a {
        PauliAngle::MultipleOfPi(bits) => PauliAngle::MultipleOfPi(bits ^ 0x8000_0000_0000_0000),
        PauliAngle::Clifford(c) => PauliAngle::Clifford(spec_neg_clifford(c)),
        PauliAngle::Parameter { neg, name } => PauliAngle::Parameter { neg: !neg, name },
    }
}

impl PauliAngle {
    pub fn is_clifford(&self) -> (r: bool)
        ensures
            r == (self is Clifford),
    {
        match self {
            PauliAngle::Clifford(_) => true,
            _ => false,
        }
    }
}

impl Negate for PauliAngle {
    open spec fn spec_negated(&self) -> Self {
        spec_neg_angle(*self)
    }

    fn negate(&mut self) {
        let nv = match self {
            PauliAngle::MultipleOfPi(bits) => PauliAngle::MultipleOfPi(
                *bits ^ 0x8000_0000_0000_0000,
            ),
            PauliAngle::Clifford(c) => PauliAngle::Clifford(
                match *c {
                    CliffordPauliAngle::NegPiOver2 => CliffordPauliAngle::PiOver2,
                    CliffordPauliAngle::NegPiOver4 => CliffordPauliAngle::PiOver4,
                    CliffordPauliAngle::Zero => CliffordPauliAngle::Zero,
                    CliffordPauliAngle::PiOver4 => CliffordPauliAngle::NegPiOver4,
                    CliffordPauliAngle::PiOver2 => CliffordPauliAngle::NegPiOver2,
                },
            ),
            PauliAngle::Parameter { neg, name } => PauliAngle::Parameter {
                neg: !*neg,
                name: name.clone(),
            },
        };
        *self = nv;
    }
}

/// An angle that is a clean conversion from a Clifford angle.
impl From<CliffordPauliAngle> for PauliAngle {
    fn from(value: CliffordPauliAngle) -> (r: Self) {
        PauliAngle::Clifford(value)
    }
}

impl vstd::std_specs::convert::FromSpecImpl<CliffordPauliAngle> for PauliAngle {
    open spec fn obeys_from_spec() -> bool {
        true
    }

    open spec fn from_spec(t: CliffordPauliAngle) -> Self {
        PauliAngle::Clifford(t)
    }
}

/// Whether two angles are the same variant with equal payloads; parameter
/// names compare by their characters.
pub open spec fn spec_angle_eq(a: PauliAngle, b: PauliAngle) -> bool {
    match a {
        PauliAngle::MultipleOfPi(x) => b is MultipleOfPi && b->MultipleOfPi_0 == x,
        PauliAngle::Clifford(x) => b is Clifford && b->Clifford_0 == x,
        PauliAngle::Parameter { neg: n1, name: m1 } => b is Parameter && b->Parameter_neg == n1
            && b->Parameter_name@ == m1@,
    }
}

impl PartialEq for PauliAngle {
    /// Two angles are equal when they are the same variant with equal payloads;
    /// parameter names compare by their characters.
    fn eq(&self, other: &Self) -> (r: bool) {
        match self {
            PauliAngle::MultipleOfPi(a) => match other {
                PauliAngle::MultipleOfPi(b) => *a == *b,
                _ => false,
            },
            PauliAngle::Clifford(a) => match other {
                PauliAngle::Clifford(b) => *a == *b,
                _ => false,
            },
            PauliAngle::Parameter { neg: n1, name: m1 } => match other {
                PauliAngle::Parameter { neg: n2, name: m2 } => *n1 == *n2 && m1.eq(m2),
                _ => false,
            },
        }
    }
}

impl Eq for PauliAngle {

}

impl vstd::std_specs::cmp::PartialEqSpecImpl for PauliAngle {
    open spec fn obeys_eq_spec() -> bool {
        true
    }

    open spec fn eq_spec(&self, other: &Self) -> bool {
        spec_angle_eq(*self, *other)
    }
}

} // verus!
