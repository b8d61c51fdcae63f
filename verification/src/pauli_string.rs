//! Pauli strings: a logically infinite tensor of Pauli letters stored as two
//! parallel bit vectors, with the commutation and conjugation algebra on them.

use vstd::prelude::*;

use crate::bits::{BIT_INDEX_LIMIT, Bits};
use crate::misc::NonZeroEvenUsize;
use crate::pauli::{
    PauliLetter, letter_anti, letter_minus, letter_of_bits, letter_prod, lx, lz, spec_letter_char,
};

verus! {

/// A collection of Pauli letters in qubit order. Trailing identity letters
/// are not observable.
#[derive(Debug, Clone)]
pub struct PauliString {
    x: Bits,
    z: Bits,
}

/// Exec computation of `lx`.
fn lx_exec(a: PauliLetter) -> (r: bool)
    ensures
        r == lx(a),
{
    match a {
        PauliLetter::X | PauliLetter::Y => true,
        _ => false,
    }
}

/// Exec computation of `lz`.
fn lz_exec(a: PauliLetter) -> (r: bool)
    ensures
        r == lz(a),
{
    match a {
        PauliLetter::Z | PauliLetter::Y => true,
        _ => false,
    }
}

/// Exec computation of the letter product support.
fn prod_exec(a: PauliLetter, b: PauliLetter) -> (r: PauliLetter)
    ensures
        r == letter_prod(a, b),
{
    let xb = lx_exec(a) != lx_exec(b);
    let zb = lz_exec(a) != lz_exec(b);
    if xb && zb {
        PauliLetter::Y
    } else if xb {
        PauliLetter::X
    } else if zb {
        PauliLetter::Z
    } else {
        PauliLetter::I
    }
}

/// Exec test for the pairs whose product carries a $-i$ factor.
fn minus_exec(o: PauliLetter, p: PauliLetter) -> (r: bool)
    ensures
        r == letter_minus(o, p),
{
    match (o, p) {
        (PauliLetter::X, PauliLetter::Z) => true,
        (PauliLetter::Z, PauliLetter::Y) => true,
        (PauliLetter::Y, PauliLetter::X) => true,
        _ => false,
    }
}

/// How many positions below `n` hold a letter other than I.
pub open spec fn count_support(p: PauliString, n: int) -> nat
    decreases n,
{
    if n <= 0 {
        0
    } else {
        count_support(p, n - 1) + (if p.l(n - 1) != PauliLetter::I {
            1nat
        } else {
            0nat
        })
    }
}

/// How many positions below `n` hold anticommuting letters of `p` and `o`.
pub open spec fn count_anti(p: PauliString, o: PauliString, n: int) -> nat
    decreases n,
{
    if n <= 0 {
        0
    } else {
        count_anti(p, o, n - 1) + (if letter_anti(p.l(n - 1), o.l(n - 1)) {
            1nat
        } else {
            0nat
        })
    }
}

/// How many positions below `n` hold a pair whose product $O_iP_i$ carries a
/// $-i$ factor.
pub open spec fn count_minus(o: PauliString, p: PauliString, n: int) -> nat
    decreases n,
{
    if n <= 0 {
        0
    } else {
        count_minus(o, p, n - 1) + (if letter_minus(o.l(n - 1), p.l(n - 1)) {
            1nat
        } else {
            0nat
        })
    }
}

/// A bound past which both strings hold only identity letters.
pub open spec fn maxb(p: PauliString, o: PauliString) -> int {
    if p.sbound() >= o.sbound() {
        p.sbound()
    } else {
        o.sbound()
    }
}

/// The number of anticommuting positions of two strings.
pub open spec fn spec_anti(p: PauliString, o: PauliString) -> nat {
    count_anti(p, o, maxb(p, o))
}

/// Two Pauli strings commute exactly when they anticommute on an even number
/// of positions.
pub open spec fn spec_commutes(p: PauliString, o: PauliString) -> bool {
    spec_anti(p, o) % 2 == 0
}

/// The number of $-i$ positions of the product $OP$.
pub open spec fn spec_minus(o: PauliString, p: PauliString) -> nat {
    count_minus(o, p, maxb(p, o))
}

/// The sign reported by the pi-over-4 sandwich of an anticommuting pair:
/// the phase of $s\,i\,OP$ is $i^{a+1}(-1)^m$ with $a$ the anticommute count
/// and $m$ the $-i$ count, negated when `neg` holds.
pub open spec fn spec_flip(p: PauliString, o: PauliString, neg: bool) -> bool {
    (neg != (((spec_anti(p, o) + 1) % 4) == 2)) != (spec_minus(o, p) % 2 == 1)
}

/// Two strings are equivalent when they hold the same letter at every
/// position.
pub open spec fn equiv(p: PauliString, o: PauliString) -> bool {
    forall|i: int| p.l(i) == o.l(i)
}

impl PauliString {
    /// The letter at position `i`; positions past the stored words are I.
    pub closed spec fn l(&self, i: int) -> PauliLetter {
        letter_of_bits(self.x.bit(i), self.z.bit(i))
    }

    /// A bound past which every letter is I.
    pub closed spec fn sbound(&self) -> int {
        if self.x.ubound() >= self.z.ubound() {
            self.x.ubound()
        } else {
            self.z.ubound()
        }
    }

    pub proof fn lemma_sbound_nonneg(&self)
        ensures
            self.sbound() >= 0,
    {
        self.x.lemma_ubound_nonneg();
        self.z.lemma_ubound_nonneg();
    }

    pub proof fn lemma_l_negative(&self, i: int)
        requires
            i < 0,
        ensures
            self.l(i) == PauliLetter::I,
    {
        self.x.lemma_bit_negative(i);
        self.z.lemma_bit_negative(i);
    }

    pub proof fn lemma_l_past_sbound(&self, i: int)
        requires
            i >= self.sbound(),
        ensures
            self.l(i) == PauliLetter::I,
    {
        self.x.lemma_bit_past_ubound(i);
        self.z.lemma_bit_past_ubound(i);
    }

    /// The length of the string: its number of non-identity letters.
    pub open spec fn slen(&self) -> nat {
        count_support(*self, self.sbound())
    }

    /// An exec bound past which every letter is I.
    fn bound(&self) -> (r: usize)
        ensures
            r == self.sbound(),
            r <= BIT_INDEX_LIMIT,
            forall|i: int| i >= r ==> self.l(i) == PauliLetter::I,
    {
        let bx = self.x.size();
        let bz = self.z.size();
        let r = if bx > bz {
            bx
        } else {
            bz
        };
        proof {
            assert forall|i: int| i >= r implies self.l(i) == PauliLetter::I by {
                self.lemma_l_past_sbound(i);
            }
        }
        r
    }

    /// The identity string.
    pub fn id() -> (r: Self)
        ensures
            forall|i: int| r.l(i) == PauliLetter::I,
    {
        PauliString { x: Bits::new(), z: Bits::new() }
    }

    /// The identity string, with room reserved for the given number of qubits.
    pub fn id_with_capacity(capacity: usize) -> (r: Self)
        requires
            capacity < BIT_INDEX_LIMIT,
        ensures
            forall|i: int| r.l(i) == PauliLetter::I,
    {
        PauliString { x: Bits::with_capacity(capacity), z: Bits::with_capacity(capacity) }
    }

    /// The string with a single X at `index`.
    pub fn x(index: usize) -> (r: Self)
        requires
            index < BIT_INDEX_LIMIT,
        ensures
            r.l(index as int) == PauliLetter::X,
            forall|i: int| i != index ==> r.l(i) == PauliLetter::I,
    {
        let mut x = Bits::with_capacity(index);
        x.set(index, true);
        PauliString { x, z: Bits::new() }
    }

    pub fn x_with_capacity(index: usize, capacity: usize) -> (r: Self)
        requires
            index < BIT_INDEX_LIMIT,
            capacity < BIT_INDEX_LIMIT,
        ensures
            r.l(index as int) == PauliLetter::X,
            forall|i: int| i != index ==> r.l(i) == PauliLetter::I,
    {
        let cap = if capacity > index {
            capacity
        } else {
            index
        };
        let mut x = Bits::with_capacity(cap);
        x.set(index, true);
        PauliString { x, z: Bits::with_capacity(cap) }
    }

    /// The string with a single Z at `index`.
    pub fn z(index: usize) -> (r: Self)
        requires
            index < BIT_INDEX_LIMIT,
        ensures
            r.l(index as int) == PauliLetter::Z,
            forall|i: int| i != index ==> r.l(i) == PauliLetter::I,
    {
        let mut z = Bits::with_capacity(index);
        z.set(index, true);
        PauliString { x: Bits::new(), z }
    }

    pub fn z_with_capacity(index: usize, capacity: usize) -> (r: Self)
        requires
            index < BIT_INDEX_LIMIT,
            capacity < BIT_INDEX_LIMIT,
        ensures
            r.l(index as int) == PauliLetter::Z,
            forall|i: int| i != index ==> r.l(i) == PauliLetter::I,
    {
        let cap = if capacity > index {
            capacity
        } else {
            index
        };
        let mut z = Bits::with_capacity(cap);
        z.set(index, true);
        PauliString { x: Bits::with_capacity(cap), z }
    }

    /// The string with a single Y at `index`.
    pub fn y(index: usize) -> (r: Self)
        requires
            index < BIT_INDEX_LIMIT,
        ensures
            r.l(index as int) == PauliLetter::Y,
            forall|i: int| i != index ==> r.l(i) == PauliLetter::I,
    {
        let mut x = Bits::with_capacity(index);
        x.set(index, true);
        let mut z = Bits::with_capacity(index);
        z.set(index, true);
        PauliString { x, z }
    }

    pub fn y_with_capacity(index: usize, capacity: usize) -> (r: Self)
        requires
            index < BIT_INDEX_LIMIT,
            capacity < BIT_INDEX_LIMIT,
        ensures
            r.l(index as int) == PauliLetter::Y,
            forall|i: int| i != index ==> r.l(i) == PauliLetter::I,
    {
        let cap = if capacity > index {
            capacity
        } else {
            index
        };
        let mut x = Bits::with_capacity(cap);
        x.set(index, true);
        let mut z = Bits::with_capacity(cap);
        z.set(index, true);
        PauliString { x, z }
    }

    /// The index after which there are only I letters.
    pub fn start_of_trailin_is(&self) -> (r: usize)
        ensures
            forall|i: int| i >= r ==> self.l(i) == PauliLetter::I,
            r > 0 ==> self.l(r - 1) != PauliLetter::I,
            r <= self.sbound(),
            r <= BIT_INDEX_LIMIT,
    {
        let xo = self.x.last_one();
        let zo = self.z.last_one();
        let x: usize = match xo {
            Some(v) => v + 1,
            None => 0,
        };
        let z: usize = match zo {
            Some(v) => v + 1,
            None => 0,
        };
        let r = if x > z {
            x
        } else {
            z
        };
        proof {
            self.lemma_sbound_nonneg();
            if r > 0 {
                if x >= z {
                    assert(self.x.bit(r - 1));
                } else {
                    assert(self.z.bit(r - 1));
                }
                assert(self.l(r - 1) != PauliLetter::I);
            }
            if r as int > self.sbound() {
                self.lemma_l_past_sbound(r - 1);
                assert(false);
            }
            assert forall|i: int| i >= r implies self.l(i) == PauliLetter::I by {
                assert(!self.x.bit(i));
                assert(!self.z.bit(i));
            }
        }
        r
    }

    /// The index after which there are only I letters.
    pub fn size(&self) -> (r: usize)
        ensures
            forall|i: int| i >= r ==> self.l(i) == PauliLetter::I,
            r > 0 ==> self.l(r - 1) != PauliLetter::I,
            r <= self.sbound(),
            r <= BIT_INDEX_LIMIT,
    {
        self.start_of_trailin_is()
    }

    /// Writes the given letter at `index`.
    pub fn set(&mut self, index: usize, letter: PauliLetter)
        requires
            index < BIT_INDEX_LIMIT,
        ensures
            final(self).l(index as int) == letter,
            forall|i: int| i != index ==> final(self).l(i) == old(self).l(i),
    {
        let ghost orig = *self;
        let mut x = Bits::new();
        let mut z = Bits::new();
        core::mem::swap(&mut self.x, &mut x);
        core::mem::swap(&mut self.z, &mut z);
        x.set(index, lx_exec(letter));
        z.set(index, lz_exec(letter));
        core::mem::swap(&mut self.x, &mut x);
        core::mem::swap(&mut self.z, &mut z);
    }

    /// The letter at `index`.
    pub fn get(&self, index: usize) -> (r: PauliLetter)
        ensures
            r == self.l(index as int),
    {
        match (self.x.get(index), self.z.get(index)) {
            (true, false) => PauliLetter::X,
            (false, true) => PauliLetter::Z,
            (true, true) => PauliLetter::Y,
            _ => PauliLetter::I,
        }
    }

    /// An exact copy.
    pub fn duplicate(&self) -> (r: Self)
        ensures
            equiv(r, *self),
            r.sbound() == self.sbound(),
            r.slen() == self.slen(),
    {
        let r = PauliString { x: self.x.duplicate(), z: self.z.duplicate() };
        proof {
            lemma_count_support_congruent(r, *self, r.sbound());
        }
        r
    }

    /// The positions that hold a non-identity letter, in increasing order.
    pub fn targets(&self) -> (r: Vec<usize>)
        ensures
            forall|k: int| 0 <= k < r.len() ==> self.l(r[k] as int) != PauliLetter::I,
            forall|k1: int, k2: int| 0 <= k1 < k2 < r.len() ==> r[k1] < r[k2],
            forall|i: int|
                0 <= i && self.l(i) != PauliLetter::I ==> exists|k: int|
                    0 <= k < r.len() && r[k] == i,
            r.len() == self.slen(),
            forall|k: int| 0 <= k < r.len() ==> r[k] < BIT_INDEX_LIMIT,
    {
        let n = self.bound();
        let mut r: Vec<usize> = Vec::new();
        let mut i: usize = 0;
        while i < n
            invariant
                n == self.sbound(),
                n <= BIT_INDEX_LIMIT,
                i <= n,
                forall|k: int| 0 <= k < r.len() ==> self.l(r[k] as int) != PauliLetter::I,
                forall|k: int| 0 <= k < r.len() ==> r[k] < i,
                forall|k1: int, k2: int| 0 <= k1 < k2 < r.len() ==> r[k1] < r[k2],
                forall|j: int|
                    0 <= j < i && self.l(j) != PauliLetter::I ==> exists|k: int|
                        0 <= k < r.len() && r[k] == j,
                r.len() == count_support(*self, i as int),
            decreases n - i,
        {
            let ghost rpre = r@;
            let li = self.get(i);
            if !matches!(li, PauliLetter::I) {
                r.push(i);
            }
            proof {
                assert forall|j: int| 0 <= j < i + 1 && self.l(j) != PauliLetter::I
                    implies exists|k: int| 0 <= k < r@.len() && r@[k] == j by {
                    if j == i {
                        assert(r@[r@.len() - 1] == i as int);
                    } else {
                        let k = choose|k: int| 0 <= k < rpre.len() && rpre[k] == j;
                        assert(r@[k] == j);
                    }
                }
            }
            i += 1;
        }
        proof {
            assert forall|i2: int| 0 <= i2 && self.l(i2) != PauliLetter::I implies exists|k: int|
                0 <= k < r.len() && r[k] == i2 by {
                if i2 >= n {
                    self.lemma_l_past_sbound(i2);
                }
            }
        }
        r
    }

    /// The positions and letters of the string, in increasing position order.
    pub fn letters(&self) -> (r: Vec<(usize, PauliLetter)>)
        ensures
            forall|k: int|
                0 <= k < r.len() ==> self.l(r[k].0 as int) == r[k].1 && r[k].1 != PauliLetter::I,
            forall|k1: int, k2: int| 0 <= k1 < k2 < r.len() ==> r[k1].0 < r[k2].0,
            forall|i: int|
                0 <= i && self.l(i) != PauliLetter::I ==> exists|k: int|
                    0 <= k < r.len() && r[k].0 == i,
            r.len() == self.slen(),
            forall|k: int| 0 <= k < r.len() ==> r[k].0 < BIT_INDEX_LIMIT,
    {
        let n = self.bound();
        let mut r: Vec<(usize, PauliLetter)> = Vec::new();
        let mut i: usize = 0;
        while i < n
            invariant
                n == self.sbound(),
                n <= BIT_INDEX_LIMIT,
                i <= n,
                forall|k: int|
                    0 <= k < r.len() ==> self.l(r[k].0 as int) == r[k].1 && r[k].1
                        != PauliLetter::I,
                forall|k: int| 0 <= k < r.len() ==> r[k].0 < i,
                forall|k1: int, k2: int| 0 <= k1 < k2 < r.len() ==> r[k1].0 < r[k2].0,
                forall|j: int|
                    0 <= j < i && self.l(j) != PauliLetter::I ==> exists|k: int|
                        0 <= k < r.len() && r[k].0 == j,
                r.len() == count_support(*self, i as int),
            decreases n - i,
        {
            let ghost rpre = r@;
            let li = self.get(i);
            if !matches!(li, PauliLetter::I) {
                r.push((i, li));
            }
            proof {
                assert forall|j: int| 0 <= j < i + 1 && self.l(j) != PauliLetter::I
                    implies exists|k: int| 0 <= k < r@.len() && r@[k].0 == j by {
                    if j == i {
                        assert(r@[r@.len() - 1].0 == i as int);
                    } else {
                        let k = choose|k: int| 0 <= k < rpre.len() && rpre[k].0 == j;
                        assert(r@[k].0 == j);
                    }
                }
            }
            i += 1;
        }
        proof {
            assert forall|i2: int| 0 <= i2 && self.l(i2) != PauliLetter::I implies exists|k: int|
                0 <= k < r.len() && r[k].0 == i2 by {
                if i2 >= n {
                    self.lemma_l_past_sbound(i2);
                }
            }
        }
        r
    }

    /// The number of non-identity letters.
    pub fn len(&self) -> (r: usize)
        ensures
            r == self.slen(),
            r <= BIT_INDEX_LIMIT,
    {
        let n = self.bound();
        let mut count: usize = 0;
        let mut i: usize = 0;
        while i < n
            invariant
                n == self.sbound(),
                n <= BIT_INDEX_LIMIT,
                i <= n,
                count <= i,
                count == count_support(*self, i as int),
            decreases n - i,
        {
            if !matches!(self.get(i), PauliLetter::I) {
                count += 1;
            }
            i += 1;
        }
        count
    }

    pub fn is_empty(&self) -> (r: bool)
        ensures
            r == (self.slen() == 0),
            r == (forall|i: int| self.l(i) == PauliLetter::I),
    {
        let r = self.len() == 0;
        proof {
            if r {
                assert forall|i: int| self.l(i) == PauliLetter::I by {
                    if i < 0 {
                        self.lemma_l_negative(i);
                    } else if i < self.sbound() {
                        self.lemma_support_zero_at(i, self.sbound());
                    } else {
                        self.lemma_l_past_sbound(i);
                    }
                }
            } else {
                let w = self.lemma_support_witness(self.sbound());
                assert(self.l(w) != PauliLetter::I);
            }
        }
        r
    }

    /// When the support count below `n` is zero, the letter at any position
    /// below `n` is I.
    proof fn lemma_support_zero_at(&self, i: int, n: int)
        requires
            0 <= i < n,
            count_support(*self, n) == 0,
        ensures
            self.l(i) == PauliLetter::I,
        decreases n,
    {
        if i < n - 1 {
            self.lemma_support_zero_at(i, n - 1);
        }
    }

    /// When the support count below `n` is positive, some position below `n`
    /// holds a non-identity letter.
    proof fn lemma_support_witness(&self, n: int) -> (w: int)
        requires
            count_support(*self, n) > 0,
        ensures
            0 <= w < n,
            self.l(w) != PauliLetter::I,
        decreases n,
    {
        if self.l(n - 1) != PauliLetter::I {
            n - 1
        } else {
            self.lemma_support_witness(n - 1)
        }
    }

    /// The string as its letters up to the last non-identity position; the
    /// identity string renders as a single I.
    pub fn as_string(&self) -> (r: String)
        ensures
            r@.len() >= 1,
            forall|i: int| 0 <= i < r@.len() ==> r@[i] == spec_letter_char(self.l(i)),
            forall|i: int| i >= r@.len() ==> self.l(i) == PauliLetter::I,
            r@.len() > 1 ==> self.l(r@.len() - 1) != PauliLetter::I,
    {
        let n = self.start_of_trailin_is();
        let n = if n == 0 {
            1
        } else {
            n
        };
        proof {
            reveal_strlit("I");
            reveal_strlit("X");
            reveal_strlit("Y");
            reveal_strlit("Z");
        }
        let mut r = String::new();
        let mut i: usize = 0;
        while i < n
            invariant
                i <= n,
                r@.len() == i,
                forall|j: int| 0 <= j < i ==> r@[j] == spec_letter_char(self.l(j)),
            decreases n - i,
        {
            proof {
                reveal_strlit("I");
                reveal_strlit("X");
                reveal_strlit("Y");
                reveal_strlit("Z");
            }
            let ghost rpre = r@;
            match self.get(i) {
                PauliLetter::I => r.append("I"),
                PauliLetter::X => r.append("X"),
                PauliLetter::Y => r.append("Y"),
                PauliLetter::Z => r.append("Z"),
            }
            proof {
                assert(r@.len() == rpre.len() + 1);
                assert(r@[i as int] == spec_letter_char(self.l(i as int)));
            }
            i += 1;
        }
        r
    }

    /// Commutation of two strings: they commute exactly when the number of
    /// positions holding anticommuting letters is even.
    pub fn commutes_with(&self, other: &Self) -> (r: bool)
        ensures
            r == spec_commutes(*self, *other),
    {
        let b1 = self.bound();
        let b2 = other.bound();
        let n = if b1 > b2 {
            b1
        } else {
            b2
        };
        let mut anti: usize = 0;
        let mut i: usize = 0;
        while i < n
            invariant
                n == maxb(*self, *other),
                i <= n,
                anti <= i,
                anti == count_anti(*self, *other, i as int),
            decreases n - i,
        {
            let a = self.get(i);
            let b = other.get(i);
            if a.anticommutes_with(&b) {
                anti += 1;
            }
            i += 1;
        }
        anti % 2 == 0
    }

    pub fn anticommutes_with(&self, other: &Self) -> (r: bool)
        ensures
            r == !spec_commutes(*self, *other),
    {
        !self.commutes_with(other)
    }

    /// Conjugates `self` by $e^{s i\pi/4 O}$ with $s=-1$ when `neg` holds,
    /// and reports whether the global sign flips.
    ///
    /// When the strings commute nothing happens and `false` is returned.
    /// When they anticommute, the letters become the positionwise product
    /// $O_iP_i$ and the returned flag carries the exact sign of $s\,i\,OP$.
    pub fn pi_over_4_sandwitch(&mut self, neg: bool, o: &Self) -> (flip: bool)
        ensures
            spec_commutes(*old(self), *o) ==> !flip && equiv(*final(self), *old(self)),
            !spec_commutes(*old(self), *o) ==> (forall|i: int|
                final(self).l(i) == letter_prod(old(self).l(i), o.l(i))) && flip == spec_flip(
                *old(self),
                *o,
                neg,
            ),
    {
        let b1 = self.bound();
        let b2 = o.bound();
        let n = if b1 > b2 {
            b1
        } else {
            b2
        };
        let mut anti: usize = 0;
        let mut minus: usize = 0;
        let mut i: usize = 0;
        while i < n
            invariant
                n == maxb(*self, *o),
                i <= n,
                anti <= i,
                minus <= i,
                anti == count_anti(*self, *o, i as int),
                minus == count_minus(*o, *self, i as int),
            decreases n - i,
        {
            let a = self.get(i);
            let b = o.get(i);
            if a.anticommutes_with(&b) {
                anti += 1;
            }
            if minus_exec(b, a) {
                minus += 1;
            }
            i += 1;
        }
        if anti % 2 == 0 {
            return false;
        }
        let ghost orig = *self;
        let mut i: usize = 0;
        while i < n
            invariant
                n == maxb(orig, *o),
                n <= BIT_INDEX_LIMIT,
                i <= n,
                forall|j: int| 0 <= j < i ==> self.l(j) == letter_prod(orig.l(j), o.l(j)),
                forall|j: int| j >= i || j < 0 ==> self.l(j) == orig.l(j),
            decreases n - i,
        {
            let a = self.get(i);
            let b = o.get(i);
            self.set(i, prod_exec(a, b));
            i += 1;
        }
        proof {
            assert forall|j: int| self.l(j) == letter_prod(orig.l(j), o.l(j)) by {
                if j >= n {
                    assert(self.l(j) == orig.l(j));
                    orig.lemma_l_past_sbound(j);
                    o.lemma_l_past_sbound(j);
                } else if j < 0 {
                    assert(self.l(j) == orig.l(j));
                    orig.lemma_l_negative(j);
                    o.lemma_l_negative(j);
                }
            }
        }
        let sign = if (anti + 1) % 4 == 2 {
            !neg
        } else {
            neg
        };
        let sign = if minus % 2 == 1 {
            !sign
        } else {
            sign
        };
        sign
    }
}

impl PartialEq for PauliString {
    /// Two strings are equal when every position holds the same letter;
    /// trailing identities are ignored.
    fn eq(&self, other: &Self) -> (r: bool) {
        let rx = self.x.eq(&other.x);
        let rz = self.z.eq(&other.z);
        let r = rx && rz;
        proof {
            if r {
                assert(forall|i: int| self.l(i) == other.l(i));
            } else {
                if !(forall|i: int| self.x.bit(i) == other.x.bit(i)) {
                    let w = choose|i: int| self.x.bit(i) != other.x.bit(i);
                    assert(self.l(w) != other.l(w));
                } else {
                    let w = choose|i: int| self.z.bit(i) != other.z.bit(i);
                    assert(self.l(w) != other.l(w));
                }
            }
        }
        r
    }
}

impl Eq for PauliString {

}

impl vstd::std_specs::cmp::PartialEqSpecImpl for PauliString {
    open spec fn obeys_eq_spec() -> bool {
        true
    }

    open spec fn eq_spec(&self, other: &Self) -> bool {
        equiv(*self, *other)
    }
}

/// The relation computed by `pi_over_4_sandwitch` between a string before and
/// after one push of `o`: unchanged letters when the strings commute, the
/// positionwise product when they anticommute.
pub open spec fn sandwiched(p1: PauliString, o: PauliString, p2: PauliString) -> bool {
    if spec_commutes(p1, o) {
        equiv(p2, p1)
    } else {
        forall|i: int| p2.l(i) == letter_prod(p1.l(i), o.l(i))
    }
}

/// Counts are stable once the bound passes the supports of both strings.
pub proof fn lemma_count_anti_stable(p: PauliString, o: PauliString, n: int, m: int)
    requires
        p.sbound() <= n,
        o.sbound() <= n,
        n <= m,
    ensures
        count_anti(p, o, n) == count_anti(p, o, m),
    decreases m - n,
{
    if n < m {
        p.lemma_l_past_sbound(m - 1);
        o.lemma_l_past_sbound(m - 1);
        lemma_count_anti_stable(p, o, n, m - 1);
    }
}

pub proof fn lemma_count_minus_stable(o: PauliString, p: PauliString, n: int, m: int)
    requires
        p.sbound() <= n,
        o.sbound() <= n,
        n <= m,
    ensures
        count_minus(o, p, n) == count_minus(o, p, m),
    decreases m - n,
{
    if n < m {
        p.lemma_l_past_sbound(m - 1);
        o.lemma_l_past_sbound(m - 1);
        lemma_count_minus_stable(o, p, n, m - 1);
    }
}

pub proof fn lemma_count_support_stable(p: PauliString, n: int, m: int)
    requires
        p.sbound() <= n,
        n <= m,
    ensures
        count_support(p, n) == count_support(p, m),
    decreases m - n,
{
    if n < m {
        p.lemma_l_past_sbound(m - 1);
        lemma_count_support_stable(p, n, m - 1);
    }
}

/// Counts only depend on the letters of the strings.
pub proof fn lemma_count_anti_congruent(
    p: PauliString,
    p2: PauliString,
    o: PauliString,
    o2: PauliString,
    n: int,
)
    requires
        equiv(p, p2),
        equiv(o, o2),
    ensures
        count_anti(p, o, n) == count_anti(p2, o2, n),
    decreases n,
{
    if n > 0 {
        lemma_count_anti_congruent(p, p2, o, o2, n - 1);
    }
}

pub proof fn lemma_count_support_congruent(p: PauliString, p2: PauliString, n: int)
    requires
        equiv(p, p2),
    ensures
        count_support(p, n) == count_support(p2, n),
    decreases n,
{
    if n > 0 {
        lemma_count_support_congruent(p, p2, n - 1);
    }
}

/// The anticommute count of two strings is the same in either order.
pub proof fn lemma_count_anti_sym(p: PauliString, o: PauliString, n: int)
    ensures
        count_anti(p, o, n) == count_anti(o, p, n),
    decreases n,
{
    if n > 0 {
        lemma_count_anti_sym(p, o, n - 1);
    }
}

/// A string never anticommutes with itself on any position.
pub proof fn lemma_count_anti_self(o: PauliString, n: int)
    ensures
        count_anti(o, o, n) == 0,
    decreases n,
{
    if n > 0 {
        lemma_count_anti_self(o, n - 1);
    }
}

/// Multiplying by `o` does not change the anticommute count against `o`.
pub proof fn lemma_count_anti_of_prod(p1: PauliString, p2: PauliString, o: PauliString, n: int)
    requires
        forall|i: int| p2.l(i) == letter_prod(p1.l(i), o.l(i)),
    ensures
        count_anti(p2, o, n) == count_anti(p1, o, n),
    decreases n,
{
    if n > 0 {
        lemma_count_anti_of_prod(p1, p2, o, n - 1);
    }
}

/// The minus counts of a string and of its product with `o`, against `o`,
/// add up to the anticommute count: at each position exactly one of the two
/// pairs carries a $-i$ factor when the letters anticommute, and neither
/// does when they commute.
pub proof fn lemma_count_minus_pair(p1: PauliString, p2: PauliString, o: PauliString, n: int)
    requires
        forall|i: int| p2.l(i) == letter_prod(p1.l(i), o.l(i)),
    ensures
        count_minus(o, p1, n) + count_minus(o, p2, n) == count_anti(p1, o, n),
    decreases n,
{
    if n > 0 {
        lemma_count_minus_pair(p1, p2, o, n - 1);
    }
}

/// The symplectic pairing is linear in the first argument: the anticommute
/// parity of a product is the sum of the parities of the factors.
pub proof fn lemma_count_anti_bilinear(
    p1: PauliString,
    p2: PauliString,
    o: PauliString,
    q: PauliString,
    n: int,
)
    requires
        forall|i: int| p2.l(i) == letter_prod(p1.l(i), o.l(i)),
    ensures
        count_anti(p2, q, n) % 2 == (count_anti(p1, q, n) + count_anti(o, q, n)) % 2,
    decreases n,
{
    if n > 0 {
        lemma_count_anti_bilinear(p1, p2, o, q, n - 1);
    }
}

/// A bound past which every letter of both strings is I, no smaller than
/// either string's own bound.
pub proof fn lemma_counts_at_any_bound(p: PauliString, o: PauliString, m: int)
    requires
        p.sbound() <= m,
        o.sbound() <= m,
    ensures
        spec_anti(p, o) == count_anti(p, o, m),
        spec_minus(o, p) == count_minus(o, p, m),
    decreases m,
{
    if maxb(p, o) <= m {
        lemma_count_anti_stable(p, o, maxb(p, o), m);
        lemma_count_minus_stable(o, p, maxb(p, o), m);
    }
}

/// Sandwich involution: one push of `o` with one sign followed by one push
/// with the other sign restores the string, and the two reported signs are
/// equal, so their exclusive or is false.
pub proof fn lemma_sandwich_involution(p1: PauliString, p2: PauliString, o: PauliString, neg: bool)
    requires
        sandwiched(p1, o, p2),
    ensures
        sandwiched(p2, o, p1),
        spec_commutes(p2, o) == spec_commutes(p1, o),
        !spec_commutes(p1, o) ==> spec_flip(p2, o, !neg) == spec_flip(p1, o, neg),
{
    let m = if maxb(p1, o) >= maxb(p2, o) {
        maxb(p1, o)
    } else {
        maxb(p2, o)
    };
    lemma_counts_at_any_bound(p1, o, m);
    lemma_counts_at_any_bound(p2, o, m);
    if spec_commutes(p1, o) {
        lemma_count_anti_congruent(p2, p1, o, o, m);
    } else {
        lemma_count_anti_of_prod(p1, p2, o, m);
        lemma_count_minus_pair(p1, p2, o, m);
        assert forall|i: int| p1.l(i) == letter_prod(p2.l(i), o.l(i)) by {
            assert(p2.l(i) == letter_prod(p1.l(i), o.l(i)));
        }
    }
}

/// Pushing the same string `o` through two strings preserves whether they
/// commute with each other: the tableau rows keep their mutual commutation
/// pattern under every merge.
#[verifier::rlimit(100)]
#[verifier::spinoff_prover]
pub proof fn lemma_sandwich_preserves_commutation(
    p1: PauliString,
    p2: PauliString,
    q1: PauliString,
    q2: PauliString,
    o: PauliString,
)
    requires
        sandwiched(p1, o, p2),
        sandwiched(q1, o, q2),
    ensures
        spec_commutes(p2, q2) == spec_commutes(p1, q1),
{
    let m0 = if maxb(p1, q1) >= maxb(p2, q2) {
        maxb(p1, q1)
    } else {
        maxb(p2, q2)
    };
    let m1 = if maxb(p1, o) >= maxb(q1, o) {
        maxb(p1, o)
    } else {
        maxb(q1, o)
    };
    let m = if m0 >= m1 {
        m0
    } else {
        m1
    };
    lemma_counts_at_any_bound(p1, q1, m);
    lemma_counts_at_any_bound(p2, q2, m);
    lemma_counts_at_any_bound(p1, o, m);
    lemma_counts_at_any_bound(q1, o, m);
    if spec_commutes(p1, o) {
        if spec_commutes(q1, o) {
            lemma_count_anti_congruent(p2, p1, q2, q1, m);
        } else {
            // q2 is the product of q1 and o; expand against p2 which has the
            // letters of p1.
            lemma_count_anti_sym(p2, q2, m);
            lemma_count_anti_sym(p1, q1, m);
            lemma_count_anti_bilinear(q1, q2, o, p2, m);
            lemma_count_anti_congruent(q1, q1, p2, p1, m);
            lemma_count_anti_congruent(o, o, p2, p1, m);
            lemma_count_anti_sym(o, p1, m);
            lemma_count_anti_congruent(p1, p1, o, o, m);
        }
    } else {
        if spec_commutes(q1, o) {
            lemma_count_anti_bilinear(p1, p2, o, q2, m);
            lemma_count_anti_congruent(p1, p1, q2, q1, m);
            lemma_count_anti_congruent(o, o, q2, q1, m);
            lemma_count_anti_sym(o, q1, m);
            lemma_count_anti_congruent(q1, q1, o, o, m);
            lemma_count_anti_sym(q1, o, m);
        } else {
            lemma_count_anti_bilinear(p1, p2, o, q2, m);
            lemma_count_anti_sym(p1, q2, m);
            lemma_count_anti_bilinear(q1, q2, o, p1, m);
            lemma_count_anti_sym(q1, p1, m);
            lemma_count_anti_sym(o, q2, m);
            lemma_count_anti_sym(q2, o, m);
            lemma_count_anti_bilinear(q1, q2, o, o, m);
            lemma_count_anti_self(o, m);
            lemma_count_anti_sym(q1, o, m);
            lemma_count_anti_sym(o, p1, m);
        }
    }
}

/// The number of pi-over-4 pushes of gate size `n` needed to bring a string
/// of the given length down to a single letter: none when it already is one;
/// two or three short moves when it is shorter than a gate; otherwise one
/// more than the smallest `k` of the length's parity with
/// `len <= n + k(n - 1)`.
pub open spec fn spec_steps_to_len_one(len: int, n: int) -> int {
    if len == 1 {
        0
    } else if len < n {
        if len % 2 == 0 {
            3
        } else {
            2
        }
    } else {
        let k0 = (len - 2) / (n - 1);
        let k = if k0 % 2 == len % 2 {
            k0
        } else {
            k0 + 1
        };
        k + 1
    }
}

impl PauliString {
    /// Gives the amount of steps needed to convert the string to length 1 by
    /// using gates of a specific size.
    pub fn steps_to_len_one(&self, gate_size: NonZeroEvenUsize) -> (r: usize)
        ensures
            r == spec_steps_to_len_one(self.slen() as int, gate_size.as_int()),
    {
        let len = self.len();
        let n = gate_size.as_value();
        inner_steps_to_len_one(len, n)
    }
}

/// The step count for a given length, shared by the cost heuristics.
pub fn inner_steps_to_len_one(len: usize, n: usize) -> (r: usize)
    requires
        n >= 2,
    ensures
        r == spec_steps_to_len_one(len as int, n as int),
        r <= len + 3,
{
    if len == 1 {
        return 0;
    }
    if len < n {
        return if len % 2 == 0 {
            3
        } else {
            2
        };
    }
    let k0 = (len - 2) / (n - 1);
    let k = if k0 % 2 == len % 2 {
        k0
    } else {
        k0 + 1
    };
    proof {
        assert((len - 2) / (n - 1) <= len - 2) by (nonlinear_arith)
            requires
                n >= 2,
                len >= 2,
        ;
    }
    k + 1
}

/// A run of sandwiches: `trace` starts at `start` and each push turns one
/// entry into the next.
pub open spec fn push_trace(
    start: PauliString,
    pushes: Seq<PauliString>,
    trace: Seq<PauliString>,
) -> bool {
    &&& trace.len() == pushes.len() + 1
    &&& equiv(trace[0], start)
    &&& forall|k: int| 0 <= k < pushes.len() ==> sandwiched(trace[k], pushes[k], trace[k + 1])
}

/// A string of length other than one, holding a non-identity letter at
/// `e`, holds another one somewhere else.
pub proof fn lemma_other_support(p: PauliString, e: int) -> (w: int)
    requires
        p.slen() != 1,
        p.l(e) != PauliLetter::I,
    ensures
        w != e,
        p.l(w) != PauliLetter::I,
{
    if e < 0 {
        p.lemma_l_negative(e);
    }
    if e >= p.sbound() {
        p.lemma_l_past_sbound(e);
    }
    lemma_support_one(p, e, p.sbound());
    let w = lemma_second_support(p, e, p.sbound());
    w
}

/// When the support count below `n` exceeds the single letter at `e`, some
/// other position below `n` is also non-identity.
proof fn lemma_second_support(p: PauliString, e: int, n: int) -> (w: int)
    requires
        count_support(p, n) >= 2 || (count_support(p, n) >= 1 && !(0 <= e < n && p.l(e)
            != PauliLetter::I)),
    ensures
        w != e,
        p.l(w) != PauliLetter::I,
        0 <= w < n,
    decreases n,
{
    if p.l(n - 1) != PauliLetter::I && n - 1 != e {
        n - 1
    } else {
        lemma_second_support(p, e, n - 1)
    }
}

/// Equivalent strings have the same length.
pub proof fn lemma_equiv_slen(a: PauliString, b: PauliString)
    requires
        equiv(a, b),
    ensures
        a.slen() == b.slen(),
{
    let m = if a.sbound() >= b.sbound() {
        a.sbound()
    } else {
        b.sbound()
    };
    lemma_count_support_stable(a, a.sbound(), m);
    lemma_count_support_stable(b, b.sbound(), m);
    lemma_count_support_congruent(a, b, m);
}

/// A string with exactly one non-identity letter has length one.
pub proof fn lemma_single_letter_slen(p: PauliString, e: int)
    requires
        p.l(e) != PauliLetter::I,
        forall|q: int| q != e ==> p.l(q) == PauliLetter::I,
    ensures
        p.slen() == 1,
{
    if e < 0 {
        p.lemma_l_negative(e);
    }
    if e >= p.sbound() {
        p.lemma_l_past_sbound(e);
    }
    lemma_count_support_single(p, e, p.sbound());
}

/// The support count of a string whose only letter sits at `e`.
proof fn lemma_count_support_single(p: PauliString, e: int, n: int)
    requires
        forall|q: int| q != e ==> p.l(q) == PauliLetter::I,
    ensures
        count_support(p, n) == if 0 <= e < n && p.l(e) != PauliLetter::I {
            1nat
        } else {
            0nat
        },
    decreases n,
{
    if n > 0 {
        lemma_count_support_single(p, e, n - 1);
    }
}

/// A string of length one with a non-identity letter at `e` holds I at every
/// other position.
pub proof fn lemma_single_support(p: PauliString, e: int, q: int)
    requires
        p.slen() == 1,
        p.l(e) != PauliLetter::I,
        q != e,
    ensures
        p.l(q) == PauliLetter::I,
{
    if p.l(q) != PauliLetter::I {
        if q < 0 {
            p.lemma_l_negative(q);
        } else if q >= p.sbound() {
            p.lemma_l_past_sbound(q);
        }
        if e < 0 {
            p.lemma_l_negative(e);
        } else if e >= p.sbound() {
            p.lemma_l_past_sbound(e);
        }
        let a = if e < q {
            e
        } else {
            q
        };
        let b = if e < q {
            q
        } else {
            e
        };
        lemma_support_pair(p, a, b, p.sbound());
    }
}

/// Two distinct non-identity positions force a support count of at least two.
proof fn lemma_support_pair(p: PauliString, a: int, b: int, n: int)
    requires
        0 <= a < b < n,
        p.l(a) != PauliLetter::I,
        p.l(b) != PauliLetter::I,
    ensures
        count_support(p, n) >= 2,
    decreases n,
{
    if b == n - 1 {
        lemma_support_one(p, a, n - 1);
    } else {
        lemma_support_pair(p, a, b, n - 1);
    }
}

/// One non-identity position forces a support count of at least one.
proof fn lemma_support_one(p: PauliString, a: int, n: int)
    requires
        0 <= a < n,
        p.l(a) != PauliLetter::I,
    ensures
        count_support(p, n) >= 1,
    decreases n,
{
    if a < n - 1 {
        lemma_support_one(p, a, n - 1);
    }
}


/// The anticommute count against any string, for a string supported on one
/// position only.
pub proof fn lemma_count_anti_single(p: PauliString, q: PauliString, e: int, n: int)
    requires
        forall|w: int| w != e ==> p.l(w) == PauliLetter::I,
    ensures
        count_anti(p, q, n) == if 0 <= e < n && letter_anti(p.l(e), q.l(e)) {
            1nat
        } else {
            0nat
        },
    decreases n,
{
    if n > 0 {
        lemma_count_anti_single(p, q, e, n - 1);
    }
}


/// The sandwich relation is a function up to equivalence: for a fixed input
/// string and push there is only one possible result, so a run of pushes is
/// deterministic.
pub proof fn lemma_sandwiched_unique(p: PauliString, o: PauliString, a: PauliString, b: PauliString)
    requires
        sandwiched(p, o, a),
        sandwiched(p, o, b),
    ensures
        equiv(a, b),
{
}

} // verus!
