//! The Clifford tableau: images of the single-qubit X and Z operators under
//! an accumulated Clifford, with their signs, and the merge operations that
//! push further rotations into it.

use vstd::prelude::*;

use crate::bits::{BIT_INDEX_LIMIT, Bits};
use crate::pauli::{CliffordPauliAngle, PauliLetter, letter_anti, letter_minus, letter_prod};
use crate::connectivity::{
    Connectivity, RoutingInstruction, RoutingInstructionTarget, steiner_on_alive,
    as_instructions_toward,
};
use crate::decompose::{
    QubitProtection, delicate_solver, fastest, fastest_delicate, simple_solver, solved_by,
};
use crate::misc::NonZeroEvenUsize;
use crate::pauli::spec_neg_clifford;
use crate::pauli_exp::PauliExp;
use crate::synthesize::{check_supported, handle_instruction, string_supported};
use crate::pauli_string::{
    PauliString, count_anti, count_minus, equiv, lemma_count_anti_single,
    lemma_counts_at_any_bound, lemma_sandwich_preserves_commutation, maxb, sandwiched, spec_anti,
    spec_commutes, spec_flip, spec_minus,
};

verus! {

/// The letter of the identity-row image of $X_i$ at qubit `q`.
pub open spec fn ident_x(i: int, q: int) -> PauliLetter {
    if q == i {
        PauliLetter::X
    } else {
        PauliLetter::I
    }
}

/// The letter of the identity-row image of $Z_i$ at qubit `q`.
pub open spec fn ident_z(i: int, q: int) -> PauliLetter {
    if q == i {
        PauliLetter::Z
    } else {
        PauliLetter::I
    }
}

/// The state of a Clifford unitary: row `x[i]` (resp. `z[i]`) is the image
/// of the single-qubit $X_i$ (resp. $Z_i$), and the sign bits carry their
/// phases. Rows beyond the stored prefix are implicitly the identity rows.
#[derive(Debug, Clone)]
pub struct CliffordTableau {
    x: Vec<PauliString>,
    z: Vec<PauliString>,
    x_signs: Bits,
    z_signs: Bits,
}

impl CliffordTableau {
    /// The two row vectors always have the same length, and the stored rows
    /// never reach outside the stored prefix.
    pub closed spec fn wf(&self) -> bool {
        &&& self.x.len() == self.z.len()
        &&& self.x.len() <= BIT_INDEX_LIMIT
        &&& forall|i: int, q: int|
            0 <= i < self.x.len() && q >= self.x.len() ==> self.x[i].l(q) == PauliLetter::I
                && self.z[i].l(q) == PauliLetter::I
    }

    /// The number of stored row pairs.
    pub closed spec fn rows(&self) -> int {
        self.x.len() as int
    }

    /// The letter at qubit `q` of the X row for qubit `i`, with identity
    /// rows past the stored prefix.
    pub closed spec fn xl(&self, i: int, q: int) -> PauliLetter {
        if 0 <= i < self.x.len() {
            self.x[i].l(q)
        } else {
            ident_x(i, q)
        }
    }

    /// The letter at qubit `q` of the Z row for qubit `i`.
    pub closed spec fn zl(&self, i: int, q: int) -> PauliLetter {
        if 0 <= i < self.z.len() {
            self.z[i].l(q)
        } else {
            ident_z(i, q)
        }
    }

    /// The sign bit of the X row for qubit `i`.
    pub closed spec fn xs(&self, i: int) -> bool {
        self.x_signs.bit(i)
    }

    /// The sign bit of the Z row for qubit `i`.
    pub closed spec fn zs(&self, i: int) -> bool {
        self.z_signs.bit(i)
    }

    /// The stored X row for qubit `i`.
    pub closed spec fn xrow(&self, i: int) -> PauliString {
        self.x[i]
    }

    /// The stored Z row for qubit `i`.
    pub closed spec fn zrow(&self, i: int) -> PauliString {
        self.z[i]
    }

    /// The identity tableau.
    pub fn id() -> (r: Self)
        ensures
            r.wf(),
            tab_identity(r),
            r.rows() == 0,
    {
        let r = CliffordTableau {
            x: Vec::new(),
            z: Vec::new(),
            x_signs: Bits::new(),
            z_signs: Bits::new(),
        };
        r
    }

    /// The number of stored row pairs.
    pub fn size(&self) -> (r: usize)
        requires
            self.wf(),
        ensures
            r == self.rows(),
    {
        self.x.len()
    }

    /// The identity tableau with the given number of rows already stored.
    pub fn id_with_capacity(capacity: usize) -> (r: Self)
        requires
            capacity < BIT_INDEX_LIMIT,
        ensures
            r.wf(),
            tab_identity(r),
            r.rows() == capacity,
    {
        let mut r = CliffordTableau {
            x: Vec::new(),
            z: Vec::new(),
            x_signs: Bits::with_capacity(capacity),
            z_signs: Bits::with_capacity(capacity),
        };
        r.grow_rows(capacity);
        r
    }

    /// Appends identity rows until at least `m` row pairs are stored. All
    /// row letters and signs are unchanged on the total view.
    fn grow_rows(&mut self, m: usize)
        requires
            old(self).wf(),
            m <= BIT_INDEX_LIMIT,
        ensures
            final(self).wf(),
            final(self).rows() >= m,
            final(self).rows() >= old(self).rows(),
            final(self).rows() == if old(self).rows() >= m {
                old(self).rows()
            } else {
                m as int
            },
            forall|i: int| 0 <= i < old(self).rows() ==> final(self).xrow(i) == old(self).xrow(i)
                && final(self).zrow(i) == old(self).zrow(i),
            forall|i: int, q: int| final(self).xl(i, q) == old(self).xl(i, q) && final(self).zl(
                i,
                q,
            ) == old(self).zl(i, q),
            forall|i: int| final(self).xs(i) == old(self).xs(i) && final(self).zs(i) == old(
                self,
            ).zs(i),
    {
        let ghost orig = *self;
        let mut x: Vec<PauliString> = Vec::new();
        let mut z: Vec<PauliString> = Vec::new();
        core::mem::swap(&mut self.x, &mut x);
        core::mem::swap(&mut self.z, &mut z);
        while x.len() < m
            invariant
                m <= BIT_INDEX_LIMIT,
                x.len() == z.len(),
                x.len() >= orig.x.len(),
                x.len() <= m || x.len() == orig.x.len(),
                forall|i: int| 0 <= i < orig.x.len() ==> x[i] == orig.x[i] && z[i] == orig.z[i],
                forall|i: int, q: int|
                    orig.x.len() <= i < x.len() ==> x[i].l(q) == ident_x(i, q) && z[i].l(q)
                        == ident_z(i, q),
            decreases m - x.len(),
        {
            let i = x.len();
            x.push(PauliString::x(i));
            z.push(PauliString::z(i));
        }
        core::mem::swap(&mut self.x, &mut x);
        core::mem::swap(&mut self.z, &mut z);
        proof {
            assert forall|i: int, q: int|
                0 <= i < self.x.len() && q >= self.x.len() implies self.x[i].l(q)
                == PauliLetter::I && self.z[i].l(q) == PauliLetter::I by {
                if i < orig.x.len() {
                    assert(self.x[i] == orig.x[i] && self.z[i] == orig.z[i]);
                    assert(q >= orig.x.len());
                    assert(orig.x[i].l(q) == PauliLetter::I && orig.z[i].l(q) == PauliLetter::I);
                } else {
                    assert(self.x[i].l(q) == ident_x(i, q) && self.z[i].l(q) == ident_z(i, q));
                }
            }
            assert forall|i: int, q: int| self.xl(i, q) == orig.xl(i, q) && self.zl(i, q)
                == orig.zl(i, q) by {}
        }
    }

    /// The stored X row for qubit `index`, or the identity row when none is
    /// stored.
    pub fn get_x_row(&self, index: usize) -> (r: PauliString)
        requires
            self.wf(),
            index < BIT_INDEX_LIMIT,
        ensures
            forall|q: int| r.l(q) == self.xl(index as int, q),
    {
        if index < self.x.len() {
            self.x[index].duplicate()
        } else {
            PauliString::x(index)
        }
    }

    /// The stored Z row for qubit `index`, or the identity row when none is
    /// stored.
    pub fn get_z_row(&self, index: usize) -> (r: PauliString)
        requires
            self.wf(),
            index < BIT_INDEX_LIMIT,
        ensures
            forall|q: int| r.l(q) == self.zl(index as int, q),
    {
        if index < self.z.len() {
            self.z[index].duplicate()
        } else {
            PauliString::z(index)
        }
    }

    /// The X sign bits.
    pub fn get_x_signs(&self) -> (r: Bits)
        ensures
            forall|i: int| r.bit(i) == self.xs(i),
    {
        self.x_signs.duplicate()
    }

    /// The Z sign bits.
    pub fn get_z_signs(&self) -> (r: Bits)
        ensures
            forall|i: int| r.bit(i) == self.zs(i),
    {
        self.z_signs.duplicate()
    }

    /// Whether the tableau is the identity: every row is its identity row
    /// and every sign is positive.
    pub fn is_identity(&self) -> (r: bool)
        requires
            self.wf(),
        ensures
            r == tab_identity(*self),
    {
        if !self.x_signs.is_all_zero() {
            proof {
                let w = choose|i: int| self.x_signs.bit(i);
                assert(self.xs(w));
            }
            return false;
        }
        if !self.z_signs.is_all_zero() {
            proof {
                let w = choose|i: int| self.z_signs.bit(i);
                assert(self.zs(w));
            }
            return false;
        }
        let mut i: usize = 0;
        let n = self.x.len();
        while i < n
            invariant
                self.wf(),
                n == self.rows(),
                i <= n,
                forall|i2: int, q: int|
                    0 <= i2 < i ==> self.xl(i2, q) == ident_x(i2, q) && self.zl(i2, q) == ident_z(
                        i2,
                        q,
                    ),
                forall|i2: int| !self.xs(i2) && !self.zs(i2),
            decreases n - i,
        {
            let xi = PauliString::x(i);
            let zi = PauliString::z(i);
            let rx = &self.x[i];
            let rz = &self.z[i];
            if !rx.eq(&xi) {
                proof {
                    let q = choose|q: int| rx.l(q) != xi.l(q);
                    assert(self.xl(i as int, q) != ident_x(i as int, q));
                }
                return false;
            }
            if !rz.eq(&zi) {
                proof {
                    let q = choose|q: int| rz.l(q) != zi.l(q);
                    assert(self.zl(i as int, q) != ident_z(i as int, q));
                }
                return false;
            }
            i += 1;
        }
        proof {
            assert forall|i2: int, q: int| self.xl(i2, q) == ident_x(i2, q) && self.zl(i2, q)
                == ident_z(i2, q) by {}
        }
        true
    }
}

/// Whether the tableau is the identity on the total view.
pub open spec fn tab_identity(t: CliffordTableau) -> bool {
    &&& forall|i: int, q: int| t.xl(i, q) == ident_x(i, q) && t.zl(i, q) == ident_z(i, q)
    &&& forall|i: int| !t.xs(i) && !t.zs(i)
}

/// Two tableaus agree on the total view: same row letters and same signs.
pub open spec fn tab_equiv(a: CliffordTableau, b: CliffordTableau) -> bool {
    &&& forall|i: int, q: int| a.xl(i, q) == b.xl(i, q) && a.zl(i, q) == b.zl(i, q)
    &&& forall|i: int| a.xs(i) == b.xs(i) && a.zs(i) == b.zs(i)
}


/// The letters of a row, as a function of the qubit index.
pub open spec fn xf(t: CliffordTableau, i: int) -> spec_fn(int) -> PauliLetter {
    |q: int| t.xl(i, q)
}

/// The letters of a Z row, as a function of the qubit index.
pub open spec fn zf(t: CliffordTableau, i: int) -> spec_fn(int) -> PauliLetter {
    |q: int| t.zl(i, q)
}

/// How many positions below `n` hold letters of the row that anticommute
/// with the letters of `o`.
pub open spec fn cnt_anti(f: spec_fn(int) -> PauliLetter, o: PauliString, n: int) -> nat
    decreases n,
{
    if n <= 0 {
        0
    } else {
        cnt_anti(f, o, n - 1) + (if letter_anti(f(n - 1), o.l(n - 1)) {
            1nat
        } else {
            0nat
        })
    }
}

/// How many positions below `n` hold a pair whose product $O_qP_q$ carries
/// a $-i$ factor.
pub open spec fn cnt_minus(o: PauliString, f: spec_fn(int) -> PauliLetter, n: int) -> nat
    decreases n,
{
    if n <= 0 {
        0
    } else {
        cnt_minus(o, f, n - 1) + (if letter_minus(o.l(n - 1), f(n - 1)) {
            1nat
        } else {
            0nat
        })
    }
}

/// Whether a row anticommutes with `o`, judged below the bound `b`.
pub open spec fn row_odd(f: spec_fn(int) -> PauliLetter, o: PauliString, b: int) -> bool {
    cnt_anti(f, o, b) % 2 == 1
}

/// The sign reported when an anticommuting row is sandwiched by `o`.
pub open spec fn row_flip(
    f: spec_fn(int) -> PauliLetter,
    o: PauliString,
    b: int,
    neg: bool,
) -> bool {
    (neg != (((cnt_anti(f, o, b) + 1) % 4) == 2)) != (cnt_minus(o, f, b) % 2 == 1)
}

/// Row counts agree with string counts when the letters agree pointwise.
pub proof fn lemma_cnt_matches_value(
    f: spec_fn(int) -> PauliLetter,
    p: PauliString,
    o: PauliString,
    n: int,
)
    requires
        forall|q: int| #[trigger] f(q) == p.l(q),
    ensures
        cnt_anti(f, o, n) == count_anti(p, o, n),
        cnt_minus(o, f, n) == count_minus(o, p, n),
    decreases n,
{
    if n > 0 {
        lemma_cnt_matches_value(f, p, o, n - 1);
    }
}

/// Row counts vanish when every counted letter of the row or of `o` is I.
pub proof fn lemma_cnt_zero(f: spec_fn(int) -> PauliLetter, o: PauliString, n: int)
    requires
        forall|q: int| 0 <= q < n ==> #[trigger] f(q) == PauliLetter::I || o.l(q) == PauliLetter::I,
    ensures
        cnt_anti(f, o, n) == 0,
        cnt_minus(o, f, n) == 0,
    decreases n,
{
    if n > 0 {
        lemma_cnt_zero(f, o, n - 1);
    }
}

/// Row counts are stable across a region where the row or `o` is I.
pub proof fn lemma_cnt_stable(f: spec_fn(int) -> PauliLetter, o: PauliString, n: int, m: int)
    requires
        n <= m,
        forall|q: int| n <= q < m ==> #[trigger] f(q) == PauliLetter::I || o.l(q) == PauliLetter::I,
    ensures
        cnt_anti(f, o, n) == cnt_anti(f, o, m),
        cnt_minus(o, f, n) == cnt_minus(o, f, m),
    decreases m - n,
{
    if n < m {
        lemma_cnt_stable(f, o, n, m - 1);
    }
}

/// Row counts only depend on the letters.
pub proof fn lemma_cnt_congruent(
    f: spec_fn(int) -> PauliLetter,
    g: spec_fn(int) -> PauliLetter,
    o: PauliString,
    n: int,
)
    requires
        forall|q: int| #[trigger] f(q) == g(q),
    ensures
        cnt_anti(f, o, n) == cnt_anti(g, o, n),
        cnt_minus(o, f, n) == cnt_minus(o, g, n),
    decreases n,
{
    if n > 0 {
        lemma_cnt_congruent(f, g, o, n - 1);
    }
}

/// What one merge of $e^{s i\pi/4 O}$ does to a tableau, on the total view:
/// every row that anticommutes with $O$ becomes its positionwise product
/// with $O$ and its sign toggles exactly when the sandwich sign rule says
/// so; every other row and sign is unchanged. The counts are judged below
/// the stored row bound of the merged tableau, which covers the support of
/// $O$.
pub open spec fn merge_rel(
    t1: CliffordTableau,
    neg: bool,
    o: PauliString,
    t2: CliffordTableau,
) -> bool {
    let b = t2.rows();
    &&& t1.wf()
    &&& t2.wf()
    &&& t2.rows() >= t1.rows()
    &&& forall|q: int| q >= b ==> o.l(q) == PauliLetter::I
    &&& forall|i: int, q: int|
        t2.xl(i, q) == (if row_odd(xf(t1, i), o, b) {
            letter_prod(t1.xl(i, q), o.l(q))
        } else {
            t1.xl(i, q)
        })
    &&& forall|i: int, q: int|
        t2.zl(i, q) == (if row_odd(zf(t1, i), o, b) {
            letter_prod(t1.zl(i, q), o.l(q))
        } else {
            t1.zl(i, q)
        })
    &&& forall|i: int|
        t2.xs(i) == (t1.xs(i) != (row_odd(xf(t1, i), o, b) && row_flip(xf(t1, i), o, b, neg)))
    &&& forall|i: int|
        t2.zs(i) == (t1.zs(i) != (row_odd(zf(t1, i), o, b) && row_flip(zf(t1, i), o, b, neg)))
}

/// What one merge of a half-turn $e^{\pm i\pi/2 O}$ does to a tableau:
/// rows keep their letters, and the sign of every row that anticommutes
/// with $O$ toggles.
pub open spec fn halfturn_rel(t1: CliffordTableau, o: PauliString, t2: CliffordTableau) -> bool {
    let b = t2.rows();
    &&& t1.wf()
    &&& t2.wf()
    &&& t2.rows() >= t1.rows()
    &&& forall|q: int| q >= b ==> o.l(q) == PauliLetter::I
    &&& forall|i: int, q: int| t2.xl(i, q) == t1.xl(i, q) && t2.zl(i, q) == t1.zl(i, q)
    &&& forall|i: int| t2.xs(i) == (t1.xs(i) != row_odd(xf(t1, i), o, b))
    &&& forall|i: int| t2.zs(i) == (t1.zs(i) != row_odd(zf(t1, i), o, b))
}

impl CliffordTableau {
    /// Merges a $e^{\pm i\frac{\pi}{4}P}$ Pauli exponential into the tableau
    /// (on a circuit the Pauli would be originally on the right side of the
    /// tableau): every row is sandwiched, and the signs of the rows whose
    /// sandwich reports a flip are toggled.
    pub fn merge_pi_over_4_pauli(&mut self, neg: bool, string: &PauliString)
        requires
            old(self).wf(),
        ensures
            final(self).wf(),
            merge_rel(*old(self), neg, *string, *final(self)),
    {
        let ghost t1 = *self;
        let need = string.size();
        let cur = self.x.len();
        let m = if need > cur {
            need
        } else {
            cur
        };
        self.grow_rows(m);
        let ghost tg = *self;
        let n = self.x.len();
        let ghost b = n as int;
        proof {
            assert forall|q: int| q >= b implies string.l(q) == PauliLetter::I by {}
        }
        let mut x: Vec<PauliString> = Vec::new();
        let mut z: Vec<PauliString> = Vec::new();
        let mut x_signs = Bits::new();
        let mut z_signs = Bits::new();
        core::mem::swap(&mut self.x, &mut x);
        core::mem::swap(&mut self.z, &mut z);
        core::mem::swap(&mut self.x_signs, &mut x_signs);
        core::mem::swap(&mut self.z_signs, &mut z_signs);
        let mut i: usize = 0;
        while i < n
            invariant
                n == tg.rows(),
                b == n as int,
                n <= BIT_INDEX_LIMIT,
                i <= n,
                x.len() == n,
                z.len() == n,
                tg.wf(),
                forall|q: int| q >= b ==> string.l(q) == PauliLetter::I,
                forall|i2: int| i <= i2 < n ==> x[i2] == tg.xrow(i2) && z[i2] == tg.zrow(i2),
                forall|i2: int, q: int|
                    0 <= i2 < i ==> x[i2].l(q) == (if row_odd(xf(tg, i2), *string, b) {
                        letter_prod(tg.xl(i2, q), string.l(q))
                    } else {
                        tg.xl(i2, q)
                    }),
                forall|i2: int, q: int|
                    0 <= i2 < i ==> z[i2].l(q) == (if row_odd(zf(tg, i2), *string, b) {
                        letter_prod(tg.zl(i2, q), string.l(q))
                    } else {
                        tg.zl(i2, q)
                    }),
                forall|i2: int|
                    0 <= i2 < i ==> x_signs.bit(i2) == (tg.xs(i2) != (row_odd(xf(tg, i2), *string, b)
                        && row_flip(xf(tg, i2), *string, b, neg))),
                forall|i2: int|
                    0 <= i2 < i ==> z_signs.bit(i2) == (tg.zs(i2) != (row_odd(zf(tg, i2), *string, b)
                        && row_flip(zf(tg, i2), *string, b, neg))),
                forall|i2: int| !(0 <= i2 < i) ==> x_signs.bit(i2) == tg.xs(i2) && z_signs.bit(i2)
                    == tg.zs(i2),
            decreases n - i,
        {
            let ghost gi = i as int;
            let mut rx = x[i].duplicate();
            let ghost rx0 = rx;
            let fx = rx.pi_over_4_sandwitch(neg, string);
            proof {
                assert(x@[gi] == tg.xrow(gi));
                assert forall|q: int| rx0.l(q) == tg.xl(gi, q) by {
                    assert(rx0.l(q) == x@[gi].l(q));
                }
                lemma_row_step(tg, gi, true, rx0, rx, *string, b, neg, fx);
            }
            x.set(i, rx);
            if fx {
                let s = x_signs.get(i);
                x_signs.set(i, !s);
            }
            let mut rz = z[i].duplicate();
            let ghost rz0 = rz;
            let fz = rz.pi_over_4_sandwitch(neg, string);
            proof {
                assert(z@[gi] == tg.zrow(gi));
                assert forall|q: int| rz0.l(q) == tg.zl(gi, q) by {
                    assert(rz0.l(q) == z@[gi].l(q));
                }
                lemma_row_step(tg, gi, false, rz0, rz, *string, b, neg, fz);
            }
            z.set(i, rz);
            if fz {
                let s = z_signs.get(i);
                z_signs.set(i, !s);
            }
            i += 1;
        }
        let ghost sx = x_signs;
        let ghost sz = z_signs;
        let ghost vx = x@;
        let ghost vz = z@;
        core::mem::swap(&mut self.x, &mut x);
        core::mem::swap(&mut self.z, &mut z);
        core::mem::swap(&mut self.x_signs, &mut x_signs);
        core::mem::swap(&mut self.z_signs, &mut z_signs);
        proof {
            assert(self.x_signs == sx && self.z_signs == sz);
            assert(self.x@ == vx && self.z@ == vz);
            assert forall|i2: int, q: int|
                0 <= i2 < self.x.len() && q >= self.x.len() implies self.x[i2].l(q)
                == PauliLetter::I && self.z[i2].l(q) == PauliLetter::I by {
                assert(tg.xl(i2, q) == PauliLetter::I);
                assert(tg.zl(i2, q) == PauliLetter::I);
                assert(string.l(q) == PauliLetter::I);
                assert(vx[i2].l(q) == PauliLetter::I);
                assert(vz[i2].l(q) == PauliLetter::I);
            }
            assert(self.wf());
            assert(self.rows() == b);
            assert forall|i2: int| !(0 <= i2 < b) implies self.xs(i2) == tg.xs(i2) && self.zs(i2)
                == tg.zs(i2) by {
                assert(sx.bit(i2) == tg.xs(i2));
                assert(sz.bit(i2) == tg.zs(i2));
            }
            lemma_merge_conclude(t1, tg, *self, *string, b, neg);
        }
    }
}

/// One sandwiched row satisfies the letter-level row relation.
proof fn lemma_row_step(
    tg: CliffordTableau,
    i: int,
    is_x: bool,
    r0: PauliString,
    r1: PauliString,
    o: PauliString,
    b: int,
    neg: bool,
    flip: bool,
)
    requires
        tg.wf(),
        b == tg.rows(),
        0 <= i < tg.rows(),
        forall|q: int| q >= b ==> o.l(q) == PauliLetter::I,
        forall|q: int| r0.l(q) == (if is_x {
            tg.xl(i, q)
        } else {
            tg.zl(i, q)
        }),
        sandwiched(r0, o, r1),
        spec_commutes(r0, o) ==> !flip,
        !spec_commutes(r0, o) ==> flip == spec_flip(r0, o, neg),
    ensures
        is_x ==> forall|q: int|
            r1.l(q) == (if row_odd(xf(tg, i), o, b) {
                letter_prod(tg.xl(i, q), o.l(q))
            } else {
                tg.xl(i, q)
            }),
        !is_x ==> forall|q: int|
            r1.l(q) == (if row_odd(zf(tg, i), o, b) {
                letter_prod(tg.zl(i, q), o.l(q))
            } else {
                tg.zl(i, q)
            }),
        is_x ==> flip == (row_odd(xf(tg, i), o, b) && row_flip(xf(tg, i), o, b, neg)),
        !is_x ==> flip == (row_odd(zf(tg, i), o, b) && row_flip(zf(tg, i), o, b, neg)),
{
    let f = if is_x {
        xf(tg, i)
    } else {
        zf(tg, i)
    };
    let mm = if maxb(r0, o) >= b {
        maxb(r0, o)
    } else {
        b
    };
    lemma_cnt_matches_value(f, r0, o, mm);
    assert forall|q: int| b <= q < mm implies f(q) == PauliLetter::I || o.l(q)
        == PauliLetter::I by {}
    lemma_cnt_stable(f, o, b, mm);
    lemma_counts_at_any_bound(r0, o, mm);
    assert(cnt_anti(f, o, b) == spec_anti(r0, o));
    assert(cnt_minus(o, f, b) == spec_minus(o, r0));
    assert(row_odd(f, o, b) == !spec_commutes(r0, o));
    if !spec_commutes(r0, o) {
        assert(row_flip(f, o, b, neg) == spec_flip(r0, o, neg));
    }
}

/// Assembles the per-row facts into the merge relation.
proof fn lemma_merge_conclude(
    t1: CliffordTableau,
    tg: CliffordTableau,
    t2: CliffordTableau,
    o: PauliString,
    b: int,
    neg: bool,
)
    requires
        t1.wf(),
        tg.wf(),
        t2.wf(),
        b == tg.rows(),
        b == t2.rows(),
        tg.rows() >= t1.rows(),
        forall|q: int| q >= b ==> o.l(q) == PauliLetter::I,
        forall|i: int, q: int| tg.xl(i, q) == t1.xl(i, q) && tg.zl(i, q) == t1.zl(i, q),
        forall|i: int| tg.xs(i) == t1.xs(i) && tg.zs(i) == t1.zs(i),
        forall|i: int, q: int|
            0 <= i < b ==> t2.xl(i, q) == (if row_odd(xf(tg, i), o, b) {
                letter_prod(tg.xl(i, q), o.l(q))
            } else {
                tg.xl(i, q)
            }),
        forall|i: int, q: int|
            0 <= i < b ==> t2.zl(i, q) == (if row_odd(zf(tg, i), o, b) {
                letter_prod(tg.zl(i, q), o.l(q))
            } else {
                tg.zl(i, q)
            }),
        forall|i: int|
            0 <= i < b ==> t2.xs(i) == (tg.xs(i) != (row_odd(xf(tg, i), o, b) && row_flip(
                xf(tg, i),
                o,
                b,
                neg,
            ))),
        forall|i: int|
            0 <= i < b ==> t2.zs(i) == (tg.zs(i) != (row_odd(zf(tg, i), o, b) && row_flip(
                zf(tg, i),
                o,
                b,
                neg,
            ))),
        forall|i: int| !(0 <= i < b) ==> t2.xs(i) == tg.xs(i) && t2.zs(i) == tg.zs(i),
    ensures
        merge_rel(t1, neg, o, t2),
{
    assert forall|i: int| !(0 <= i < b) implies !row_odd(xf(t1, i), o, b) && !row_odd(
        zf(t1, i),
        o,
        b,
    ) by {
        assert forall|q: int| 0 <= q < b implies xf(t1, i)(q) == PauliLetter::I || o.l(q)
            == PauliLetter::I by {
            if i < 0 {
            } else {
                assert(t1.xl(i, q) == ident_x(i, q));
            }
        }
        assert forall|q: int| 0 <= q < b implies zf(t1, i)(q) == PauliLetter::I || o.l(q)
            == PauliLetter::I by {
            if i < 0 {
            } else {
                assert(t1.zl(i, q) == ident_z(i, q));
            }
        }
        lemma_cnt_zero(xf(t1, i), o, b);
        lemma_cnt_zero(zf(t1, i), o, b);
    }
    assert forall|i: int|
        0 <= i implies cnt_anti(xf(t1, i), o, b) == cnt_anti(xf(tg, i), o, b) && cnt_minus(
        o,
        xf(t1, i),
        b,
    ) == cnt_minus(o, xf(tg, i), b) && cnt_anti(zf(t1, i), o, b) == cnt_anti(zf(tg, i), o, b)
        && cnt_minus(o, zf(t1, i), b) == cnt_minus(o, zf(tg, i), b) by {
        assert(forall|q: int| #[trigger] xf(t1, i)(q) == xf(tg, i)(q));
        assert(forall|q: int| #[trigger] zf(t1, i)(q) == zf(tg, i)(q));
        lemma_cnt_congruent(xf(t1, i), xf(tg, i), o, b);
        lemma_cnt_congruent(zf(t1, i), zf(tg, i), o, b);
    }
    assert forall|i: int, q: int|
        t2.xl(i, q) == (if row_odd(xf(t1, i), o, b) {
            letter_prod(t1.xl(i, q), o.l(q))
        } else {
            t1.xl(i, q)
        }) by {
        if 0 <= i < b {
        } else {
            assert(!row_odd(xf(t1, i), o, b));
            if i >= b {
                assert(t2.xl(i, q) == ident_x(i, q));
                assert(t1.xl(i, q) == ident_x(i, q));
            }
        }
    }
    assert forall|i: int, q: int|
        t2.zl(i, q) == (if row_odd(zf(t1, i), o, b) {
            letter_prod(t1.zl(i, q), o.l(q))
        } else {
            t1.zl(i, q)
        }) by {
        if 0 <= i < b {
        } else {
            assert(!row_odd(zf(t1, i), o, b));
            if i >= b {
                assert(t2.zl(i, q) == ident_z(i, q));
                assert(t1.zl(i, q) == ident_z(i, q));
            }
        }
    }
}


/// Row counts at the cover bound agree with the value-level counts of a row.
proof fn lemma_row_counts_value(
    f: spec_fn(int) -> PauliLetter,
    r: PauliString,
    o: PauliString,
    b: int,
)
    requires
        forall|q: int| #[trigger] f(q) == r.l(q),
        forall|q: int| q >= b ==> o.l(q) == PauliLetter::I,
    ensures
        cnt_anti(f, o, b) == spec_anti(r, o),
        cnt_minus(o, f, b) == spec_minus(o, r),
{
    let mm = if maxb(r, o) >= b {
        maxb(r, o)
    } else {
        b
    };
    lemma_cnt_matches_value(f, r, o, mm);
    lemma_cnt_stable(f, o, b, mm);
    lemma_counts_at_any_bound(r, o, mm);
}

impl CliffordTableau {
    /// Merges a half-turn $e^{\pm i\pi/2 O}$: for each row that anticommutes
    /// with $O$ the sign flips; the rows themselves are unchanged.
    fn merge_half_turn(&mut self, string: &PauliString)
        requires
            old(self).wf(),
        ensures
            final(self).wf(),
            halfturn_rel(*old(self), *string, *final(self)),
    {
        let ghost t1 = *self;
        let need = string.size();
        let cur = self.x.len();
        let m = if need > cur {
            need
        } else {
            cur
        };
        self.grow_rows(m);
        let ghost tg = *self;
        let n = self.x.len();
        let ghost b = n as int;
        proof {
            assert forall|q: int| q >= b implies string.l(q) == PauliLetter::I by {}
        }
        let mut x_signs = Bits::new();
        let mut z_signs = Bits::new();
        core::mem::swap(&mut self.x_signs, &mut x_signs);
        core::mem::swap(&mut self.z_signs, &mut z_signs);
        let mut i: usize = 0;
        while i < n
            invariant
                n == tg.rows(),
                b == n as int,
                n <= BIT_INDEX_LIMIT,
                i <= n,
                tg.wf(),
                self.x@ == tg.x@,
                self.z@ == tg.z@,
                forall|q: int| q >= b ==> string.l(q) == PauliLetter::I,
                forall|i2: int|
                    0 <= i2 < i ==> x_signs.bit(i2) == (tg.xs(i2) != row_odd(
                        xf(tg, i2),
                        *string,
                        b,
                    )),
                forall|i2: int|
                    0 <= i2 < i ==> z_signs.bit(i2) == (tg.zs(i2) != row_odd(
                        zf(tg, i2),
                        *string,
                        b,
                    )),
                forall|i2: int| !(0 <= i2 < i) ==> x_signs.bit(i2) == tg.xs(i2) && z_signs.bit(i2)
                    == tg.zs(i2),
            decreases n - i,
        {
            let ghost gi = i as int;
            if self.x[i].anticommutes_with(string) {
                let s = x_signs.get(i);
                x_signs.set(i, !s);
            }
            if self.z[i].anticommutes_with(string) {
                let s = z_signs.get(i);
                z_signs.set(i, !s);
            }
            proof {
                assert forall|q: int| #[trigger] xf(tg, gi)(q) == tg.x@[gi].l(q) by {}
                lemma_row_counts_value(xf(tg, gi), tg.x@[gi], *string, b);
                assert forall|q: int| #[trigger] zf(tg, gi)(q) == tg.z@[gi].l(q) by {}
                lemma_row_counts_value(zf(tg, gi), tg.z@[gi], *string, b);
            }
            i += 1;
        }
        let ghost sx = x_signs;
        let ghost sz = z_signs;
        core::mem::swap(&mut self.x_signs, &mut x_signs);
        core::mem::swap(&mut self.z_signs, &mut z_signs);
        proof {
            assert(self.x_signs == sx && self.z_signs == sz);
            assert(self.wf());
            assert forall|i2: int| !(0 <= i2 < b) implies !row_odd(xf(tg, i2), *string, b)
                && !row_odd(zf(tg, i2), *string, b) by {
                assert forall|q: int|
                    0 <= q < b implies #[trigger] xf(tg, i2)(q) == PauliLetter::I || string.l(q)
                    == PauliLetter::I by {
                    if i2 >= b {
                        assert(tg.xl(i2, q) == ident_x(i2, q));
                    }
                }
                assert forall|q: int|
                    0 <= q < b implies #[trigger] zf(tg, i2)(q) == PauliLetter::I || string.l(q)
                    == PauliLetter::I by {
                    if i2 >= b {
                        assert(tg.zl(i2, q) == ident_z(i2, q));
                    }
                }
                lemma_cnt_zero(xf(tg, i2), *string, b);
                lemma_cnt_zero(zf(tg, i2), *string, b);
            }
            assert forall|i2: int| self.xs(i2) == (t1.xs(i2) != row_odd(xf(t1, i2), *string, b))
                && self.zs(i2) == (t1.zs(i2) != row_odd(zf(t1, i2), *string, b)) by {
                assert(forall|q: int| #[trigger] xf(t1, i2)(q) == xf(tg, i2)(q));
                assert(forall|q: int| #[trigger] zf(t1, i2)(q) == zf(tg, i2)(q));
                lemma_cnt_congruent(xf(t1, i2), xf(tg, i2), *string, b);
                lemma_cnt_congruent(zf(t1, i2), zf(tg, i2), *string, b);
                if 0 <= i2 < b {
                    assert(sx.bit(i2) == (tg.xs(i2) != row_odd(xf(tg, i2), *string, b)));
                    assert(sz.bit(i2) == (tg.zs(i2) != row_odd(zf(tg, i2), *string, b)));
                } else {
                    assert(sx.bit(i2) == tg.xs(i2));
                    assert(sz.bit(i2) == tg.zs(i2));
                }
            }
        }
    }

    /// Merges a Clifford Pauli exponential into the tableau (on a circuit
    /// the Pauli would be originally on the right side of the tableau):
    /// quarter turns sandwich every row, half turns only flip signs, and a
    /// zero rotation does nothing.
    pub fn merge_clifford(&mut self, clifford: PauliExp<CliffordPauliAngle>)
        requires
            old(self).wf(),
        ensures
            final(self).wf(),
            clifford.angle == CliffordPauliAngle::PiOver4 ==> merge_rel(
                *old(self),
                false,
                clifford.string,
                *final(self),
            ),
            clifford.angle == CliffordPauliAngle::NegPiOver4 ==> merge_rel(
                *old(self),
                true,
                clifford.string,
                *final(self),
            ),
            clifford.angle == CliffordPauliAngle::PiOver2 || clifford.angle
                == CliffordPauliAngle::NegPiOver2 ==> halfturn_rel(
                *old(self),
                clifford.string,
                *final(self),
            ),
            clifford.angle == CliffordPauliAngle::Zero ==> tab_equiv(*final(self), *old(self)),
    {
        match clifford.angle {
            CliffordPauliAngle::NegPiOver4 => {
                self.merge_pi_over_4_pauli(true, &clifford.string);
            },
            CliffordPauliAngle::PiOver4 => {
                self.merge_pi_over_4_pauli(false, &clifford.string);
            },
            CliffordPauliAngle::NegPiOver2 | CliffordPauliAngle::PiOver2 => {
                self.merge_half_turn(&clifford.string);
            },
            CliffordPauliAngle::Zero => {},
        }
    }
}


/// The rotation with the same string and the opposite angle.
pub open spec fn neg_exp(e: PauliExp<CliffordPauliAngle>) -> PauliExp<CliffordPauliAngle> {
    PauliExp { string: e.string, angle: spec_neg_clifford(e.angle) }
}

/// What merging one Clifford rotation does to a tableau, matching the
/// contract of `merge_clifford`.
pub open spec fn merge_step(
    t1: CliffordTableau,
    e: PauliExp<CliffordPauliAngle>,
    t2: CliffordTableau,
) -> bool {
    match e.angle {
        CliffordPauliAngle::PiOver4 => merge_rel(t1, false, e.string, t2),
        CliffordPauliAngle::NegPiOver4 => merge_rel(t1, true, e.string, t2),
        CliffordPauliAngle::PiOver2 => halfturn_rel(t1, e.string, t2),
        CliffordPauliAngle::NegPiOver2 => halfturn_rel(t1, e.string, t2),
        CliffordPauliAngle::Zero => t1.wf() && t2.wf() && tab_equiv(t2, t1),
    }
}

/// The running state of a decomposition: the tableau trace starts at the
/// decomposed tableau, each emitted rotation's inverse was merged to step
/// the trace forward, and every emitted rotation is a quarter turn of
/// length one or the operator size.
pub open spec fn emit_inv(
    t0: CliffordTableau,
    emitted: Seq<PauliExp<CliffordPauliAngle>>,
    trace: Seq<CliffordTableau>,
    cur: CliffordTableau,
    n: int,
) -> bool {
    &&& trace.len() == emitted.len() + 1
    &&& trace[0] == t0
    &&& trace.last() == cur
    &&& cur.wf()
    &&& forall|k: int|
        0 <= k < emitted.len() ==> merge_step(trace[k], neg_exp(#[trigger] emitted[k]), trace[k + 1])
    &&& forall|k: int|
        0 <= k < emitted.len() ==> ((#[trigger] emitted[k]).string.slen() == 1
            || emitted[k].string.slen() == n)
    &&& forall|k: int|
        0 <= k < emitted.len() ==> (#[trigger] emitted[k]).angle == CliffordPauliAngle::PiOver4
            || emitted[k].angle == CliffordPauliAngle::NegPiOver4
}

/// What `decompose` promises of its output: merging the inverses of the
/// emitted rotations, last first, drove the decomposed tableau to the
/// identity.
pub open spec fn decompose_trace(
    t0: CliffordTableau,
    list: Seq<PauliExp<CliffordPauliAngle>>,
    fwd: Seq<CliffordTableau>,
) -> bool {
    &&& fwd.len() == list.len() + 1
    &&& fwd[0] == t0
    &&& tab_identity(fwd.last())
    &&& forall|k: int|
        0 <= k < list.len() ==> merge_step(
            fwd[k],
            neg_exp(#[trigger] list[list.len() - 1 - k]),
            fwd[k + 1],
        )
}

/// Merges each move into the tableau and emits its inverse quarter turn,
/// keeping the decomposition trace.
#[verifier::loop_isolation(false)]
fn apply_moves(
    t: &mut CliffordTableau,
    moves: Vec<PauliString>,
    n: usize,
    decomposition: &mut Vec<PauliExp<CliffordPauliAngle>>,
    trace: Ghost<Seq<CliffordTableau>>,
    Ghost(t0): Ghost<CliffordTableau>,
) -> (r: Ghost<Seq<CliffordTableau>>)
    requires
        emit_inv(t0, old(decomposition)@, trace@, *old(t), n as int),
        forall|k: int|
            0 <= k < moves.len() ==> (#[trigger] moves[k]).slen() == 1 || moves[k].slen() == n,
    ensures
        emit_inv(t0, final(decomposition)@, r@, *final(t), n as int),
        final(decomposition)@.len() == old(decomposition)@.len() + moves@.len(),
        final(decomposition)@.subrange(0, old(decomposition)@.len() as int) == old(
            decomposition,
        )@,
        forall|j: int|
            0 <= j < moves@.len()
                ==> (#[trigger] final(decomposition)@[old(decomposition)@.len() + j]).string
                == moves@[j],
{
    let ghost moves0 = moves@;
    let ghost dstart = old(decomposition)@.len() as int;
    let ghost mut done: int = 0;
    let mut work = moves;
    let ghost mut tr: Seq<CliffordTableau> = trace@;
    while work.len() > 0
        invariant
            emit_inv(t0, decomposition@, tr, *t, n as int),
            forall|k: int|
                0 <= k < work.len() ==> (#[trigger] work[k]).slen() == 1 || work[k].slen()
                    == n,
            0 <= done <= moves0.len(),
            work@ == moves0.subrange(done, moves0.len() as int),
            decomposition@.len() == dstart + done,
            decomposition@.subrange(0, dstart) == old(decomposition)@,
            forall|j: int|
                0 <= j < done ==> (#[trigger] decomposition@[dstart + j]).string == moves0[j],
        decreases work.len(),
    {
        let ghost mpre = work@;
        let m = work.remove(0);
        proof {
            assert(m == mpre[0]);
            assert(m == moves0[done]);
            assert(work@ =~= moves0.subrange(done + 1, moves0.len() as int));
            done = done + 1;
        }
        let ghost pre = *t;
        t.merge_pi_over_4_pauli(false, &m);
        let entry = PauliExp { string: m, angle: CliffordPauliAngle::NegPiOver4 };
        proof {
            assert(merge_step(pre, neg_exp(entry), *t));
        }
        let ghost dpre = decomposition@;
        decomposition.push(entry);
        proof {
            tr = tr.push(*t);
            assert forall|k: int|
                0 <= k < decomposition@.len() implies merge_step(
                tr[k],
                neg_exp(#[trigger] decomposition@[k]),
                tr[k + 1],
            ) by {
                if k < dpre.len() {
                    assert(decomposition@[k] == dpre[k]);
                } else {
                    assert(decomposition@[k] == entry);
                }
            }
        }
    }
    Ghost(tr)
}

impl CliffordTableau {
    /// Decomposes the tableau into Clifford quarter-turn rotations whose
    /// inverses, merged in emission order, drove it to the identity:
    /// merging the emitted list into a fresh tableau reproduces the
    /// decomposed one. Every emitted string has length one or the operator
    /// size. `None` reports a run whose checks failed.
    pub fn decompose(
        self,
        gate_size: NonZeroEvenUsize,
        connectivity: Option<&Connectivity>,
    ) -> (r: Option<Vec<PauliExp<CliffordPauliAngle>>>)
        requires
            self.wf(),
            gate_size.as_int() <= BIT_INDEX_LIMIT,
            match connectivity {
                Some(c) => c.wf(),
                None => true,
            },
        ensures
            match r {
                Some(list) => {
                    &&& forall|k: int|
                        0 <= k < list.len() ==> ((#[trigger] list[k]).string.slen() == 1
                            || list[k].string.slen() == gate_size.as_int())
                    &&& forall|k: int|
                        0 <= k < list.len() ==> (#[trigger] list[k]).angle
                            == CliffordPauliAngle::PiOver4 || list[k].angle
                            == CliffordPauliAngle::NegPiOver4
                    &&& exists|fwd: Seq<CliffordTableau>| decompose_trace(self, list@, fwd)
                    &&& match connectivity {
                        Some(c) => forall|k: int|
                            0 <= k < list.len() ==> ((#[trigger] list[k]).string.slen() > 1
                                ==> string_supported(*c, list[k].string)),
                        None => true,
                    }
                },
                None => true,
            },
            connectivity is None && tab_identity(self) && self.rows() == 0 ==> (match r {
                Some(list) => list.len() == 0,
                None => false,
            }),
    {
        match connectivity {
            Some(c) => self.decompose_with_connectivity(gate_size, c),
            None => self.decompose_full_connectivity(gate_size),
        }
    }

    /// The decomposition without a connectivity: solve the cheapest rows
    /// with the simple solver while enough dirty qubits remain, finish with
    /// the delicate solver, then clear the signs.
    #[verifier::loop_isolation(false)]
    fn decompose_full_connectivity(self, gate_size: NonZeroEvenUsize) -> (r: Option<
        Vec<PauliExp<CliffordPauliAngle>>,
    >)
        requires
            self.wf(),
            gate_size.as_int() <= BIT_INDEX_LIMIT,
        ensures
            match r {
                Some(list) => {
                    &&& forall|k: int|
                        0 <= k < list.len() ==> ((#[trigger] list[k]).string.slen() == 1
                            || list[k].string.slen() == gate_size.as_int())
                    &&& forall|k: int|
                        0 <= k < list.len() ==> (#[trigger] list[k]).angle
                            == CliffordPauliAngle::PiOver4 || list[k].angle
                            == CliffordPauliAngle::NegPiOver4
                    &&& exists|fwd: Seq<CliffordTableau>| decompose_trace(self, list@, fwd)
                },
                None => true,
            },
            tab_identity(self) && self.rows() == 0 ==> (match r {
                Some(list) => list.len() == 0,
                None => false,
            }),
    {
        let ghost t0 = self;
        let mut t = self;
        let n = gate_size.as_value();
        let mut decomposition: Vec<PauliExp<CliffordPauliAngle>> = Vec::new();
        let mut trace: Ghost<Seq<CliffordTableau>> = Ghost(Seq::empty().push(t0));
        let ghost trivial = tab_identity(t0) && t0.rows() == 0;
        let sz = t.size();
        let mut dirty_qubits: Vec<usize> = Vec::new();
        let mut q: usize = 0;
        while q < sz
            invariant
                sz <= BIT_INDEX_LIMIT,
                forall|j: int| 0 <= j < dirty_qubits.len() ==> (#[trigger] dirty_qubits[j])
                    < BIT_INDEX_LIMIT,
                trivial ==> dirty_qubits.len() == 0,
            decreases sz - q,
        {
            dirty_qubits.push(q);
            q += 1;
        }
        while dirty_qubits.len() >= n
            invariant
                n == gate_size.as_int(),
                n >= 2,
                n <= BIT_INDEX_LIMIT,
                emit_inv(t0, decomposition@, trace@, t, n as int),
                forall|j: int| 0 <= j < dirty_qubits.len() ==> (#[trigger] dirty_qubits[j])
                    < BIT_INDEX_LIMIT,
                trivial ==> dirty_qubits.len() == 0 && decomposition@.len() == 0 && t == t0,
            decreases dirty_qubits.len(),
        {
            let picked = match fastest(&t, &dirty_qubits, gate_size) {
                Some(p) => p,
                None => {
                    return None;
                },
            };
            let (qubit, letter) = picked;
            let first_row = if matches!(letter, PauliLetter::X) {
                t.get_x_row(qubit)
            } else {
                t.get_z_row(qubit)
            };
            let first_moves = match simple_solver(
                &first_row,
                gate_size,
                qubit,
                letter,
                &dirty_qubits,
                QubitProtection::Free,
            ) {
                Some(m) => m,
                None => {
                    return None;
                },
            };
            trace = apply_moves(&mut t, first_moves, n, &mut decomposition, trace, Ghost(t0));
            let (other_row, other_letter, protection) = if matches!(letter, PauliLetter::X) {
                (t.get_z_row(qubit), PauliLetter::Z, QubitProtection::X)
            } else {
                (t.get_x_row(qubit), PauliLetter::X, QubitProtection::Z)
            };
            let other_moves = match simple_solver(
                &other_row,
                gate_size,
                qubit,
                other_letter,
                &dirty_qubits,
                protection,
            ) {
                Some(m) => m,
                None => {
                    return None;
                },
            };
            trace = apply_moves(&mut t, other_moves, n, &mut decomposition, trace, Ghost(t0));
            // The qubit is not dirty any more.
            let mut di: usize = 0;
            let mut found = false;
            while di < dirty_qubits.len() && !found
                invariant
                    found ==> di < dirty_qubits.len(),
                    forall|j: int| 0 <= j < dirty_qubits.len() ==> (#[trigger] dirty_qubits[j])
                        < BIT_INDEX_LIMIT,
                decreases dirty_qubits.len() - di, (if found { 0int } else { 1int }),
            {
                if dirty_qubits[di] == qubit {
                    found = true;
                } else {
                    di += 1;
                }
            }
            if !found {
                return None;
            }
            dirty_qubits.remove(di);
        }
        while dirty_qubits.len() > 0
            invariant
                n == gate_size.as_int(),
                n >= 2,
                n <= BIT_INDEX_LIMIT,
                emit_inv(t0, decomposition@, trace@, t, n as int),
                forall|j: int| 0 <= j < dirty_qubits.len() ==> (#[trigger] dirty_qubits[j])
                    < BIT_INDEX_LIMIT,
                trivial ==> dirty_qubits.len() == 0 && decomposition@.len() == 0 && t == t0,
            decreases dirty_qubits.len(),
        {
            let picked = match fastest_delicate(&t, &dirty_qubits) {
                Some(p) => p,
                None => {
                    return None;
                },
            };
            let (qubit, letter) = picked;
            let first_row = if matches!(letter, PauliLetter::X) {
                t.get_x_row(qubit)
            } else {
                t.get_z_row(qubit)
            };
            let first_moves = match delicate_solver(
                &first_row,
                gate_size,
                qubit,
                if matches!(letter, PauliLetter::X) {
                    PauliLetter::X
                } else {
                    PauliLetter::Z
                },
                None,
            ) {
                Some(m) => m,
                None => {
                    return None;
                },
            };
            trace = apply_moves(&mut t, first_moves, n, &mut decomposition, trace, Ghost(t0));
            let (other_row, other_letter) = if matches!(letter, PauliLetter::X) {
                (t.get_z_row(qubit), PauliLetter::Z)
            } else {
                (t.get_x_row(qubit), PauliLetter::X)
            };
            let other_moves = match delicate_solver(
                &other_row,
                gate_size,
                qubit,
                other_letter,
                None,
            ) {
                Some(m) => m,
                None => {
                    return None;
                },
            };
            trace = apply_moves(&mut t, other_moves, n, &mut decomposition, trace, Ghost(t0));
            let mut di: usize = 0;
            let mut found = false;
            while di < dirty_qubits.len() && !found
                invariant
                    found ==> di < dirty_qubits.len(),
                    forall|j: int| 0 <= j < dirty_qubits.len() ==> (#[trigger] dirty_qubits[j])
                        < BIT_INDEX_LIMIT,
                decreases dirty_qubits.len() - di, (if found { 0int } else { 1int }),
            {
                if dirty_qubits[di] == qubit {
                    found = true;
                } else {
                    di += 1;
                }
            }
            if !found {
                return None;
            }
            dirty_qubits.remove(di);
        }
        let trace = match t.fix_signs(gate_size, &mut decomposition, trace, Ghost(t0)) {
            (true, tr) => tr,
            (false, _) => {
                return None;
            },
        };
        if !t.is_identity() {
            return None;
        }
        let rev = reverse_decomposition(decomposition, Ghost(t0), trace, Ghost(t), Ghost(n as int));
        Some(rev)
    }

    /// Emits, for each set sign pair, two quarter turns on the single
    /// qubit whose pattern clears the signs.
    #[verifier::loop_isolation(false)]
    fn fix_signs(
        &mut self,
        gate_size: NonZeroEvenUsize,
        decomposition: &mut Vec<PauliExp<CliffordPauliAngle>>,
        trace: Ghost<Seq<CliffordTableau>>,
        Ghost(t0): Ghost<CliffordTableau>,
    ) -> (r: (bool, Ghost<Seq<CliffordTableau>>))
        requires
            gate_size.as_int() >= 2,
            emit_inv(t0, old(decomposition)@, trace@, *old(self), gate_size.as_int()),
        ensures
            r.0 ==> emit_inv(t0, final(decomposition)@, r.1@, *final(self), gate_size.as_int()),
            old(self).rows() == 0 ==> r.0 && final(decomposition)@ == old(decomposition)@
                && *final(self) == *old(self),
            final(decomposition)@.len() >= old(decomposition)@.len(),
            final(decomposition)@.subrange(0, old(decomposition)@.len() as int) == old(
                decomposition,
            )@,
            forall|j: int|
                old(decomposition)@.len() <= j < final(decomposition)@.len()
                    ==> (#[trigger] final(decomposition)@[j]).string.slen() == 1,
    {
        let ghost n = gate_size.as_int();
        let ghost mut tr: Seq<CliffordTableau> = trace@;
        let sz = self.size();
        let xs = self.get_x_signs();
        let zs = self.get_z_signs();
        let mut i: usize = 0;
        while i < sz
            invariant
                n == gate_size.as_int(),
                n >= 2,
                sz <= BIT_INDEX_LIMIT,
                emit_inv(t0, decomposition@, tr, *self, n),
                old(self).rows() == 0 ==> decomposition@ == old(decomposition)@ && *self == *old(
                    self,
                ),
                decomposition@.len() >= old(decomposition)@.len(),
                decomposition@.subrange(0, old(decomposition)@.len() as int) == old(
                    decomposition,
                )@,
                forall|j: int|
                    old(decomposition)@.len() <= j < decomposition@.len()
                        ==> (#[trigger] decomposition@[j]).string.slen() == 1,
            decreases sz - i,
        {
            let x = xs.get(i);
            let z = zs.get(i);
            if x || z {
                let string = if x && z {
                    PauliString::y(i)
                } else if x {
                    PauliString::z(i)
                } else {
                    PauliString::x(i)
                };
                proof {
                    crate::pauli_string::lemma_single_letter_slen(string, i as int);
                }
                let ghost pre1 = *self;
                self.merge_pi_over_4_pauli(true, &string);
                let e1 = PauliExp { string: string.duplicate(), angle: CliffordPauliAngle::PiOver4 };
                proof {
                    assert(merge_step(pre1, neg_exp(e1), *self)) by {
                        assert(crate::pauli_string::equiv(e1.string, string));
                        lemma_merge_rel_congruent_push(pre1, true, string, e1.string, *self);
                    }
                }
                let ghost dpre1 = decomposition@;
                decomposition.push(e1);
                proof {
                    tr = tr.push(*self);
                    assert forall|k: int|
                        0 <= k < decomposition@.len() implies merge_step(
                        tr[k],
                        neg_exp(#[trigger] decomposition@[k]),
                        tr[k + 1],
                    ) by {
                        if k < dpre1.len() {
                            assert(decomposition@[k] == dpre1[k]);
                        }
                    }
                }
                let ghost pre2 = *self;
                self.merge_pi_over_4_pauli(true, &string);
                let e2 = PauliExp { string, angle: CliffordPauliAngle::PiOver4 };
                proof {
                    assert(merge_step(pre2, neg_exp(e2), *self));
                }
                let ghost dpre2 = decomposition@;
                decomposition.push(e2);
                proof {
                    tr = tr.push(*self);
                    assert forall|k: int|
                        0 <= k < decomposition@.len() implies merge_step(
                        tr[k],
                        neg_exp(#[trigger] decomposition@[k]),
                        tr[k + 1],
                    ) by {
                        if k < dpre2.len() {
                            assert(decomposition@[k] == dpre2[k]);
                        }
                    }
                }
            }
            i += 1;
        }
        (true, Ghost(tr))
    }
}

/// Appending entries whose strings are all supported keeps the per-entry
/// support fact over the whole list.
proof fn lemma_supported_extension(
    dec: Seq<PauliExp<CliffordPauliAngle>>,
    pre: Seq<PauliExp<CliffordPauliAngle>>,
    mv: Seq<PauliString>,
    c: Connectivity,
)
    requires
        dec.len() == pre.len() + mv.len(),
        dec.subrange(0, pre.len() as int) == pre,
        forall|j: int| 0 <= j < mv.len() ==> #[trigger] dec[pre.len() + j].string == mv[j],
        forall|j: int|
            0 <= j < pre.len() ==> ((#[trigger] pre[j]).string.slen() > 1 ==> string_supported(
                c,
                pre[j].string,
            )),
        forall|j: int| 0 <= j < mv.len() ==> string_supported(c, #[trigger] mv[j]),
    ensures
        forall|j: int|
            0 <= j < dec.len() ==> ((#[trigger] dec[j]).string.slen() > 1 ==> string_supported(
                c,
                dec[j].string,
            )),
{
    assert forall|j: int|
        0 <= j < dec.len() implies ((#[trigger] dec[j]).string.slen() > 1 ==> string_supported(
        c,
        dec[j].string,
    )) by {
        if j < pre.len() {
            assert(dec[j] == dec.subrange(0, pre.len() as int)[j]);
        } else {
            let m = j - pre.len();
            assert(dec[pre.len() + m].string == mv[m]);
            assert(pre.len() + m == j);
        }
    }
}

/// A merge relation is insensitive to replacing the pushed string by an
/// equivalent one.
proof fn lemma_merge_rel_congruent_push(
    t1: CliffordTableau,
    neg: bool,
    o1: PauliString,
    o2: PauliString,
    t2: CliffordTableau,
)
    requires
        merge_rel(t1, neg, o1, t2),
        crate::pauli_string::equiv(o2, o1),
    ensures
        merge_rel(t1, neg, o2, t2),
{
    let b = t2.rows();
    assert forall|i: int|
        cnt_anti(xf(t1, i), o2, b) == cnt_anti(xf(t1, i), o1, b) && cnt_minus(o2, xf(t1, i), b)
            == cnt_minus(o1, xf(t1, i), b) && cnt_anti(zf(t1, i), o2, b) == cnt_anti(
            zf(t1, i),
            o1,
            b,
        ) && cnt_minus(o2, zf(t1, i), b) == cnt_minus(o1, zf(t1, i), b) by {
        lemma_cnt_congruent_push(xf(t1, i), o1, o2, b);
        lemma_cnt_congruent_push(zf(t1, i), o1, o2, b);
    }
}

/// Row counts only depend on the letters of the pushed string.
proof fn lemma_cnt_congruent_push(
    f: spec_fn(int) -> PauliLetter,
    o1: PauliString,
    o2: PauliString,
    n: int,
)
    requires
        crate::pauli_string::equiv(o2, o1),
    ensures
        cnt_anti(f, o2, n) == cnt_anti(f, o1, n),
        cnt_minus(o2, f, n) == cnt_minus(o1, f, n),
    decreases n,
{
    if n > 0 {
        lemma_cnt_congruent_push(f, o1, o2, n - 1);
    }
}

/// Reverses the emitted list, turning the emission trace into the
/// decomposition trace.
#[verifier::loop_isolation(false)]
fn reverse_decomposition(
    decomposition: Vec<PauliExp<CliffordPauliAngle>>,
    Ghost(t0): Ghost<CliffordTableau>,
    trace: Ghost<Seq<CliffordTableau>>,
    Ghost(tend): Ghost<CliffordTableau>,
    Ghost(n): Ghost<int>,
) -> (r: Vec<PauliExp<CliffordPauliAngle>>)
    requires
        emit_inv(t0, decomposition@, trace@, tend, n),
        tab_identity(tend),
    ensures
        forall|k: int|
            0 <= k < r.len() ==> ((#[trigger] r[k]).string.slen() == 1 || r[k].string.slen() == n),
        forall|k: int|
            0 <= k < r.len() ==> (#[trigger] r[k]).angle == CliffordPauliAngle::PiOver4
                || r[k].angle == CliffordPauliAngle::NegPiOver4,
        exists|fwd: Seq<CliffordTableau>| decompose_trace(t0, r@, fwd),
        r.len() == decomposition.len(),
        forall|j: int|
            0 <= j < r.len() ==> #[trigger] r[j] == decomposition[decomposition.len() - 1 - j],
{
    let ghost dec0 = decomposition@;
    let mut decomposition = decomposition;
    let mut rev: Vec<PauliExp<CliffordPauliAngle>> = Vec::new();
    let ghost total = decomposition@.len();
    while decomposition.len() > 0
        invariant
            rev@.len() + decomposition@.len() == total,
            decomposition@ == dec0.subrange(0, decomposition@.len() as int),
            forall|j: int| 0 <= j < rev@.len() ==> rev@[j] == dec0[total - 1 - j],
        decreases decomposition.len(),
    {
        let ghost dpre = decomposition@;
        match decomposition.pop() {
            Some(e) => {
                proof {
                    assert(e == dpre.last());
                    assert(dpre == dec0.subrange(0, dpre.len() as int));
                    assert(e == dec0[dpre.len() - 1]);
                    assert(decomposition@ =~= dec0.subrange(0, decomposition@.len() as int));
                }
                rev.push(e);
            },
            None => {
            },
        }
    }
    proof {
        assert forall|k: int|
            0 <= k < rev@.len() implies ((#[trigger] rev@[k]).string.slen() == 1
            || rev@[k].string.slen() == n) by {
            assert(rev@[k] == dec0[total - 1 - k]);
        }
        assert forall|k: int|
            0 <= k < rev@.len() implies ((#[trigger] rev@[k]).angle == CliffordPauliAngle::PiOver4
            || rev@[k].angle == CliffordPauliAngle::NegPiOver4) by {
            assert(rev@[k] == dec0[total - 1 - k]);
        }
        assert(decompose_trace(t0, rev@, trace@)) by {
            assert forall|k: int|
                0 <= k < rev@.len() implies merge_step(
                trace@[k],
                neg_exp(#[trigger] rev@[rev@.len() - 1 - k]),
                trace@[k + 1],
            ) by {
                assert(rev@[rev@.len() - 1 - k] == dec0[k]);
            }
        }
    }
    rev
}


/// Routes the live letters of one tableau row into the target hyperedge and
/// solves it there to the single `letter` at `target`. Every returned push
/// has length one or the operator size.
#[allow(unused_variables)]
#[verifier::loop_isolation(false)]
fn handle_target(
    row: PauliString,
    letter: PauliLetter,
    target: usize,
    protection: QubitProtection,
    alive: &Vec<bool>,
    edge_index: usize,
    connectivity: &Connectivity,
    gate_size: NonZeroEvenUsize,
    dirty_qubits: &Vec<usize>,
    edge_nodes: &Vec<usize>,
) -> (r: Option<Vec<PauliString>>)
    requires
        connectivity.wf(),
        alive.len() == connectivity.explosion.nodes.len(),
        gate_size.as_int() <= BIT_INDEX_LIMIT,
        target < BIT_INDEX_LIMIT,
        letter == PauliLetter::X || letter == PauliLetter::Z,
        forall|k: int| 0 <= k < dirty_qubits.len() ==> (#[trigger] dirty_qubits[k])
            < BIT_INDEX_LIMIT,
        forall|k: int| 0 <= k < edge_nodes.len() ==> (#[trigger] edge_nodes[k]) < BIT_INDEX_LIMIT,
    ensures
        match r {
            Some(pushes) => forall|k: int|
                0 <= k < pushes.len() ==> ((#[trigger] pushes[k]).slen() == 1 || pushes[k].slen()
                    == gate_size.as_int()),
            None => true,
        },
{
    let n = gate_size.as_value();
    let mut row = row;
    let mut result: Vec<PauliString> = Vec::new();

    // The explosion nodes carrying a live letter of the row, or an empty
    // qubit of the target edge.
    let mut associated: Vec<usize> = row.targets();
    let mut k: usize = 0;
    while k < edge_nodes.len()
        invariant
            connectivity.wf(),
        decreases edge_nodes.len() - k,
    {
        let q = edge_nodes[k];
        if matches!(row.get(q), PauliLetter::I) {
            associated.push(q);
        }
        k += 1;
    }
    let mut terminals: Vec<usize> = Vec::new();
    let nn = connectivity.explosion.nodes.len();
    let mut idx: usize = 0;
    while idx < nn
        invariant
            connectivity.wf(),
            nn == connectivity.explosion.nodes.len(),
            forall|j: int| 0 <= j < terminals.len() ==> (#[trigger] terminals[j]) < nn,
        decreases nn - idx,
    {
        if alive[idx] {
            let weight = &connectivity.explosion.nodes[idx];
            let mut hit = false;
            let mut m: usize = 0;
            while m < weight.hyper_nodes.len()
                invariant
                    idx < nn,
                    weight == &connectivity.explosion.nodes[idx as int],
                decreases weight.hyper_nodes.len() - m,
            {
                let q = weight.hyper_nodes[m];
                let mut a: usize = 0;
                while a < associated.len()
                    decreases associated.len() - a,
                {
                    if associated[a] == q {
                        hit = true;
                        break ;
                    }
                    a += 1;
                }
                if hit {
                    break ;
                }
                m += 1;
            }
            if hit {
                terminals.push(idx);
            }
        }
        idx += 1;
    }
    let pairs = match steiner_on_alive(&connectivity.explosion, alive, &terminals) {
        Some(p) => p,
        None => {
            return None;
        },
    };
    let kept = match crate::connectivity::enforce_tree_public(
        connectivity.explosion.node_count(),
        &pairs,
        &terminals,
    ) {
        Some(kp) => kp,
        None => {
            return None;
        },
    };
    let mut tree_pairs: Vec<(usize, usize)> = Vec::new();
    let mut k: usize = 0;
    while k < kept.len()
        invariant
            forall|j: int| 0 <= j < kept.len() ==> (#[trigger] kept[j]) < pairs.len(),
            forall|j: int|
                0 <= j < pairs.len() ==> (#[trigger] pairs[j]).0
                    < connectivity.explosion.nodes.len() && pairs[j].1
                    < connectivity.explosion.nodes.len(),
            forall|j: int|
                0 <= j < tree_pairs.len() ==> (#[trigger] tree_pairs[j]).0
                    < connectivity.explosion.nodes.len() && tree_pairs[j].1
                    < connectivity.explosion.nodes.len(),
        decreases kept.len() - k,
    {
        tree_pairs.push(pairs[kept[k]]);
        k += 1;
    }
    let primitive = match as_instructions_toward(&connectivity.explosion, &tree_pairs, edge_index) {
        Some(p) => p,
        None => {
            return None;
        },
    };
    let mut k: usize = 0;
    while k < primitive.len()
        invariant
            connectivity.wf(),
            n == gate_size.as_int(),
            n >= 2,
            n <= BIT_INDEX_LIMIT,
            forall|j: int|
                0 <= j < result.len() ==> ((#[trigger] result[j]).slen() == 1 || result[j].slen()
                    == n),
        decreases primitive.len() - k,
    {
        let he = primitive[k].0;
        let edge = match connectivity.hypergraph.get_edge(crate::hypergraph::HyperEdgeIndex(he)) {
            Some(e) => e,
            None => {
                return None;
            },
        };
        let mut qubits: Vec<usize> = Vec::new();
        let mut m: usize = 0;
        while m < edge.nodes.len()
            invariant
                connectivity.wf(),
                he < connectivity.hypergraph.edges.len(),
                edge == &connectivity.hypergraph.edges[he as int],
            decreases edge.nodes.len() - m,
        {
            qubits.push(edge.nodes[m]);
            m += 1;
        }
        let tgt = match &primitive[k].1 {
            RoutingInstructionTarget::Single(t) => RoutingInstructionTarget::Single(*t),
            RoutingInstructionTarget::Multiple(v) => {
                let mut c: Vec<usize> = Vec::new();
                let mut m: usize = 0;
                while m < v.len()
                    decreases v.len() - m,
                {
                    c.push(v[m]);
                    m += 1;
                }
                RoutingInstructionTarget::Multiple(c)
            },
            RoutingInstructionTarget::Any => RoutingInstructionTarget::Any,
        };
        let instruction = RoutingInstruction { qubits, target: tgt };
        let push_strs = match handle_instruction(row.duplicate(), gate_size, &instruction) {
            Some(p) => p,
            None => {
                return None;
            },
        };
        let mut pi: usize = 0;
        while pi < push_strs.len()
            invariant
                n == gate_size.as_int(),
                n >= 2,
                forall|j: int| 0 <= j < push_strs.len() ==> (#[trigger] push_strs[j]).slen() == n,
                forall|j: int|
                    0 <= j < result.len() ==> ((#[trigger] result[j]).slen() == 1
                        || result[j].slen() == n),
            decreases push_strs.len() - pi,
        {
            let p = push_strs[pi].duplicate();
            row.pi_over_4_sandwitch(false, &p);
            result.push(p);
            pi += 1;
        }
        k += 1;
    }
    // Only letters inside this edge may remain.
    let occupied = row.targets();
    let mut m: usize = 0;
    while m < occupied.len()
        decreases occupied.len() - m,
    {
        let q = occupied[m];
        let mut inside = false;
        let mut e: usize = 0;
        while e < edge_nodes.len()
            decreases edge_nodes.len() - e,
        {
            if edge_nodes[e] == q {
                inside = true;
                break ;
            }
            e += 1;
        }
        if !inside {
            return None;
        }
        m += 1;
    }
    let final_moves = if dirty_qubits.len() >= n {
        match simple_solver(&row, gate_size, target, letter, dirty_qubits, protection) {
            Some(mv) => mv,
            None => {
                return None;
            },
        }
    } else {
        match delicate_solver(&row, gate_size, target, letter, Some(edge_nodes)) {
            Some(mv) => mv,
            None => {
                return None;
            },
        }
    };
    let ghost row_before = row;
    let mut fi: usize = 0;
    while fi < final_moves.len()
        invariant
            n == gate_size.as_int(),
            forall|j: int|
                0 <= j < final_moves.len() ==> ((#[trigger] final_moves[j]).slen() == 1
                    || final_moves[j].slen() == n),
            forall|j: int|
                0 <= j < result.len() ==> ((#[trigger] result[j]).slen() == 1 || result[j].slen()
                    == n),
        decreases final_moves.len() - fi,
    {
        let p = final_moves[fi].duplicate();
        row.pi_over_4_sandwitch(false, &p);
        result.push(p);
        fi += 1;
    }
    if row.len() != 1 {
        return None;
    }
    if !(row.get(target) == letter) {
        return None;
    }
    Some(result)
}

impl CliffordTableau {
    /// The decomposition with a connectivity: peel leaf edges off the
    /// explosion, solving the rows of each edge's qubits inside it, then
    /// clear the signs.
    #[verifier::loop_isolation(false)]
    fn decompose_with_connectivity(
        self,
        gate_size: NonZeroEvenUsize,
        connectivity: &Connectivity,
    ) -> (r: Option<Vec<PauliExp<CliffordPauliAngle>>>)
        requires
            self.wf(),
            gate_size.as_int() <= BIT_INDEX_LIMIT,
            connectivity.wf(),
        ensures
            match r {
                Some(list) => {
                    &&& forall|k: int|
                        0 <= k < list.len() ==> ((#[trigger] list[k]).string.slen() == 1
                            || list[k].string.slen() == gate_size.as_int())
                    &&& forall|k: int|
                        0 <= k < list.len() ==> (#[trigger] list[k]).angle
                            == CliffordPauliAngle::PiOver4 || list[k].angle
                            == CliffordPauliAngle::NegPiOver4
                    &&& forall|k: int|
                        0 <= k < list.len() ==> ((#[trigger] list[k]).string.slen() > 1
                            ==> string_supported(*connectivity, list[k].string))
                    &&& exists|fwd: Seq<CliffordTableau>| decompose_trace(self, list@, fwd)
                },
                None => true,
            },
    {
        let ghost t0 = self;
        let mut t = self;
        let n = gate_size.as_value();
        let mut decomposition: Vec<PauliExp<CliffordPauliAngle>> = Vec::new();
        let mut trace: Ghost<Seq<CliffordTableau>> = Ghost(Seq::empty().push(t0));
        let nn = connectivity.explosion.nodes.len();
        let mut alive: Vec<bool> = Vec::new();
        let mut k: usize = 0;
        while k < nn
            invariant
                alive.len() == k,
                k <= nn,
            decreases nn - k,
        {
            alive.push(true);
            k += 1;
        }
        let mut alive_count = nn;
        let mut fuel: usize = nn;
        loop
            invariant
                n == gate_size.as_int(),
                n >= 2,
                n <= BIT_INDEX_LIMIT,
                connectivity.wf(),
                nn == connectivity.explosion.nodes.len(),
                alive.len() == nn,
                emit_inv(t0, decomposition@, trace@, t, n as int),
            forall|j: int|
                0 <= j < decomposition@.len() ==> ((#[trigger] decomposition@[j]).string.slen()
                    > 1 ==> string_supported(*connectivity, decomposition@[j].string)),
                forall|j: int|
                    0 <= j < decomposition@.len()
                        ==> ((#[trigger] decomposition@[j]).string.slen() > 1
                        ==> string_supported(*connectivity, decomposition@[j].string)),
            decreases fuel,
        {
            if alive_count == 0 {
                break ;
            }
            if fuel == 0 {
                return None;
            }
            fuel -= 1;
            let mut progressed = false;
            let mut index: usize = 0;
            while index < nn
                invariant
                    n == gate_size.as_int(),
                    n >= 2,
                    n <= BIT_INDEX_LIMIT,
                    connectivity.wf(),
                    nn == connectivity.explosion.nodes.len(),
                    alive.len() == nn,
                    emit_inv(t0, decomposition@, trace@, t, n as int),
            forall|j: int|
                0 <= j < decomposition@.len() ==> ((#[trigger] decomposition@[j]).string.slen()
                    > 1 ==> string_supported(*connectivity, decomposition@[j].string)),
                forall|j: int|
                    0 <= j < decomposition@.len()
                        ==> ((#[trigger] decomposition@[j]).string.slen() > 1
                        ==> string_supported(*connectivity, decomposition@[j].string)),
                decreases nn - index,
            {
                if alive[index] {
                    let mut degree: usize = 0;
                    let mut e: usize = 0;
                    while e < connectivity.explosion.edges.len()
                        invariant
                            connectivity.wf(),
                            nn == connectivity.explosion.nodes.len(),
                            alive.len() == nn,
                            degree <= e,
                        decreases connectivity.explosion.edges.len() - e,
                    {
                        let (a, b) = connectivity.explosion.edges[e];
                        if a < nn && b < nn && alive[a] && alive[b] && (a == index || b == index) {
                            degree += 1;
                        }
                        e += 1;
                    }
                    let node = &connectivity.explosion.nodes[index];
                    if (degree == 1 || degree == 0) && node.hyper_edges.len() == 1 {
                        if degree == 0 && alive_count != 1 {
                            // An edge node connecting to nothing while other
                            // nodes remain: the peeling went wrong.
                            return None;
                        }
                        let crate::hypergraph::HyperEdgeIndex(edge_index) = node.hyper_edges[0];
                        let edge = match connectivity.hypergraph.get_edge(
                            crate::hypergraph::HyperEdgeIndex(edge_index),
                        ) {
                            Some(e) => e,
                            None => {
                                return None;
                            },
                        };
                        let mut edge_nodes: Vec<usize> = Vec::new();
                        let mut m: usize = 0;
                        while m < edge.nodes.len()
                            invariant
                                connectivity.wf(),
                                edge_index < connectivity.hypergraph.edges.len(),
                                edge == &connectivity.hypergraph.edges[edge_index as int],
                                forall|j: int|
                                    0 <= j < edge_nodes.len() ==> (#[trigger] edge_nodes[j])
                                        < BIT_INDEX_LIMIT,
                            decreases edge.nodes.len() - m,
                        {
                            edge_nodes.push(edge.nodes[m]);
                            m += 1;
                        }
                        // These are the qubits that we solve now.
                        let targets = edge_nodes;
                        let mut dirty_qubits: Vec<usize> = Vec::new();
                        let mut m: usize = targets.len();
                        while m > 0
                            invariant
                                m <= targets.len(),
                                forall|j: int| 0 <= j < targets.len() ==> (#[trigger] targets[j])
                                    < BIT_INDEX_LIMIT,
                                forall|j: int|
                                    0 <= j < dirty_qubits.len() ==> (#[trigger] dirty_qubits[j])
                                        < BIT_INDEX_LIMIT,
                            decreases m,
                        {
                            m -= 1;
                            dirty_qubits.push(targets[m]);
                        }
                        let mut ti: usize = 0;
                        while ti < targets.len()
                            invariant
                                n == gate_size.as_int(),
                                n >= 2,
                                n <= BIT_INDEX_LIMIT,
                                connectivity.wf(),
                                nn == connectivity.explosion.nodes.len(),
                                alive.len() == nn,
                                emit_inv(t0, decomposition@, trace@, t, n as int),
            forall|j: int|
                0 <= j < decomposition@.len() ==> ((#[trigger] decomposition@[j]).string.slen()
                    > 1 ==> string_supported(*connectivity, decomposition@[j].string)),
                forall|j: int|
                    0 <= j < decomposition@.len()
                        ==> ((#[trigger] decomposition@[j]).string.slen() > 1
                        ==> string_supported(*connectivity, decomposition@[j].string)),
                                forall|j: int| 0 <= j < targets.len() ==> (#[trigger] targets[j])
                                    < BIT_INDEX_LIMIT,
                                forall|j: int|
                                    0 <= j < dirty_qubits.len() ==> (#[trigger] dirty_qubits[j])
                                        < BIT_INDEX_LIMIT,
                            decreases targets.len() - ti,
                        {
                            let target = targets[ti];
                            let xrow = t.get_x_row(target);
                            let x_moves = match handle_target(
                                xrow,
                                PauliLetter::X,
                                target,
                                QubitProtection::Free,
                                &alive,
                                edge_index,
                                connectivity,
                                gate_size,
                                &dirty_qubits,
                                &targets,
                            ) {
                                Some(mv) => mv,
                                None => {
                                    return None;
                                },
                            };
                            let mut ci: usize = 0;
                            while ci < x_moves.len()
                                invariant
                                    connectivity.wf(),
                                    forall|j: int|
                                        0 <= j < ci ==> string_supported(
                                            *connectivity,
                                            (#[trigger] x_moves@[j]),
                                        ),
                                decreases x_moves.len() - ci,
                            {
                                if !check_supported(connectivity, &x_moves[ci]) {
                                    return None;
                                }
                                ci += 1;
                            }
                            let ghost d_pre = decomposition@;
                            let ghost mv = x_moves@;
                            trace = apply_moves(&mut t, x_moves, n, &mut decomposition, trace, Ghost(t0));
                            proof {
                                lemma_supported_extension(decomposition@, d_pre, mv, *connectivity);
                            }
                            let zrow = t.get_z_row(target);
                            let z_moves = match handle_target(
                                zrow,
                                PauliLetter::Z,
                                target,
                                QubitProtection::X,
                                &alive,
                                edge_index,
                                connectivity,
                                gate_size,
                                &dirty_qubits,
                                &targets,
                            ) {
                                Some(mv) => mv,
                                None => {
                                    return None;
                                },
                            };
                            let mut ci: usize = 0;
                            while ci < z_moves.len()
                                invariant
                                    connectivity.wf(),
                                    forall|j: int|
                                        0 <= j < ci ==> string_supported(
                                            *connectivity,
                                            (#[trigger] z_moves@[j]),
                                        ),
                                decreases z_moves.len() - ci,
                            {
                                if !check_supported(connectivity, &z_moves[ci]) {
                                    return None;
                                }
                                ci += 1;
                            }
                            let ghost d_pre = decomposition@;
                            let ghost mv = z_moves@;
                            trace = apply_moves(&mut t, z_moves, n, &mut decomposition, trace, Ghost(t0));
                            proof {
                                lemma_supported_extension(decomposition@, d_pre, mv, *connectivity);
                            }
                            let popped = dirty_qubits.pop();
                            if popped.is_none() {
                                return None;
                            }
                            ti += 1;
                        }
                        alive.set(index, false);
                        if alive_count == 0 {
                            return None;
                        }
                        alive_count -= 1;
                        progressed = true;
                    } else if degree == 0 {
                        // A qubit node with no live edges left.
                        alive.set(index, false);
                        if alive_count == 0 {
                            return None;
                        }
                        alive_count -= 1;
                        progressed = true;
                    }
                }
                index += 1;
            }
            if !progressed && alive_count > 0 {
                return None;
            }
        }
        let ghost d_pre_signs = decomposition@;
        let trace = match t.fix_signs(gate_size, &mut decomposition, trace, Ghost(t0)) {
            (true, tr) => tr,
            (false, _) => {
                return None;
            },
        };
        proof {
            assert forall|j: int|
                0 <= j < decomposition@.len()
                    implies ((#[trigger] decomposition@[j]).string.slen() > 1
                    ==> string_supported(*connectivity, decomposition@[j].string)) by {
                if j < d_pre_signs.len() {
                    assert(decomposition@[j] == decomposition@.subrange(
                        0,
                        d_pre_signs.len() as int,
                    )[j]);
                }
            }
        }
        if !t.is_identity() {
            return None;
        }
        let ghost d_final = decomposition@;
        let rev = reverse_decomposition(decomposition, Ghost(t0), trace, Ghost(t), Ghost(n as int));
        proof {
            assert forall|k: int|
                0 <= k < rev.len() implies ((#[trigger] rev[k]).string.slen() > 1
                ==> string_supported(*connectivity, rev[k].string)) by {
                assert(rev[k] == d_final[d_final.len() - 1 - k]);
            }
        }
        Some(rev)
    }
}


/// Row counts are unchanged by multiplying the row with `o`, stated for
/// letter functions.
proof fn lemma_cnt_of_prod(
    f: spec_fn(int) -> PauliLetter,
    g: spec_fn(int) -> PauliLetter,
    o: PauliString,
    n: int,
)
    requires
        forall|q: int| #[trigger] g(q) == letter_prod(f(q), o.l(q)),
    ensures
        cnt_anti(g, o, n) == cnt_anti(f, o, n),
        cnt_minus(o, f, n) + cnt_minus(o, g, n) == cnt_anti(f, o, n),
    decreases n,
{
    if n > 0 {
        lemma_cnt_of_prod(f, g, o, n - 1);
    }
}

/// Two identity tableaus agree on the total view.
proof fn lemma_identity_equiv(a: CliffordTableau, b: CliffordTableau)
    requires
        tab_identity(a),
        tab_identity(b),
    ensures
        tab_equiv(a, b),
{
}

/// Undoing a merge: if `o` was merged with one sign into `t1` giving `t2`,
/// then merging `o` with the other sign into anything that looks like `t2`
/// gives back something that looks like `t1`.
#[verifier::rlimit(100)]
#[verifier::spinoff_prover]
pub proof fn lemma_merge_back(
    t1: CliffordTableau,
    t2: CliffordTableau,
    u1: CliffordTableau,
    u2: CliffordTableau,
    neg: bool,
    o: PauliString,
)
    requires
        merge_rel(t1, neg, o, t2),
        tab_equiv(u1, t2),
        merge_rel(u1, !neg, o, u2),
    ensures
        tab_equiv(u2, t1),
{
    let b2 = t2.rows();
    let bu = u2.rows();
    let m = if b2 >= bu {
        b2
    } else {
        bu
    };
    assert forall|i: int| tab_equiv_row(u2, t1, i) by {
        let f1 = xf(t1, i);
        let f2 = xf(t2, i);
        let fu = xf(u1, i);
        assert(forall|q: int| #[trigger] fu(q) == f2(q));
        lemma_cnt_congruent(fu, f2, o, m);
        assert forall|q: int| m <= q implies f1(q) == PauliLetter::I || o.l(q)
            == PauliLetter::I by {}
        lemma_cnt_stable(f1, o, b2, m);
        lemma_cnt_stable(f2, o, bu, m);
        lemma_cnt_stable(f2, o, b2, m);
        lemma_cnt_stable(fu, o, bu, m);
        if row_odd(f1, o, b2) {
            assert(forall|q: int| #[trigger] f2(q) == letter_prod(f1(q), o.l(q)));
            lemma_cnt_of_prod(f1, f2, o, m);
        } else {
            lemma_cnt_congruent(f2, f1, o, m);
        }
        let g1 = zf(t1, i);
        let g2 = zf(t2, i);
        let gu = zf(u1, i);
        assert(forall|q: int| #[trigger] gu(q) == g2(q));
        lemma_cnt_congruent(gu, g2, o, m);
        lemma_cnt_stable(g1, o, b2, m);
        lemma_cnt_stable(g2, o, bu, m);
        lemma_cnt_stable(g2, o, b2, m);
        lemma_cnt_stable(gu, o, bu, m);
        if row_odd(g1, o, b2) {
            assert(forall|q: int| #[trigger] g2(q) == letter_prod(g1(q), o.l(q)));
            lemma_cnt_of_prod(g1, g2, o, m);
        } else {
            lemma_cnt_congruent(g2, g1, o, m);
        }
    }
    assert forall|i: int| u2.xs(i) == t1.xs(i) && u2.zs(i) == t1.zs(i) by {
        assert(tab_equiv_row(u2, t1, i));
    }
    assert forall|i: int, q: int| u2.xl(i, q) == t1.xl(i, q) && u2.zl(i, q) == t1.zl(i, q) by {
        assert(tab_equiv_row(u2, t1, i));
    }
}

/// The per-row content of `tab_equiv`, named so that one row can be argued
/// at a time.
pub open spec fn tab_equiv_row(a: CliffordTableau, b: CliffordTableau, i: int) -> bool {
    &&& forall|q: int| a.xl(i, q) == b.xl(i, q) && a.zl(i, q) == b.zl(i, q)
    &&& a.xs(i) == b.xs(i)
    &&& a.zs(i) == b.zs(i)
}

/// Merging the rotations a decomposition emitted, in order, into a fresh
/// identity tableau reproduces the decomposed tableau: the emitted circuit
/// is the tableau, and merging its inverses afterwards clears everything.
pub proof fn lemma_decompose_remerge(
    t0: CliffordTableau,
    list: Seq<PauliExp<CliffordPauliAngle>>,
    fwd: Seq<CliffordTableau>,
    back: Seq<CliffordTableau>,
)
    requires
        decompose_trace(t0, list, fwd),
        forall|k: int|
            0 <= k < list.len() ==> (#[trigger] list[k]).angle == CliffordPauliAngle::PiOver4
                || list[k].angle == CliffordPauliAngle::NegPiOver4,
        back.len() == list.len() + 1,
        tab_identity(back[0]),
        forall|k: int| 0 <= k < list.len() ==> merge_step(back[k], #[trigger] list[k], back[k + 1]),
    ensures
        tab_equiv(back.last(), t0),
{
    lemma_remerge_step(t0, list, fwd, back, list.len() as int);
}

/// After `j` re-merges the fresh tableau looks like the forward trace `j`
/// steps from its identity end.
proof fn lemma_remerge_step(
    t0: CliffordTableau,
    list: Seq<PauliExp<CliffordPauliAngle>>,
    fwd: Seq<CliffordTableau>,
    back: Seq<CliffordTableau>,
    j: int,
)
    requires
        decompose_trace(t0, list, fwd),
        forall|k: int|
            0 <= k < list.len() ==> (#[trigger] list[k]).angle == CliffordPauliAngle::PiOver4
                || list[k].angle == CliffordPauliAngle::NegPiOver4,
        back.len() == list.len() + 1,
        tab_identity(back[0]),
        forall|k: int| 0 <= k < list.len() ==> merge_step(back[k], #[trigger] list[k], back[k + 1]),
        0 <= j <= list.len(),
    ensures
        tab_equiv(back[j], fwd[list.len() - j]),
    decreases j,
{
    let m = list.len() as int;
    if j == 0 {
        lemma_identity_equiv(back[0], fwd[m]);
    } else {
        lemma_remerge_step(t0, list, fwd, back, j - 1);
        // The forward step that introduced list[j - 1].
        let k = m - j;
        assert(merge_step(fwd[k], neg_exp(list[m - 1 - k]), fwd[k + 1]));
        assert(m - 1 - k == j - 1);
        let e = list[j - 1];
        assert(merge_step(back[j - 1], e, back[j]));
        if e.angle == CliffordPauliAngle::PiOver4 {
            assert(merge_rel(fwd[k], true, e.string, fwd[k + 1]));
            assert(merge_rel(back[j - 1], false, e.string, back[j]));
            lemma_merge_back(fwd[k], fwd[k + 1], back[j - 1], back[j], true, e.string);
        } else {
            assert(merge_rel(fwd[k], false, e.string, fwd[k + 1]));
            assert(merge_rel(back[j - 1], true, e.string, back[j]));
            lemma_merge_back(fwd[k], fwd[k + 1], back[j - 1], back[j], false, e.string);
        }
    }
}


/// The identity tableau's rows follow the symplectic pattern: each X row
/// anticommutes with the Z row of the same qubit and commutes with every
/// other row.
pub proof fn lemma_identity_rows_pattern(t: CliffordTableau, i: int, j: int)
    requires
        t.wf(),
        tab_identity(t),
        0 <= i < t.rows(),
        0 <= j < t.rows(),
    ensures
        !spec_commutes(t.xrow(i), t.zrow(i)),
        i != j ==> spec_commutes(t.xrow(i), t.xrow(j)),
        i != j ==> spec_commutes(t.xrow(i), t.zrow(j)),
        i != j ==> spec_commutes(t.zrow(i), t.zrow(j)),
{
    let xi = t.xrow(i);
    let zi = t.zrow(i);
    let xj = t.xrow(j);
    let zj = t.zrow(j);
    assert(forall|q: int| xi.l(q) == ident_x(i, q));
    assert(forall|q: int| zi.l(q) == ident_z(i, q));
    assert(forall|q: int| xj.l(q) == ident_x(j, q));
    assert(forall|q: int| zj.l(q) == ident_z(j, q));
    lemma_count_anti_single(xi, zi, i, maxb(xi, zi));
    assert(i < maxb(xi, zi)) by {
        if i >= xi.sbound() {
            xi.lemma_l_past_sbound(i);
        }
    }
    if i != j {
        lemma_count_anti_single(xi, xj, i, maxb(xi, xj));
        lemma_count_anti_single(xi, zj, i, maxb(xi, zj));
        lemma_count_anti_single(zi, zj, i, maxb(zi, zj));
    }
}

/// A merge preserves the mutual commutation of any two stored rows: the
/// symplectic pattern of the tableau survives every merge.
pub proof fn lemma_merge_preserves_row_commutation(
    t1: CliffordTableau,
    t2: CliffordTableau,
    neg: bool,
    o: PauliString,
    i: int,
    j: int,
)
    requires
        merge_rel(t1, neg, o, t2),
        0 <= i < t1.rows(),
        0 <= j < t1.rows(),
    ensures
        spec_commutes(t2.xrow(i), t2.xrow(j)) == spec_commutes(t1.xrow(i), t1.xrow(j)),
        spec_commutes(t2.xrow(i), t2.zrow(j)) == spec_commutes(t1.xrow(i), t1.zrow(j)),
        spec_commutes(t2.zrow(i), t2.zrow(j)) == spec_commutes(t1.zrow(i), t1.zrow(j)),
{
    lemma_merge_row_sandwiched(t1, t2, neg, o, i);
    lemma_merge_row_sandwiched(t1, t2, neg, o, j);
    lemma_sandwich_preserves_commutation(t1.xrow(i), t2.xrow(i), t1.xrow(j), t2.xrow(j), o);
    lemma_sandwich_preserves_commutation(t1.xrow(i), t2.xrow(i), t1.zrow(j), t2.zrow(j), o);
    lemma_sandwich_preserves_commutation(t1.zrow(i), t2.zrow(i), t1.zrow(j), t2.zrow(j), o);
}

/// A merged stored row is the sandwich of the row it came from.
proof fn lemma_merge_row_sandwiched(
    t1: CliffordTableau,
    t2: CliffordTableau,
    neg: bool,
    o: PauliString,
    i: int,
)
    requires
        merge_rel(t1, neg, o, t2),
        0 <= i < t1.rows(),
    ensures
        sandwiched(t1.xrow(i), o, t2.xrow(i)),
        sandwiched(t1.zrow(i), o, t2.zrow(i)),
{
    let b = t2.rows();
    let f = xf(t1, i);
    let g = zf(t1, i);
    assert(forall|q: int| #[trigger] f(q) == t1.xrow(i).l(q));
    assert(forall|q: int| #[trigger] g(q) == t1.zrow(i).l(q));
    lemma_row_counts_value(f, t1.xrow(i), o, b);
    lemma_row_counts_value(g, t1.zrow(i), o, b);
    assert(row_odd(f, o, b) == !spec_commutes(t1.xrow(i), o));
    assert(row_odd(g, o, b) == !spec_commutes(t1.zrow(i), o));
    if spec_commutes(t1.xrow(i), o) {
        assert forall|q: int| t2.xrow(i).l(q) == t1.xrow(i).l(q) by {
            assert(t2.xrow(i).l(q) == t2.xl(i, q));
            assert(t2.xl(i, q) == t1.xl(i, q));
        }
    } else {
        assert forall|q: int| t2.xrow(i).l(q) == letter_prod(t1.xrow(i).l(q), o.l(q)) by {
            assert(t2.xrow(i).l(q) == t2.xl(i, q));
            assert(t2.xl(i, q) == letter_prod(t1.xl(i, q), o.l(q)));
        }
    }
    if spec_commutes(t1.zrow(i), o) {
        assert forall|q: int| t2.zrow(i).l(q) == t1.zrow(i).l(q) by {
            assert(t2.zrow(i).l(q) == t2.zl(i, q));
            assert(t2.zl(i, q) == t1.zl(i, q));
        }
    } else {
        assert forall|q: int| t2.zrow(i).l(q) == letter_prod(t1.zrow(i).l(q), o.l(q)) by {
            assert(t2.zrow(i).l(q) == t2.zl(i, q));
            assert(t2.zl(i, q) == letter_prod(t1.zl(i, q), o.l(q)));
        }
    }
}


/// Compares one stored row against the implicit identity row for qubit
/// `i`: the row must be the single letter `want` at `i`.
fn row_is_ident(row: &PauliString, i: usize, want: PauliLetter) -> (r: bool)
    requires
        want != PauliLetter::I,
    ensures
        r == (forall|q: int|
            row.l(q) == (if q == i {
                want
            } else {
                PauliLetter::I
            })),
{
    let r = row.len() == 1 && row.get(i) == want;
    proof {
        if r {
            assert forall|q: int|
                row.l(q) == (if q == i as int {
                    want
                } else {
                    PauliLetter::I
                }) by {
                if q != i as int {
                    crate::pauli_string::lemma_single_support(*row, i as int, q);
                }
            }
        } else {
            if row.l(i as int) == want {
                let w = crate::pauli_string::lemma_other_support(*row, i as int);
                assert(row.l(w) != PauliLetter::I && w != i);
            }
        }
    }
    r
}

impl PartialEq for CliffordTableau {
    /// Two tableaus are equal when they agree on the total view: equal row
    /// letters, with rows past a stored prefix read as the identity rows,
    /// and equal signs.
    #[verifier::loop_isolation(false)]
    fn eq(&self, other: &Self) -> (r: bool) {
        if !self.x_signs.eq(&other.x_signs) {
            proof {
                let w = choose|i: int| self.x_signs.bit(i) != other.x_signs.bit(i);
                assert(self.xs(w) != other.xs(w));
            }
            return false;
        }
        if !self.z_signs.eq(&other.z_signs) {
            proof {
                let w = choose|i: int| self.z_signs.bit(i) != other.z_signs.bit(i);
                assert(self.zs(w) != other.zs(w));
            }
            return false;
        }
        let mut hi = self.x.len();
        if other.x.len() > hi {
            hi = other.x.len();
        }
        if self.z.len() > hi {
            hi = self.z.len();
        }
        if other.z.len() > hi {
            hi = other.z.len();
        }
        let mut i: usize = 0;
        while i < hi
            invariant
                i <= hi,
                forall|i2: int, q: int|
                    0 <= i2 < i ==> self.xl(i2, q) == other.xl(i2, q) && self.zl(i2, q)
                        == other.zl(i2, q),
            decreases hi - i,
        {
            let xsame = if i < self.x.len() && i < other.x.len() {
                self.x[i].eq(&other.x[i])
            } else if i < self.x.len() {
                row_is_ident(&self.x[i], i, PauliLetter::X)
            } else if i < other.x.len() {
                row_is_ident(&other.x[i], i, PauliLetter::X)
            } else {
                true
            };
            if !xsame {
                proof {
                    let gi = i as int;
                    if gi < self.x.len() && gi < other.x.len() {
                        let q = choose|q: int| self.x[gi].l(q) != other.x[gi].l(q);
                        assert(self.xl(gi, q) != other.xl(gi, q));
                    } else if gi < self.x.len() {
                        let q = choose|q: int|
                            self.x[gi].l(q) != (if q == gi {
                                PauliLetter::X
                            } else {
                                PauliLetter::I
                            });
                        assert(self.xl(gi, q) != other.xl(gi, q));
                    } else {
                        let q = choose|q: int|
                            other.x[gi].l(q) != (if q == gi {
                                PauliLetter::X
                            } else {
                                PauliLetter::I
                            });
                        assert(self.xl(gi, q) != other.xl(gi, q));
                    }
                }
                return false;
            }
            let zsame = if i < self.z.len() && i < other.z.len() {
                self.z[i].eq(&other.z[i])
            } else if i < self.z.len() {
                row_is_ident(&self.z[i], i, PauliLetter::Z)
            } else if i < other.z.len() {
                row_is_ident(&other.z[i], i, PauliLetter::Z)
            } else {
                true
            };
            if !zsame {
                proof {
                    let gi = i as int;
                    if gi < self.z.len() && gi < other.z.len() {
                        let q = choose|q: int| self.z[gi].l(q) != other.z[gi].l(q);
                        assert(self.zl(gi, q) != other.zl(gi, q));
                    } else if gi < self.z.len() {
                        let q = choose|q: int|
                            self.z[gi].l(q) != (if q == gi {
                                PauliLetter::Z
                            } else {
                                PauliLetter::I
                            });
                        assert(self.zl(gi, q) != other.zl(gi, q));
                    } else {
                        let q = choose|q: int|
                            other.z[gi].l(q) != (if q == gi {
                                PauliLetter::Z
                            } else {
                                PauliLetter::I
                            });
                        assert(self.zl(gi, q) != other.zl(gi, q));
                    }
                }
                return false;
            }
            i += 1;
        }
        proof {
            assert forall|i2: int, q: int| self.xl(i2, q) == other.xl(i2, q) && self.zl(i2, q)
                == other.zl(i2, q) by {
                if i2 >= hi || i2 < 0 {
                }
            }
            assert(tab_equiv(*self, *other));
        }
        true
    }
}

impl Eq for CliffordTableau {

}

impl vstd::std_specs::cmp::PartialEqSpecImpl for CliffordTableau {
    open spec fn obeys_eq_spec() -> bool {
        true
    }

    open spec fn eq_spec(&self, other: &Self) -> bool {
        tab_equiv(*self, *other)
    }
}

} // verus!
