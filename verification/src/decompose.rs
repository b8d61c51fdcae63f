//! The row solvers of the tableau decomposition: the simple solver for
//! tableaus with at least a gate's worth of dirty qubits, the delicate
//! solver for the remainder, and the cost heuristics that pick the next row.
//!
//! Each solver returns the pushes it wants applied, after checking that
//! every push has length one or the operator size and that the pushes do bring
//! the row to the requested single letter; a run that would have violated
//! those checks reports `None` instead.

use vstd::prelude::*;

use crate::bits::BIT_INDEX_LIMIT;
use crate::clifford_tableau::CliffordTableau;
use crate::misc::NonZeroEvenUsize;
use crate::pauli::PauliLetter;
use crate::pauli_string::{
    PauliString, equiv, lemma_count_anti_single, lemma_count_anti_sym, lemma_counts_at_any_bound,
    lemma_single_support, maxb, push_trace, sandwiched, spec_commutes, spec_steps_to_len_one,
    inner_steps_to_len_one,
};
use crate::synthesize::{list_has, vec_contains};

verus! {

/// A constraint on the pushes of a solver run: the push that finishes a row
/// must anticommute on the already solved qubit with the given letter only,
/// so that the row solved earlier stays solved.
#[derive(Debug, Clone, Copy, PartialEq, Eq, Structural)]
pub enum QubitProtection {
    X,
    Z,
    Free,
}

/// What a successful solver run guarantees: every push has length one or
/// `n`, and applying the pushes in order turns `start` into the string that
/// is exactly `target` at `e` and identity elsewhere.
pub open spec fn solved_by(
    start: PauliString,
    pushes: Seq<PauliString>,
    e: int,
    target: PauliLetter,
    n: int,
) -> bool {
    &&& forall|k: int|
        0 <= k < pushes.len() ==> (#[trigger] pushes[k]).slen() == 1 || pushes[k].slen() == n
    &&& exists|trace: Seq<PauliString>|
        push_trace(start, pushes, trace) && (forall|q: int|
            trace.last().l(q) == (if q == e {
                target
            } else {
                PauliLetter::I
            }))
}

/// Replays the pushes on a copy of the string and checks the two solver
/// guarantees at run time.
fn apply_and_check(
    string: &PauliString,
    pushes: &Vec<PauliString>,
    n: usize,
    end_qubit: usize,
    target_letter: PauliLetter,
) -> (ok: bool)
    ensures
        ok ==> solved_by(*string, pushes@, end_qubit as int, target_letter, n as int),
        pushes.len() == 0 && string.slen() == 1 && string.l(end_qubit as int) == target_letter
            && target_letter != PauliLetter::I ==> ok,
{
    let mut cur = string.duplicate();
    let ghost mut trace: Seq<PauliString> = Seq::empty().push(cur);
    let mut k: usize = 0;
    while k < pushes.len()
        invariant
            k <= pushes.len(),
            trace.len() == k + 1,
            trace.last() == cur,
            push_trace(*string, pushes@.subrange(0, k as int), trace),
            forall|j: int|
                0 <= j < k ==> (#[trigger] pushes@[j]).slen() == 1 || pushes@[j].slen() == n,
        decreases pushes.len() - k,
    {
        let p = &pushes[k];
        let pl = p.len();
        if pl != 1 && pl != n {
            return false;
        }
        let ghost pre = cur;
        cur.pi_over_4_sandwitch(false, p);
        proof {
            trace = trace.push(cur);
            assert(sandwiched(pre, pushes@[k as int], cur));
            assert(pushes@.subrange(0, k + 1).last() == pushes@[k as int]);
            assert forall|j: int|
                0 <= j < k + 1 implies sandwiched(
                trace[j],
                #[trigger] pushes@.subrange(0, k + 1)[j],
                trace[j + 1],
            ) by {
                if j < k {
                    assert(pushes@.subrange(0, k as int)[j] == pushes@.subrange(0, k + 1)[j]);
                }
            }
        }
        k += 1;
    }
    if cur.len() != 1 {
        proof {
            if pushes@.len() == 0 {
                assert(crate::pauli_string::equiv(cur, *string)) by {
                    assert(trace.last() == trace[0]);
                }
                crate::pauli_string::lemma_equiv_slen(cur, *string);
            }
        }
        return false;
    }
    let le = cur.get(end_qubit);
    if !(le == target_letter) {
        proof {
            if pushes@.len() == 0 {
                assert(trace.last() == trace[0]);
                assert(cur.l(end_qubit as int) == string.l(end_qubit as int));
            }
        }
        return false;
    }
    if matches!(target_letter, PauliLetter::I) {
        return false;
    }
    proof {
        assert(pushes@.subrange(0, pushes@.len() as int) =~= pushes@);
        assert forall|q: int|
            trace.last().l(q) == (if q == end_qubit as int {
                target_letter
            } else {
                PauliLetter::I
            }) by {
            if q != end_qubit as int {
                lemma_single_support(cur, end_qubit as int, q);
            }
        }
    }
    true
}


/// Every letter of a push sits on the start string's support, one of the
/// allowed working qubits, or the end qubit: nothing outside them is
/// touched.
pub open spec fn push_confined(
    p: PauliString,
    start: PauliString,
    allowed: Seq<usize>,
    e: int,
) -> bool {
    forall|q: int|
        0 <= q && (#[trigger] p.l(q)) != PauliLetter::I ==> q == e || start.l(q)
            != PauliLetter::I || list_has(allowed, q)
}

/// Under an X (resp. Z) protection a push holds I or X (resp. I or Z) at
/// the protected qubit, so it commutes with the solved single-letter row
/// there.
pub open spec fn protection_ok(p: PauliString, e: int, protection: QubitProtection) -> bool {
    match protection {
        QubitProtection::X => p.l(e) == PauliLetter::I || p.l(e) == PauliLetter::X,
        QubitProtection::Z => p.l(e) == PauliLetter::I || p.l(e) == PauliLetter::Z,
        QubitProtection::Free => true,
    }
}

/// A push that does not anticommute with the single letter of an
/// already-solved row at its qubit commutes with the whole row, so the row
/// stays solved.
pub proof fn lemma_protected_push_commutes(p: PauliString, row: PauliString, e: int)
    requires
        row.l(e) != PauliLetter::I,
        forall|q: int| q != e ==> row.l(q) == PauliLetter::I,
        !crate::pauli::letter_anti(row.l(e), p.l(e)),
    ensures
        spec_commutes(p, row),
{
    let m = maxb(p, row);
    lemma_counts_at_any_bound(p, row, m);
    lemma_count_anti_sym(p, row, m);
    lemma_count_anti_single(row, p, e, m);
}

/// Checks at run time that every push stays inside the start support, the
/// allowed qubits and the end qubit, and honours the protection letter.
fn check_confined(
    pushes: &Vec<PauliString>,
    start: &PauliString,
    allowed: &Vec<usize>,
    e: usize,
    protection: QubitProtection,
) -> (ok: bool)
    ensures
        ok ==> forall|k: int|
            0 <= k < pushes.len() ==> push_confined(
                #[trigger] pushes[k],
                *start,
                allowed@,
                e as int,
            ) && protection_ok(pushes[k], e as int, protection),
        pushes.len() == 0 ==> ok,
{
    let mut k: usize = 0;
    while k < pushes.len()
        invariant
            forall|j: int|
                0 <= j < k ==> push_confined(#[trigger] pushes[j], *start, allowed@, e as int)
                    && protection_ok(pushes[j], e as int, protection),
        decreases pushes.len() - k,
    {
        let le = pushes[k].get(e);
        let prot_ok = match protection {
            QubitProtection::X => matches!(le, PauliLetter::I) || matches!(le, PauliLetter::X),
            QubitProtection::Z => matches!(le, PauliLetter::I) || matches!(le, PauliLetter::Z),
            QubitProtection::Free => true,
        };
        if !prot_ok {
            return false;
        }
        let tv = pushes[k].targets();
        let mut m: usize = 0;
        while m < tv.len()
            invariant
                k < pushes.len(),
                forall|j: int|
                    0 <= j < tv.len() ==> pushes[k as int].l(#[trigger] tv[j] as int)
                        != PauliLetter::I,
                forall|q: int|
                    0 <= q && pushes[k as int].l(q) != PauliLetter::I ==> exists|j: int|
                        0 <= j < tv.len() && tv[j] == q,
                forall|j: int|
                    0 <= j < m ==> tv[j] == e || start.l(#[trigger] tv[j] as int)
                        != PauliLetter::I || list_has(allowed@, tv[j] as int),
            decreases tv.len() - m,
        {
            let t = tv[m];
            if !(t == e || !matches!(start.get(t), PauliLetter::I) || vec_contains(allowed, t)) {
                return false;
            }
            m += 1;
        }
        proof {
            assert forall|q: int|
                0 <= q && (#[trigger] pushes[k as int].l(q)) != PauliLetter::I implies q
                == e as int || start.l(q) != PauliLetter::I || list_has(allowed@, q) by {
                let j = choose|j: int| 0 <= j < tv.len() && tv[j] == q;
            }
            assert(push_confined(pushes[k as int], *start, allowed@, e as int));
        }
        k += 1;
    }
    true
}

/// Builds the push sequence of the simple solver; `None` when the run
/// reaches a state the construction cannot handle.
#[allow(unused_variables)]
fn build_simple(
    string: &PauliString,
    n: usize,
    end_qubit: usize,
    target_letter: PauliLetter,
    dirty_qubits: &Vec<usize>,
    protection: QubitProtection,
) -> (r: Option<Vec<PauliString>>)
    requires
        n >= 2,
        n <= BIT_INDEX_LIMIT,
        end_qubit < BIT_INDEX_LIMIT,
        forall|k: int| 0 <= k < dirty_qubits.len() ==> dirty_qubits[k] < BIT_INDEX_LIMIT,
{
    let mut pushing: Vec<PauliString> = Vec::new();
    let mut string = string.duplicate();

    // Shrink the string until it is under two gates wide.
    while string.len() > 2 * n - 2
        invariant
            n >= 2,
            n <= BIT_INDEX_LIMIT,
            end_qubit < BIT_INDEX_LIMIT,
            forall|k: int| 0 <= k < dirty_qubits.len() ==> dirty_qubits[k] < BIT_INDEX_LIMIT,
        decreases string.slen(),
    {
        let len_before = string.len();
        let mut new_string = PauliString::id();
        let letters = string.letters();
        let mut li: usize = 0;
        while li < letters.len()
            invariant
                forall|k: int| 0 <= k < letters.len() ==> letters[k].0 < BIT_INDEX_LIMIT,
            decreases letters.len() - li,
        {
            let (i, letter) = letters[li];
            if i != end_qubit {
                new_string.set(i, letter);
                if new_string.len() == n {
                    break ;
                }
            }
            li += 1;
        }
        let first = new_string.letters();
        if first.len() == 0 {
            return None;
        }
        let (fi, fl) = first[0];
        new_string.set(fi, fl.next());
        string.pi_over_4_sandwitch(false, &new_string);
        pushing.push(new_string);
        if string.len() >= len_before {
            return None;
        }
    }

    // Make sure that the end qubit has a letter.
    if matches!(string.get(end_qubit), PauliLetter::I) {
        if !matches!(protection, QubitProtection::Free) {
            return None;
        }
        let mut new_string = PauliString::id();
        new_string.set(end_qubit, target_letter.next());

        let mut n_remove = (string.len() + 1).saturating_sub(n);
        if n_remove % 2 == 1 {
            n_remove += 1;
        }
        let n_remove = if n_remove < n - 2 {
            n_remove
        } else {
            n - 2
        };
        let letters = string.letters();
        if letters.len() < n_remove {
            return None;
        }
        let mut li: usize = 0;
        while li < n_remove
            invariant
                n_remove <= letters.len(),
                forall|k: int| 0 <= k < letters.len() ==> letters[k].0 < BIT_INDEX_LIMIT,
            decreases n_remove - li,
        {
            let (i, letter) = letters[li];
            new_string.set(i, letter);
            li += 1;
        }
        let mut rest: Vec<(usize, PauliLetter)> = Vec::new();
        let mut ri: usize = n_remove;
        while ri < letters.len()
            invariant
                forall|k: int| 0 <= k < letters.len() ==> letters[k].0 < BIT_INDEX_LIMIT,
                forall|k: int| 0 <= k < rest.len() ==> rest[k].0 < BIT_INDEX_LIMIT,
            decreases letters.len() - ri,
        {
            rest.push(letters[ri]);
            ri += 1;
        }
        let additional: Option<(usize, PauliLetter)> = if rest.len() > 0 && rest.len() % 2 == 0 {
            rest.pop()
        } else {
            Option::None
        };
        let mut ri: usize = 0;
        while ri < rest.len()
            invariant
                forall|k: int| 0 <= k < rest.len() ==> rest[k].0 < BIT_INDEX_LIMIT,
            decreases rest.len() - ri,
        {
            if new_string.len() == n {
                break ;
            }
            let (i, letter) = rest[ri];
            new_string.set(i, letter.next());
            ri += 1;
        }
        let mut di: usize = 0;
        while di < dirty_qubits.len()
            invariant
                forall|k: int| 0 <= k < dirty_qubits.len() ==> dirty_qubits[k] < BIT_INDEX_LIMIT,
            decreases dirty_qubits.len() - di,
        {
            if new_string.len() == n {
                break ;
            }
            let q = dirty_qubits[di];
            if matches!(new_string.get(q), PauliLetter::I) {
                new_string.set(q, PauliLetter::X);
            }
            di += 1;
        }
        if new_string.len() < n {
            if new_string.len() != n - 1 {
                return None;
            }
            match additional {
                Some((i, letter)) => {
                    new_string.set(i, letter);
                },
                Option::None => {
                    return None;
                },
            }
        }
        if new_string.len() != n {
            return None;
        }
        string.pi_over_4_sandwitch(false, &new_string);
        pushing.push(new_string);
    }

    // If the length is even and not the operator size, make it odd.
    if string.len() % 2 == 0 && string.len() != n {
        let mut new_string = PauliString::id();
        match protection {
            QubitProtection::X => {
                new_string.set(end_qubit, PauliLetter::X);
            },
            QubitProtection::Z => {
                new_string.set(end_qubit, PauliLetter::Z);
            },
            QubitProtection::Free => {
                new_string.set(end_qubit, string.get(end_qubit).next());
            },
        }
        let letters = string.letters();
        let mut li: usize = 0;
        while li < letters.len()
            invariant
                forall|k: int| 0 <= k < letters.len() ==> letters[k].0 < BIT_INDEX_LIMIT,
            decreases letters.len() - li,
        {
            if new_string.len() == n {
                break ;
            }
            let (i, letter) = letters[li];
            if i != end_qubit {
                new_string.set(i, letter);
            }
            li += 1;
        }
        let mut di: usize = 0;
        while di < dirty_qubits.len()
            invariant
                forall|k: int| 0 <= k < dirty_qubits.len() ==> dirty_qubits[k] < BIT_INDEX_LIMIT,
            decreases dirty_qubits.len() - di,
        {
            if new_string.len() == n {
                break ;
            }
            let q = dirty_qubits[di];
            if matches!(new_string.get(q), PauliLetter::I) {
                new_string.set(q, PauliLetter::X);
            }
            di += 1;
        }
        string.pi_over_4_sandwitch(false, &new_string);
        pushing.push(new_string);
    }

    if !(string.len() % 2 == 1 || string.len() == n) {
        return None;
    }

    // If the length is odd, bring it to exactly the operator size.
    if string.len() % 2 == 1 {
        if string.len() < n {
            let mut new_string = PauliString::id();
            let letters = string.letters();
            let mut li: usize = 0;
            while li < letters.len()
                invariant
                    end_qubit < BIT_INDEX_LIMIT,
                    forall|k: int| 0 <= k < letters.len() ==> letters[k].0 < BIT_INDEX_LIMIT,
                decreases letters.len() - li,
            {
                let (i, letter) = letters[li];
                if i == end_qubit && !matches!(protection, QubitProtection::Free) {
                    let chosen = match protection {
                        QubitProtection::X => {
                            if string.get(i) == PauliLetter::X {
                                return Option::None;
                            }
                            PauliLetter::X
                        },
                        _ => {
                            if string.get(i) == PauliLetter::Z {
                                return Option::None;
                            }
                            PauliLetter::Z
                        },
                    };
                    new_string.set(i, chosen);
                } else {
                    new_string.set(i, letter.next());
                }
                li += 1;
            }
            let mut di: usize = 0;
            while di < dirty_qubits.len()
                invariant
                    forall|k: int|
                        0 <= k < dirty_qubits.len() ==> dirty_qubits[k] < BIT_INDEX_LIMIT,
                decreases dirty_qubits.len() - di,
            {
                let q = dirty_qubits[di];
                if matches!(new_string.get(q), PauliLetter::I) {
                    new_string.set(q, PauliLetter::X);
                    if new_string.len() == n {
                        break ;
                    }
                }
                di += 1;
            }
            string.pi_over_4_sandwitch(false, &new_string);
            pushing.push(new_string);
        } else {
            let letters_all = string.letters();
            let mut letters: Vec<(usize, PauliLetter)> = Vec::new();
            let mut li: usize = 0;
            while li < letters_all.len()
                invariant
                    forall|k: int| 0 <= k < letters_all.len() ==> letters_all[k].0
                        < BIT_INDEX_LIMIT,
                    forall|k: int| 0 <= k < letters.len() ==> letters[k].0 < BIT_INDEX_LIMIT,
                decreases letters_all.len() - li,
            {
                if letters.len() == n {
                    break ;
                }
                let (i, letter) = letters_all[li];
                if i != end_qubit {
                    letters.push((i, letter));
                }
                li += 1;
            }
            if 2 * n < string.len() {
                return None;
            }
            let keep = 2 * n - string.len();
            let mut new_string = PauliString::id();
            let mut li: usize = 0;
            while li < letters.len()
                invariant
                    forall|k: int| 0 <= k < letters.len() ==> letters[k].0 < BIT_INDEX_LIMIT,
                decreases letters.len() - li,
            {
                let (i, letter) = letters[li];
                if li < keep {
                    new_string.set(i, letter.next());
                } else {
                    new_string.set(i, letter);
                }
                li += 1;
            }
            string.pi_over_4_sandwitch(false, &new_string);
            pushing.push(new_string);
        }
    }

    if string.len() != n {
        return None;
    }

    // Convert the operator-size string to a single qubit.
    let mut to_single = string.duplicate();
    match protection {
        QubitProtection::X => {
            if string.get(end_qubit) == PauliLetter::X || target_letter == PauliLetter::X {
                return None;
            }
            to_single.set(end_qubit, PauliLetter::X);
        },
        QubitProtection::Z => {
            if string.get(end_qubit) == PauliLetter::Z || target_letter == PauliLetter::Z {
                return None;
            }
            to_single.set(end_qubit, PauliLetter::Z);
        },
        QubitProtection::Free => {
            if !(target_letter == string.get(end_qubit)) {
                let mut letter = string.get(end_qubit).next();
                if letter == target_letter {
                    letter = letter.next();
                }
                to_single.set(end_qubit, letter);
            } else {
                to_single.set(end_qubit, string.get(end_qubit).next());
            }
        },
    }
    string.pi_over_4_sandwitch(false, &to_single);
    pushing.push(to_single);

    if string.len() != 1 || matches!(string.get(end_qubit), PauliLetter::I) {
        return None;
    }

    // Add a single qubit push if needed to set the target letter.
    if !(string.get(end_qubit) == target_letter) {
        match protection {
            QubitProtection::X => {
                let p = PauliString::x(end_qubit);
                string.pi_over_4_sandwitch(false, &p);
                pushing.push(p);
            },
            QubitProtection::Z => {
                let p = PauliString::z(end_qubit);
                string.pi_over_4_sandwitch(false, &p);
                pushing.push(p);
            },
            QubitProtection::Free => {
                let mut letter = target_letter.next();
                if letter == string.get(end_qubit) {
                    letter = letter.next();
                }
                let mut new_string = PauliString::id();
                new_string.set(end_qubit, letter);
                string.pi_over_4_sandwitch(false, &new_string);
                pushing.push(new_string);
            },
        }
    }

    Some(pushing)
}

/// Reduces the row to the single `target_letter` at `end_qubit` with pushes
/// of length one or the operator size, assuming at least an operator's worth of dirty
/// qubits. A run whose pushes would not do that returns `None`.
pub fn simple_solver(
    string: &PauliString,
    gate_size: NonZeroEvenUsize,
    end_qubit: usize,
    target_letter: PauliLetter,
    dirty_qubits: &Vec<usize>,
    protection: QubitProtection,
) -> (r: Option<Vec<PauliString>>)
    requires
        end_qubit < BIT_INDEX_LIMIT,
        gate_size.as_int() <= BIT_INDEX_LIMIT,
        forall|k: int| 0 <= k < dirty_qubits.len() ==> dirty_qubits[k] < BIT_INDEX_LIMIT,
    ensures
        match r {
            Some(pushes) => {
                &&& solved_by(
                    *string,
                    pushes@,
                    end_qubit as int,
                    target_letter,
                    gate_size.as_int(),
                )
                &&& forall|k: int|
                    0 <= k < pushes.len() ==> push_confined(
                        #[trigger] pushes[k],
                        *string,
                        dirty_qubits@,
                        end_qubit as int,
                    ) && protection_ok(pushes[k], end_qubit as int, protection)
            },
            None => true,
        },
{
    let n = gate_size.as_value();
    match build_simple(string, n, end_qubit, target_letter, dirty_qubits, protection) {
        Some(pushes) => {
            if !check_confined(&pushes, string, dirty_qubits, end_qubit, protection) {
                return None;
            }
            if apply_and_check(string, &pushes, n, end_qubit, target_letter) {
                Some(pushes)
            } else {
                None
            }
        },
        None => None,
    }
}

/// Picks the dirty qubit and row letter that the simple solver can solve in
/// the fewest pushes, adding the detour cost when the row misses its own
/// qubit and sits exactly on the operator-size grid.
pub fn fastest(
    tableau: &CliffordTableau,
    dirty_qubits: &Vec<usize>,
    gate_size: NonZeroEvenUsize,
) -> (r: Option<(usize, PauliLetter)>)
    requires
        tableau.wf(),
        forall|k: int| 0 <= k < dirty_qubits.len() ==> dirty_qubits[k] < BIT_INDEX_LIMIT,
    ensures
        r is Some <==> dirty_qubits.len() > 0,
        match r {
            Some((q, letter)) => (exists|k: int| 0 <= k < dirty_qubits.len() && dirty_qubits[k]
                == q) && (letter == PauliLetter::X || letter == PauliLetter::Z),
            None => true,
        },
{
    let n = gate_size.as_value();
    let mut res: Option<(usize, usize, PauliLetter)> = None;
    let mut di: usize = 0;
    while di < dirty_qubits.len()
        invariant
            tableau.wf(),
            n >= 2,
            n == gate_size.as_int(),
            forall|k: int| 0 <= k < dirty_qubits.len() ==> dirty_qubits[k] < BIT_INDEX_LIMIT,
            match res {
                Some((_, q, letter)) => (exists|k: int|
                    0 <= k < dirty_qubits.len() && dirty_qubits[k] == q) && (letter
                    == PauliLetter::X || letter == PauliLetter::Z),
                None => di == 0,
            },
        decreases dirty_qubits.len() - di,
    {
        let qubit = dirty_qubits[di];
        let xrow = tableau.get_x_row(qubit);
        let x_steps = row_cost(&xrow, qubit, n, gate_size);
        let zrow = tableau.get_z_row(qubit);
        let z_steps = row_cost(&zrow, qubit, n, gate_size);
        let letter = if x_steps <= z_steps {
            PauliLetter::X
        } else {
            PauliLetter::Z
        };
        let n_steps = if x_steps < z_steps {
            x_steps
        } else {
            z_steps
        };
        match res {
            Some((best, _, _)) => {
                if n_steps < best {
                    res = Some((n_steps, qubit, letter));
                }
            },
            None => {
                res = Some((n_steps, qubit, letter));
            },
        }
        di += 1;
    }
    match res {
        Some((_, qubit, letter)) => Some((qubit, letter)),
        None => None,
    }
}

/// The simple-solver cost of one row: its step count, plus two when the row
/// has no letter on its own qubit and its length sits on the operator-size grid.
fn row_cost(row: &PauliString, qubit: usize, n: usize, gate_size: NonZeroEvenUsize) -> (r: usize)
    requires
        n >= 2,
        n == gate_size.as_int(),
    ensures
        r <= BIT_INDEX_LIMIT + 5,
{
    let len = row.len();
    let basic = inner_steps_to_len_one(len, n);
    if matches!(row.get(qubit), PauliLetter::I) && len >= n && (len - n) % (n - 1) == 0 {
        basic + 2
    } else {
        basic
    }
}

/// Picks the dirty qubit and row letter with the cheapest delicate-solver
/// pattern: three or five pushes when the row holds its own qubit (by the
/// parity of its length), six otherwise, and zero when a row is already a
/// single letter on its own qubit.
pub fn fastest_delicate(tableau: &CliffordTableau, dirty_qubits: &Vec<usize>) -> (r: Option<
    (usize, PauliLetter),
>)
    requires
        tableau.wf(),
        forall|k: int| 0 <= k < dirty_qubits.len() ==> dirty_qubits[k] < BIT_INDEX_LIMIT,
    ensures
        r is Some <==> dirty_qubits.len() > 0,
        match r {
            Some((q, letter)) => (exists|k: int| 0 <= k < dirty_qubits.len() && dirty_qubits[k]
                == q) && (letter == PauliLetter::X || letter == PauliLetter::Z),
            None => true,
        },
{
    let mut res: Option<(usize, usize, PauliLetter)> = None;
    let mut di: usize = 0;
    while di < dirty_qubits.len()
        invariant
            tableau.wf(),
            forall|k: int| 0 <= k < dirty_qubits.len() ==> dirty_qubits[k] < BIT_INDEX_LIMIT,
            match res {
                Some((_, q, letter)) => (exists|k: int|
                    0 <= k < dirty_qubits.len() && dirty_qubits[k] == q) && (letter
                    == PauliLetter::X || letter == PauliLetter::Z),
                None => di == 0,
            },
        decreases dirty_qubits.len() - di,
    {
        let qubit = dirty_qubits[di];
        let xrow = tableau.get_x_row(qubit);
        let x_steps: usize = if !matches!(xrow.get(qubit), PauliLetter::I) {
            if xrow.len() == 1 {
                return Some((qubit, PauliLetter::X));
            }
            if xrow.len() % 2 == 0 {
                5
            } else {
                3
            }
        } else {
            6
        };
        let zrow = tableau.get_z_row(qubit);
        let z_steps: usize = if !matches!(zrow.get(qubit), PauliLetter::I) {
            if zrow.len() == 1 {
                return Some((qubit, PauliLetter::Z));
            }
            if zrow.len() % 2 == 0 {
                5
            } else {
                3
            }
        } else {
            6
        };
        let letter = if x_steps <= z_steps {
            PauliLetter::X
        } else {
            PauliLetter::Z
        };
        let n_steps = if x_steps < z_steps {
            x_steps
        } else {
            z_steps
        };
        match res {
            Some((best, _, _)) => {
                if n_steps < best {
                    res = Some((n_steps, qubit, letter));
                }
            },
            None => {
                res = Some((n_steps, qubit, letter));
            },
        }
        di += 1;
    }
    match res {
        Some((_, qubit, letter)) => Some((qubit, letter)),
        None => None,
    }
}


/// How many pushes the delicate patterns emit for a row: none when the row
/// already is the target letter on its qubit; one when it is another single
/// letter there; three or five by the length's parity when the row holds
/// its qubit, plus one leading single-qubit push when the letter there
/// already is the target; six when the row misses its qubit.
pub open spec fn spec_delicate_size(string: PauliString, t: int, letter: PauliLetter) -> int {
    if string.slen() == 1 && string.l(t) == letter {
        0
    } else if string.slen() == 1 && string.l(t) != PauliLetter::I {
        1
    } else if string.l(t) != PauliLetter::I {
        let extra: int = if string.l(t) == letter {
            1
        } else {
            0
        };
        if string.slen() % 2 == 0 {
            5 + extra
        } else {
            3 + extra
        }
    } else {
        6
    }
}

/// Builds the delicate push patterns; `None` when the row shape does not
/// fit any pattern.
fn build_delicate(
    string: &PauliString,
    n: usize,
    target_qubit: usize,
    target_letter: PauliLetter,
    usable_qubits: &Vec<usize>,
) -> (r: Option<Vec<PauliString>>)
    requires
        n >= 2,
        target_qubit < BIT_INDEX_LIMIT,
        forall|k: int| 0 <= k < usable_qubits.len() ==> usable_qubits[k] < BIT_INDEX_LIMIT,
        target_letter == PauliLetter::X || target_letter == PauliLetter::Z,
    ensures
        string.slen() == 1 && string.l(target_qubit as int) == target_letter ==> (
        r matches Some(p) && p.len() == 0),
{
    let mut pushing: Vec<PauliString> = Vec::new();
    if string.len() == 1 && string.get(target_qubit) == target_letter {
        return Some(pushing);
    }
    if string.len() == 1 && !matches!(string.get(target_qubit), PauliLetter::I) {
        let letter = if !(target_letter.next() == string.get(target_qubit)) {
            target_letter.next()
        } else {
            target_letter.next().next()
        };
        let mut push = PauliString::id();
        push.set(target_qubit, letter);
        pushing.push(push);
    } else if !matches!(string.get(target_qubit), PauliLetter::I) {
        let mut string = string.duplicate();

        // A single qubit push first, so that the target qubit does not hold
        // the target letter.
        if string.get(target_qubit) == target_letter {
            let mut push = PauliString::id();
            match target_letter {
                PauliLetter::X => {
                    push.set(target_qubit, PauliLetter::Z);
                },
                _ => {
                    push.set(target_qubit, PauliLetter::X);
                },
            }
            string.pi_over_4_sandwitch(false, &push);
            pushing.push(push);
        }
        let old_target = string.get(target_qubit);
        let letters = string.letters();
        let mut other: Vec<(usize, PauliLetter)> = Vec::new();
        let mut li: usize = 0;
        while li < letters.len()
            invariant
                forall|k: int| 0 <= k < letters.len() ==> letters[k].0 < BIT_INDEX_LIMIT,
                forall|k: int| 0 <= k < other.len() ==> other[k].0 < BIT_INDEX_LIMIT,
            decreases letters.len() - li,
        {
            let (q, l) = letters[li];
            if q != target_qubit {
                other.push((q, l));
            }
            li += 1;
        }
        if string.len() % 2 == 0 {
            // Five pushes: outer, outer, inner, outer, outer.
            let mut outer1 = PauliString::id();
            let mut outer2 = PauliString::id();
            let mut inner = PauliString::id();
            let mut oi: usize = 0;
            while oi < other.len()
                invariant
                    forall|k: int| 0 <= k < other.len() ==> other[k].0 < BIT_INDEX_LIMIT,
                decreases other.len() - oi,
            {
                let (qubit, letter) = other[oi];
                outer1.set(qubit, letter);
                outer2.set(qubit, letter);
                inner.set(qubit, letter);
                oi += 1;
            }
            outer1.set(target_qubit, target_letter);
            outer2.set(target_qubit, target_letter);
            if !(old_target.next() == target_letter) {
                inner.set(target_qubit, old_target.next());
            } else {
                inner.set(target_qubit, old_target.next().next());
            }
            let mut ui: usize = 0;
            while ui < usable_qubits.len()
                invariant
                    forall|k: int|
                        0 <= k < usable_qubits.len() ==> usable_qubits[k] < BIT_INDEX_LIMIT,
                decreases usable_qubits.len() - ui,
            {
                if outer1.len() == n {
                    break ;
                }
                let q = usable_qubits[ui];
                if matches!(outer1.get(q), PauliLetter::I) {
                    outer1.set(q, PauliLetter::X);
                    outer2.set(q, PauliLetter::Z);
                    inner.set(q, PauliLetter::Y);
                }
                ui += 1;
            }
            pushing.push(outer1.duplicate());
            pushing.push(outer2.duplicate());
            pushing.push(inner);
            pushing.push(outer2);
            pushing.push(outer1);
        } else {
            // Three pushes: outer, inner, outer.
            let mut outer = PauliString::id();
            let mut inner = PauliString::id();
            let mut oi: usize = 0;
            while oi < other.len()
                invariant
                    forall|k: int| 0 <= k < other.len() ==> other[k].0 < BIT_INDEX_LIMIT,
                decreases other.len() - oi,
            {
                let (qubit, letter) = other[oi];
                outer.set(qubit, letter.next());
                inner.set(qubit, letter.next().next());
                oi += 1;
            }
            outer.set(target_qubit, target_letter);
            inner.set(target_qubit, old_target);
            let mut ui: usize = 0;
            while ui < usable_qubits.len()
                invariant
                    forall|k: int|
                        0 <= k < usable_qubits.len() ==> usable_qubits[k] < BIT_INDEX_LIMIT,
                decreases usable_qubits.len() - ui,
            {
                if outer.len() == n {
                    break ;
                }
                let q = usable_qubits[ui];
                if matches!(outer.get(q), PauliLetter::I) {
                    outer.set(q, PauliLetter::Y);
                    inner.set(q, PauliLetter::Y);
                }
                ui += 1;
            }
            pushing.push(outer.duplicate());
            pushing.push(inner);
            pushing.push(outer);
        }
    } else {
        // The target qubit is free: six-push patterns.
        let other = string.letters();
        if other.len() == 0 {
            return None;
        }
        if string.len() % 2 == 0 {
            let mut outer1 = PauliString::id();
            let mut outer2 = PauliString::id();
            let mut inner1 = PauliString::id();
            let mut inner2 = PauliString::id();
            let (first_qubit, first_letter) = other[0];
            outer1.set(first_qubit, first_letter.next());
            outer2.set(first_qubit, first_letter.next().next());
            inner1.set(first_qubit, first_letter);
            inner2.set(first_qubit, first_letter.next().next());
            let mut oi: usize = 1;
            while oi < other.len()
                invariant
                    forall|k: int| 0 <= k < other.len() ==> other[k].0 < BIT_INDEX_LIMIT,
                decreases other.len() - oi,
            {
                let (qubit, letter) = other[oi];
                outer1.set(qubit, letter.next());
                outer2.set(qubit, letter.next().next());
                inner1.set(qubit, letter.next().next());
                inner2.set(qubit, letter);
                oi += 1;
            }
            outer1.set(target_qubit, target_letter);
            inner1.set(target_qubit, target_letter);
            if target_letter == PauliLetter::X {
                outer2.set(target_qubit, PauliLetter::Z);
                inner2.set(target_qubit, PauliLetter::Z);
            } else {
                outer2.set(target_qubit, PauliLetter::X);
                inner2.set(target_qubit, PauliLetter::X);
            }
            let mut ui: usize = 0;
            while ui < usable_qubits.len()
                invariant
                    forall|k: int|
                        0 <= k < usable_qubits.len() ==> usable_qubits[k] < BIT_INDEX_LIMIT,
                decreases usable_qubits.len() - ui,
            {
                if outer1.len() == n {
                    break ;
                }
                let q = usable_qubits[ui];
                if matches!(outer1.get(q), PauliLetter::I) {
                    outer1.set(q, PauliLetter::Y);
                    outer2.set(q, PauliLetter::X);
                    inner1.set(q, PauliLetter::Z);
                    inner2.set(q, PauliLetter::Y);
                }
                ui += 1;
            }
            pushing.push(outer1.duplicate());
            pushing.push(outer2.duplicate());
            pushing.push(inner1);
            pushing.push(inner2);
            pushing.push(outer2);
            pushing.push(outer1);
        } else {
            let mut outer1 = PauliString::id();
            let mut outer2 = PauliString::id();
            let mut inner1 = PauliString::id();
            let mut inner2 = PauliString::id();
            let mut oi: usize = 0;
            while oi < other.len()
                invariant
                    forall|k: int| 0 <= k < other.len() ==> other[k].0 < BIT_INDEX_LIMIT,
                decreases other.len() - oi,
            {
                let (qubit, letter) = other[oi];
                outer1.set(qubit, letter.next());
                outer2.set(qubit, letter.next().next());
                inner1.set(qubit, letter.next().next());
                inner2.set(qubit, letter.next());
                oi += 1;
            }
            outer1.set(target_qubit, PauliLetter::Y);
            outer2.set(target_qubit, PauliLetter::Y);
            if target_letter == PauliLetter::X {
                inner1.set(target_qubit, PauliLetter::Z);
            } else {
                inner1.set(target_qubit, PauliLetter::X);
            }
            inner2.set(target_qubit, PauliLetter::Y);
            let mut ui: usize = 0;
            while ui < usable_qubits.len()
                invariant
                    forall|k: int|
                        0 <= k < usable_qubits.len() ==> usable_qubits[k] < BIT_INDEX_LIMIT,
                decreases usable_qubits.len() - ui,
            {
                if outer1.len() == n {
                    break ;
                }
                let q = usable_qubits[ui];
                if matches!(outer1.get(q), PauliLetter::I) {
                    outer1.set(q, PauliLetter::X);
                    outer2.set(q, PauliLetter::Z);
                    inner1.set(q, PauliLetter::Y);
                    inner2.set(q, PauliLetter::Y);
                }
                ui += 1;
            }
            pushing.push(outer1.duplicate());
            pushing.push(outer2.duplicate());
            pushing.push(inner1);
            pushing.push(inner2);
            pushing.push(outer2);
            pushing.push(outer1);
        }
    }
    Some(pushing)
}

/// Reduces the row to the single `target_letter` at `target_qubit` with
/// short push patterns that stay inside the usable qubits and leave every
/// already-solved row alone. A run whose pushes would not do that returns
/// `None`.
pub fn delicate_solver(
    string: &PauliString,
    gate_size: NonZeroEvenUsize,
    target_qubit: usize,
    target_letter: PauliLetter,
    usable_qubits: Option<&Vec<usize>>,
) -> (r: Option<Vec<PauliString>>)
    requires
        target_qubit < BIT_INDEX_LIMIT,
        gate_size.as_int() <= BIT_INDEX_LIMIT,
        target_letter == PauliLetter::X || target_letter == PauliLetter::Z,
        match usable_qubits {
            Some(u) => forall|k: int| 0 <= k < u.len() ==> u[k] < BIT_INDEX_LIMIT,
            None => true,
        },
    ensures
        match r {
            Some(pushes) => solved_by(
                *string,
                pushes@,
                target_qubit as int,
                target_letter,
                gate_size.as_int(),
            ),
            None => true,
        },
        string.slen() == 1 && string.l(target_qubit as int) == target_letter ==> (
        r matches Some(p) && p.len() == 0),
        (match r {
            Some(p) => p.len() == 0,
            None => false,
        }) ==> string.slen() == 1 && string.l(target_qubit as int) == target_letter,
        match r {
            Some(pushes) => forall|k: int|
                0 <= k < pushes.len() ==> (match usable_qubits {
                    Some(u) => push_confined(
                        #[trigger] pushes[k],
                        *string,
                        u@,
                        target_qubit as int,
                    ),
                    None => forall|q: int|
                        0 <= q && (#[trigger] pushes[k]).l(q) != PauliLetter::I ==> q
                            == target_qubit || string.l(q) != PauliLetter::I || q
                            < gate_size.as_int(),
                }),
            None => true,
        },
        match r {
            Some(pushes) => pushes.len() == spec_delicate_size(
                *string,
                target_qubit as int,
                target_letter,
            ),
            None => true,
        },
{
    let n = gate_size.as_value();
    let mut range: Vec<usize> = Vec::new();
    let usable: &Vec<usize> = match usable_qubits {
        Some(u) => u,
        None => {
            let mut i: usize = 0;
            while i < n
                invariant
                    i <= n,
                    n <= BIT_INDEX_LIMIT,
                    range.len() == i,
                    forall|k: int| 0 <= k < range.len() ==> range@[k] == k,
                    forall|k: int| 0 <= k < range.len() ==> range[k] < BIT_INDEX_LIMIT,
                decreases n - i,
            {
                range.push(i);
                i += 1;
            }
            &range
        },
    };
    let expected: usize = {
        let len = string.len();
        let lt = string.get(target_qubit);
        if len == 1 && lt == target_letter {
            0
        } else if len == 1 && !matches!(lt, PauliLetter::I) {
            1
        } else if !matches!(lt, PauliLetter::I) {
            let extra: usize = if lt == target_letter {
                1
            } else {
                0
            };
            if len % 2 == 0 {
                5 + extra
            } else {
                3 + extra
            }
        } else {
            6
        }
    };
    match build_delicate(string, n, target_qubit, target_letter, usable) {
        Some(pushes) => {
            if pushes.len() != expected {
                return None;
            }
            if !check_confined(&pushes, string, usable, target_qubit, QubitProtection::Free) {
                return None;
            }
            if apply_and_check(string, &pushes, n, target_qubit, target_letter) {
                proof {
                    if pushes@.len() == 0 {
                        lemma_solved_empty(
                            *string,
                            pushes@,
                            target_qubit as int,
                            target_letter,
                            n as int,
                        );
                    }
                    if usable_qubits is None {
                        assert forall|k: int|
                            0 <= k < pushes.len() implies (forall|q: int|
                            0 <= q && (#[trigger] pushes[k]).l(q) != PauliLetter::I ==> q
                                == target_qubit || string.l(q) != PauliLetter::I || q
                                < n as int) by {
                            assert(push_confined(pushes[k], *string, range@, target_qubit as int));
                            assert forall|q: int|
                                0 <= q && pushes[k].l(q) != PauliLetter::I implies q
                                == target_qubit || string.l(q) != PauliLetter::I || q
                                < n as int by {
                                if q != target_qubit && string.l(q) == PauliLetter::I {
                                    assert(list_has(range@, q));
                                    let m = choose|m: int|
                                        0 <= m < range@.len() && range@[m] == q;
                                }
                            }
                        }
                    }
                }
                Some(pushes)
            } else {
                None
            }
        },
        None => None,
    }
}

/// A run with no pushes can only succeed on a row that already is the
/// requested single letter.
proof fn lemma_solved_empty(
    start: PauliString,
    pushes: Seq<PauliString>,
    e: int,
    target: PauliLetter,
    n: int,
)
    requires
        solved_by(start, pushes, e, target, n),
        pushes.len() == 0,
        target != PauliLetter::I,
    ensures
        start.slen() == 1,
        start.l(e) == target,
{
    let trace = choose|trace: Seq<PauliString>|
        push_trace(start, pushes, trace) && (forall|q: int|
            trace.last().l(q) == (if q == e {
                target
            } else {
                PauliLetter::I
            }));
    assert(trace.last() == trace[0]);
    assert forall|q: int| start.l(q) == (if q == e {
        target
    } else {
        PauliLetter::I
    }) by {
        assert(trace[0].l(q) == start.l(q));
    }
    crate::pauli_string::lemma_single_letter_slen(start, e);
}

} // verus!
