//! The greedy synthesizer: rewrites an ordered list of Pauli exponentials
//! into single-qubit rotations and Clifford rotations of exactly the operator
//! size, together with the Clifford remainder that undoes the introduced
//! pushes.

use vstd::prelude::*;

use crate::bits::BIT_INDEX_LIMIT;
use crate::clifford_tableau::CliffordTableau;
use crate::connectivity::{Connectivity, RoutingInstruction, RoutingInstructionTarget};
use crate::misc::NonZeroEvenUsize;
use crate::pauli::{CliffordPauliAngle, PauliAngle, PauliLetter};
use crate::pauli_exp::PauliExp;
use crate::pauli_string::{
    PauliString, equiv, inner_steps_to_len_one, push_trace, sandwiched, spec_steps_to_len_one,
};

verus! {

/// How many of the listed qubits hold a non-identity letter of `s`,
/// counted over the first `k` list entries.
pub open spec fn spec_count_on(s: PauliString, qubits: Seq<usize>, k: int) -> nat
    decreases k,
{
    if k <= 0 {
        0
    } else {
        spec_count_on(s, qubits, k - 1) + (if s.l(qubits[k - 1] as int) != PauliLetter::I {
            1nat
        } else {
            0nat
        })
    }
}

/// Whether the instruction's target holds no letter of `s`: never for a
/// free target, otherwise every named target qubit reads I.
pub open spec fn spec_target_empty(s: PauliString, target: RoutingInstructionTarget) -> bool {
    match target {
        RoutingInstructionTarget::Any => false,
        RoutingInstructionTarget::Single(t) => s.l(t as int) == PauliLetter::I,
        RoutingInstructionTarget::Multiple(ts) => forall|j: int|
            0 <= j < ts.len() ==> s.l((#[trigger] ts[j]) as int) == PauliLetter::I,
    }
}

/// The pushes one routing instruction costs: the step count of the letters
/// inside its edge, plus a detour of two when the target is empty and the
/// length sits on the operator-size grid.
pub open spec fn spec_steps_to_solve_instruction(
    s: PauliString,
    instr: RoutingInstruction,
    n: int,
) -> int {
    let len = spec_count_on(s, instr.qubits@, instr.qubits@.len() as int) as int;
    let basic = spec_steps_to_len_one(len, n);
    let grid = s.slen() >= n && (s.slen() - n) % (n - 1) == 0;
    let adj: int = if spec_target_empty(s, instr.target) && (len == 1 || grid) {
        2
    } else {
        0
    };
    if basic + adj > usize::MAX {
        usize::MAX as int
    } else {
        basic + adj
    }
}

/// The letter of the walk state after an instruction: the instruction's
/// landing qubit reads X, the rest of its edge reads I, and every other
/// qubit keeps its letter.
pub open spec fn walk_letter(pre: PauliString, instr: RoutingInstruction, q: int) -> PauliLetter {
    if (match instr.target {
        RoutingInstructionTarget::Single(t) => t < BIT_INDEX_LIMIT && q == t,
        RoutingInstructionTarget::Multiple(ts) => ts.len() > 0 && ts[0] < BIT_INDEX_LIMIT && q
            == ts[0],
        RoutingInstructionTarget::Any => instr.qubits.len() > 0 && q == instr.qubits[0],
    }) {
        PauliLetter::X
    } else if list_has(instr.qubits@, q) {
        PauliLetter::I
    } else {
        pre.l(q)
    }
}

/// One step of the cost walk: the next state reads `walk_letter` of the
/// previous state everywhere.
pub open spec fn walk_next(pre: PauliString, instr: RoutingInstruction, post: PauliString) -> bool {
    forall|q: int| post.l(q) == walk_letter(pre, instr, q)
}

/// The sum of the first `k` counts, capped at the machine's largest value
/// as each count is added.
pub open spec fn spec_sum_sat(counts: Seq<nat>, k: int) -> nat
    decreases k,
{
    if k <= 0 {
        0
    } else {
        let rest = spec_sum_sat(counts, k - 1);
        if rest + counts[k - 1] > usize::MAX {
            usize::MAX as nat
        } else {
            (rest + counts[k - 1]) as nat
        }
    }
}

/// Two count lists that agree on their first `k` entries sum alike there.
proof fn lemma_sum_sat_prefix(a: Seq<nat>, b: Seq<nat>, k: int)
    requires
        0 <= k,
        k <= a.len(),
        k <= b.len(),
        forall|i: int| 0 <= i < k ==> a[i] == b[i],
    ensures
        spec_sum_sat(a, k) == spec_sum_sat(b, k),
    decreases k,
{
    if k > 0 {
        lemma_sum_sat_prefix(a, b, k - 1);
    }
}

/// A cost walk: a chain of states from `start`, each instruction charged
/// at the state it meets and then folded into its landing qubit, with `r`
/// the capped sum of the charges.
pub open spec fn walk_trace_ok(
    start: PauliString,
    instrs: Seq<RoutingInstruction>,
    n: int,
    ss: Seq<PauliString>,
    counts: Seq<nat>,
    r: nat,
) -> bool {
    &&& ss.len() == instrs.len() + 1
    &&& counts.len() == instrs.len()
    &&& equiv(ss[0], start)
    &&& forall|k: int|
        0 <= k < instrs.len() ==> (#[trigger] counts[k]) == spec_steps_to_solve_instruction(
            ss[k],
            instrs[k],
            n,
        )
    &&& forall|k: int| 0 <= k < instrs.len() ==> walk_next(ss[k], #[trigger] instrs[k], ss[k + 1])
    &&& r == spec_sum_sat(counts, counts.len() as int)
}

/// Whether `r` is the cost of some walk of the instructions from `start`.
pub open spec fn walk_cost(
    start: PauliString,
    instrs: Seq<RoutingInstruction>,
    n: int,
    r: nat,
) -> bool {
    exists|ss: Seq<PauliString>, counts: Seq<nat>|
        #[trigger] walk_trace_ok(start, instrs, n, ss, counts, r)
}

impl PauliString {
    /// The pushes needed to solve this string against one routing
    /// instruction: the step count of its letters inside the edge, plus a
    /// detour when the instruction's target is empty and the length sits on
    /// the operator-size grid.
    #[verifier::loop_isolation(false)]
    pub fn steps_to_solve_instruction(
        &self,
        gate_size: NonZeroEvenUsize,
        instruction: &RoutingInstruction,
    ) -> (r: usize)
        ensures
            r == spec_steps_to_solve_instruction(*self, *instruction, gate_size.as_int()),
    {
        let n = gate_size.as_value();
        let mut len: usize = 0;
        let mut k: usize = 0;
        while k < instruction.qubits.len()
            invariant
                len <= k,
                k <= instruction.qubits.len(),
                len == spec_count_on(*self, instruction.qubits@, k as int),
            decreases instruction.qubits.len() - k,
        {
            if !matches!(self.get(instruction.qubits[k]), PauliLetter::I) {
                len += 1;
            }
            k += 1;
        }
        let basic_steps = inner_steps_to_len_one(len, n);
        let target_is_empty = match &instruction.target {
            RoutingInstructionTarget::Any => false,
            RoutingInstructionTarget::Single(target) => matches!(
                self.get(*target),
                PauliLetter::I
            ),
            RoutingInstructionTarget::Multiple(targets) => {
                let mut res = true;
                let mut m: usize = 0;
                while m < targets.len() && res
                    invariant
                        m <= targets.len(),
                        res ==> forall|j: int|
                            0 <= j < m ==> self.l((#[trigger] targets@[j]) as int)
                                == PauliLetter::I,
                        !res ==> exists|j: int|
                            0 <= j < targets.len() && self.l((#[trigger] targets@[j]) as int)
                                != PauliLetter::I,
                    decreases targets.len() - m, (if res {
                        1int
                    } else {
                        0int
                    }),
                {
                    if !matches!(self.get(targets[m]), PauliLetter::I) {
                        proof {
                            assert(self.l(targets@[m as int] as int) != PauliLetter::I);
                        }
                        res = false;
                    } else {
                        m += 1;
                    }
                }
                proof {
                    assert(res == spec_target_empty(*self, instruction.target));
                }
                res
            },
        };
        let own_len = self.len();
        let grid = own_len >= n && (own_len - n) % (n - 1) == 0;
        let adjustment: usize = if target_is_empty && (len == 1 || grid) {
            2
        } else {
            0
        };
        match basic_steps.checked_add(adjustment) {
            Some(v) => v,
            None => usize::MAX,
        }
    }

    /// The total pushes needed to walk a whole routing path: the costs of
    /// the instructions in order, on a copy whose solved edges are cleared
    /// as the walk proceeds.
    pub fn steps_to_solve_instructions(
        &self,
        gate_size: NonZeroEvenUsize,
        instructions: &Vec<RoutingInstruction>,
    ) -> (r: usize)
        requires
            forall|k: int, m: int|
                0 <= k < instructions.len() && 0 <= m < (#[trigger] instructions[k]).qubits.len()
                    ==> (#[trigger] instructions[k].qubits[m]) < BIT_INDEX_LIMIT,
        ensures
            instructions.len() == 0 ==> r == 0,
            walk_cost(*self, instructions@, gate_size.as_int(), r as nat),
    {
        let mut clone = self.duplicate();
        let ghost mut ss: Seq<PauliString> = Seq::empty().push(clone);
        let ghost mut counts: Seq<nat> = Seq::empty();
        let mut total: usize = 0;
        let mut k: usize = 0;
        while k < instructions.len()
            invariant
                instructions.len() == 0 ==> total == 0,
                forall|k2: int, m: int|
                    0 <= k2 < instructions.len() && 0 <= m
                        < (#[trigger] instructions[k2]).qubits.len()
                        ==> (#[trigger] instructions[k2].qubits[m]) < BIT_INDEX_LIMIT,
                k <= instructions.len(),
                ss.len() == k + 1,
                counts.len() == k as int,
                ss.last() == clone,
                equiv(ss[0], *self),
                forall|k2: int|
                    0 <= k2 < k ==> (#[trigger] counts[k2]) == spec_steps_to_solve_instruction(
                        ss[k2],
                        instructions@[k2],
                        gate_size.as_int(),
                    ),
                forall|k2: int|
                    0 <= k2 < k ==> walk_next(ss[k2], #[trigger] instructions@[k2], ss[k2 + 1]),
                total as nat == spec_sum_sat(counts, k as int),
            decreases instructions.len() - k,
        {
            let instruction = &instructions[k];
            let steps = clone.steps_to_solve_instruction(gate_size, instruction);
            let ghost pre = clone;
            proof {
                let ghost counts0 = counts;
                counts = counts.push(steps as nat);
                lemma_sum_sat_prefix(counts0, counts, k as int);
            }
            total = match total.checked_add(steps) {
                Some(v) => v,
                None => usize::MAX,
            };
            proof {
                assert(total as nat == spec_sum_sat(counts, k + 1));
            }
            let mut m: usize = 0;
            while m < instruction.qubits.len()
                invariant
                    k < instructions.len(),
                    instruction == &instructions[k as int],
                    m <= instruction.qubits.len(),
                    forall|m2: int|
                        0 <= m2 < instruction.qubits.len()
                            ==> (#[trigger] instruction.qubits[m2]) < BIT_INDEX_LIMIT,
                    forall|q: int|
                        !list_has(instruction.qubits@.subrange(0, m as int), q) ==> clone.l(q)
                            == pre.l(q),
                    forall|m2: int|
                        0 <= m2 < m ==> clone.l(
                            (#[trigger] instruction.qubits@[m2]) as int,
                        ) == PauliLetter::I,
                decreases instruction.qubits.len() - m,
            {
                let ghost cpre = clone;
                clone.set(instruction.qubits[m], PauliLetter::I);
                proof {
                    assert forall|q: int|
                        !list_has(
                            instruction.qubits@.subrange(0, m + 1),
                            q,
                        ) implies clone.l(q) == pre.l(q) by {
                        assert(instruction.qubits@.subrange(0, m + 1)[m as int]
                            == instruction.qubits@[m as int]);
                        assert(q != instruction.qubits@[m as int] as int);
                        assert(!list_has(instruction.qubits@.subrange(0, m as int), q)) by {
                            if list_has(instruction.qubits@.subrange(0, m as int), q) {
                                let j = choose|j: int|
                                    0 <= j < m && instruction.qubits@.subrange(0, m as int)[j]
                                        == q;
                                assert(instruction.qubits@.subrange(0, m + 1)[j] == q);
                            }
                        }
                        assert(clone.l(q) == cpre.l(q));
                    }
                }
                m += 1;
            }
            proof {
                assert(instruction.qubits@.subrange(0, instruction.qubits@.len() as int)
                    =~= instruction.qubits@);
            }
            let ghost mid = clone;
            match &instruction.target {
                RoutingInstructionTarget::Single(target) => {
                    if *target < BIT_INDEX_LIMIT {
                        clone.set(*target, PauliLetter::X);
                    }
                },
                RoutingInstructionTarget::Multiple(targets) => {
                    if targets.len() > 0 && targets[0] < BIT_INDEX_LIMIT {
                        clone.set(targets[0], PauliLetter::X);
                    }
                },
                RoutingInstructionTarget::Any => {
                    if instruction.qubits.len() > 0 {
                        clone.set(instruction.qubits[0], PauliLetter::X);
                    }
                },
            }
            proof {
                assert forall|q: int| clone.l(q) == walk_letter(
                    pre,
                    instructions@[k as int],
                    q,
                ) by {
                    if list_has(instruction.qubits@, q) {
                        let j = choose|j: int|
                            0 <= j < instruction.qubits@.len() && instruction.qubits@[j] == q;
                        assert(mid.l(instruction.qubits@[j] as int) == PauliLetter::I);
                    }
                }
                assert(walk_next(pre, instructions@[k as int], clone));
                ss = ss.push(clone);
            }
            k += 1;
        }
        proof {
            assert(walk_trace_ok(
                *self,
                instructions@,
                gate_size.as_int(),
                ss,
                counts,
                total as nat,
            ));
        }
        total
    }
}

/// Whether the hyperedge at `e` holds the qubit `q`.
pub open spec fn edge_has_qubit(c: Connectivity, e: int, q: int) -> bool {
    exists|m: int|
        0 <= m < c.hypergraph.edges[e].nodes.len() && (#[trigger] c.hypergraph.edges[e].nodes[m])
            == q
}

/// Whether the hyperedge at `e` holds the whole support of the string.
pub open spec fn edge_covers(c: Connectivity, e: int, s: PauliString) -> bool {
    forall|q: int| 0 <= q && (#[trigger] s.l(q)) != PauliLetter::I ==> edge_has_qubit(c, e, q)
}

/// Whether some hyperedge of the connectivity holds the whole support of
/// the string.
pub open spec fn string_supported(c: Connectivity, s: PauliString) -> bool {
    exists|e: int| 0 <= e < c.hypergraph.edges.len() && #[trigger] edge_covers(c, e, s)
}

/// Checks at run time that the support of the string sits inside one
/// hyperedge.
pub(crate) fn check_supported(c: &Connectivity, s: &PauliString) -> (r: bool)
    requires
        c.wf(),
    ensures
        r ==> string_supported(*c, *s),
{
    let tv = s.targets();
    let ok = c.supports_operation_on(&tv);
    if !ok {
        return false;
    }
    if tv.len() == 0 {
        // An empty support sits inside any edge, as long as one exists.
        if c.hypergraph.edges.len() == 0 {
            return false;
        }
        proof {
            assert forall|q: int| 0 <= q && (#[trigger] s.l(q)) != PauliLetter::I
                implies edge_has_qubit(*c, 0, q) by {
                let k = choose|k: int| 0 <= k < tv.len() && tv[k] == q;
            }
            assert(edge_covers(*c, 0, *s));
            assert(string_supported(*c, *s));
        }
        return true;
    }
    proof {
        let e = choose|e: int|
            0 <= e < c.hypergraph.edges.len() && crate::connectivity::spec_edge_contains_all(
                c.hypergraph,
                e,
                tv@,
            );
        assert forall|q: int| 0 <= q && (#[trigger] s.l(q)) != PauliLetter::I
            implies edge_has_qubit(*c, e, q) by {
            let k = choose|k: int| 0 <= k < tv@.len() && tv@[k] == q;
            assert(c.hypergraph.edges[e].nodes@.contains(tv@[k]));
            let m = choose|m: int|
                0 <= m < c.hypergraph.edges[e].nodes@.len() && c.hypergraph.edges[e].nodes@[m]
                    == tv@[k];
            assert(c.hypergraph.edges[e].nodes[m] == q);
        }
        assert(edge_covers(*c, e, *s));
        assert(string_supported(*c, *s));
    }
    true
}

/// Builds one push string for the full-connectivity reduction of `exp`:
/// length `n` exactly, anticommuting with the string in the right places.
/// `None` when the construction reaches a state it cannot handle.
fn build_push_full(string: &PauliString, n: usize) -> (r: Option<PauliString>)
    requires
        n >= 2,
        n <= BIT_INDEX_LIMIT,
    ensures
        match r {
            Some(p) => p.slen() == n,
            None => true,
        },
{
    let len = string.len();
    let push_str: PauliString;
    if len == n {
        // One letter anticommutes, the rest cancel each other out.
        let mut p = string.duplicate();
        let letters = p.letters();
        if letters.len() == 0 {
            return None;
        }
        let (i, l) = letters[0];
        p.set(i, l.next());
        push_str = p;
    } else if len % 2 == 1 && len < 2 * n {
        if len < n {
            // Too few letters: anticommute on all of them, then pad with X
            // up to the operator size.
            let mut p = string.duplicate();
            let letters = p.letters();
            let mut k: usize = 0;
            while k < letters.len()
                invariant
                    forall|j: int| 0 <= j < letters.len() ==> (#[trigger] letters[j]).0
                        < BIT_INDEX_LIMIT,
                decreases letters.len() - k,
            {
                let (i, m) = letters[k];
                p.set(i, m.next());
                k += 1;
            }
            let mut i: usize = 0;
            while i < n
                invariant
                    n <= BIT_INDEX_LIMIT,
                decreases n - i,
            {
                if matches!(p.get(i), PauliLetter::I) {
                    p.set(i, PauliLetter::X);
                    if p.len() == n {
                        break ;
                    }
                }
                i += 1;
            }
            push_str = p;
        } else {
            // Too many letters: keep the first `2n - len` anticommuting,
            // drop the rest of the first `n`.
            let letters_all = string.letters();
            let mut letters: Vec<(usize, PauliLetter)> = Vec::new();
            let mut k: usize = 0;
            while k < letters_all.len()
                invariant
                    forall|j: int| 0 <= j < letters_all.len() ==> (#[trigger] letters_all[j]).0
                        < BIT_INDEX_LIMIT,
                    forall|j: int| 0 <= j < letters.len() ==> (#[trigger] letters[j]).0
                        < BIT_INDEX_LIMIT,
                decreases letters_all.len() - k,
            {
                if letters.len() == n {
                    break ;
                }
                letters.push(letters_all[k]);
                k += 1;
            }
            if 2 * n < len {
                return None;
            }
            let keep = 2 * n - len;
            let mut p = PauliString::id();
            let mut k: usize = 0;
            while k < letters.len()
                invariant
                    forall|j: int| 0 <= j < letters.len() ==> (#[trigger] letters[j]).0
                        < BIT_INDEX_LIMIT,
                decreases letters.len() - k,
            {
                let (i, l) = letters[k];
                if k < keep {
                    p.set(i, l.next());
                } else {
                    p.set(i, l);
                }
                k += 1;
            }
            push_str = p;
        }
    } else {
        // Even length, or at least two gates wide: anticommute on the
        // first letter, cancel on the rest of the first `n`, pad with X if
        // short.
        let letters_all = string.letters();
        let mut p = PauliString::id();
        let mut k: usize = 0;
        while k < letters_all.len()
            invariant
                forall|j: int| 0 <= j < letters_all.len() ==> (#[trigger] letters_all[j]).0
                    < BIT_INDEX_LIMIT,
            decreases letters_all.len() - k,
        {
            if k == n {
                break ;
            }
            let (i, l) = letters_all[k];
            if k == 0 {
                p.set(i, l.next());
            } else {
                p.set(i, l);
            }
            k += 1;
        }
        if letters_all.len() == 0 {
            return None;
        }
        let mut i: usize = 0;
        while i < n
            invariant
                n <= BIT_INDEX_LIMIT,
            decreases n - i,
        {
            if p.len() >= n {
                break ;
            }
            if matches!(p.get(i), PauliLetter::I) {
                p.set(i, PauliLetter::X);
            }
            i += 1;
        }
        push_str = p;
    }
    if push_str.len() != n {
        return None;
    }
    Some(push_str)
}


/// A remainder entry produced by a push: a gate-size string rotated by
/// minus a quarter turn.
pub open spec fn push_shaped(e: PauliExp<CliffordPauliAngle>, n: int) -> bool {
    e.string.slen() == n && e.angle == CliffordPauliAngle::NegPiOver4
}

/// A circuit entry acts on one qubit or on exactly a gate's worth.
pub open spec fn len_ok(e: PauliExp<PauliAngle>, n: int) -> bool {
    e.string.slen() == 1 || e.string.slen() == n
}

/// Applies one push to every remaining exponential.
fn apply_push_all(rest: &mut Vec<PauliExp<PauliAngle>>, push: &PauliString)
    ensures
        final(rest).len() == old(rest).len(),
{
    let mut updated: Vec<PauliExp<PauliAngle>> = Vec::new();
    let ghost total = old(rest).len();
    while rest.len() > 0
        invariant
            updated.len() + rest.len() == total,
        decreases rest.len(),
    {
        let mut e = rest.remove(0);
        e.push_pi_over_4(false, push);
        updated.push(e);
    }
    let mut k: usize = 0;
    while updated.len() > 0
        invariant
            updated.len() + rest.len() == total,
        decreases updated.len(),
    {
        rest.push(updated.remove(0));
    }
}

/// Whether a remainder entry is one of the input rotations that already
/// carried a Clifford angle, moved over unchanged.
pub open spec fn from_clifford_input(
    e: PauliExp<CliffordPauliAngle>,
    inputs: Seq<PauliExp<PauliAngle>>,
) -> bool {
    exists|i: int|
        0 <= i < inputs.len() && (#[trigger] inputs[i]).string == e.string && inputs[i].angle
            == PauliAngle::Clifford(e.angle)
}

/// Every input is a free-angle rotation on exactly one qubit.
pub open spec fn all_free_singles(inputs: Seq<PauliExp<PauliAngle>>) -> bool {
    forall|i: int|
        0 <= i < inputs.len() ==> !((#[trigger] inputs[i]).angle is Clifford)
            && inputs[i].string.slen() == 1
}

/// The input is one free-angle rotation on at least two qubits.
pub open spec fn one_free_multi(inputs: Seq<PauliExp<PauliAngle>>) -> bool {
    inputs.len() == 1 && !(inputs[0].angle is Clifford) && inputs[0].string.slen() >= 2
}

/// Splits the input: Clifford angles to the remainder, single-qubit
/// exponentials to the circuit, the rest onward. A zero-length exponential
/// with a free angle cannot be synthesized and gives `None`; on every other
/// input the split succeeds.
#[verifier::loop_isolation(false)]
fn prepass(exponentials: Vec<PauliExp<PauliAngle>>) -> (r: Option<
    (Vec<PauliExp<PauliAngle>>, Vec<PauliExp<CliffordPauliAngle>>, Vec<PauliExp<PauliAngle>>),
>)
    ensures
        r is None ==> exists|i: int|
            0 <= i < exponentials.len() && !((#[trigger] exponentials[i]).angle is Clifford)
                && exponentials[i].string.slen() == 0,
        match r {
            Some((circuit, cliff, rest)) => {
                &&& forall|k: int|
                    0 <= k < circuit.len() ==> (#[trigger] circuit[k]).string.slen() == 1
                &&& forall|k: int|
                    0 <= k < cliff.len() ==> from_clifford_input(#[trigger] cliff[k], exponentials@)
                &&& exponentials.len() == 0 ==> circuit.len() == 0 && cliff.len() == 0
                    && rest.len() == 0
                &&& all_free_singles(exponentials@) ==> circuit@ == exponentials@ && cliff.len()
                    == 0 && rest.len() == 0
                &&& one_free_multi(exponentials@) ==> circuit.len() == 0 && cliff.len() == 0
                    && rest@ == exponentials@
            },
            None => true,
        },
{
    let mut exps = exponentials;
    let ghost inputs = exps;
    let mut circuit: Vec<PauliExp<PauliAngle>> = Vec::new();
    let mut cliff: Vec<PauliExp<CliffordPauliAngle>> = Vec::new();
    let mut rest: Vec<PauliExp<PauliAngle>> = Vec::new();
    let ghost mut done: int = 0;
    proof {
        assert(exps@ =~= inputs@.subrange(done, inputs.len() as int));
    }
    while exps.len() > 0
        invariant
            forall|k: int| 0 <= k < circuit.len() ==> (#[trigger] circuit[k]).string.slen() == 1,
            forall|k: int| 0 <= k < cliff.len() ==> from_clifford_input(
                #[trigger] cliff[k],
                inputs@,
            ),
            inputs.len() == 0 ==> circuit.len() == 0 && cliff.len() == 0 && rest.len() == 0,
            all_free_singles(inputs@) ==> circuit@ == inputs@.subrange(0, done) && cliff.len()
                == 0 && rest.len() == 0,
            one_free_multi(inputs@) ==> circuit.len() == 0 && cliff.len() == 0 && rest@
                == inputs@.subrange(0, done),
            0 <= done <= inputs.len(),
            exps@ == inputs@.subrange(done, inputs.len() as int),
        decreases exps.len(),
    {
        let ghost exps_pre = exps;
        let e = exps.remove(0);
        proof {
            assert(e == exps_pre[0]);
            assert(e == inputs[done]);
            assert(exps@ =~= inputs@.subrange(done + 1, inputs.len() as int));
        }
        let ghost my_index = done;
        proof {
            done = done + 1;
        }
        match e.angle {
            PauliAngle::Clifford(c) => {
                let ghost cliff_pre = cliff@;
                let entry = PauliExp { string: e.string, angle: c };
                proof {
                    assert(inputs[my_index].angle == PauliAngle::Clifford(c));
                    assert(inputs[my_index].string == entry.string);
                    assert(from_clifford_input(entry, inputs@));
                }
                cliff.push(entry);
                proof {
                    assert forall|k: int|
                        0 <= k < cliff.len() implies from_clifford_input(
                        #[trigger] cliff[k],
                        inputs@,
                    ) by {
                        if k < cliff_pre.len() {
                            assert(cliff[k] == cliff_pre[k]);
                        } else {
                            assert(cliff[k] == entry);
                        }
                    }
                }
            },
            other => {
                let rebuilt = PauliExp { string: e.string, angle: other };
                proof {
                    assert(rebuilt == inputs[my_index]);
                }
                if rebuilt.len() <= 1 {
                    if rebuilt.len() != 1 {
                        proof {
                            assert(!(inputs[my_index].angle is Clifford));
                            assert(inputs[my_index].string.slen() == 0);
                            assert(exists|i: int|
                                0 <= i < inputs@.len() && !((#[trigger] inputs@[i]).angle
                                    is Clifford) && inputs@[i].string.slen() == 0);
                        }
                        return None;
                    }
                    let ghost circuit_pre = circuit@;
                    circuit.push(rebuilt);
                    proof {
                        if all_free_singles(inputs@) {
                            assert(circuit@ =~= inputs@.subrange(0, done));
                        }
                    }
                } else {
                    let ghost rest_pre = rest@;
                    rest.push(rebuilt);
                    proof {
                        if one_free_multi(inputs@) {
                            assert(rest@ =~= inputs@.subrange(0, done));
                        }
                    }
                }
            },
        }
    }
    proof {
        assert(inputs@.subrange(0, inputs.len() as int) =~= inputs@);
    }
    Some((circuit, cliff, rest))
}

/// Reduces one exponential to a single qubit with operator-size pushes
/// applied to it and to every remaining exponential, appending a quarter
/// turn per push to the circuit and its inverse to the remainder. The
/// number of pushes never exceeds the step bound of the string; a run that
/// would need more is refused.
pub fn reduce_full(
    exp: &mut PauliExp<PauliAngle>,
    rest: &mut Vec<PauliExp<PauliAngle>>,
    gate_size: NonZeroEvenUsize,
    circuit: &mut Vec<PauliExp<PauliAngle>>,
    clifford_part: &mut Vec<PauliExp<CliffordPauliAngle>>,
) -> (r: Option<usize>)
    requires
        gate_size.as_int() <= BIT_INDEX_LIMIT,
    ensures
        match r {
            Some(used) => {
                &&& used <= spec_steps_to_len_one(
                    old(exp).string.slen() as int,
                    gate_size.as_int(),
                )
                &&& final(exp).string.slen() == 1
                &&& final(rest).len() == old(rest).len()
                &&& final(circuit).len() == old(circuit).len() + used
                &&& final(circuit)@.subrange(0, old(circuit)@.len() as int) == old(circuit)@
                &&& forall|k: int|
                    old(circuit).len() <= k < final(circuit).len()
                        ==> (#[trigger] final(circuit)[k]).string.slen() == gate_size.as_int()
                        && final(circuit)[k].angle == PauliAngle::Clifford(
                        CliffordPauliAngle::PiOver4,
                    )
                &&& final(clifford_part).len() == old(clifford_part).len() + used
                &&& final(clifford_part)@.subrange(0, old(clifford_part)@.len() as int) == old(
                    clifford_part,
                )@
                &&& forall|k: int|
                    old(clifford_part).len() <= k < final(clifford_part).len() ==> push_shaped(
                        #[trigger] final(clifford_part)[k],
                        gate_size.as_int(),
                    )
            },
            None => true,
        },
{
    let n = gate_size.as_value();
    let budget = exp.string.steps_to_len_one(gate_size);
    let mut used: usize = 0;
    while exp.len() != 1
        invariant
            n == gate_size.as_int(),
            n >= 2,
            n <= BIT_INDEX_LIMIT,
            used <= budget,
            budget == spec_steps_to_len_one(old(exp).string.slen() as int, n as int),
            rest.len() == old(rest).len(),
            circuit.len() == old(circuit).len() + used,
            forall|k: int| 0 <= k < old(circuit).len() ==> circuit[k] == old(circuit)[k],
            forall|k: int|
                old(circuit).len() <= k < circuit.len() ==> (#[trigger] circuit[k]).string.slen()
                    == n && circuit[k].angle == PauliAngle::Clifford(CliffordPauliAngle::PiOver4),
            clifford_part.len() == old(clifford_part).len() + used,
            forall|k: int|
                0 <= k < old(clifford_part).len() ==> clifford_part[k] == old(clifford_part)[k],
            forall|k: int|
                old(clifford_part).len() <= k < clifford_part.len() ==> push_shaped(
                    #[trigger] clifford_part[k],
                    n as int,
                ),
        decreases budget - used,
    {
        if used >= budget {
            return None;
        }
        proof {
            assert(circuit@.subrange(0, old(circuit)@.len() as int) =~= old(circuit)@);
            assert(clifford_part@.subrange(0, old(clifford_part)@.len() as int) =~= old(
                clifford_part,
            )@);
        }
        let push_str = match build_push_full(&exp.string, n) {
            Some(p) => p,
            None => {
                return None;
            },
        };
        exp.push_pi_over_4(false, &push_str);
        apply_push_all(rest, &push_str);
        let circuit_entry = PauliExp {
            string: push_str.duplicate(),
            angle: PauliAngle::Clifford(CliffordPauliAngle::PiOver4),
        };
        circuit.push(circuit_entry);
        clifford_part.push(PauliExp { string: push_str, angle: CliffordPauliAngle::NegPiOver4 });
        used += 1;
    }
    proof {
        assert(circuit@.subrange(0, old(circuit)@.len() as int) =~= old(circuit)@);
        assert(clifford_part@.subrange(0, old(clifford_part)@.len() as int) =~= old(
            clifford_part,
        )@);
    }
    Some(used)
}


/// Reverses the remainder: entry `j` of the result is entry `len - 1 - j`
/// of the input.
#[verifier::loop_isolation(false)]
fn reverse_remainder(cliff: Vec<PauliExp<CliffordPauliAngle>>) -> (r: Vec<
    PauliExp<CliffordPauliAngle>,
>)
    ensures
        r.len() == cliff.len(),
        forall|j: int| 0 <= j < r.len() ==> #[trigger] r[j] == cliff[cliff.len() - 1 - j],
{
    let ghost dec0 = cliff@;
    let mut cliff = cliff;
    let mut rev: Vec<PauliExp<CliffordPauliAngle>> = Vec::new();
    let ghost total = cliff@.len();
    while cliff.len() > 0
        invariant
            rev@.len() + cliff@.len() == total,
            cliff@ == dec0.subrange(0, cliff@.len() as int),
            forall|j: int| 0 <= j < rev@.len() ==> #[trigger] rev@[j] == dec0[total - 1 - j],
        decreases cliff.len(),
    {
        let ghost dpre = cliff@;
        match cliff.pop() {
            Some(e) => {
                proof {
                    assert(e == dpre.last());
                    assert(dpre == dec0.subrange(0, dpre.len() as int));
                    assert(e == dec0[dpre.len() - 1]);
                    assert(cliff@ =~= dec0.subrange(0, cliff@.len() as int));
                }
                rev.push(e);
            },
            None => {
            },
        }
    }
    rev
}

/// The synthesizer without a connectivity: repeatedly pick the exponential
/// with the fewest remaining steps and reduce it with operator-size pushes.
#[verifier::loop_isolation(false)]
fn synthesize_full(
    exponentials: Vec<PauliExp<PauliAngle>>,
    gate_size: NonZeroEvenUsize,
) -> (r: Option<(Vec<PauliExp<PauliAngle>>, Vec<PauliExp<CliffordPauliAngle>>)>)
    requires
        gate_size.as_int() <= BIT_INDEX_LIMIT,
    ensures
        match r {
            Some((circuit, remainder)) => {
                &&& forall|k: int|
                    0 <= k < circuit.len() ==> len_ok(#[trigger] circuit[k], gate_size.as_int())
                &&& forall|j: int|
                    0 <= j < remainder.len() ==> push_shaped(
                        #[trigger] remainder[j],
                        gate_size.as_int(),
                    ) || from_clifford_input(remainder[j], exponentials@)
                &&& exponentials.len() == 0 ==> circuit.len() == 0 && remainder.len() == 0
                &&& all_free_singles(exponentials@) ==> circuit@ == exponentials@
                    && remainder.len() == 0
                &&& one_free_multi(exponentials@) ==> remainder.len() <= spec_steps_to_len_one(
                    exponentials@[0].string.slen() as int,
                    gate_size.as_int(),
                )
            },
            None => true,
        },
        all_free_singles(exponentials@) ==> r is Some,
        exponentials.len() == 0 ==> r is Some,
{
    let n = gate_size.as_value();
    let ghost inputs = exponentials;
    let (mut circuit, mut clifford_part, mut rest) = match prepass(exponentials) {
        Some(t) => t,
        None => {
            proof {
                assert(!all_free_singles(inputs@));
            }
            return None;
        },
    };
    let ghost cpre = clifford_part.len() as int;
    while rest.len() > 0
        invariant
            n == gate_size.as_int(),
            n >= 2,
            n <= BIT_INDEX_LIMIT,
            forall|k: int| 0 <= k < circuit.len() ==> len_ok(#[trigger] circuit[k], n as int),
            0 <= cpre <= clifford_part.len(),
            forall|j: int|
                cpre <= j < clifford_part.len() ==> push_shaped(
                    #[trigger] clifford_part[j],
                    n as int,
                ),
            forall|j: int|
                0 <= j < cpre ==> from_clifford_input(#[trigger] clifford_part[j], inputs@),
            inputs.len() == 0 ==> circuit.len() == 0 && clifford_part.len() == 0 && rest.len()
                == 0,
            all_free_singles(inputs@) ==> circuit@ == inputs@ && clifford_part.len() == 0
                && rest.len() == 0,
            one_free_multi(inputs@) ==> (rest@ == inputs@ && clifford_part.len() == 0) || (
            rest.len() == 0 && clifford_part.len() <= spec_steps_to_len_one(
                inputs@[0].string.slen() as int,
                n as int,
            )),
        decreases rest.len(),
    {
        // The fastest one to solve.
        let mut index: usize = 0;
        let mut best = rest[0].string.steps_to_len_one(gate_size);
        let mut i: usize = 1;
        while i < rest.len()
            invariant
                index < rest.len(),
                rest.len() > 0,
            decreases rest.len() - i,
        {
            let steps = rest[i].string.steps_to_len_one(gate_size);
            if steps < best {
                best = steps;
                index = i;
            }
            i += 1;
        }
        let mut exp = rest.remove(index);
        let ghost exp0 = exp;
        let ghost cp_old = clifford_part@;
        let ghost ci_old = circuit@;
        proof {
            assert(forall|j: int|
                cpre <= j < cp_old.len() ==> push_shaped(#[trigger] cp_old[j], n as int));
            assert(forall|j: int|
                0 <= j < cpre ==> from_clifford_input(#[trigger] cp_old[j], inputs@));
            assert(forall|k: int| 0 <= k < ci_old.len() ==> len_ok(#[trigger] ci_old[k], n as int));
        }
        let reduce_result = reduce_full(
            &mut exp,
            &mut rest,
            gate_size,
            &mut circuit,
            &mut clifford_part,
        );
        if reduce_result.is_none() {
            return None;
        }
        proof {
            assert(clifford_part@.subrange(0, cp_old.len() as int) == cp_old);
            assert(circuit@.subrange(0, ci_old.len() as int) == ci_old);
            assert forall|j: int|
                cpre <= j < clifford_part.len() implies push_shaped(
                #[trigger] clifford_part[j],
                n as int,
            ) by {
                if j < cp_old.len() {
                    assert(clifford_part@[j] == clifford_part@.subrange(0, cp_old.len() as int)[j]);
                }
            }
            assert forall|j: int|
                0 <= j < cpre implies from_clifford_input(
                #[trigger] clifford_part[j],
                inputs@,
            ) by {
                assert(clifford_part@[j] == clifford_part@.subrange(0, cp_old.len() as int)[j]);
            }
            assert forall|k: int|
                0 <= k < circuit.len() implies len_ok(#[trigger] circuit[k], n as int) by {
                if k < ci_old.len() {
                    assert(circuit@[k] == circuit@.subrange(0, ci_old.len() as int)[k]);
                }
            }
            if one_free_multi(inputs@) {
                assert(exp0 == inputs@[0]);
            }
        }
        circuit.push(exp);
    }
    let ghost cl_final = clifford_part@;
    let rev = reverse_remainder(clifford_part);
    proof {
        assert forall|j: int|
            0 <= j < rev.len() implies push_shaped(#[trigger] rev[j], n as int)
            || from_clifford_input(rev[j], inputs@) by {
            assert(rev[j] == cl_final[cl_final.len() - 1 - j]);
        }
    }
    Some((circuit, rev))
}

/// Whether the list holds the value.
pub open spec fn list_has(s: Seq<usize>, q: int) -> bool {
    exists|m: int| 0 <= m < s.len() && s[m] == q
}

/// Whether the vector holds the value.
pub(crate) fn vec_contains(v: &Vec<usize>, x: usize) -> (r: bool)
    ensures
        r == list_has(v@, x as int),
{
    let mut k: usize = 0;
    while k < v.len()
        invariant
            forall|j: int| 0 <= j < k ==> v@[j] != x,
        decreases v.len() - k,
    {
        if v[k] == x {
            return true;
        }
        k += 1;
    }
    false
}

/// Every letter of the push sits on the instruction's qubits or on its
/// stated target.
pub open spec fn instr_covers(instr: RoutingInstruction, p: PauliString) -> bool {
    forall|q: int|
        0 <= q && (#[trigger] p.l(q)) != PauliLetter::I ==> list_has(instr.qubits@, q) || (
        match instr.target {
            RoutingInstructionTarget::Single(t) => q == t,
            RoutingInstructionTarget::Multiple(ts) => list_has(ts@, q),
            RoutingInstructionTarget::Any => false,
        })
}

/// Checks at run time that every push stays inside the instruction's edge
/// and target.
fn check_pushes_in_edge(pushes: &Vec<PauliString>, instruction: &RoutingInstruction) -> (ok: bool)
    ensures
        ok ==> forall|k: int|
            0 <= k < pushes.len() ==> instr_covers(*instruction, #[trigger] pushes[k]),
{
    let mut k: usize = 0;
    while k < pushes.len()
        invariant
            forall|j: int| 0 <= j < k ==> instr_covers(*instruction, #[trigger] pushes[j]),
        decreases pushes.len() - k,
    {
        let tv = pushes[k].targets();
        let mut m: usize = 0;
        while m < tv.len()
            invariant
                forall|j: int| 0 <= j < k ==> instr_covers(*instruction, #[trigger] pushes[j]),
                k < pushes.len(),
                forall|j: int|
                    0 <= j < tv.len() ==> pushes[k as int].l(#[trigger] tv[j] as int)
                        != PauliLetter::I,
                forall|q: int|
                    0 <= q && pushes[k as int].l(q) != PauliLetter::I ==> exists|j: int|
                        0 <= j < tv.len() && tv[j] == q,
                forall|j: int|
                    0 <= j < m ==> list_has(instruction.qubits@, #[trigger] tv[j] as int) || (
                    match instruction.target {
                        RoutingInstructionTarget::Single(t) => tv[j] == t,
                        RoutingInstructionTarget::Multiple(ts) => list_has(ts@, tv[j] as int),
                        RoutingInstructionTarget::Any => false,
                    }),
            decreases tv.len() - m,
        {
            let t = tv[m];
            let mut ok = vec_contains(&instruction.qubits, t);
            if !ok {
                ok = match &instruction.target {
                    RoutingInstructionTarget::Single(s) => t == *s,
                    RoutingInstructionTarget::Multiple(ts) => vec_contains(ts, t),
                    RoutingInstructionTarget::Any => false,
                };
            }
            if !ok {
                return false;
            }
            m += 1;
        }
        proof {
            assert forall|q: int|
                0 <= q && (#[trigger] pushes[k as int].l(q)) != PauliLetter::I
                implies list_has(instruction.qubits@, q) || (match instruction.target {
                RoutingInstructionTarget::Single(t) => q == t,
                RoutingInstructionTarget::Multiple(ts) => list_has(ts@, q),
                RoutingInstructionTarget::Any => false,
            }) by {
                let j = choose|j: int| 0 <= j < tv.len() && tv[j] == q;
            }
            assert(instr_covers(*instruction, pushes[k as int]));
        }
        k += 1;
    }
    true
}

/// Whether the instruction allows `t` as the landing qubit of a fold: the
/// named target, one of the named targets, or, for a free target, any qubit
/// of the edge.
pub open spec fn target_allowed(instr: RoutingInstruction, t: int) -> bool {
    match instr.target {
        RoutingInstructionTarget::Single(s) => t == s,
        RoutingInstructionTarget::Multiple(ts) => list_has(ts@, t),
        RoutingInstructionTarget::Any => list_has(instr.qubits@, t),
    }
}

/// Whether the pushes, applied in order to `start`, leave no letter on the
/// instruction's edge except on one allowed target qubit.
pub open spec fn folds_within(
    start: PauliString,
    pushes: Seq<PauliString>,
    instr: RoutingInstruction,
) -> bool {
    exists|t: int, trace: Seq<PauliString>|
        #![trigger target_allowed(instr, t), push_trace(start, pushes, trace)]
        target_allowed(instr, t) && push_trace(start, pushes, trace) && (forall|q: int|
            list_has(instr.qubits@, q) && q != t ==> #[trigger] trace.last().l(q)
                == PauliLetter::I)
}

/// Checks at run time that the pushes, applied in order, clear every letter
/// of the instruction's edge except the one on `target`.
fn fold_check(
    start: &PauliString,
    pushes: &Vec<PauliString>,
    instruction: &RoutingInstruction,
    target: usize,
) -> (ok: bool)
    ensures
        ok ==> exists|trace: Seq<PauliString>|
            push_trace(*start, pushes@, trace) && (forall|q: int|
                list_has(instruction.qubits@, q) && q != target as int
                    ==> #[trigger] trace.last().l(q) == PauliLetter::I),
{
    let mut cur = start.duplicate();
    let ghost mut trace: Seq<PauliString> = Seq::empty().push(cur);
    let mut k: usize = 0;
    while k < pushes.len()
        invariant
            k <= pushes.len(),
            trace.len() == k + 1,
            trace.last() == cur,
            push_trace(*start, pushes@.subrange(0, k as int), trace),
        decreases pushes.len() - k,
    {
        let p = &pushes[k];
        let ghost pre = cur;
        cur.pi_over_4_sandwitch(false, p);
        proof {
            trace = trace.push(cur);
            assert(sandwiched(pre, pushes@[k as int], cur));
            assert(pushes@.subrange(0, k + 1).last() == pushes@[k as int]);
            assert forall|j: int|
                0 <= j < k + 1 implies sandwiched(
                trace[j],
                #[trigger] pushes@.subrange(0, k + 1)[j],
                trace[j + 1],
            ) by {
                if j < k {
                    assert(pushes@.subrange(0, k as int)[j] == pushes@.subrange(0, k + 1)[j]);
                }
            }
        }
        k += 1;
    }
    let mut m: usize = 0;
    while m < instruction.qubits.len()
        invariant
            forall|j: int|
                0 <= j < m ==> (#[trigger] instruction.qubits@[j]) == target || cur.l(
                    instruction.qubits@[j] as int,
                ) == PauliLetter::I,
        decreases instruction.qubits.len() - m,
    {
        let q = instruction.qubits[m];
        if q != target {
            if !matches!(cur.get(q), PauliLetter::I) {
                return false;
            }
        }
        m += 1;
    }
    proof {
        assert(pushes@.subrange(0, pushes@.len() as int) =~= pushes@);
        assert forall|q: int|
            list_has(instruction.qubits@, q) && q != target as int implies #[trigger] trace.last()
            .l(q) == PauliLetter::I by {
            let j = choose|j: int|
                0 <= j < instruction.qubits@.len() && instruction.qubits@[j] == q;
            assert(instruction.qubits@[j] != target);
        }
    }
    true
}

/// Builds the pushes that collapse the live letters of `string` inside one
/// routing instruction's edge, leaving a letter on the instruction's
/// target. Every push spans exactly one operator; a run that cannot keep
/// that promise returns `None`.
#[verifier::rlimit(100)]
#[verifier::spinoff_prover]
pub fn handle_instruction(
    string: PauliString,
    gate_size: NonZeroEvenUsize,
    instruction: &RoutingInstruction,
) -> (r: Option<Vec<PauliString>>)
    requires
        gate_size.as_int() <= BIT_INDEX_LIMIT,
    ensures
        match r {
            Some(pushes) => {
                &&& forall|k: int|
                    0 <= k < pushes.len() ==> (#[trigger] pushes[k]).slen() == gate_size.as_int()
                &&& forall|k: int|
                    0 <= k < pushes.len() ==> instr_covers(*instruction, #[trigger] pushes[k])
                &&& folds_within(string, pushes@, *instruction)
            },
            None => true,
        },
{
    let n = gate_size.as_value();
    let ghost string0 = string;
    let start_copy = string.duplicate();
    let mut work = string;
    let mut push_strs: Vec<PauliString> = Vec::new();

    // The target qubit of this instruction.
    let target: usize = match &instruction.target {
        RoutingInstructionTarget::Single(t) => *t,
        RoutingInstructionTarget::Multiple(targets) => {
            if targets.len() == 0 {
                return None;
            }
            let mut t = targets[0];
            let mut m: usize = 0;
            while m < targets.len()
                decreases targets.len() - m,
            {
                if !matches!(work.get(targets[m]), PauliLetter::I) {
                    t = targets[m];
                    break ;
                }
                m += 1;
            }
            t
        },
        RoutingInstructionTarget::Any => {
            if instruction.qubits.len() == 0 {
                return None;
            }
            instruction.qubits[0]
        },
    };
    if target >= BIT_INDEX_LIMIT {
        return None;
    }
    let t_ok = match &instruction.target {
        RoutingInstructionTarget::Single(t) => target == *t,
        RoutingInstructionTarget::Multiple(ts) => vec_contains(ts, target),
        RoutingInstructionTarget::Any => vec_contains(&instruction.qubits, target),
    };
    if !t_ok {
        return None;
    }
    let mut removable: Vec<usize> = Vec::new();
    let mut k: usize = 0;
    while k < instruction.qubits.len()
        invariant
            forall|j: int| 0 <= j < removable.len() ==> (#[trigger] removable[j])
                < BIT_INDEX_LIMIT,
        decreases instruction.qubits.len() - k,
    {
        let q = instruction.qubits[k];
        if q < BIT_INDEX_LIMIT && !matches!(work.get(q), PauliLetter::I) && q != target {
            removable.push(q);
        }
        k += 1;
    }

    // Make the live part shorter than two gates.
    while removable.len() > 2 * n - 2
        invariant
            n >= 2,
            n <= BIT_INDEX_LIMIT,
            target < BIT_INDEX_LIMIT,
            forall|j: int| 0 <= j < removable.len() ==> (#[trigger] removable[j])
                < BIT_INDEX_LIMIT,
        decreases removable.len(),
    {
        let mut push_str = PauliString::id();
        let anticommute_on = removable[0];
        push_str.set(anticommute_on, work.get(anticommute_on).next());
        let ghost r0 = removable.len() as int;
        let mut c: usize = 0;
        while c < n - 1
            invariant
                n >= 2,
                removable.len() + c == r0,
                r0 > 2 * n - 2,
                forall|j: int| 0 <= j < removable.len() ==> (#[trigger] removable[j])
                    < BIT_INDEX_LIMIT,
            decreases n - 1 - c,
        {
            let i = match removable.pop() {
                Some(i) => i,
                None => {
                    return None;
                },
            };
            push_str.set(i, work.get(i));
            c += 1;
        }
        if push_str.len() != n {
            return None;
        }
        work.pi_over_4_sandwitch(false, &push_str);
        push_strs.push(push_str);
    }

    if removable.len() >= BIT_INDEX_LIMIT {
        return None;
    }
    // Make sure we have the target.
    if matches!(work.get(target), PauliLetter::I) {
        let mut push_str = PauliString::id();
        push_str.set(target, PauliLetter::X);
        let mut n_remove = (removable.len() + 2).saturating_sub(n);
        if n_remove % 2 == 1 {
            n_remove += 1;
        }
        let n_remove = if n_remove < n - 2 {
            n_remove
        } else {
            n - 2
        };
        let mut c: usize = 0;
        while c < n_remove
            invariant
                forall|j: int| 0 <= j < removable.len() ==> (#[trigger] removable[j])
                    < BIT_INDEX_LIMIT,
            decreases n_remove - c,
        {
            let i = match removable.pop() {
                Some(i) => i,
                None => {
                    return None;
                },
            };
            push_str.set(i, work.get(i));
            c += 1;
        }
        // Anticommute on as many as possible, keeping the count uneven.
        let take = if removable.len() % 2 == 0 {
            if removable.len() == 0 {
                0
            } else {
                removable.len() - 1
            }
        } else {
            removable.len()
        };
        let mut c: usize = 0;
        while c < take
            invariant
                c <= take,
                take <= removable.len(),
                forall|j: int| 0 <= j < removable.len() ==> (#[trigger] removable[j])
                    < BIT_INDEX_LIMIT,
            decreases take - c,
        {
            if push_str.len() == n {
                break ;
            }
            let q = removable[removable.len() - 1 - c];
            push_str.set(q, work.get(q).next());
            c += 1;
        }
        // If we cannot anticommute on more, add letters.
        let bound = if instruction.qubits.len() < n + 1 {
            instruction.qubits.len()
        } else {
            n + 1
        };
        let mut qi: usize = 0;
        while qi < bound
            invariant
                bound <= instruction.qubits.len(),
                forall|j: int| 0 <= j < removable.len() ==> (#[trigger] removable[j])
                    < BIT_INDEX_LIMIT,
            decreases bound - qi,
        {
            if push_str.len() == n {
                break ;
            }
            let q = instruction.qubits[qi];
            if q < BIT_INDEX_LIMIT && matches!(push_str.get(q), PauliLetter::I) && !vec_contains(
                &removable,
                q,
            ) {
                removable.push(q);
                push_str.set(q, PauliLetter::X);
            }
            qi += 1;
        }
        // We may need to remove one more, to anticommute on an uneven count.
        if push_str.len() < n {
            if push_str.len() != n - 1 {
                return None;
            }
            if removable.len() == 0 {
                return None;
            }
            let q = removable.remove(0);
            push_str.set(q, work.get(q));
        }
        if push_str.len() != n {
            return None;
        }
        work.pi_over_4_sandwitch(false, &push_str);
        push_strs.push(push_str);
    }

    if removable.len() >= BIT_INDEX_LIMIT {
        return None;
    }
    // If the live count is even and not one gate short, make it uneven.
    if removable.len() != n - 1 && (removable.len() + 1) % 2 == 0 {
        let mut push_str = PauliString::id();
        let n_remove = if removable.len() < n - 1 {
            removable.len()
        } else {
            n - 1
        };
        let mut c: usize = 0;
        while c < n_remove
            invariant
                forall|j: int| 0 <= j < removable.len() ==> (#[trigger] removable[j])
                    < BIT_INDEX_LIMIT,
            decreases n_remove - c,
        {
            if removable.len() == 0 {
                return None;
            }
            let q = removable.remove(0);
            push_str.set(q, work.get(q));
            c += 1;
        }
        push_str.set(target, work.get(target).next());
        let mut qi: usize = 0;
        while qi < instruction.qubits.len()
            invariant
                target < BIT_INDEX_LIMIT,
                forall|j: int| 0 <= j < removable.len() ==> (#[trigger] removable[j])
                    < BIT_INDEX_LIMIT,
            decreases instruction.qubits.len() - qi,
        {
            if push_str.len() == n {
                break ;
            }
            let q = instruction.qubits[qi];
            if q < BIT_INDEX_LIMIT && matches!(push_str.get(q), PauliLetter::I) && q != target {
                removable.push(q);
                push_str.set(q, PauliLetter::X);
            }
            qi += 1;
        }
        if push_str.len() != n {
            return None;
        }
        work.pi_over_4_sandwitch(false, &push_str);
        push_strs.push(push_str);
    }

    if removable.len() >= BIT_INDEX_LIMIT {
        return None;
    }
    // If the live count is uneven, bring it to exactly one gate.
    if removable.len() > 0 && (removable.len() + 1) % 2 != 0 {
        let len = removable.len() + 1;
        if len < n {
            let mut push_str = PauliString::id();
            let mut c: usize = 0;
            let rl = removable.len();
            while c < rl
                invariant
                    rl == removable.len(),
                    forall|j: int| 0 <= j < removable.len() ==> (#[trigger] removable[j])
                        < BIT_INDEX_LIMIT,
                decreases rl - c,
            {
                let q = removable[c];
                push_str.set(q, work.get(q).next());
                c += 1;
            }
            push_str.set(target, work.get(target).next());
            let mut qi: usize = 0;
            while qi < instruction.qubits.len()
                invariant
                    forall|j: int| 0 <= j < removable.len() ==> (#[trigger] removable[j])
                        < BIT_INDEX_LIMIT,
                decreases instruction.qubits.len() - qi,
            {
                let q = instruction.qubits[qi];
                if q < BIT_INDEX_LIMIT && matches!(push_str.get(q), PauliLetter::I) {
                    push_str.set(q, PauliLetter::X);
                    removable.push(q);
                    if push_str.len() == n {
                        break ;
                    }
                }
                qi += 1;
            }
            if push_str.len() != n {
                return None;
            }
            work.pi_over_4_sandwitch(false, &push_str);
            push_strs.push(push_str);
        } else {
            if 2 * n < len {
                return None;
            }
            let keep = 2 * n - len;
            let mut letters: Vec<(usize, PauliLetter)> = Vec::new();
            let mut c: usize = 0;
            while c < n
                invariant
                    n <= BIT_INDEX_LIMIT,
                    forall|j: int| 0 <= j < removable.len() ==> (#[trigger] removable[j])
                        < BIT_INDEX_LIMIT,
                    forall|j: int| 0 <= j < letters.len() ==> (#[trigger] letters[j]).0
                        < BIT_INDEX_LIMIT,
                decreases n - c,
            {
                if removable.len() == 0 {
                    return None;
                }
                let q = removable.remove(0);
                letters.push((q, work.get(q)));
                c += 1;
            }
            let mut push_str = PauliString::id();
            let mut c: usize = 0;
            while c < letters.len()
                invariant
                    forall|j: int| 0 <= j < letters.len() ==> (#[trigger] letters[j]).0
                        < BIT_INDEX_LIMIT,
                    forall|j: int| 0 <= j < removable.len() ==> (#[trigger] removable[j])
                        < BIT_INDEX_LIMIT,
                decreases letters.len() - c,
            {
                let (q, l) = letters[c];
                if c < keep {
                    removable.push(q);
                    push_str.set(q, l.next());
                } else {
                    push_str.set(q, l);
                }
                c += 1;
            }
            if push_str.len() != n {
                return None;
            }
            work.pi_over_4_sandwitch(false, &push_str);
            push_strs.push(push_str);
        }
    }

    if !(removable.len() == 0 || removable.len() == n - 1) {
        return None;
    }

    // Convert to a single qubit when one gate's worth is live.
    if removable.len() == n - 1 {
        let mut push_str = PauliString::id();
        push_str.set(target, work.get(target).next());
        let mut c: usize = 0;
        while c < removable.len()
            invariant
                forall|j: int| 0 <= j < removable.len() ==> (#[trigger] removable[j])
                    < BIT_INDEX_LIMIT,
            decreases removable.len() - c,
        {
            let q = removable[c];
            push_str.set(q, work.get(q));
            c += 1;
        }
        if push_str.len() != n {
            return None;
        }
        work.pi_over_4_sandwitch(false, &push_str);
        push_strs.push(push_str);
    }

    // Check every push once more: length, and confinement to the edge.
    let mut k: usize = 0;
    while k < push_strs.len()
        invariant
            forall|j: int| 0 <= j < k ==> (#[trigger] push_strs[j]).slen() == n,
        decreases push_strs.len() - k,
    {
        if push_strs[k].len() != n {
            return None;
        }
        k += 1;
    }
    if !check_pushes_in_edge(&push_strs, instruction) {
        return None;
    }
    if !fold_check(&start_copy, &push_strs, instruction, target) {
        return None;
    }
    proof {
        assert(target_allowed(*instruction, target as int));
        let tr = choose|trace: Seq<PauliString>|
            push_trace(start_copy, push_strs@, trace) && (forall|q: int|
                list_has(instruction.qubits@, q) && q != target as int ==> #[trigger] trace.last()
                    .l(q) == PauliLetter::I);
        assert(equiv(tr[0], start_copy));
        assert(equiv(tr[0], string0));
        assert(push_trace(string0, push_strs@, tr));
        assert(folds_within(string0, push_strs@, *instruction));
    }
    Some(push_strs)
}

/// The synthesizer with a connectivity: the cheapest exponential against
/// its routing path is reduced edge by edge, and every emitted push is
/// checked against the connectivity.
#[verifier::loop_isolation(false)]
fn synthesize_conn(
    exponentials: Vec<PauliExp<PauliAngle>>,
    gate_size: NonZeroEvenUsize,
    connectivity: &Connectivity,
) -> (r: Option<(Vec<PauliExp<PauliAngle>>, Vec<PauliExp<CliffordPauliAngle>>)>)
    requires
        gate_size.as_int() <= BIT_INDEX_LIMIT,
        connectivity.wf(),
    ensures
        match r {
            Some((circuit, remainder)) => {
                &&& forall|k: int|
                    0 <= k < circuit.len() ==> len_ok(#[trigger] circuit[k], gate_size.as_int())
                &&& forall|k: int|
                    0 <= k < circuit.len() && (#[trigger] circuit[k]).string.slen() > 1
                        ==> string_supported(*connectivity, circuit[k].string)
                &&& forall|j: int|
                    0 <= j < remainder.len() ==> from_clifford_input(
                        #[trigger] remainder[j],
                        exponentials@,
                    ) || (push_shaped(remainder[j], gate_size.as_int()) && string_supported(
                        *connectivity,
                        remainder[j].string,
                    ))
                &&& exponentials.len() == 0 ==> circuit.len() == 0 && remainder.len() == 0
                &&& all_free_singles(exponentials@) ==> circuit@ == exponentials@
                    && remainder.len() == 0
            },
            None => true,
        },
        all_free_singles(exponentials@) ==> r is Some,
        exponentials.len() == 0 ==> r is Some,
{
    let n = gate_size.as_value();
    let ghost inputs = exponentials;
    let (mut circuit, mut clifford_part, mut rest) = match prepass(exponentials) {
        Some(t) => t,
        None => {
            proof {
                assert(!all_free_singles(inputs@));
            }
            return None;
        },
    };
    let ghost cpre = clifford_part.len() as int;
    while rest.len() > 0
        invariant
            n == gate_size.as_int(),
            n >= 2,
            n <= BIT_INDEX_LIMIT,
            connectivity.wf(),
            forall|k: int| 0 <= k < circuit.len() ==> len_ok(#[trigger] circuit[k], n as int),
            forall|k: int|
                0 <= k < circuit.len() && (#[trigger] circuit[k]).string.slen() > 1
                    ==> string_supported(*connectivity, circuit[k].string),
            0 <= cpre <= clifford_part.len(),
            forall|j: int|
                cpre <= j < clifford_part.len() ==> push_shaped(
                    #[trigger] clifford_part[j],
                    n as int,
                ) && string_supported(*connectivity, clifford_part[j].string),
            forall|j: int|
                0 <= j < cpre ==> from_clifford_input(#[trigger] clifford_part[j], inputs@),
            inputs.len() == 0 ==> circuit.len() == 0 && clifford_part.len() == 0 && rest.len()
                == 0,
            all_free_singles(inputs@) ==> circuit@ == inputs@ && clifford_part.len() == 0
                && rest.len() == 0,
        decreases rest.len(),
    {
        // The fastest one to solve, against its own routing path.
        let tv0 = rest[0].string.targets();
        let instructions0 = match connectivity.get_routing_path(&tv0) {
            Some(ins) => ins,
            None => {
                return None;
            },
        };
        let mut best = rest[0].string.steps_to_solve_instructions(gate_size, &instructions0);
        let mut index: usize = 0;
        let mut instructions = instructions0;
        let mut i: usize = 1;
        while i < rest.len()
            invariant
                connectivity.wf(),
                index < rest.len(),
                rest.len() > 0,
            decreases rest.len() - i,
        {
            let tv = rest[i].string.targets();
            let ins = match connectivity.get_routing_path(&tv) {
                Some(ins) => ins,
                None => {
                    return None;
                },
            };
            let steps = rest[i].string.steps_to_solve_instructions(gate_size, &ins);
            if steps < best {
                best = steps;
                index = i;
                instructions = ins;
            }
            i += 1;
        }
        let mut exp = rest.remove(index);
        let ghost rest_sz = rest.len() as int;
        let mut ii: usize = 0;
        while ii < instructions.len()
            invariant
                rest.len() == rest_sz,
                n == gate_size.as_int(),
                n >= 2,
                n <= BIT_INDEX_LIMIT,
                connectivity.wf(),
                forall|k: int| 0 <= k < circuit.len() ==> len_ok(#[trigger] circuit[k], n as int),
                forall|k: int|
                    0 <= k < circuit.len() && (#[trigger] circuit[k]).string.slen() > 1
                        ==> string_supported(*connectivity, circuit[k].string),
                0 <= cpre <= clifford_part.len(),
                forall|j: int|
                    cpre <= j < clifford_part.len() ==> push_shaped(
                        #[trigger] clifford_part[j],
                        n as int,
                    ) && string_supported(*connectivity, clifford_part[j].string),
                forall|j: int|
                    0 <= j < cpre ==> from_clifford_input(#[trigger] clifford_part[j], inputs@),
            decreases instructions.len() - ii,
        {
            let push_strs = match handle_instruction(
                exp.string.duplicate(),
                gate_size,
                &instructions[ii],
            ) {
                Some(p) => p,
                None => {
                    return None;
                },
            };
            let mut pi: usize = 0;
            while pi < push_strs.len()
                invariant
                    rest.len() == rest_sz,
                    n == gate_size.as_int(),
                    n >= 2,
                    n <= BIT_INDEX_LIMIT,
                    connectivity.wf(),
                    forall|j: int|
                        0 <= j < push_strs.len() ==> (#[trigger] push_strs[j]).slen() == n,
                    forall|k: int|
                        0 <= k < circuit.len() ==> len_ok(#[trigger] circuit[k], n as int),
                    forall|k: int|
                        0 <= k < circuit.len() && (#[trigger] circuit[k]).string.slen() > 1
                            ==> string_supported(*connectivity, circuit[k].string),
                    0 <= cpre <= clifford_part.len(),
                    forall|j: int|
                        cpre <= j < clifford_part.len() ==> push_shaped(
                            #[trigger] clifford_part[j],
                            n as int,
                        ) && string_supported(*connectivity, clifford_part[j].string),
                    forall|j: int|
                        0 <= j < cpre ==> from_clifford_input(
                            #[trigger] clifford_part[j],
                            inputs@,
                        ),
                decreases push_strs.len() - pi,
            {
                let push_str = push_strs[pi].duplicate();
                if !check_supported(connectivity, &push_str) {
                    return None;
                }
                exp.push_pi_over_4(false, &push_str);
                apply_push_all(&mut rest, &push_str);
                let entry_string = push_str.duplicate();
                if entry_string.len() != n {
                    return None;
                }
                let centry = PauliExp {
                    string: entry_string,
                    angle: PauliAngle::Clifford(CliffordPauliAngle::PiOver4),
                };
                proof {
                    assert(centry.string.slen() == n);
                    assert(string_supported(*connectivity, centry.string)) by {
                        assert(crate::pauli_string::equiv(centry.string, push_str));
                        lemma_supported_congruent(*connectivity, push_str, centry.string);
                    }
                }
                circuit.push(centry);
                let ghost ps = push_str;
                clifford_part.push(
                    PauliExp { string: push_str, angle: CliffordPauliAngle::NegPiOver4 },
                );
                proof {
                    assert(ps.slen() == n);
                    assert(clifford_part[clifford_part.len() - 1].string == ps);
                    assert(push_shaped(clifford_part[clifford_part.len() - 1], n as int));
                    assert(string_supported(*connectivity, ps));
                }
                pi += 1;
            }
            ii += 1;
        }
        if exp.len() != 1 {
            return None;
        }
        circuit.push(exp);
    }
    let ghost cl_final = clifford_part@;
    let rev = reverse_remainder(clifford_part);
    proof {
        assert forall|j: int|
            0 <= j < rev.len() implies from_clifford_input(#[trigger] rev[j], inputs@) || (
        push_shaped(rev[j], n as int) && string_supported(*connectivity, rev[j].string)) by {
            assert(rev[j] == cl_final[cl_final.len() - 1 - j]);
        }
    }
    Some((circuit, rev))
}

/// Support only depends on the letters of the string.
proof fn lemma_supported_congruent(c: Connectivity, a: PauliString, b: PauliString)
    requires
        string_supported(c, a),
        crate::pauli_string::equiv(b, a),
    ensures
        string_supported(c, b),
{
    let e = choose|e: int| 0 <= e < c.hypergraph.edges.len() && #[trigger] edge_covers(c, e, a);
    assert forall|q: int| 0 <= q && (#[trigger] b.l(q)) != PauliLetter::I implies edge_has_qubit(
        c,
        e,
        q,
    ) by {
        assert(a.l(q) == b.l(q));
    }
    assert(edge_covers(c, e, b));
}

/// Synthesizes an ordered list of Pauli exponentials into a circuit of
/// single-qubit rotations and gate-size Clifford rotations, plus the
/// Clifford remainder that undoes the pushes, reversed into composition
/// order. Rotations with Clifford angles move to the remainder unchanged,
/// single-qubit rotations move straight to the circuit, and the rest are
/// reduced with pi-over-4 pushes. `None` reports an internal failure that
/// the construction rules out for meaningful inputs.
pub fn synthesize(
    exponentials: Vec<PauliExp<PauliAngle>>,
    gate_size: NonZeroEvenUsize,
    connectivity: Option<&Connectivity>,
) -> (r: Option<(Vec<PauliExp<PauliAngle>>, Vec<PauliExp<CliffordPauliAngle>>)>)
    requires
        gate_size.as_int() <= BIT_INDEX_LIMIT,
        match connectivity {
            Some(c) => c.wf(),
            None => true,
        },
    ensures
        match r {
            Some((circuit, remainder)) => {
                &&& forall|k: int|
                    0 <= k < circuit.len() ==> len_ok(#[trigger] circuit[k], gate_size.as_int())
                &&& forall|j: int|
                    0 <= j < remainder.len() ==> push_shaped(
                        #[trigger] remainder[j],
                        gate_size.as_int(),
                    ) || from_clifford_input(remainder[j], exponentials@)
                &&& match connectivity {
                    Some(c) => {
                        &&& forall|k: int|
                            0 <= k < circuit.len() && (#[trigger] circuit[k]).string.slen() > 1
                                ==> string_supported(*c, circuit[k].string)
                        &&& forall|j: int|
                            0 <= j < remainder.len() ==> from_clifford_input(
                                #[trigger] remainder[j],
                                exponentials@,
                            ) || (push_shaped(remainder[j], gate_size.as_int())
                                && string_supported(*c, remainder[j].string))
                    },
                    None => true,
                }
                &&& exponentials.len() == 0 ==> circuit.len() == 0 && remainder.len() == 0
                &&& all_free_singles(exponentials@) ==> circuit@ == exponentials@
                    && remainder.len() == 0
                &&& (connectivity is None && one_free_multi(exponentials@))
                    ==> remainder.len() <= spec_steps_to_len_one(
                    exponentials@[0].string.slen() as int,
                    gate_size.as_int(),
                )
            },
            None => true,
        },
        all_free_singles(exponentials@) ==> r is Some,
        exponentials.len() == 0 ==> r is Some,
{
    match connectivity {
        Some(c) => synthesize_conn(exponentials, gate_size, c),
        None => synthesize_full(exponentials, gate_size),
    }
}


/// The whole pipeline for one job: synthesize the exponentials, absorb the
/// Clifford remainder into a fresh tableau, decompose it back into
/// rotations, and append those to the circuit. Every element of the result
/// acts on one qubit or on exactly an operator's worth.
pub fn transpile(
    exponentials: Vec<PauliExp<PauliAngle>>,
    gate_size: NonZeroEvenUsize,
    connectivity: Option<&Connectivity>,
) -> (r: Option<Vec<PauliExp<PauliAngle>>>)
    requires
        gate_size.as_int() <= BIT_INDEX_LIMIT,
        match connectivity {
            Some(c) => c.wf(),
            None => true,
        },
    ensures
        match r {
            Some(circuit) => {
                &&& forall|k: int|
                    0 <= k < circuit.len() ==> len_ok(#[trigger] circuit[k], gate_size.as_int())
                &&& match connectivity {
                    Some(c) => forall|k: int|
                        0 <= k < circuit.len() ==> ((#[trigger] circuit[k]).string.slen() > 1
                            ==> string_supported(*c, circuit[k].string)),
                    None => true,
                }
            },
            None => true,
        },
{
    let (mut circuit, clifford) = match synthesize(exponentials, gate_size, connectivity) {
        Some(t) => t,
        None => {
            return None;
        },
    };
    let ghost n = gate_size.as_int();
    let mut clifford = clifford;
    let mut tableau = CliffordTableau::id();
    while clifford.len() > 0
        invariant
            tableau.wf(),
        decreases clifford.len(),
    {
        let op = clifford.remove(0);
        tableau.merge_clifford(op);
    }
    let decomposition = match tableau.decompose(gate_size, connectivity) {
        Some(d) => d,
        None => {
            return None;
        },
    };
    let mut decomposition = decomposition;
    let ghost dec0 = decomposition@;
    let ghost mut taken: int = 0;
    while decomposition.len() > 0
        invariant
            n == gate_size.as_int(),
            forall|k: int| 0 <= k < circuit.len() ==> len_ok(#[trigger] circuit[k], n),
            match connectivity {
                Some(c) => forall|k: int|
                    0 <= k < circuit.len() ==> ((#[trigger] circuit[k]).string.slen() > 1
                        ==> string_supported(*c, circuit[k].string)),
                None => true,
            },
            match connectivity {
                Some(c) => forall|k: int|
                    0 <= k < dec0.len() ==> ((#[trigger] dec0[k]).string.slen() > 1
                        ==> string_supported(*c, dec0[k].string)),
                None => true,
            },
            0 <= taken <= dec0.len(),
            decomposition@ == dec0.subrange(taken, dec0.len() as int),
            forall|k: int|
                0 <= k < dec0.len() ==> ((#[trigger] dec0[k]).string.slen() == 1
                    || dec0[k].string.slen() == n),
        decreases decomposition.len(),
    {
        let ghost dpre = decomposition@;
        let e = decomposition.remove(0);
        proof {
            assert(e == dpre[0]);
            assert(e == dec0[taken]);
            taken = taken + 1;
            assert(decomposition@ =~= dec0.subrange(taken, dec0.len() as int));
        }
        let entry = PauliExp { string: e.string, angle: PauliAngle::Clifford(e.angle) };
        circuit.push(entry);
    }
    Some(circuit)
}

} // verus!
