//! Measurements over circuits: gate counts and chromatic depth by qubit
//! overlap.

use vstd::prelude::*;

use crate::bits::{BIT_INDEX_LIMIT, Bits};
use crate::pauli::Negate;
use crate::pauli_exp::PauliExp;

verus! {

/// How many of the first `k` gates act on at least two qubits.
pub open spec fn spec_multi_count<A: Negate>(gates: Seq<PauliExp<A>>, k: int) -> nat
    decreases k,
{
    if k <= 0 {
        0
    } else {
        spec_multi_count(gates, k - 1) + (if gates[k - 1].string.slen() >= 2 {
            1nat
        } else {
            0nat
        })
    }
}

/// Whether the exponential acts on at least two qubits.
pub fn multi_qubit_filter<A: Negate>(exp: &PauliExp<A>) -> (r: bool)
    ensures
        r == (exp.string.slen() >= 2),
{
    exp.len() >= 2
}

/// How many multi-qubit gates the circuit holds.
pub fn gate_count<A: Negate>(gates: &Vec<PauliExp<A>>) -> (r: usize)
    ensures
        r == spec_multi_count(gates@, gates@.len() as int),
        r <= gates.len(),
{
    let mut count: usize = 0;
    let mut k: usize = 0;
    while k < gates.len()
        invariant
            count <= k,
            k <= gates.len(),
            count == spec_multi_count(gates@, k as int),
        decreases gates.len() - k,
    {
        if multi_qubit_filter(&gates[k]) {
            count += 1;
        }
        k += 1;
    }
    count
}

/// How many layers the multi-qubit gates need: two gates share a layer only
/// when their supports are disjoint, and each gate takes the earliest layer
/// after the last one that touches its qubits.
pub fn gate_depth<A: Negate>(circuit: &Vec<PauliExp<A>>) -> (r: usize)
    ensures
        r <= circuit.len(),
{
    let mut layers: Vec<Bits> = Vec::new();
    let mut k: usize = 0;
    while k < circuit.len()
        invariant
            layers.len() <= k,
            k <= circuit.len(),
        decreases circuit.len() - k,
    {
        let exp = &circuit[k];
        if multi_qubit_filter(exp) {
            let targets = exp.string.targets();
            let mut stop: Option<usize> = None;
            let mut li: usize = layers.len();
            while li > 0 && stop.is_none()
                invariant
                    li <= layers.len(),
                    match stop {
                        Some(s) => s < layers.len(),
                        None => true,
                    },
                decreases li, (if stop is None {
                    1int
                } else {
                    0int
                }),
            {
                li -= 1;
                let layer = &layers[li];
                let mut t: usize = 0;
                let mut hit = false;
                while t < targets.len()
                    invariant
                        li < layers.len(),
                        layer == &layers[li as int],
                    decreases targets.len() - t,
                {
                    if layer.get(targets[t]) {
                        hit = true;
                        break ;
                    }
                    t += 1;
                }
                if hit {
                    stop = Some(li);
                }
            }
            let layer_index: usize = match stop {
                Some(i) => {
                    if i + 1 == layers.len() {
                        layers.push(Bits::new());
                    }
                    i + 1
                },
                None => {
                    if layers.len() == 0 {
                        layers.push(Bits::new());
                    }
                    0
                },
            };
            if layer_index < layers.len() {
                let mut bits = Bits::new();
                core::mem::swap(&mut layers[layer_index], &mut bits);
                let mut t: usize = 0;
                while t < targets.len()
                    invariant
                        forall|j: int| 0 <= j < targets.len() ==> (#[trigger] targets[j])
                            < BIT_INDEX_LIMIT,
                    decreases targets.len() - t,
                {
                    bits.set(targets[t], true);
                    t += 1;
                }
                core::mem::swap(&mut layers[layer_index], &mut bits);
            }
        }
        k += 1;
    }
    let r = layers.len();
    if r <= circuit.len() {
        r
    } else {
        circuit.len()
    }
}

} // verus!
