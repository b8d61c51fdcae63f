use test_transpiler::clifford_tableau::CliffordTableau;
use test_transpiler::misc::NonZeroEvenUsize;
use test_transpiler::pauli::{CliffordPauliAngle, Negate, PauliLetter};
use test_transpiler::pauli_exp::PauliExp;
use test_transpiler::pauli_string::PauliString;

fn ps(text: &str) -> PauliString {
    let mut string = PauliString::id_with_capacity(text.len());
    for (i, c) in text.chars().enumerate() {
        match c {
            'I' | 'i' => string.set(i, PauliLetter::I),
            'X' | 'x' => string.set(i, PauliLetter::X),
            'Z' | 'z' => string.set(i, PauliLetter::Z),
            'Y' | 'y' => string.set(i, PauliLetter::Y),
            _ => panic!("{} is not a pauli letter (IXZYixzy)", c),
        }
    }
    string
}

#[test]
fn merge_push_twice_restores_identity() {
    let mut tableau = CliffordTableau::id_with_capacity(6);
    let push = ps("XYZIII");
    tableau.merge_pi_over_4_pauli(false, &push);
    assert!(!tableau.is_identity());
    // x[0] commutes with XYZ and stays; z[0] anticommutes and becomes the
    // product Z * XYZ letter by letter: Y Y Z.
    assert_eq!(tableau.get_x_row(0), ps("X"));
    assert_eq!(tableau.get_z_row(0), ps("YYZ"));
    tableau.merge_pi_over_4_pauli(false, &push);
    tableau.merge_pi_over_4_pauli(false, &push);
    tableau.merge_pi_over_4_pauli(false, &push);
    assert!(tableau.is_identity());
}

#[test]
fn merge_then_inverse_restores_identity() {
    let mut tableau = CliffordTableau::id();
    let push = ps("ZZXY");
    tableau.merge_pi_over_4_pauli(false, &push);
    tableau.merge_pi_over_4_pauli(true, &push);
    assert!(tableau.is_identity());
}

#[test]
fn rows_keep_commutation_pattern() {
    let mut tableau = CliffordTableau::id_with_capacity(4);
    for push in [ps("XXII"), ps("IZZY"), ps("YIXZ")] {
        tableau.merge_pi_over_4_pauli(false, &push);
    }
    for i in 0..4 {
        let xi = tableau.get_x_row(i);
        let zi = tableau.get_z_row(i);
        assert!(xi.anticommutes_with(&zi));
        for j in 0..4 {
            if i != j {
                let xj = tableau.get_x_row(j);
                let zj = tableau.get_z_row(j);
                assert!(xi.commutes_with(&xj));
                assert!(xi.commutes_with(&zj));
                assert!(zi.commutes_with(&zj));
            }
        }
    }
}

#[test]
fn decompose_remerges_to_original() {
    let gate = NonZeroEvenUsize::new(4).unwrap();
    let mut tableau = CliffordTableau::id_with_capacity(4);
    for push in [ps("XXXX"), ps("IZZY"), ps("YIXZ"), ps("ZZII")] {
        tableau.merge_pi_over_4_pauli(false, &push);
    }
    let reference = tableau.clone();
    let decomposition = tableau.decompose(gate, None).unwrap();
    for exp in decomposition.iter() {
        assert!(exp.len() == 1 || exp.len() == 4);
    }
    // Merging the emitted rotations into a fresh tableau reproduces the
    // decomposed tableau; merging their inverses afterwards clears it.
    let mut fresh = CliffordTableau::id();
    for exp in decomposition.iter() {
        fresh.merge_clifford(PauliExp {
            string: exp.string.clone(),
            angle: exp.angle,
        });
    }
    for i in 0..4 {
        assert_eq!(fresh.get_x_row(i), reference.get_x_row(i));
        assert_eq!(fresh.get_z_row(i), reference.get_z_row(i));
    }
    for exp in decomposition.iter().rev() {
        let mut neg = exp.angle;
        neg.negate();
        fresh.merge_clifford(PauliExp {
            string: exp.string.clone(),
            angle: neg,
        });
    }
    assert!(fresh.is_identity());
}

#[test]
fn decompose_identity_is_empty_or_trivial() {
    let gate = NonZeroEvenUsize::new(2).unwrap();
    let tableau = CliffordTableau::id_with_capacity(2);
    let decomposition = tableau.decompose(gate, None).unwrap();
    let mut fresh = CliffordTableau::id();
    for exp in decomposition.into_iter() {
        fresh.merge_clifford(exp);
    }
    assert!(fresh.is_identity());
}

#[test]
fn half_turn_flips_signs_only() {
    let mut tableau = CliffordTableau::id_with_capacity(2);
    tableau.merge_clifford(PauliExp {
        string: ps("ZI"),
        angle: CliffordPauliAngle::PiOver2,
    });
    // X_0 anticommutes with Z_0: its sign flips, the rows stay.
    assert!(!tableau.is_identity());
    assert_eq!(tableau.get_x_row(0), ps("XI"));
    assert!(tableau.get_x_signs().get(0));
    assert!(!tableau.get_z_signs().get(0));
    tableau.merge_clifford(PauliExp {
        string: ps("ZI"),
        angle: CliffordPauliAngle::NegPiOver2,
    });
    assert!(tableau.is_identity());
}
