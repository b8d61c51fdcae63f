use test_transpiler::connectivity::{RoutingInstruction, RoutingInstructionTarget};
use test_transpiler::decompose::{delicate_solver, simple_solver, QubitProtection};
use test_transpiler::misc::NonZeroEvenUsize;
use test_transpiler::pauli::PauliLetter;
use test_transpiler::pauli_string::PauliString;

fn ps(text: &str) -> PauliString {
    let mut string = PauliString::id_with_capacity(text.len());
    for (i, c) in text.chars().enumerate() {
        match c {
            'I' | 'i' => string.set(i, PauliLetter::I),
            'X' | 'x' => string.set(i, PauliLetter::X),
            'Z' | 'z' => string.set(i, PauliLetter::Z),
            'Y' | 'y' => string.set(i, PauliLetter::Y),
            _ => panic!("{} is not a pauli letter (IXZYixzy)", c),
        }
    }
    string
}

#[test]
fn asd() {
    let mut string = ps("IXXI");
    let gate_size = NonZeroEvenUsize::new(4).unwrap();
    let end_qubit = 0;
    let target_letter = PauliLetter::X;
    let dirty_qubits = vec![0, 1, 2, 3];
    let protection = QubitProtection::Free;

    let strings = simple_solver(
        &string,
        gate_size,
        end_qubit,
        target_letter,
        &dirty_qubits,
        protection,
    )
    .unwrap();

    for push in strings {
        string.pi_over_4_sandwitch(false, &push);
    }

    assert_eq!(string, PauliString::x(0));
}

#[test]
fn simple_solver_pushes_have_gate_lengths() {
    let string = ps("XXXXXYZ");
    let gate_size = NonZeroEvenUsize::new(4).unwrap();
    let dirty_qubits = vec![0, 1, 2, 3, 4, 5, 6];
    let strings = simple_solver(
        &string,
        gate_size,
        0,
        PauliLetter::Z,
        &dirty_qubits,
        QubitProtection::Free,
    )
    .unwrap();
    for push in strings.iter() {
        assert!(push.len() == 1 || push.len() == 4);
    }
    let mut work = string.clone();
    for push in strings.iter() {
        work.pi_over_4_sandwitch(false, push);
    }
    assert_eq!(work, PauliString::z(0));
}

#[test]
fn test_steps_to_solve_instruction() {
    let qubits = vec![0, 1, 2, 3, 4, 5];
    let instruction = RoutingInstruction {
        target: RoutingInstructionTarget::Single(0),
        qubits,
    };
    let n = NonZeroEvenUsize::new(4).unwrap();

    assert_eq!(ps("IXIIII").steps_to_solve_instruction(n, &instruction), 2);
    assert_eq!(ps("IXXIII").steps_to_solve_instruction(n, &instruction), 3);
    assert_eq!(ps("IXXXXI").steps_to_solve_instruction(n, &instruction), 3);
    assert_eq!(ps("IXXXXX").steps_to_solve_instruction(n, &instruction), 2);
    assert_eq!(ps("XIIIII").steps_to_solve_instruction(n, &instruction), 0);
    assert_eq!(ps("XXIIII").steps_to_solve_instruction(n, &instruction), 3);
    assert_eq!(ps("XXXXII").steps_to_solve_instruction(n, &instruction), 1);
    assert_eq!(ps("XIXXXX").steps_to_solve_instruction(n, &instruction), 2);
}

#[test]
fn delicate_solver_empty_iff_already_solved() {
    let n = NonZeroEvenUsize::new(4).unwrap();
    // A row that already is the requested single letter needs no pushes.
    let solved = PauliString::x(2);
    let pushes = delicate_solver(&solved, n, 2, PauliLetter::X, None).unwrap();
    assert!(pushes.is_empty());
    // Any other row needs at least one.
    let unsolved = ps("IXXI");
    let pushes = delicate_solver(&unsolved, n, 1, PauliLetter::X, None).unwrap();
    assert!(!pushes.is_empty());
    let mut work = unsolved.clone();
    for p in pushes.iter() {
        work.pi_over_4_sandwitch(false, p);
    }
    assert_eq!(work, PauliString::x(1));
}
