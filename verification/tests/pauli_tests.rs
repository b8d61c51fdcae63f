use test_transpiler::misc::NonZeroEvenUsize;
use test_transpiler::pauli::{CliffordPauliAngle, PauliAngle, PauliLetter};
use test_transpiler::pauli_exp::PauliExp;
use test_transpiler::pauli_string::PauliString;

fn ps(text: &str) -> PauliString {
    let mut string = PauliString::id_with_capacity(text.len());
    for (i, c) in text.chars().enumerate() {
        match c {
            'I' | 'i' => string.set(i, PauliLetter::I),
            'X' | 'x' => string.set(i, PauliLetter::X),
            'Z' | 'z' => string.set(i, PauliLetter::Z),
            'Y' | 'y' => string.set(i, PauliLetter::Y),
            _ => panic!("{} is not a pauli letter (IXZYixzy)", c),
        }
    }
    string
}

#[test]
fn singe_qubit_sandwitch() {
    let x = ps("X");
    let z = ps("Z");
    let y = ps("Y");

    // O = X, P = X => X
    let o = x.clone();
    let mut p = x.clone();
    assert!(!p.pi_over_4_sandwitch(false, &o));
    assert_eq!(p, x);

    // O = X, P = Z => Y
    let o = x.clone();
    let mut p = z.clone();
    assert!(!p.pi_over_4_sandwitch(false, &o));
    assert_eq!(p, y);

    // O = X, P = Y => -Z
    let o = x.clone();
    let mut p = y.clone();
    assert!(p.pi_over_4_sandwitch(false, &o));
    assert_eq!(p, z);
}

#[test]
fn commuting_sandwitch() {
    let o = ps("XYZXII");
    let mut p = ps("IZXXYI");

    let p_old = p.clone();
    assert!(!p.pi_over_4_sandwitch(false, &o));
    assert_eq!(p, p_old);
}

#[test]
fn anticommuting_pos_sandwitch() {
    let mut o = PauliString::x(0);
    o.set(1, PauliLetter::Y);
    o.set(2, PauliLetter::Z);
    o.set(3, PauliLetter::X);
    o.set(4, PauliLetter::Y);

    let mut p = PauliString::z(2);
    p.set(3, PauliLetter::X);
    p.set(4, PauliLetter::X);
    p.set(5, PauliLetter::Y);

    assert!(!p.pi_over_4_sandwitch(false, &o));

    let mut res = PauliString::x(0);
    res.set(1, PauliLetter::Y);
    res.set(4, PauliLetter::Z);
    res.set(5, PauliLetter::Y);
    assert_eq!(p, res);
}

#[test]
fn anticommuting_neq_sandwitch() {
    let mut o = PauliString::x(0);
    o.set(1, PauliLetter::Z);
    o.set(2, PauliLetter::Y);
    o.set(3, PauliLetter::Y);
    o.set(4, PauliLetter::Z);
    o.set(5, PauliLetter::Y);

    let mut p = PauliString::x(1);
    p.set(2, PauliLetter::Z);
    p.set(3, PauliLetter::Y);
    p.set(5, PauliLetter::X);
    p.set(6, PauliLetter::X);
    p.set(7, PauliLetter::X);

    assert!(p.pi_over_4_sandwitch(false, &o));

    let mut res = PauliString::x(0);
    res.set(1, PauliLetter::Y);
    res.set(2, PauliLetter::X);
    res.set(4, PauliLetter::Z);
    res.set(5, PauliLetter::Z);
    res.set(6, PauliLetter::X);
    res.set(7, PauliLetter::X);
    assert_eq!(p, res);
}

#[test]
fn neq_sign_sandwitch() {
    let mut o = PauliString::x(0);
    o.set(1, PauliLetter::Y);
    o.set(2, PauliLetter::Z);
    o.set(3, PauliLetter::X);
    o.set(4, PauliLetter::X);

    let mut p = PauliString::z(2);
    p.set(3, PauliLetter::X);
    p.set(4, PauliLetter::Y);
    p.set(5, PauliLetter::Y);

    assert!(!p.pi_over_4_sandwitch(true, &o));

    let mut res = PauliString::x(0);
    res.set(1, PauliLetter::Y);
    res.set(4, PauliLetter::Z);
    res.set(5, PauliLetter::Y);
    assert_eq!(p, res);
}

#[test]
fn correct_steps_to_single_qubit() {
    let n = NonZeroEvenUsize::new(4).unwrap();
    assert_eq!(ps("X").steps_to_len_one(n), 0);
    assert_eq!(ps("XXXX").steps_to_len_one(n), 1);
    assert_eq!(ps("XXX").steps_to_len_one(n), 2);
    assert_eq!(ps("XX").steps_to_len_one(n), 3);
    assert_eq!(ps("XXXXX").steps_to_len_one(n), 2);
}

#[test]
fn pauli_exp_red_pi_through_zz() {
    let mut letters = PauliString::z(0);
    letters.set(1, PauliLetter::Z);
    let mut zz = PauliExp {
        angle: PauliAngle::MultipleOfPi((-2.0f64).to_bits()),
        string: letters,
    };

    let red = PauliString::x(0);

    zz.push_pi_over_4(true, &red);
    zz.push_pi_over_4(true, &red);

    let mut zz_string = PauliString::z(0);
    zz_string.set(1, PauliLetter::Z);

    assert_eq!(PauliAngle::MultipleOfPi((2.0f64).to_bits()), zz.angle);
    assert_eq!(zz_string, zz.string);
}

#[test]
fn sandwich_involution_round_trip() {
    let o = ps("XYZXIY");
    let mut p = ps("IZXXYZ");
    let before = p.clone();
    let f1 = p.pi_over_4_sandwitch(false, &o);
    let f2 = p.pi_over_4_sandwitch(true, &o);
    assert_eq!(p, before);
    assert!(!(f1 ^ f2));
}

#[test]
fn letter_next_cycles() {
    assert_eq!(PauliLetter::I.next(), PauliLetter::X);
    assert_eq!(PauliLetter::X.next(), PauliLetter::Y);
    assert_eq!(PauliLetter::Y.next(), PauliLetter::Z);
    assert_eq!(PauliLetter::Z.next(), PauliLetter::X);
    assert!(PauliLetter::I.commutes_with(&PauliLetter::X));
    assert!(PauliLetter::X.anticommutes_with(&PauliLetter::Z));
}

#[test]
fn string_accessors() {
    let p = ps("IXYZ");
    assert_eq!(p.len(), 3);
    assert!(!p.is_empty());
    assert_eq!(p.get(0), PauliLetter::I);
    assert_eq!(p.get(3), PauliLetter::Z);
    assert_eq!(p.targets(), vec![1, 2, 3]);
    assert_eq!(p.size(), 4);
    assert_eq!(p.start_of_trailin_is(), 4);
    assert_eq!(p.as_string(), "IXYZ");
    let letters = p.letters();
    assert_eq!(
        letters,
        vec![(1, PauliLetter::X), (2, PauliLetter::Y), (3, PauliLetter::Z)]
    );
    assert_eq!(PauliString::id().as_string(), "I");
    assert_eq!(CliffordPauliAngle::PiOver4, CliffordPauliAngle::PiOver4);
}
