use test_transpiler::exp_format::{
    angle_from_bits, as_exp_file, exp_line, parameter_angle, parse_exp_line, parse_letters,
    render_angle, render_letters, ExpFormatError,
};
use test_transpiler::measure::{gate_count, gate_depth, multi_qubit_filter};
use test_transpiler::pauli::{CliffordPauliAngle, PauliAngle, PauliLetter};
use test_transpiler::pauli_exp::PauliExp;
use test_transpiler::pauli_string::PauliString;

fn ps(text: &str) -> PauliString {
    let mut string = PauliString::id_with_capacity(text.len());
    for (i, c) in text.chars().enumerate() {
        match c {
            'I' | 'i' => string.set(i, PauliLetter::I),
            'X' | 'x' => string.set(i, PauliLetter::X),
            'Z' | 'z' => string.set(i, PauliLetter::Z),
            'Y' | 'y' => string.set(i, PauliLetter::Y),
            _ => panic!("{} is not a pauli letter (IXZYixzy)", c),
        }
    }
    string
}

#[test]
fn letters_round_trip() {
    let p = ps("IXYZIX");
    let text = render_letters(&p, 6);
    assert_eq!(text, "IXYZIX");
    let back = parse_letters(&text, 6).unwrap();
    assert_eq!(back, p);
}

#[test]
fn parse_letters_errors() {
    assert_eq!(
        parse_letters("IXY", 4).unwrap_err(),
        ExpFormatError::WrongLength
    );
    assert_eq!(
        parse_letters("IXQZ", 4).unwrap_err(),
        ExpFormatError::BadLetter
    );
}

#[test]
fn exp_line_round_trip() {
    // A circuit of Clifford and parameter angles survives writing and
    // reading line by line.
    let circuit = vec![
        PauliExp {
            string: ps("XYZI"),
            angle: PauliAngle::Clifford(CliffordPauliAngle::PiOver4),
        },
        PauliExp {
            string: ps("IIZZ"),
            angle: PauliAngle::Parameter {
                neg: true,
                name: String::from("alpha"),
            },
        },
    ];
    let file = as_exp_file(&circuit, 4).unwrap();
    let mut parsed: Vec<PauliExp<PauliAngle>> = Vec::new();
    for line in file.lines() {
        let (angle_text, string) = parse_exp_line(line, 4).unwrap();
        let angle = match angle_text.parse::<f64>() {
            Ok(v) => {
                let v = if v == 0.0 { 0.0 } else { v };
                angle_from_bits(v.to_bits())
            }
            Err(_) => parameter_angle(&angle_text),
        };
        parsed.push(PauliExp { string, angle });
    }
    assert_eq!(parsed.len(), circuit.len());
    for (a, b) in parsed.iter().zip(circuit.iter()) {
        assert_eq!(a.string, b.string);
        assert_eq!(a.angle, b.angle);
    }
}

#[test]
fn free_angles_are_not_rendered_inside() {
    let circuit = vec![PauliExp {
        string: ps("XX"),
        angle: PauliAngle::MultipleOfPi((0.3f64).to_bits()),
    }];
    assert!(as_exp_file(&circuit, 2).is_none());
    assert!(render_angle(&circuit[0].angle).is_none());
}

#[test]
fn clifford_angle_texts() {
    assert_eq!(
        render_angle(&PauliAngle::Clifford(CliffordPauliAngle::PiOver2)).unwrap(),
        "0.5"
    );
    assert_eq!(
        render_angle(&PauliAngle::Clifford(CliffordPauliAngle::NegPiOver4)).unwrap(),
        "-0.25"
    );
    assert_eq!(angle_from_bits((0.5f64).to_bits()),
        PauliAngle::Clifford(CliffordPauliAngle::PiOver2));
    assert_eq!(angle_from_bits((-0.25f64).to_bits()),
        PauliAngle::Clifford(CliffordPauliAngle::NegPiOver4));
    assert_eq!(angle_from_bits((0.0f64).to_bits()),
        PauliAngle::Clifford(CliffordPauliAngle::Zero));
    assert_eq!(angle_from_bits((0.3f64).to_bits()),
        PauliAngle::MultipleOfPi((0.3f64).to_bits()));
    let line = exp_line(String::from("0.5"), &String::from("XY"));
    assert_eq!(line, "0.5;XY");
    match parse_exp_line("bad line with no separator", 3) {
        Err(ExpFormatError::MissingSeparator) => {}
        _ => panic!("expected a missing separator error"),
    }
}

#[test]
fn parameter_angles() {
    match parameter_angle("-phi") {
        PauliAngle::Parameter { neg, name } => {
            assert!(neg);
            assert_eq!(name, "phi");
        }
        _ => panic!("expected a parameter"),
    }
    match parameter_angle("phi") {
        PauliAngle::Parameter { neg, name } => {
            assert!(!neg);
            assert_eq!(name, "phi");
        }
        _ => panic!("expected a parameter"),
    }
}

#[test]
fn counts_and_depth() {
    let circuit = vec![
        PauliExp {
            string: ps("XXII"),
            angle: PauliAngle::Clifford(CliffordPauliAngle::PiOver4),
        },
        PauliExp {
            string: ps("IIZZ"),
            angle: PauliAngle::Clifford(CliffordPauliAngle::PiOver4),
        },
        PauliExp {
            string: ps("XIII"),
            angle: PauliAngle::Clifford(CliffordPauliAngle::PiOver4),
        },
        PauliExp {
            string: ps("YYII"),
            angle: PauliAngle::Clifford(CliffordPauliAngle::PiOver4),
        },
    ];
    assert!(multi_qubit_filter(&circuit[0]));
    assert!(!multi_qubit_filter(&circuit[2]));
    assert_eq!(gate_count(&circuit), 3);
    // XXII and IIZZ share a layer; YYII needs a second one.
    assert_eq!(gate_depth(&circuit), 2);
}
