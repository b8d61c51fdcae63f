//! The textual exchange format for Pauli exponentials: one line per
//! exponential, `<angle>;<letters>`, where the angle is a decimal multiple
//! of pi or a parameter name and the letters spell the string positionally.

use vstd::prelude::*;

use crate::bits::BIT_INDEX_LIMIT;
use crate::pauli::{CliffordPauliAngle, PauliAngle, PauliLetter, spec_letter_char};
use crate::pauli_exp::PauliExp;
use crate::pauli_string::PauliString;

verus! {

/// Why a line of the exchange format was rejected.
#[derive(Debug, PartialEq, Eq, Structural)]
pub enum ExpFormatError {
    MissingSeparator,
    WrongLength,
    BadLetter,
}

/// Whether the character spells a Pauli letter.
pub open spec fn spec_is_letter_char(c: char) -> bool {
    c == 'I' || c == 'X' || c == 'Y' || c == 'Z'
}

/// Parses a positional letter string of exactly `qubit_count` letters.
pub fn parse_letters(s: &str, qubit_count: usize) -> (r: Result<PauliString, ExpFormatError>)
    requires
        qubit_count < BIT_INDEX_LIMIT,
    ensures
        match r {
            Ok(p) => {
                &&& s@.len() == qubit_count
                &&& forall|i: int| 0 <= i < qubit_count ==> s@[i] == spec_letter_char(p.l(i))
                &&& forall|i: int| i >= qubit_count ==> p.l(i) == PauliLetter::I
            },
            Err(ExpFormatError::WrongLength) => s@.len() != qubit_count,
            Err(ExpFormatError::BadLetter) => exists|i: int|
                0 <= i < s@.len() && !spec_is_letter_char(#[trigger] s@[i]),
            Err(_) => false,
        },
{
    if s.unicode_len() != qubit_count {
        return Err(ExpFormatError::WrongLength);
    }
    let mut p = PauliString::id_with_capacity(qubit_count);
    let mut i: usize = 0;
    while i < qubit_count
        invariant
            qubit_count < BIT_INDEX_LIMIT,
            s@.len() == qubit_count,
            i <= qubit_count,
            forall|j: int| 0 <= j < i ==> s@[j] == spec_letter_char(p.l(j)),
            forall|j: int| j >= i || j < 0 ==> p.l(j) == PauliLetter::I,
        decreases qubit_count - i,
    {
        let c = s.get_char(i);
        let letter = if c == 'I' {
            PauliLetter::I
        } else if c == 'X' {
            PauliLetter::X
        } else if c == 'Y' {
            PauliLetter::Y
        } else if c == 'Z' {
            PauliLetter::Z
        } else {
            proof {
                assert(!spec_is_letter_char(s@[i as int]));
            }
            return Err(ExpFormatError::BadLetter);
        };
        p.set(i, letter);
        i += 1;
    }
    Ok(p)
}

/// Renders the letters of a string up to the given width.
pub fn render_letters(p: &PauliString, width: usize) -> (r: String)
    ensures
        r@.len() == width,
        forall|i: int| 0 <= i < width ==> r@[i] == spec_letter_char(p.l(i)),
{
    proof {
        reveal_strlit("I");
        reveal_strlit("X");
        reveal_strlit("Y");
        reveal_strlit("Z");
    }
    let mut r = String::new();
    let mut i: usize = 0;
    while i < width
        invariant
            i <= width,
            r@.len() == i,
            forall|j: int| 0 <= j < i ==> r@[j] == spec_letter_char(p.l(j)),
        decreases width - i,
    {
        proof {
            reveal_strlit("I");
            reveal_strlit("X");
            reveal_strlit("Y");
            reveal_strlit("Z");
        }
        match p.get(i) {
            PauliLetter::I => r.append("I"),
            PauliLetter::X => r.append("X"),
            PauliLetter::Y => r.append("Y"),
            PauliLetter::Z => r.append("Z"),
        }
        i += 1;
    }
    r
}

/// The characters of a rendered Clifford angle.
pub open spec fn spec_clifford_chars(c: CliffordPauliAngle) -> Seq<char> {
    match c {
        CliffordPauliAngle::PiOver2 => "0.5"@,
        CliffordPauliAngle::PiOver4 => "0.25"@,
        CliffordPauliAngle::Zero => "0.0"@,
        CliffordPauliAngle::NegPiOver4 => "-0.25"@,
        CliffordPauliAngle::NegPiOver2 => "-0.5"@,
    }
}

/// The characters of a rendered angle; empty for a free multiple of pi,
/// which only the callers outside the verified core can format.
pub open spec fn spec_angle_chars(a: PauliAngle) -> Seq<char> {
    match a {
        PauliAngle::MultipleOfPi(_) => Seq::empty(),
        PauliAngle::Clifford(c) => spec_clifford_chars(c),
        PauliAngle::Parameter { neg, name } => if neg {
            "-"@ + name@
        } else {
            name@
        },
    }
}

/// The characters of the letters of a string, spelt at the given width.
pub open spec fn spec_letters_chars(p: PauliString, width: int) -> Seq<char> {
    Seq::new(width as nat, |i: int| spec_letter_char(p.l(i)))
}

/// The characters of the whole file: one line per exponential, each the
/// angle text, a semicolon, the letters, and a newline.
pub open spec fn spec_exp_lines(exps: Seq<PauliExp<PauliAngle>>, width: int, k: int) -> Seq<char>
    decreases k,
{
    if k <= 0 {
        Seq::empty()
    } else {
        spec_exp_lines(exps, width, k - 1) + spec_angle_chars(exps[k - 1].angle) + seq![';']
            + spec_letters_chars(exps[k - 1].string, width) + seq!['\n']
    }
}

/// The decimal text of a Clifford angle, as a multiple of pi.
pub fn render_clifford_angle(c: &CliffordPauliAngle) -> (r: String)
    ensures
        c == CliffordPauliAngle::PiOver2 ==> r@ =~= "0.5"@,
        c == CliffordPauliAngle::PiOver4 ==> r@ =~= "0.25"@,
        c == CliffordPauliAngle::Zero ==> r@ =~= "0.0"@,
        c == CliffordPauliAngle::NegPiOver4 ==> r@ =~= "-0.25"@,
        c == CliffordPauliAngle::NegPiOver2 ==> r@ =~= "-0.5"@,
{
    match c {
        CliffordPauliAngle::PiOver2 => String::from_str("0.5"),
        CliffordPauliAngle::PiOver4 => String::from_str("0.25"),
        CliffordPauliAngle::Zero => String::from_str("0.0"),
        CliffordPauliAngle::NegPiOver4 => String::from_str("-0.25"),
        CliffordPauliAngle::NegPiOver2 => String::from_str("-0.5"),
    }
}

/// The text of an angle: Clifford angles and parameters render directly; a
/// free multiple of pi carries floating-point bits that only the callers
/// outside the verified core can format, so it yields nothing here.
pub fn render_angle(a: &PauliAngle) -> (r: Option<String>)
    ensures
        a is MultipleOfPi <==> r is None,
        match r {
            Some(t) => t@ == spec_angle_chars(*a),
            None => true,
        },
{
    match a {
        PauliAngle::MultipleOfPi(_) => None,
        PauliAngle::Clifford(c) => Some(render_clifford_angle(c)),
        PauliAngle::Parameter { neg, name } => {
            if *neg {
                let mut s = String::from_str("-");
                s.append(name.as_str());
                Some(s)
            } else {
                Some(name.clone())
            }
        },
    }
}

/// One line of the exchange format: the angle text, a semicolon, and the
/// letters.
pub fn exp_line(angle_text: String, letters_text: &String) -> (r: String)
    ensures
        r@ =~= angle_text@ + ";"@ + letters_text@,
{
    let mut r = angle_text;
    r.append(";");
    r.append(letters_text.as_str());
    r
}

/// The angle encoded by a 64-bit pattern read from a decimal angle text:
/// the five Clifford multiples of pi are recognised exactly, anything else
/// is a free multiple of pi.
pub fn angle_from_bits(bits: u64) -> (r: PauliAngle)
    ensures
        bits == 0x3FE0_0000_0000_0000u64 ==> r == PauliAngle::Clifford(CliffordPauliAngle::PiOver2),
        bits == 0x3FD0_0000_0000_0000u64 ==> r == PauliAngle::Clifford(CliffordPauliAngle::PiOver4),
        bits == 0u64 ==> r == PauliAngle::Clifford(CliffordPauliAngle::Zero),
        bits == 0xBFD0_0000_0000_0000u64 ==> r == PauliAngle::Clifford(
            CliffordPauliAngle::NegPiOver4,
        ),
        bits == 0xBFE0_0000_0000_0000u64 ==> r == PauliAngle::Clifford(
            CliffordPauliAngle::NegPiOver2,
        ),
        !(bits == 0x3FE0_0000_0000_0000u64 || bits == 0x3FD0_0000_0000_0000u64 || bits == 0u64
            || bits == 0xBFD0_0000_0000_0000u64 || bits == 0xBFE0_0000_0000_0000u64) ==> r
            == PauliAngle::MultipleOfPi(bits),
{
    if bits == 0x3FE0_0000_0000_0000u64 {
        PauliAngle::Clifford(CliffordPauliAngle::PiOver2)
    } else if bits == 0x3FD0_0000_0000_0000u64 {
        PauliAngle::Clifford(CliffordPauliAngle::PiOver4)
    } else if bits == 0u64 {
        PauliAngle::Clifford(CliffordPauliAngle::Zero)
    } else if bits == 0xBFD0_0000_0000_0000u64 {
        PauliAngle::Clifford(CliffordPauliAngle::NegPiOver4)
    } else if bits == 0xBFE0_0000_0000_0000u64 {
        PauliAngle::Clifford(CliffordPauliAngle::NegPiOver2)
    } else {
        PauliAngle::MultipleOfPi(bits)
    }
}

/// The symbolic angle spelt by a non-numeric angle token: a leading minus
/// sign negates the parameter.
pub fn parameter_angle(token: &str) -> (r: PauliAngle)
    ensures
        r is Parameter,
        token@.len() > 0 && token@[0] == '-' ==> r == (PauliAngle::Parameter {
            neg: true,
            name: r->Parameter_name,
        }) && r->Parameter_name@ == token@.subrange(1, token@.len() as int),
        !(token@.len() > 0 && token@[0] == '-') ==> r == (PauliAngle::Parameter {
            neg: false,
            name: r->Parameter_name,
        }) && r->Parameter_name@ == token@,
{
    let n = token.unicode_len();
    if n > 0 && token.get_char(0) == '-' {
        let rest = token.substring_char(1, n);
        PauliAngle::Parameter { neg: true, name: String::from_str(rest) }
    } else {
        PauliAngle::Parameter { neg: false, name: String::from_str(token) }
    }
}

/// Splits one line at its first semicolon into the angle text and the
/// parsed letter string.
#[verifier::loop_isolation(false)]
pub fn parse_exp_line(line: &str, qubit_count: usize) -> (r: Result<
    (String, PauliString),
    ExpFormatError,
>)
    requires
        qubit_count < BIT_INDEX_LIMIT,
    ensures
        r matches Err(ExpFormatError::MissingSeparator) <==> (forall|i: int|
            0 <= i < line@.len() ==> line@[i] != ';'),
        match r {
            Ok((angle, p)) => exists|sep: int|
                0 <= sep < line@.len() && line@[sep] == ';' && angle@ == line@.subrange(0, sep)
                    && (forall|i: int|
                    0 <= i < qubit_count ==> line@.subrange(sep + 1, line@.len() as int)[i]
                        == spec_letter_char(p.l(i))),
            Err(_) => true,
        },
{
    let n = line.unicode_len();
    let mut sep: usize = 0;
    let mut found = false;
    while sep < n && !found
        invariant
            n == line@.len(),
            found ==> sep < n && line@[sep as int] == ';',
            !found ==> forall|i: int| 0 <= i < sep ==> line@[i] != ';',
        decreases n - sep, (if found {
            0int
        } else {
            1int
        }),
    {
        if line.get_char(sep) == ';' {
            found = true;
        } else {
            sep += 1;
        }
    }
    if !found {
        return Err(ExpFormatError::MissingSeparator);
    }
    let angle = String::from_str(line.substring_char(0, sep));
    let letters = line.substring_char(sep + 1, n);
    match parse_letters(letters, qubit_count) {
        Ok(p) => {
            proof {
                let ghost sv = sep as int;
                assert(line@[sv] == ';');
            }
            Ok((angle, p))
        },
        Err(e) => Err(e),
    }
}

/// Renders a whole circuit as exchange-format lines separated by newlines;
/// every string is spelt at the given width. Yields nothing when some
/// angle is a free multiple of pi, whose text only the callers outside the
/// verified core can produce.
#[verifier::loop_isolation(false)]
pub fn as_exp_file(exps: &Vec<PauliExp<PauliAngle>>, width: usize) -> (r: Option<String>)
    ensures
        (exists|k: int|
            0 <= k < exps.len() && (#[trigger] exps[k]).angle is MultipleOfPi) <==> r is None,
        match r {
            Some(out) => out@ == spec_exp_lines(exps@, width as int, exps@.len() as int),
            None => true,
        },
{
    let mut out = String::new();
    let mut k: usize = 0;
    while k < exps.len()
        invariant
            k <= exps.len(),
            forall|j: int| 0 <= j < k ==> !((#[trigger] exps[j]).angle is MultipleOfPi),
            out@ == spec_exp_lines(exps@, width as int, k as int),
        decreases exps.len() - k,
    {
        let e = &exps[k];
        let angle = match render_angle(&e.angle) {
            Some(a) => a,
            None => {
                return None;
            },
        };
        let letters = render_letters(&e.string, width);
        let line = exp_line(angle, &letters);
        out.append(line.as_str());
        out.append("\n");
        proof {
            reveal_strlit(";");
            reveal_strlit("\n");
            assert(";"@ =~= seq![';']);
            assert("\n"@ =~= seq!['\n']);
            assert(letters@ =~= spec_letters_chars(e.string, width as int));
            assert(out@ =~= spec_exp_lines(exps@, width as int, k + 1));
        }
        k += 1;
    }
    Some(out)
}

} // verus!
