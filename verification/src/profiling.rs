//! Names of profile files.

use vstd::prelude::*;
use vstd::string::StrSliceExecFns;

use crate::text::{decimal_nat, push_decimal, push_text};

verus! {

/// Whether a character may stand in a file name: an ASCII letter or digit, a hyphen or an
/// underscore.
pub open spec fn is_plain(c: char) -> bool {
    'a' <= c <= 'z' || 'A' <= c <= 'Z' || '0' <= c <= '9' || c == '-' || c == '_'
}

/// A text in which every character that may not stand in a file name is a hyphen.
pub open spec fn sanitized(value: Seq<char>) -> Seq<char> {
    value.map_values(
        |c: char|
            if is_plain(c) {
                c
            } else {
                '-'
            },
    )
}

/// Replaces every character that may not stand in a file name by a hyphen.
pub fn sanitize(value: &str) -> (r: String)
    ensures
        r@ == sanitized(value@),
{
    let length: usize = value.unicode_len();
    let mut out: String = String::new();
    let mut i: usize = 0;
    while i < length
        invariant
            i <= length,
            length == value@.len(),
            out@.len() == i,
            forall|j: int| 0 <= j < i ==> #[trigger] out@[j] == sanitized(value@)[j],
        decreases length - i,
    {
        let c: char = value.get_char(i);
        if ('a' <= c && c <= 'z') || ('A' <= c && c <= 'Z') || ('0' <= c && c <= '9') || c == '-'
            || c == '_' {
            out.push(c);
        } else {
            out.push('-');
        }
        i = i + 1;
    }
    assert(out@ =~= sanitized(value@));
    out
}

/// Sanitizing keeps what is plain, and everything it gives is plain, so that doing it twice
/// is no more than doing it once.
pub proof fn law_sanitize_is_idempotent(value: Seq<char>)
    ensures
        forall|i: int| 0 <= i < value.len() ==> is_plain(#[trigger] sanitized(value)[i]),
        sanitized(sanitized(value)) == sanitized(value),
{
    assert(sanitized(sanitized(value)) =~= sanitized(value));
}

/// A number with at least three digits.
pub open spec fn three_digits(value: nat) -> Seq<char> {
    if value < 10 {
        seq!['0', '0'] + decimal_nat(value)
    } else if value < 100 {
        seq!['0'] + decimal_nat(value)
    } else {
        decimal_nat(value)
    }
}

/// The name of the profile of a shot loop.
pub open spec fn profile_name(
    index: nat,
    mode: Seq<char>,
    qubits: nat,
    shots: nat,
    instructions: nat,
) -> Seq<char> {
    three_digits(index) + "-"@ + sanitized(mode) + "-q"@ + decimal_nat(qubits) + "-shots"@
        + decimal_nat(shots) + "-inst"@ + decimal_nat(instructions) + ".svg"@
}

/// The name of the file in which the profile of a shot loop is kept.
pub fn profile_file_name(
    index: usize,
    mode: &str,
    qubits: usize,
    shots: usize,
    instructions: usize,
) -> (r: String)
    ensures
        r@ == profile_name(
            index as nat,
            mode@,
            qubits as nat,
            shots as nat,
            instructions as nat,
        ),
{
    let mut out: String = String::new();
    if index < 10 {
        out.push('0');
        out.push('0');
    } else if index < 100 {
        out.push('0');
    }
    push_decimal(&mut out, index as u64);
    assert(out@ =~= three_digits(index as nat));
    push_text(&mut out, "-");
    push_text(&mut out, sanitize(mode).as_str());
    push_text(&mut out, "-q");
    push_decimal(&mut out, qubits as u64);
    push_text(&mut out, "-shots");
    push_decimal(&mut out, shots as u64);
    push_text(&mut out, "-inst");
    push_decimal(&mut out, instructions as u64);
    push_text(&mut out, ".svg");
    out
}

} // verus!
