use vstd::prelude::*;

verus! {

/// Which pixel layout a morphology request works on.
#[derive(Clone, Copy, PartialEq, Eq, Debug, Hash)]
pub enum MorphOpMode {
    Rgb,
    Rgba,
}

pub open spec fn digit_char(d: int) -> char {
    if d == 0 {
        '0'
    } else if d == 1 {
        '1'
    } else if d == 2 {
        '2'
    } else if d == 3 {
        '3'
    } else if d == 4 {
        '4'
    } else if d == 5 {
        '5'
    } else if d == 6 {
        '6'
    } else if d == 7 {
        '7'
    } else if d == 8 {
        '8'
    } else {
        '9'
    }
}

/// The decimal digits of `n`, most significant first, without leading zeros.
pub open spec fn digits(n: nat) -> Seq<char>
    decreases n,
{
    if n < 10 {
        seq![digit_char(n as int)]
    } else {
        digits(n / 10).push(digit_char((n % 10) as int))
    }
}

/// How `{}` writes an integer: a minus sign when negative, then its digits.
pub open spec fn decimal(v: int) -> Seq<char> {
    if v < 0 {
        seq!['-'] + digits((-v) as nat)
    } else {
        digits(v as nat)
    }
}

/// The refusal message for an unknown layout selector.
pub open spec fn op_mode_message(value: int) -> Seq<char> {
    "Value "@ + decimal(value) + " is not supported for op mode in morphology"@
}

/// Relies on std's `format!`, which writes an `i32` through `{}` in decimal
/// with a leading `-` when negative, to write the refusal message.
#[verifier::external_body]
fn unsupported_mode_message(value: i32) -> (r: String)
    ensures
        r@ == op_mode_message(value as int),
{
    format!("Value {} is not supported for op mode in morphology", value)
}

/// Reads a layout selector: 0 is RGB, 1 is RGBA, anything else is refused
/// with a message naming the value.
pub fn morph_op_mode_from_java(value: i32) -> (r: Result<MorphOpMode, String>)
    ensures
        value == 0 ==> r == Ok::<MorphOpMode, String>(MorphOpMode::Rgb),
        value == 1 ==> r == Ok::<MorphOpMode, String>(MorphOpMode::Rgba),
        value != 0 && value != 1 ==> (r matches Err(m) && m@ == op_mode_message(value as int)),
{
    match value {
        0 => Ok(MorphOpMode::Rgb),
        1 => Ok(MorphOpMode::Rgba),
        _ => Err(unsupported_mode_message(value)),
    }
}

} // verus!
