//! The text that describes an [`Error`].
use vstd::prelude::*;

use crate::Error;

verus! {

/// The lower-case hexadecimal digit of `d`, for `d` below 16.
pub open spec fn hex_digit(d: int) -> char {
    if d < 10 {
        (('0' as int) + d) as char
    } else {
        ((('a' as int) + d) - 10) as char
    }
}

/// `x` in lower-case hexadecimal, without leading zeros.
pub open spec fn hex_text(x: nat) -> Seq<char>
    decreases x,
{
    if x < 16 {
        seq![hex_digit(x as int)]
    } else {
        hex_text(x / 16) + seq![hex_digit((x % 16) as int)]
    }
}

/// `x` in decimal, without leading zeros.
pub open spec fn decimal_text(x: nat) -> Seq<char>
    decreases x,
{
    if x < 10 {
        seq![((('0' as int) + x) as char)]
    } else {
        decimal_text(x / 10) + seq![((('0' as int) + x % 10) as char)]
    }
}

/// Calls `format!` with `{:x}` on `x`: its digits in lower-case hexadecimal,
/// without leading zeros.
#[verifier::external_body]
fn hex_string(x: u32) -> (r: String)
    ensures
        r@ == hex_text(x as nat),
{
    format!("{x:x}")
}

/// Calls `format!` with `{}` on `x`: its digits in decimal, without leading
/// zeros.
#[verifier::external_body]
fn decimal_string(x: u64) -> (r: String)
    ensures
        r@ == decimal_text(x as nat),
{
    format!("{x}")
}

/// Calls `String::push_str`, which appends `text` to `s`.
#[verifier::external_body]
fn push_text(s: &mut String, text: &str)
    ensures
        final(s)@ == old(s)@ + text@,
{
    s.push_str(text)
}

/// Calls `format!` with `{}` on an I/O error: its description. Nothing is
/// stated of the text, which for an error of the operating system depends
/// on the system's messages.
#[verifier::external_body]
fn io_error_string(e: &std::io::Error) -> (r: String) {
    format!("{e}")
}

/// Calls `format!` with `{}` on a UTF-8 error: its description. Nothing is
/// stated of the text.
#[verifier::external_body]
fn utf8_error_string(e: &std::string::FromUtf8Error) -> (r: String) {
    format!("{e}")
}

/// The text of the error `e` where it holds no error of another library:
/// `None` for I/O and metadata errors, whose texts embed those errors'.
pub open spec fn message_spec(e: Error) -> Option<Seq<char>> {
    match e {
        Error::InvalidHeader => Some("Patch header invalid"@),
        Error::InvalidInputChecksum { expected, actual } => Some(
            "Input checksum invalid; expected: "@ + hex_text(expected as nat) + ", Actual: "@
                + hex_text(actual as nat),
        ),
        Error::InvalidInputSize { expected, actual } => Some(
            "Input size invalid; Expected: "@ + decimal_text(expected as nat) + ", Actual: "@
                + decimal_text(actual as nat),
        ),
        Error::InvalidOutputChecksum { expected, actual } => Some(
            "Output checksum invalid; expected: "@ + hex_text(expected as nat) + ", Actual: "@
                + hex_text(actual as nat),
        ),
        Error::InvalidOutputSize { expected, actual } => Some(
            "Output size invalid; Expected: "@ + decimal_text(expected as nat) + ", Actual: "@
                + decimal_text(actual as nat),
        ),
        Error::IO(_) => None,
        Error::VariableIntegerOverflow(what) => Some(
            "A variable-length integer for '"@ + what@ + "' could not be represented"@,
        ),
        Error::OffsetOverflow(what) => Some("An offset for '"@ + what@ + "' overflowed"@),
        Error::InvalidMetadata(_) => None,
        Error::ZeroSizedHunk => Some("A run-length record has a size of zero"@),
    }
}

impl Error {
    /// The text that describes the error. For an I/O error it is the I/O
    /// error's description in `I/O error "..."`; for invalid metadata, the
    /// UTF-8 error's description after `Patch metadata invalid: `.
    pub fn message(&self) -> (r: String)
        ensures
            message_spec(*self) matches Some(text) ==> r@ == text,
            *self is IO ==> exists|t: Seq<char>| r@ == "I/O error \""@ + t + "\""@,
            *self is InvalidMetadata ==> exists|t: Seq<char>| r@ == "Patch metadata invalid: "@ + t,
    {
        let mut s = String::new();
        match self {
            Error::InvalidHeader => {
                push_text(&mut s, "Patch header invalid");
            },
            Error::InvalidInputChecksum { expected, actual } => {
                push_text(&mut s, "Input checksum invalid; expected: ");
                push_text(&mut s, hex_string(*expected).as_str());
                push_text(&mut s, ", Actual: ");
                push_text(&mut s, hex_string(*actual).as_str());
            },
            Error::InvalidInputSize { expected, actual } => {
                push_text(&mut s, "Input size invalid; Expected: ");
                push_text(&mut s, decimal_string(*expected).as_str());
                push_text(&mut s, ", Actual: ");
                push_text(&mut s, decimal_string(*actual).as_str());
            },
            Error::InvalidOutputChecksum { expected, actual } => {
                push_text(&mut s, "Output checksum invalid; expected: ");
                push_text(&mut s, hex_string(*expected).as_str());
                push_text(&mut s, ", Actual: ");
                push_text(&mut s, hex_string(*actual).as_str());
            },
            Error::InvalidOutputSize { expected, actual } => {
                push_text(&mut s, "Output size invalid; Expected: ");
                push_text(&mut s, decimal_string(*expected).as_str());
                push_text(&mut s, ", Actual: ");
                push_text(&mut s, decimal_string(*actual).as_str());
            },
            Error::IO(inner) => {
                push_text(&mut s, "I/O error \"");
                let text = io_error_string(inner);
                push_text(&mut s, text.as_str());
                push_text(&mut s, "\"");
                assert(s@ == "I/O error \""@ + text@ + "\""@);
            },
            Error::VariableIntegerOverflow(what) => {
                push_text(&mut s, "A variable-length integer for '");
                push_text(&mut s, what);
                push_text(&mut s, "' could not be represented");
            },
            Error::OffsetOverflow(what) => {
                push_text(&mut s, "An offset for '");
                push_text(&mut s, what);
                push_text(&mut s, "' overflowed");
            },
            Error::InvalidMetadata(inner) => {
                push_text(&mut s, "Patch metadata invalid: ");
                let text = utf8_error_string(inner);
                push_text(&mut s, text.as_str());
                assert(s@ == "Patch metadata invalid: "@ + text@);
            },
            Error::ZeroSizedHunk => {
                push_text(&mut s, "A run-length record has a size of zero");
            },
        }
        s
    }
}

} // verus!
