//! Errors and configuration.

use vstd::prelude::*;
use crate::decode::LenType;

verus! {

/// Errors of the value layer.
#[derive(Debug, Clone, PartialEq, Eq)]
pub enum Error {
    /// A str payload read as text was not valid utf8.
    EInvalidUtf8,
    /// The input did not have the expected shape.
    EDecode {
        /// What was expected.
        expected: String,
        /// What was found instead.
        got: String,
    },
    /// A value that the format cannot represent, such as a length beyond
    /// `u32::MAX`; or a failure reported by an outside collaborator.
    EOther(String),
}

impl Error {
    /// The error for input that ended where a value was expected.
    pub fn unexpected_eof() -> (r: Error)
        ensures
            r matches Error::EDecode { expected, got } && expected@ == "Marker"@ && got@
                == "UnexpectedEOF"@,
    {
        Error::EDecode { expected: "Marker".to_owned(), got: "UnexpectedEOF".to_owned() }
    }
}

/// The one configuration option: how deeply containers may nest while a
/// value tree is built.
#[derive(Debug, Clone)]
pub struct Config {
    /// Maximum container depth.
    pub max_depth: usize,
}

pub const DEFAULT_MAX_DEPTH: usize = 1024;

impl Default for Config {
    fn default() -> (r: Config)
        ensures
            r.max_depth == DEFAULT_MAX_DEPTH,
    {
        Config { max_depth: DEFAULT_MAX_DEPTH }
    }
}

/// The decimal digits of `n`.
pub open spec fn digits(n: nat) -> Seq<char>
    decreases n,
{
    let ds = seq!['0', '1', '2', '3', '4', '5', '6', '7', '8', '9'];
    if n < 10 {
        seq![ds[n as int]]
    } else {
        digits(n / 10).push(ds[(n % 10) as int])
    }
}

/// `n` written in decimal, with a minus sign when negative.
pub open spec fn decimal(n: int) -> Seq<char> {
    if n < 0 {
        seq!['-'] + digits((-n) as nat)
    } else {
        digits(n as nat)
    }
}

/// What a decode error expects after a length `l` announcing a payload.
pub open spec fn bin_expected_text(l: int) -> Seq<char> {
    "Some(Bin("@ + decimal(l) + " bytes))"@
}

/// How a decode error names the length token `Len(t, l)` it found.
pub open spec fn len_token_text(t: LenType, l: int) -> Seq<char> {
    match t {
        LenType::Ext(x) => "Len(Ext("@ + decimal(x as int) + "), "@ + decimal(l) + " bytes)"@,
        LenType::Str => "Len("@ + "Str"@ + ", "@ + decimal(l) + " bytes)"@,
        _ => "Len("@ + "Bin"@ + ", "@ + decimal(l) + " bytes)"@,
    }
}

/// Relies on `format!` writing an integer in decimal.
#[verifier::external_body]
pub(crate) fn text_bin_expected(l: u32) -> (r: String)
    ensures
        r@ == bin_expected_text(l as int),
{
    format!("Some(Bin({} bytes))", l)
}

/// Relies on `format!` writing a `str` as it is and an integer in decimal.
#[verifier::external_body]
pub(crate) fn text_len(kind: &str, l: u32) -> (r: String)
    ensures
        r@ == "Len("@ + kind@ + ", "@ + decimal(l as int) + " bytes)"@,
{
    format!("Len({}, {} bytes)", kind, l)
}

/// Relies on `format!` writing integers in decimal.
#[verifier::external_body]
pub(crate) fn text_ext_len(t: i8, l: u32) -> (r: String)
    ensures
        r@ == "Len(Ext("@ + decimal(t as int) + "), "@ + decimal(l as int) + " bytes)"@,
{
    format!("Len(Ext({}), {} bytes)", t, l)
}

} // verus!
