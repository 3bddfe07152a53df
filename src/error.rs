//! The failures of a conversion.
use vstd::prelude::*;
use vstd::string::*;

verus! {

/// Why a conversion failed.
#[derive(Debug, Clone, PartialEq, Eq)]
pub enum Error {
    /// A key or value of an environment snapshot was not valid UTF-8: its raw bytes.
    InvalidUnicode(Vec<u8>),
    /// A required field had no matching pair: the field's name.
    MissingValue(String),
    /// Any other failure: a value that does not parse, a name or variant that does not match.
    Custom(String),
}

/// What `String::from_utf8_lossy` makes of the bytes `b`.
pub uninterp spec fn lossy_of(b: Seq<u8>) -> Seq<char>;

/// Relies on `String::from_utf8_lossy`: its text depends on the bytes alone.
#[verifier::external_body]
fn lossy_text(b: &Vec<u8>) -> (r: String)
    ensures
        r@ == lossy_of(b@),
{
    String::from_utf8_lossy(b.as_slice()).into_owned()
}

/// The text that describes an error.
pub open spec fn error_text(e: Error) -> Seq<char> {
    match e {
        Error::InvalidUnicode(raw) => "invalid unicode found in string: "@ + lossy_of(raw@),
        Error::MissingValue(field) => "missing value for "@ + field@,
        Error::Custom(msg) => msg@,
    }
}

impl Error {
    /// Describes the error in words.
    pub fn message(&self) -> (r: String)
        ensures
            r@ == error_text(*self),
    {
        match self {
            Error::InvalidUnicode(raw) => {
                let mut s = String::from_str("invalid unicode found in string: ");
                s.append(lossy_text(raw).as_str());
                s
            },
            Error::MissingValue(field) => {
                let mut s = String::from_str("missing value for ");
                s.append(field.as_str());
                s
            },
            Error::Custom(msg) => msg.clone(),
        }
    }
}

} // verus!
