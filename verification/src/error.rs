//! Why path validation fails.

use vstd::prelude::*;
use vstd::string::StringExecFns;

verus! {

/// Why path validation failed.
#[derive(Debug, PartialEq, Eq)]
pub enum PathError {
    /// A certificate could not be parsed.
    Parse(String),
    /// A certificate in the chain is revoked (`dbx`).
    Revoked,
    /// A certificate is outside its validity window at the supplied time.
    Expired,
    /// No issuer for some certificate could be found among intermediates/anchors.
    NoIssuer,
    /// An issuer's signature over a child did not verify.
    BadSignature,
    /// The chain exceeded the maximum length without reaching an anchor.
    ChainTooLong,
    /// A non-leaf certificate is not a CA (basic constraints).
    NotACa,
}

impl Clone for PathError {
    fn clone(&self) -> (copy: Self)
        ensures
            copy == *self,
    {
        match self {
            PathError::Parse(message) => PathError::Parse(message.clone()),
            PathError::Revoked => PathError::Revoked,
            PathError::Expired => PathError::Expired,
            PathError::NoIssuer => PathError::NoIssuer,
            PathError::BadSignature => PathError::BadSignature,
            PathError::ChainTooLong => PathError::ChainTooLong,
            PathError::NotACa => PathError::NotACa,
        }
    }
}

/// What `{:?}` writes for the string `s`: the string in quotes, with escapes.
pub uninterp spec fn quoted(s: Seq<char>) -> Seq<char>;

/// Formats a string with `{:?}`, that is with `<str as core::fmt::Debug>::fmt`.
///
/// Trusted: the text depends on the characters of `s` alone.
#[verifier::external_body]
fn quote(s: &str) -> (text: String)
    ensures
        text@ == quoted(s@),
{
    format!("{:?}", s)
}

impl PathError {
    /// The text of the error: the variant's name and, for a parse failure, the
    /// quoted message in parentheses.
    pub open spec fn text(self) -> Seq<char> {
        match self {
            PathError::Parse(message) => "Parse("@ + quoted(message@) + ")"@,
            PathError::Revoked => "Revoked"@,
            PathError::Expired => "Expired"@,
            PathError::NoIssuer => "NoIssuer"@,
            PathError::BadSignature => "BadSignature"@,
            PathError::ChainTooLong => "ChainTooLong"@,
            PathError::NotACa => "NotACa"@,
        }
    }

    /// Renders the error for display.
    pub fn to_string(&self) -> (text: String)
        ensures
            text@ == self.text(),
    {
        match self {
            PathError::Parse(message) => {
                let mut text: String = "Parse(".to_owned();
                text.append(quote(message.as_str()).as_str());
                text.append(")");
                text
            },
            PathError::Revoked => "Revoked".to_owned(),
            PathError::Expired => "Expired".to_owned(),
            PathError::NoIssuer => "NoIssuer".to_owned(),
            PathError::BadSignature => "BadSignature".to_owned(),
            PathError::ChainTooLong => "ChainTooLong".to_owned(),
            PathError::NotACa => "NotACa".to_owned(),
        }
    }
}

} // verus!
