//! Error types shared by the signature codec.

use vstd::prelude::*;

verus! {

/// Kinds of errors
#[derive(Copy, Clone, Eq, PartialEq, Debug, Structural)]
pub enum ErrorKind {
    /// Input/output error
    Io,
    /// Malformatted or otherwise invalid cryptographic key
    KeyInvalid,
    /// Error parsing a file format or other data
    ParseError,
    /// Internal error within a cryptographic provider
    ProviderError,
    /// Signature is not valid
    SignatureInvalid,
}

/// The short description `ErrorKind::as_str` returns for each kind.
pub open spec fn kind_str(kind: ErrorKind) -> Seq<char> {
    match kind {
        ErrorKind::Io => "I/O error"@,
        ErrorKind::KeyInvalid => "invalid cryptographic key"@,
        ErrorKind::ParseError => "parse error"@,
        ErrorKind::ProviderError => "internal crypto provider error"@,
        ErrorKind::SignatureInvalid => "bad signature"@,
    }
}

impl ErrorKind {
    /// Obtain a string description of an error, without needing a formatter.
    pub fn as_str(self) -> (r: &'static str)
        ensures
            r@ == kind_str(self),
    {
        match self {
            ErrorKind::Io => "I/O error",
            ErrorKind::KeyInvalid => "invalid cryptographic key",
            ErrorKind::ParseError => "parse error",
            ErrorKind::ProviderError => "internal crypto provider error",
            ErrorKind::SignatureInvalid => "bad signature",
        }
    }
}

/// Error type: a kind plus an optional human-readable message naming the
/// structural check that failed.
#[derive(Debug)]
pub struct Error {
    kind: ErrorKind,
    description: Option<String>,
}

impl Error {
    /// The kind of this error, for contracts.
    pub closed spec fn kind_spec(&self) -> ErrorKind {
        self.kind
    }

    /// The optional message of this error, for contracts.
    pub closed spec fn desc_spec(&self) -> Option<Seq<char>> {
        match self.description {
            Some(d) => Some(d@),
            None => None,
        }
    }

    /// Create a new error object with an optional error message
    pub fn new(kind: ErrorKind, description: Option<&str>) -> (e: Self)
        ensures
            e.kind_spec() == kind,
            (match description {
                Some(d) => e.desc_spec() == Some(d@),
                None => e.desc_spec() is None,
            }),
    {
        let desc: Option<String> = match description {
            Some(d) => Some(String::from_str(d)),
            None => None,
        };
        Error { kind, description: desc }
    }

    /// Obtain the ErrorKind for this Error
    pub fn kind(&self) -> (k: ErrorKind)
        ensures
            k == self.kind_spec(),
    {
        self.kind
    }

    /// The error `From<ErrorKind>` builds: the given kind, no message.
    pub closed spec fn from_kind_spec(kind: ErrorKind) -> Error {
        Error { kind, description: None }
    }

    /// What conversion from a bare `ErrorKind` yields.
    pub proof fn lemma_from_kind(kind: ErrorKind)
        ensures
            Self::from_kind_spec(kind).kind_spec() == kind,
            Self::from_kind_spec(kind).desc_spec() is None,
    {
    }

    /// The stored message, if one was given.
    pub fn description_opt(&self) -> (d: Option<&str>)
        ensures
            (match self.desc_spec() {
                Some(m) => d matches Some(x) && x@ == m,
                None => d is None,
            }),
    {
        match &self.description {
            Some(d) => Some(d.as_str()),
            None => None,
        }
    }

    /// The error's message: the stored description if one was given, else the
    /// kind's fixed description.
    pub fn description(&self) -> (d: &str)
        ensures
            (match self.desc_spec() {
                Some(m) => d@ == m,
                None => d@ == kind_str(self.kind_spec()),
            }),
    {
        match &self.description {
            Some(d) => d.as_str(),
            None => self.kind.as_str(),
        }
    }
}

impl From<ErrorKind> for Error {
    /// An error of the given kind with no message.
    fn from(kind: ErrorKind) -> (e: Error) {
        Error { kind, description: None }
    }
}

impl vstd::std_specs::convert::FromSpecImpl<ErrorKind> for Error {
    open spec fn obeys_from_spec() -> bool {
        true
    }

    open spec fn from_spec(kind: ErrorKind) -> Error {
        Error::from_kind_spec(kind)
    }
}

} // verus!
