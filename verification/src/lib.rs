//! Language-aware Git extensions: canonical printing of Rust, HTML and JSON,
//! node identity across versions, structural JSON merge and diff, and the
//! pkt-line protocol that Git's long-running filter speaks.

use vstd::prelude::*;

pub mod text;
pub mod config;
pub mod cst;
pub mod hash;
pub mod printer;
pub mod layout;
pub mod pktline;
pub mod html;
pub mod identity;
pub mod json;
pub mod merge;
pub mod diff;
pub mod clones;
pub mod blame;
pub mod filters;
pub mod setup;
pub mod drivers;

use crate::text::push_str;

verus! {

/// `std::io::Error`, carried opaque inside [`Error::Io`].
#[verifier::external_type_specification]
#[verifier::external_body]
pub struct ExIoError(std::io::Error);

/// Shared error type of the library.
#[derive(Debug)]
pub enum Error {
    /// An underlying I/O failure.
    Io(std::io::Error),
    /// Configuration could not be read or interpreted.
    Config(String),
    /// Source could not be parsed into a tree.
    Parsing(String),
    /// A tree could not be serialized.
    Serialization(String),
    /// Source could not be generated from a tree.
    Generation(String),
    /// A diff or merge driver failed.
    Driver(String),
}

impl Error {
    /// The human-readable rendering: a prefix naming the kind of error, then
    /// its message.
    pub fn to_string(&self) -> (r: String)
        ensures
            match self {
                Error::Io(_) => r@.len() >= "io error: "@.len() && r@.subrange(0, "io error: "@.len() as int) == "io error: "@,
                Error::Config(m) => r@ == "config error: "@ + m@,
                Error::Parsing(m) => r@ == "parse error: "@ + m@,
                Error::Serialization(m) => r@ == "serialization error: "@ + m@,
                Error::Generation(m) => r@ == "generation error: "@ + m@,
                Error::Driver(m) => r@ == "driver error: "@ + m@,
            },
    {
        let mut r = String::new();
        match self {
            Error::Io(e) => {
                push_str(&mut r, "io error: ");
                let detail = e.to_string();
                push_str(&mut r, detail.as_str());
                proof {
                    assert(r@.subrange(0, "io error: "@.len() as int) =~= "io error: "@);
                }
            },
            Error::Config(m) => {
                push_str(&mut r, "config error: ");
                push_str(&mut r, m.as_str());
            },
            Error::Parsing(m) => {
                push_str(&mut r, "parse error: ");
                push_str(&mut r, m.as_str());
            },
            Error::Serialization(m) => {
                push_str(&mut r, "serialization error: ");
                push_str(&mut r, m.as_str());
            },
            Error::Generation(m) => {
                push_str(&mut r, "generation error: ");
                push_str(&mut r, m.as_str());
            },
            Error::Driver(m) => {
                push_str(&mut r, "driver error: ");
                push_str(&mut r, m.as_str());
            },
        }
        r
    }

    /// The underlying I/O error, for an I/O failure.
    pub fn source(&self) -> (r: Option<&std::io::Error>)
        ensures
            match self {
                Error::Io(e) => r == Some(e),
                _ => r is None,
            },
    {
        match self {
            Error::Io(e) => Some(e),
            _ => None,
        }
    }
}

impl From<std::io::Error> for Error {
    fn from(e: std::io::Error) -> (r: Self) {
        Error::Io(e)
    }
}

impl vstd::std_specs::convert::FromSpecImpl<std::io::Error> for Error {
    open spec fn obeys_from_spec() -> bool {
        true
    }

    open spec fn from_spec(e: std::io::Error) -> Self {
        Error::Io(e)
    }
}

} // verus!
