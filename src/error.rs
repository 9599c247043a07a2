//! Error types of the library.
use vstd::prelude::*;

verus! {

#[verifier::external_type_specification]
#[verifier::external_body]
pub struct ExIoError(std::io::Error);

/// The error type of the library.
#[derive(Debug)]
pub enum Algs4Error {
    InvalidArgument(String),
    IoError(std::io::Error),
}

/// An argument outside what a function accepts, with a message that says why.
#[derive(Debug)]
pub struct InvalidArgument(pub String);

impl From<InvalidArgument> for Algs4Error {
    fn from(err: InvalidArgument) -> (r: Self)
        ensures
            r == Algs4Error::InvalidArgument(err.0),
    {
        Algs4Error::InvalidArgument(err.0)
    }
}

impl vstd::std_specs::convert::FromSpecImpl<InvalidArgument> for Algs4Error {
    open spec fn obeys_from_spec() -> bool {
        true
    }

    open spec fn from_spec(v: InvalidArgument) -> Self {
        Algs4Error::InvalidArgument(v.0)
    }
}

impl From<std::io::Error> for Algs4Error {
    fn from(err: std::io::Error) -> (r: Self)
        ensures
            r == Algs4Error::IoError(err),
    {
        Algs4Error::IoError(err)
    }
}

impl vstd::std_specs::convert::FromSpecImpl<std::io::Error> for Algs4Error {
    open spec fn obeys_from_spec() -> bool {
        true
    }

    open spec fn from_spec(v: std::io::Error) -> Self {
        Algs4Error::IoError(v)
    }
}

} // verus!
