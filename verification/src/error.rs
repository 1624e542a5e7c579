//! The errors of the library.
use vstd::prelude::*;

verus! {

/// What can go wrong, with a message for the user.
#[derive(Debug, PartialEq, Eq)]
pub enum Error {
    /// A key or a signature could not be used.
    Crypto(String),
    /// A mask could not be generated.
    Mask(String),
    /// A tunnel session ended.
    Session(String),
    /// The operating system refused a call.
    Io(String),
}

/// The model of an error.
pub enum Failure {
    Crypto(Seq<char>),
    Mask(Seq<char>),
    Session(Seq<char>),
    Io(Seq<char>),
}

impl View for Error {
    type V = Failure;

    open spec fn view(&self) -> Failure {
        match *self {
            Error::Crypto(text) => Failure::Crypto(text@),
            Error::Mask(text) => Failure::Mask(text@),
            Error::Session(text) => Failure::Session(text@),
            Error::Io(text) => Failure::Io(text@),
        }
    }
}

} // verus!
