//! The error taxonomy of parsing and construction. Every error is terminal
//! for the attempt that raised it and carries the offending value where
//! there is one.

use vstd::prelude::*;

verus! {

/// The mathematical model of an error: the same variants over character
/// sequences.
pub enum ErrKind {
    InvalidScheme(Seq<char>),
    InvalidType(Seq<char>),
    InvalidKey(Seq<char>),
    MissingName,
    InvalidNamespaceComponent(Seq<char>),
    MissingScheme,
    MissingType,
    InvalidSubpathSegment(Seq<char>),
    Decoding,
}

/// An error raised while decomposing a purl or building one.
#[derive(Debug)]
pub enum Error {
    /// The token before the first `:` is not `pkg`.
    InvalidScheme(String),
    /// The type fails the type grammar.
    InvalidType(String),
    /// A qualifier key fails the key grammar.
    InvalidKey(String),
    /// The name is empty after trimming.
    MissingName,
    /// A namespace component is empty or holds `/` after decoding.
    InvalidNamespaceComponent(String),
    /// No `:` occurs in the input.
    MissingScheme,
    /// No `/` follows the scheme, so no type can be cut off.
    MissingType,
    /// A subpath segment is empty, `.` or `..` after decoding.
    InvalidSubpathSegment(String),
    /// Percent-decoded bytes are not valid UTF-8.
    DecodingError,
}

impl View for Error {
    type V = ErrKind;

    open spec fn view(&self) -> ErrKind {
        match self {
            Error::InvalidScheme(s) => ErrKind::InvalidScheme(s@),
            Error::InvalidType(s) => ErrKind::InvalidType(s@),
            Error::InvalidKey(s) => ErrKind::InvalidKey(s@),
            Error::MissingName => ErrKind::MissingName,
            Error::InvalidNamespaceComponent(s) => ErrKind::InvalidNamespaceComponent(s@),
            Error::MissingScheme => ErrKind::MissingScheme,
            Error::MissingType => ErrKind::MissingType,
            Error::InvalidSubpathSegment(s) => ErrKind::InvalidSubpathSegment(s@),
            Error::DecodingError => ErrKind::Decoding,
        }
    }
}

} // verus!
