//! Errors of the library.
use vstd::prelude::*;

verus! {

/// What a byte reader failed on.
#[derive(Debug, Clone, Copy, PartialEq, Eq, Structural)]
pub enum ErrorKind {
    /// The input ended too early.
    Eof,
}

/// How a parser failed.
#[derive(Debug)]
pub enum NomErr<E> {
    /// There was not enough data to decide.
    Incomplete,
    /// The parser failed, another one may be tried.
    Error(E),
    /// The parser failed for good.
    Failure(E),
}

/// Error of a dictionary parser.
#[derive(Debug)]
pub enum SudachiNomError<I> {
    /// A string is truncated or is no valid UTF-16.
    Utf16String,
    /// A byte reader failed at the given input.
    Nom(I, ErrorKind),
}

/// Result of a dictionary parser: the rest of the input and the parsed value.
pub type SudachiNomResult<I, O> = Result<(I, O), NomErr<SudachiNomError<I>>>;

/// Error of the configuration.
#[derive(Debug)]
pub enum ConfigError {
    /// A file does not have the expected format.
    InvalidFormat(String),
}

/// Error of the library.
#[derive(Debug)]
pub enum SudachiError {
    /// The line with the given index is malformed.
    InvalidDataFormat(usize, String),
    /// The configuration is wrong.
    ConfigError(ConfigError),
}

pub type SudachiResult<T> = Result<T, SudachiError>;

} // verus!
