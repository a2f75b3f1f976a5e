use vstd::prelude::*;

verus! {

/// Errors reported by the core reader, writer and metadata model.
///
/// Malformed files, invalid arguments, unsupported features and incomplete
/// parses are told apart by the variant; the text names the violated rule.
#[derive(Debug, Clone, Copy, PartialEq, Eq)]
pub enum Error {
    /// The bytes do not form a valid ZIF structure.
    MalformedFile(&'static str),
    /// A caller-supplied argument is out of range or incoherent.
    InvalidInput(&'static str),
    /// The request is valid but beyond what this implementation supports.
    Unsupported(&'static str),
    /// The parse has not finished yet.
    Incomplete,
}

} // verus!
