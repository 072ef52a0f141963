//! Codecs for a hierarchical named-binary-tag document format and for the
//! wire primitives (varints, length-prefixed strings, fixed-width integers,
//! byte arrays, lists, maps) that network packets are assembled from.
//!
//! Every encoder states exactly which bytes it appends, every decoder states
//! exactly which prefix of the input it consumes and how the decoded value
//! re-encodes to that prefix, and every failure is a recoverable error value.
use vstd::prelude::*;

pub mod codec;
pub mod nums;
pub mod reader;
pub mod tag;
pub mod tree;
pub mod varint;
pub mod writer;

verus! {

/// The error taxonomy shared by the tree codec and the wire-primitive codec.
///
/// Every failure of this crate is one of these values; no input, however
/// malformed or truncated, causes a panic or an abort.
#[derive(Clone, Copy, Debug, PartialEq, Eq, Structural)]
pub enum CodecError {
    /// The underlying byte source ran out before a read completed.
    Eof,
    /// A tag discriminant byte was outside the valid range.
    BadDiscriminant,
    /// A string payload held bytes that are not valid UTF-8.
    BadStringBytes,
    /// A string was longer than the codec's maximum, on either side.
    StringTooLong,
    /// A boolean byte was neither 0 nor 1.
    BadBoolean,
    /// A varint ran past the maximum number of groups.
    VarintTooLong,
    /// A declared element count or length was negative.
    BadLength,
    /// A tree document nested deeper than the decoder's bound.
    DepthLimit,
    /// A tree value whose root is neither an end marker nor a compound.
    BadRoot,
    /// An empty list whose header records a nonzero element type: the
    /// layout admits such a document, but the in-memory list cannot carry
    /// an empty list's element type, so re-encoding it could not reproduce
    /// the bytes; it is rejected to keep the round trip byte-exact.
    BadListHeader,
    /// A compound holding two entries with one name; the data model keys a
    /// compound uniquely.
    DuplicateKey,
    /// A compressed document stream could not be decompressed.
    BadGzip,
    /// Reserved for consumers: a variant identifier matched no known case.
    UnexpectedVariant,
}

} // verus!
