use vstd::prelude::*;

verus! {

/// Errors occurring during Address parsing, formatting, or binary serialization
#[derive(Debug, Clone, PartialEq, Eq)]
pub enum AddressError {
    /// The scheme is not `mfas` (the offending scheme text)
    InvalidPrefix(String),
    /// The version field is not `v1` (the offending version text)
    InvalidVersion(String),
    /// The node type text names no node type
    UnknownNodeType(String),
    /// The hexadecimal payload holds a character that is no hex digit
    InvalidHex(String),
    /// The hexadecimal payload has an odd length in bytes
    OddLengthHex(usize),
    /// A non-data address with an empty payload
    EmptyPayload,
    /// The URI does not have exactly four `:`-separated fields
    MalformedUri(String),
    /// The binary form does not start with `MFAS`
    InvalidBinaryMagic([u8; 4]),
    /// The binary form carries another version than 1
    UnsupportedBinaryVersion(u8),
    /// The binary form carries an unknown type identifier
    UnknownBinaryTypeId(u8),
    /// The binary form is truncated or its length field does not match
    MalformedBinaryPayload,
}

} // verus!

verus! {

/// Errors occurring during Page creation, splitting, or reconstruction
#[derive(Debug, Clone, PartialEq, Eq)]
pub enum PageError {
    /// More than 4096 bytes (the length given)
    PageSizeExceeded(usize),
    /// No bytes at all
    EmptyPage,
    /// The address is not a page node
    NotAPageAddress,
    /// The page payload is shorter than its ten-byte header (the length given)
    InvalidPayloadLength(usize),
    /// The header's logical length and the content length differ
    LogicalLengthMismatch { expected: usize, actual: usize },
}

} // verus!

verus! {

/// Errors occurring during Node operations and deserialization
#[derive(Debug, Clone, PartialEq, Eq)]
pub enum NodeError {
    /// A sequence node without children
    EmptySequence,
    /// A repeat node with count zero
    ZeroRepeatCount,
    /// A slice node with length zero
    InvalidSliceRange { offset: u64, length: u64 },
    /// A node payload that is truncated (what is missing)
    InvalidPayload(String),
    /// The node has another type than expected
    TypeMismatch { expected: crate::address::NodeType, actual: crate::address::NodeType },
    /// A child address failed to decode
    Address(AddressError),
    /// A page failed to decode
    Page(PageError),
}

} // verus!

verus! {

/// Errors occurring during recursive resolution and evaluation
#[derive(Debug, Clone, PartialEq, Eq)]
pub enum ResolveError {
    /// An address occurs on its own resolution path (the path, as URIs joined by ` -> `)
    CycleDetected { path: String },
    /// The resolution path reached the depth limit
    MaxDepthExceeded { limit: usize, current: usize },
    /// The output would exceed the byte limit (the total it would reach)
    MaxOutputBytesExceeded { limit: u64, current: u64 },
    /// More nodes would be evaluated than the limit allows
    MaxNodeCountExceeded { limit: usize },
    /// Neither the store nor the address itself yields a node (the address URI)
    NodeNotFound(String),
    /// Writing the output failed
    IoError(String),
    /// An address error
    Address(AddressError),
    /// A node error
    Node(NodeError),
}

/// Core error types for the MFAS system
#[derive(Debug, Clone, PartialEq, Eq)]
pub enum CoreError {
    Address(AddressError),
    Page(PageError),
    Node(NodeError),
    Resolve(ResolveError),
    /// An input/output failure (its message)
    Io(String),
}

} // verus!
