//! The decode-error taxonomy shared by every stage of the decoder.

use vstd::prelude::*;

verus! {

/// The constant-pool variant a lookup expected to find at an index.
#[derive(Debug, Clone, Copy, PartialEq, Eq, Structural)]
pub enum ConstantKind {
    Utf8,
    ClassRef,
    NameAndType,
}

/// Every way a decode can fail. Decode-phase errors surface to the top-level
/// load call; none of them panics.
#[derive(Debug, Clone, Copy, PartialEq, Eq, Structural)]
pub enum DecodeError {
    /// The 4-byte magic marker at the start of the file is wrong.
    BadMagic,
    /// A read ran past the end of the byte buffer.
    TruncatedInput,
    /// A constant-pool entry carries a tag outside the recognized set.
    UnsupportedConstantTag { tag: u8 },
    /// A pool lookup found a slot holding a different variant (or no slot at
    /// all) where the caller expected `expected`.
    WrongConstantKind { index: u16, expected: ConstantKind },
    /// A field or method descriptor string does not follow the grammar.
    MalformedDescriptor,
    /// A UTF8 pool entry holds bytes that are not valid modified UTF-8.
    MalformedUtf8,
    /// A recognized attribute consumed a number of bytes different from its
    /// declared length.
    AttributeLengthMismatch,
}

} // verus!
