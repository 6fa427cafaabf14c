//! A reversible text-to-index codec: text is turned into a stream of
//! integer token indices plus a per-segment dictionary, and reconstructed
//! byte for byte from those artifacts. Large inputs are processed in
//! bounded segments that always end on a character boundary.
use vstd::prelude::*;

pub mod b64;
pub mod chunk;
pub mod codec;
pub mod dictionary;
pub mod numfmt;
pub mod process;
pub mod roundtrip;
pub mod strings;
pub mod tokenize;
pub mod utf8x;

verus! {
/// Reserved escape byte standing for a tab character.
pub const TAB_ESCAPE: u8 = 0x01;

/// Reserved escape byte that brackets an encoded space-run length.
pub const SPACE_ESCAPE: u8 = 0x02;

/// Reserved escape byte standing for a newline character.
pub const NEWLINE_ESCAPE: u8 = 0x03;

/// Reserved escape byte that opens an encoded non-ASCII character.
pub const B64_PREFIX: u8 = 0x04;

/// Reserved escape byte that closes an encoded non-ASCII character.
pub const B64_SUFFIX: u8 = 0x05;

/// True when the byte is one of the five reserved escape bytes.
pub open spec fn is_reserved_byte(b: u8) -> bool {
    b == TAB_ESCAPE || b == SPACE_ESCAPE || b == NEWLINE_ESCAPE || b == B64_PREFIX || b
        == B64_SUFFIX
}

/// Whether a byte is one of the reserved escape bytes.
pub fn byte_is_reserved(b: u8) -> (r: bool)
    ensures
        r == is_reserved_byte(b),
{
    b == TAB_ESCAPE || b == SPACE_ESCAPE || b == NEWLINE_ESCAPE || b == B64_PREFIX || b
        == B64_SUFFIX
}

} // verus!
