//! LZW-style dictionary compression over a variable-width packed-bit codec.
//!
//! The crate has two layers. `bits` and `bitstream` form the packed-bit
//! codec: a bidirectional translation between byte streams and sequences of
//! fixed-width (1 to 16 bit) words, packed most-significant-bit first with no
//! gaps. `lzw` builds the dictionary coder on top of it: `encode` turns bytes
//! into dictionary codes, `decode` reverses that exactly, and
//! `compress`/`decompress` run the full pipeline down to packed bytes.
use vstd::prelude::*;

pub mod bits;
pub mod bitstream;
pub mod lzw;

verus! {

/// Everything that can go wrong in the codec: a word width outside 1..=16, a
/// word handed to the packed-bit writer that does not fit its width, a
/// dictionary that outgrew the code range of the chosen width, and a code
/// stream that names a code no dictionary entry is bound to.
#[derive(Clone, Copy, Debug, PartialEq, Eq)]
pub enum CodecError {
    InvalidWidth,
    WordTooLarge,
    CapacityExceeded,
    InvalidCode,
}

} // verus!
