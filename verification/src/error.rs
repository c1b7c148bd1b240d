//! Why a buffer could not be decoded or a value could not be encoded.

use vstd::prelude::*;

verus! {

#[derive(Clone, Copy, Debug, PartialEq, Eq, Structural)]
pub enum CodecError {
    /// The buffer ends before the field does.
    UnexpectedEof,
    /// A reliability byte outside 0 to 7.
    UnknownReliability(u8),
    /// The sixteen bytes that mark an offline packet are not the expected ones.
    BadMagic,
    /// A string whose bytes are not UTF-8.
    InvalidString,
    /// An address whose version byte is neither 4 nor 6.
    UnknownAddressVersion(u8),
    /// A value that the field the format gives it cannot hold.
    OutOfRange,
    /// A split message of which a piece has not arrived.
    MissingFragment,
}

} // verus!
