use vstd::prelude::*;

verus! {

/// The ways an operation of this library can fail.
#[derive(Debug, Clone, Copy, PartialEq, Eq, Structural)]
pub enum Error {
    /// Malformed bencode: an unexpected byte, a truncated byte string, a
    /// non-string dictionary key, or an unterminated list or dictionary.
    Format,
    /// A metainfo document lacks a required field, has a field of the wrong
    /// kind, or has an ambiguous file layout.
    Model,
    /// A tracker reply or a handshake does not follow the protocol.
    Protocol,
}

} // verus!
