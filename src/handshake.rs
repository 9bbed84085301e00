//! The 68-byte handshake that opens a connection to a peer.
use vstd::prelude::*;

use crate::error::Error;

verus! {

/// Length of a handshake on the wire.
pub const HANDSHAKE_LEN: usize = 68;

/// The protocol name, `BitTorrent protocol`.
pub open spec fn protocol_name() -> Seq<u8> {
    seq![66u8, 105, 116, 84, 111, 114, 114, 101, 110, 116, 32, 112, 114, 111, 116, 111, 99, 111, 108]
}

/// The fields of a handshake, kept in wire order.
#[derive(Debug, Clone, Copy, PartialEq, Eq)]
pub struct Handshake {
    pub length: u8,
    pub bittorrent: [u8; 19],
    pub reserved: [u8; 8],
    pub info_hash: [u8; 20],
    pub peer_id: [u8; 20],
}

/// The wire form: length byte, protocol name, reserved bytes, resource
/// identifier, peer identifier.
pub open spec fn handshake_bytes(h: Handshake) -> Seq<u8> {
    seq![h.length] + h.bittorrent@ + h.reserved@ + h.info_hash@ + h.peer_id@
}

/// A buffer that a peer may answer with: 68 bytes whose length byte is 19
/// and whose protocol-name field is the protocol name.
pub open spec fn acceptable(b: Seq<u8>) -> bool {
    &&& b.len() == 68
    &&& b[0] == 19
    &&& b.subrange(1, 20) == protocol_name()
}

pub(crate) fn copy_array<const N: usize>(b: &[u8], start: usize) -> (r: [u8; N])
    requires
        start + N <= b@.len(),
    ensures
        r@ == b@.subrange(start as int, start + N),
{
    let mut r = [0u8; N];
    let mut i: usize = 0;
    let blen = b.len();
    while i < N
        invariant
            blen == b@.len(),
            start + N <= b@.len(),
            i <= N,
            r@.len() == N,
            r@.subrange(0, i as int) == b@.subrange(start as int, start + i),
        decreases N - i,
    {
        r[i] = b[start + i];
        assert(r@.subrange(0, i + 1) =~= b@.subrange(start as int, start + i + 1));
        i += 1;
    }
    assert(r@ =~= r@.subrange(0, N as int));
    r
}

fn protocol_name_bytes() -> (r: [u8; 19])
    ensures
        r@ == protocol_name(),
{
    let name: [u8; 19] = [
        66, 105, 116, 84, 111, 114, 114, 101, 110, 116, 32, 112, 114, 111, 116, 111, 99, 111, 108,
    ];
    assert(name@ =~= protocol_name());
    name
}

impl Handshake {
    /// The handshake this side sends for a resource and a local peer
    /// identifier.
    pub fn new(info_hash: [u8; 20], peer_id: [u8; 20]) -> (r: Handshake)
        ensures
            r.length == 19,
            r.bittorrent@ == protocol_name(),
            r.reserved@ == Seq::new(8, |i: int| 0u8),
            r.info_hash == info_hash,
            r.peer_id == peer_id,
    {
        let bittorrent = protocol_name_bytes();
        let reserved = [0u8; 8];
        assert(reserved@ =~= Seq::new(8, |i: int| 0u8));
        Handshake { length: 19, bittorrent, reserved, info_hash, peer_id }
    }

    /// The 68 bytes sent on the wire.
    pub fn to_bytes(&self) -> (r: Vec<u8>)
        ensures
            r@ == handshake_bytes(*self),
    {
        let mut out: Vec<u8> = Vec::new();
        out.push(self.length);
        let mut i: usize = 0;
        while i < 19
            invariant
                i <= 19,
                out@ == seq![self.length] + self.bittorrent@.subrange(0, i as int),
            decreases 19 - i,
        {
            out.push(self.bittorrent[i]);
            assert(out@ =~= seq![self.length] + self.bittorrent@.subrange(0, i + 1));
            i += 1;
        }
        assert(self.bittorrent@.subrange(0, 19) =~= self.bittorrent@);
        let ghost pre = out@;
        for j in 0..8
            invariant
                out@ == pre + self.reserved@.subrange(0, j as int),
        {
            out.push(self.reserved[j]);
            assert(out@ =~= pre + self.reserved@.subrange(0, j + 1));
        }
        assert(self.reserved@.subrange(0, 8) =~= self.reserved@);
        let ghost pre2 = out@;
        for j in 0..20
            invariant
                out@ == pre2 + self.info_hash@.subrange(0, j as int),
        {
            out.push(self.info_hash[j]);
            assert(out@ =~= pre2 + self.info_hash@.subrange(0, j + 1));
        }
        assert(self.info_hash@.subrange(0, 20) =~= self.info_hash@);
        let ghost pre3 = out@;
        for j in 0..20
            invariant
                out@ == pre3 + self.peer_id@.subrange(0, j as int),
        {
            out.push(self.peer_id[j]);
            assert(out@ =~= pre3 + self.peer_id@.subrange(0, j + 1));
        }
        assert(self.peer_id@.subrange(0, 20) =~= self.peer_id@);
        assert(out@ =~= handshake_bytes(*self));
        out
    }

    /// Reads the handshake a peer answered with. The buffer is refused
    /// unless it is acceptable; the other fields are taken as they stand.
    pub fn from_bytes(b: &[u8]) -> (r: Result<Handshake, Error>)
        ensures
            acceptable(b@) ==> (r matches Ok(h) && handshake_bytes(h) == b@ && h.peer_id@
                == b@.subrange(48, 68)),
            !acceptable(b@) ==> r == Err::<Handshake, Error>(Error::Protocol),
    {
        if b.len() != HANDSHAKE_LEN || b[0] != 19 {
            return Err(Error::Protocol);
        }
        let expected = protocol_name_bytes();
        let mut i: usize = 0;
        while i < 19
            invariant
                b@.len() == 68,
                i <= 19,
                expected@ == protocol_name(),
                b@.subrange(1, 1 + i) == protocol_name().subrange(0, i as int),
            decreases 19 - i,
        {
            if b[1 + i] != expected[i] {
                assert(b@.subrange(1, 20)[i as int] != protocol_name()[i as int]);
                return Err(Error::Protocol);
            }
            assert(b@.subrange(1, 2 + i) =~= protocol_name().subrange(0, i + 1));
            i += 1;
        }
        assert(protocol_name().subrange(0, 19) =~= protocol_name());
        let h = Handshake {
            length: b[0],
            bittorrent: copy_array(b, 1),
            reserved: copy_array(b, 20),
            info_hash: copy_array(b, 28),
            peer_id: copy_array(b, 48),
        };
        assert(handshake_bytes(h) =~= b@);
        Ok(h)
    }
}

} // verus!
