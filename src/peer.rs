//! The compact peer list: six bytes per peer, four address octets in
//! network order and a big-endian port.
use vstd::prelude::*;

use crate::error::Error;

verus! {

/// An IPv4 peer address.
#[derive(Debug, Clone, Copy, PartialEq, Eq)]
pub struct PeerAddress {
    pub ip: [u8; 4],
    pub port: u16,
}

/// An ordered list of peer addresses.
#[derive(Debug)]
pub struct Peers(pub Vec<PeerAddress>);

/// The six bytes that stand for one peer.
pub open spec fn peer_bytes(p: PeerAddress) -> Seq<u8> {
    p.ip@ + seq![(p.port / 256) as u8, (p.port % 256) as u8]
}

/// The compact form of a list of peers.
pub open spec fn compact_bytes(ps: Seq<PeerAddress>) -> Seq<u8>
    decreases ps.len(),
{
    if ps.len() == 0 {
        Seq::empty()
    } else {
        compact_bytes(ps.drop_last()) + peer_bytes(ps.last())
    }
}

/// `ps` is what the compact bytes `v` list, one peer per six bytes.
pub open spec fn compact_lists(v: Seq<u8>, ps: Seq<PeerAddress>) -> bool {
    &&& v.len() == 6 * ps.len()
    &&& forall|i: int| 0 <= i < ps.len() ==> peer_bytes(#[trigger] ps[i]) == v.subrange(6 * i, 6 * i + 6)
}

/// Decoding compact bytes and encoding the peers again gives the same bytes.
pub proof fn lemma_compact_round_trip(v: Seq<u8>, ps: Seq<PeerAddress>)
    requires
        compact_lists(v, ps),
    ensures
        compact_bytes(ps) == v,
    decreases ps.len(),
{
    if ps.len() == 0 {
        assert(v =~= Seq::<u8>::empty());
    } else {
        let n = ps.len() - 1;
        let w = v.subrange(0, 6 * n);
        let qs = ps.drop_last();
        assert forall|i: int| 0 <= i < qs.len() implies peer_bytes(#[trigger] qs[i]) == w.subrange(
            6 * i,
            6 * i + 6,
        ) by {
            assert(qs[i] == ps[i]);
            assert(w.subrange(6 * i, 6 * i + 6) =~= v.subrange(6 * i, 6 * i + 6));
        }
        lemma_compact_round_trip(w, qs);
        assert(peer_bytes(ps[n]) == v.subrange(6 * n, 6 * n + 6));
        assert(v =~= w + v.subrange(6 * n, 6 * n + 6));
    }
}

impl Peers {
    /// Reads a compact peer list; a length that is not a multiple of six is
    /// refused.
    pub fn from_compact(v: &[u8]) -> (r: Result<Peers, Error>)
        ensures
            v@.len() % 6 != 0 ==> r == Err::<Peers, Error>(Error::Protocol),
            v@.len() % 6 == 0 ==> (r matches Ok(p) && compact_lists(v@, p.0@)),
    {
        if v.len() % 6 != 0 {
            return Err(Error::Protocol);
        }
        let len = v.len();
        let n = len / 6;
        assert(6 * n == v@.len());
        let mut out: Vec<PeerAddress> = Vec::new();
        let mut i: usize = 0;
        while i < n
            invariant
                6 * n == v@.len(),
                len == v@.len(),
                i <= n,
                out@.len() == i,
                forall|j: int| 0 <= j < i ==> peer_bytes(#[trigger] out@[j]) == v@.subrange(6 * j, 6 * j + 6),
            decreases n - i,
        {
            assert(6 * i + 6 <= 6 * n);
            let k = i * 6;
            let ip: [u8; 4] = [v[k], v[k + 1], v[k + 2], v[k + 3]];
            let hi = v[k + 4];
            let lo = v[k + 5];
            let port: u16 = (hi as u16) * 256 + (lo as u16);
            let p = PeerAddress { ip, port };
            assert(port / 256 == hi && port % 256 == lo);
            assert(peer_bytes(p) =~= v@.subrange(6 * i, 6 * i + 6));
            out.push(p);
            i += 1;
        }
        Ok(Peers(out))
    }

    /// The compact form of this list.
    pub fn to_compact(&self) -> (r: Vec<u8>)
        ensures
            r@ == compact_bytes(self.0@),
    {
        let mut out: Vec<u8> = Vec::new();
        let mut i: usize = 0;
        while i < self.0.len()
            invariant
                i <= self.0@.len(),
                out@ == compact_bytes(self.0@.subrange(0, i as int)),
            decreases self.0.len() - i,
        {
            let p = self.0[i];
            out.push(p.ip[0]);
            out.push(p.ip[1]);
            out.push(p.ip[2]);
            out.push(p.ip[3]);
            out.push((p.port / 256) as u8);
            out.push((p.port % 256) as u8);
            proof {
                let s = self.0@.subrange(0, i + 1);
                assert(s.drop_last() =~= self.0@.subrange(0, i as int));
                assert(s.last() == p);
            }
            assert(out@ =~= compact_bytes(self.0@.subrange(0, i + 1)));
            i += 1;
        }
        assert(self.0@.subrange(0, i as int) =~= self.0@);
        out
    }
}

} // verus!
