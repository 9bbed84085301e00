//! The tracker exchange: the announce URL and the tracker's reply.
use vstd::prelude::*;

use crate::bencode::{
    decode_bencoded_value, dict_get, lemma_dict_view, lookup, parse, Bencode, Value,
};
use crate::error::Error;
use crate::peer::{compact_lists, Peers};

verus! {

/// The local parameters of an announce.
#[derive(Debug)]
pub struct TrackerRequest {
    pub peer_id: String,
    pub port: u16,
    pub uploaded: u64,
    pub downloaded: u64,
    pub left: u64,
    pub compact: u8,
}

/// What a tracker answers: when to announce again, and the peers it knows.
#[derive(Debug)]
pub struct TrackerResponse {
    pub interval: u64,
    pub peers: Peers,
}

/// Lower-case hexadecimal digit of a value below sixteen.
pub open spec fn hex_char(n: int) -> char {
    seq!['0', '1', '2', '3', '4', '5', '6', '7', '8', '9', 'a', 'b', 'c', 'd', 'e', 'f'][n]
}

/// Every byte written as `%` and two lower-case hexadecimal digits.
pub open spec fn percent_encoding(b: Seq<u8>) -> Seq<char>
    decreases b.len(),
{
    if b.len() == 0 {
        Seq::empty()
    } else {
        percent_encoding(b.drop_last()) + seq![
            '%',
            hex_char(b.last() as int / 16),
            hex_char(b.last() as int % 16),
        ]
    }
}

/// Relies on hex::encode: a byte becomes two lower-case digits, the high
/// half first.
#[verifier::external_body]
fn hex_byte(byte: u8) -> (r: String)
    ensures
        r@ == seq![hex_char(byte as int / 16), hex_char(byte as int % 16)],
{
    hex::encode([byte])
}

/// Percent-escapes every byte of a 20-byte identifier, printable or not.
pub fn urlencode(t: &[u8; 20]) -> (r: String)
    ensures
        r@ == percent_encoding(t@),
{
    let mut encoded = String::new();
    let mut i: usize = 0;
    assert(t@.subrange(0, 0) =~= Seq::<u8>::empty());
    while i < 20
        invariant
            i <= 20,
            t@.len() == 20,
            encoded@ == percent_encoding(t@.subrange(0, i as int)),
        decreases 20 - i,
    {
        let ghost before = encoded@;
        encoded.append("%");
        let byte = t[i];
        let h = hex_byte(byte);
        encoded.append(h.as_str());
        proof {
            reveal_strlit("%");
            assert("%"@ =~= seq!['%']);
            assert(byte == t@[i as int]);
            assert(encoded@ =~= before + seq!['%', hex_char(byte as int / 16), hex_char(byte as int % 16)]);
            let s = t@.subrange(0, i + 1);
            assert(s.drop_last() =~= t@.subrange(0, i as int));
            assert(s.last() == t[i as int]);
        }
        assert(encoded@ =~= percent_encoding(t@.subrange(0, i + 1)));
        i += 1;
    }
    assert(t@.subrange(0, 20) =~= t@);
    encoded
}

/// The announce URL: the tracker's address, the form-encoded request
/// parameters, and the percent-escaped identifier.
pub fn tracker_url(announce: &str, params: &str, info_hash: &[u8; 20]) -> (r: String)
    ensures
        r@ == announce@ + "?"@ + params@ + "&info_hash="@ + percent_encoding(info_hash@),
{
    let mut url = String::from_str(announce);
    url.append("?");
    url.append(params);
    url.append("&info_hash=");
    let escaped = urlencode(info_hash);
    url.append(escaped.as_str());
    url
}

pub open spec fn key_interval() -> Seq<u8> {
    seq![105u8, 110, 116, 101, 114, 118, 97, 108]
}

pub open spec fn key_peers() -> Seq<u8> {
    seq![112u8, 101, 101, 114, 115]
}

/// The interval and the packed peers of a reply, when it has both in the
/// right form: a non-negative integer, and bytes in whole six-byte groups.
pub open spec fn response_fields(b: Bencode) -> Option<(int, Seq<u8>)> {
    match b {
        Bencode::Dict(es) => match (lookup(es, key_interval()), lookup(es, key_peers())) {
            (Some(Bencode::Int(i)), Some(Bencode::Bytes(p))) => if i >= 0 && p.len() % 6 == 0 {
                Some((i, p))
            } else {
                None
            },
            _ => None,
        },
        _ => None,
    }
}

impl TrackerResponse {
    /// Reads a tracker's bencoded reply, which must be one dictionary and
    /// nothing after it.
    pub fn from_bencode(bytes: &[u8]) -> (r: Result<TrackerResponse, Error>)
        ensures
            match parse(bytes@) {
                None => r == Err::<TrackerResponse, Error>(Error::Format),
                Some((b, rest)) => if rest.len() > 0 {
                    r == Err::<TrackerResponse, Error>(Error::Format)
                } else {
                    match response_fields(b) {
                        Some((i, p)) => r matches Ok(t) && t.interval == i && compact_lists(
                            p,
                            t.peers.0@,
                        ),
                        None => r == Err::<TrackerResponse, Error>(Error::Protocol),
                    }
                },
            },
    {
        let (v, rest) = match decode_bencoded_value(bytes) {
            Ok(x) => x,
            Err(e) => {
                return Err(e);
            },
        };
        if rest.len() > 0 {
            return Err(Error::Format);
        }
        let es = match &v {
            Value::Dictionary(es) => es,
            _ => {
                return Err(Error::Protocol);
            },
        };
        proof {
            lemma_dict_view(*es);
        }
        let k_interval: Vec<u8> = vec![105, 110, 116, 101, 114, 118, 97, 108];
        let k_peers: Vec<u8> = vec![112, 101, 101, 114, 115];
        assert(k_interval@ =~= key_interval());
        assert(k_peers@ =~= key_peers());
        let interval = match dict_get(es, k_interval.as_slice()) {
            Some(Value::Integer(i)) => *i,
            _ => {
                return Err(Error::Protocol);
            },
        };
        let packed = match dict_get(es, k_peers.as_slice()) {
            Some(Value::ByteString(p)) => p,
            _ => {
                return Err(Error::Protocol);
            },
        };
        if interval < 0 {
            return Err(Error::Protocol);
        }
        match Peers::from_compact(packed.as_slice()) {
            Ok(peers) => Ok(TrackerResponse { interval: interval as u64, peers }),
            Err(e) => Err(e),
        }
    }
}

} // verus!
