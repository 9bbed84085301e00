//! A small client library for a peer-to-peer file-distribution protocol:
//! the bencode codec, the metainfo model, the tracker exchange and the
//! peer handshake.
pub mod bencode;
pub mod error;
pub mod handshake;
pub mod peer;
pub mod torrent;
pub mod tracker;

pub use bencode::{decode_bencoded_value, encode_bencoded_value, Value};
pub use error::Error;
pub use handshake::Handshake;
pub use peer::{PeerAddress, Peers};
pub use torrent::{File, Hashes, Info, Keys, Torrent};
pub use tracker::{tracker_url, urlencode, TrackerRequest, TrackerResponse};
