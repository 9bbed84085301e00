use bittorrent_starter_rust::{
    tracker_url, urlencode, Error, Handshake, PeerAddress, Peers, TrackerResponse,
};

#[test]
fn compact_list_of_twelve_bytes_has_two_peers() {
    let raw = [192, 168, 1, 10, 0x1a, 0xe1, 10, 0, 0, 1, 0, 80];
    let peers = Peers::from_compact(&raw).unwrap();
    assert_eq!(peers.0.len(), 2);
    assert_eq!(peers.0[0], PeerAddress { ip: [192, 168, 1, 10], port: 6881 });
    assert_eq!(peers.0[1], PeerAddress { ip: [10, 0, 0, 1], port: 80 });
    assert_eq!(peers.to_compact(), raw.to_vec());
}

#[test]
fn compact_list_of_thirteen_bytes_is_refused() {
    let raw = [0u8; 13];
    assert_eq!(Peers::from_compact(&raw).unwrap_err(), Error::Protocol);
    assert_eq!(Peers::from_compact(&[]).unwrap().0.len(), 0);
}

#[test]
fn percent_escapes_every_byte() {
    let mut id = [0u8; 20];
    id[0] = 0xab;
    id[1] = b'A';
    id[19] = 0x0f;
    let s = urlencode(&id);
    assert_eq!(s.len(), 60);
    assert!(s.starts_with("%ab%41%00"));
    assert!(s.ends_with("%00%0f"));
}

#[test]
fn builds_announce_url() {
    let id = [0x12u8; 20];
    let url = tracker_url("http://t.test/announce", "peer_id=x&port=6881", &id);
    assert_eq!(url, format!("http://t.test/announce?peer_id=x&port=6881&info_hash={}", "%12".repeat(20)));
}

#[test]
fn parses_tracker_reply() {
    let mut body = b"d8:intervali1800e5:peers12:".to_vec();
    body.extend([1, 2, 3, 4, 0x1a, 0xe1, 5, 6, 7, 8, 0x1a, 0xe2]);
    body.push(b'e');
    let r = TrackerResponse::from_bencode(&body).unwrap();
    assert_eq!(r.interval, 1800);
    assert_eq!(r.peers.0.len(), 2);
    assert_eq!(r.peers.0[1], PeerAddress { ip: [5, 6, 7, 8], port: 6882 });
}

#[test]
fn refuses_bad_tracker_replies() {
    assert_eq!(TrackerResponse::from_bencode(b"d8:intervali1ee").unwrap_err(), Error::Protocol);
    assert_eq!(TrackerResponse::from_bencode(b"d5:peers0:e").unwrap_err(), Error::Protocol);
    assert_eq!(
        TrackerResponse::from_bencode(b"d8:intervali1e5:peers7:abcdefge").unwrap_err(),
        Error::Protocol
    );
    assert_eq!(
        TrackerResponse::from_bencode(b"d8:intervali-1e5:peers0:e").unwrap_err(),
        Error::Protocol
    );
    assert_eq!(TrackerResponse::from_bencode(b"d8:interval").unwrap_err(), Error::Format);
}

fn agreed_buffer() -> Vec<u8> {
    let mut b = vec![19u8];
    b.extend(b"BitTorrent protocol");
    b.extend([0u8; 8]);
    b.extend([7u8; 20]);
    b.extend((1u8..=20).collect::<Vec<u8>>());
    b
}

#[test]
fn handshake_accepts_agreed_buffer() {
    let b = agreed_buffer();
    assert_eq!(b.len(), 68);
    let h = Handshake::from_bytes(&b).unwrap();
    let expected: Vec<u8> = (1u8..=20).collect();
    assert_eq!(h.peer_id.to_vec(), expected);
    assert_eq!(h.info_hash, [7u8; 20]);
    assert_eq!(h.to_bytes(), b);
}

#[test]
fn handshake_rejects_altered_protocol_name() {
    let mut b = agreed_buffer();
    b[5] = b'x';
    assert_eq!(Handshake::from_bytes(&b).unwrap_err(), Error::Protocol);
    let mut b = agreed_buffer();
    b[0] = 18;
    assert_eq!(Handshake::from_bytes(&b).unwrap_err(), Error::Protocol);
    assert_eq!(Handshake::from_bytes(&agreed_buffer()[..67]).unwrap_err(), Error::Protocol);
}

#[test]
fn handshake_wire_layout() {
    let h = Handshake::new([9u8; 20], *b"00112233445566778899");
    let bytes = h.to_bytes();
    assert_eq!(bytes.len(), 68);
    assert_eq!(bytes[0], 19);
    assert_eq!(&bytes[1..20], b"BitTorrent protocol");
    assert_eq!(&bytes[20..28], &[0u8; 8]);
    assert_eq!(&bytes[28..48], &[9u8; 20]);
    assert_eq!(&bytes[48..68], b"00112233445566778899");
    let back = Handshake::from_bytes(&bytes).unwrap();
    assert_eq!(back, h);
}
