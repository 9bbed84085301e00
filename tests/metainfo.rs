use bittorrent_starter_rust::{Error, Hashes, Keys, Torrent};

fn pieces() -> Vec<u8> {
    (0u8..20).collect()
}

fn single_file_doc() -> Vec<u8> {
    let mut d = b"d8:announce22:http://tracker.test/an4:infod6:lengthi92063e4:name10:sample.txt12:piece lengthi32768e6:pieces20:".to_vec();
    d.extend(pieces());
    d.extend(b"ee");
    d
}

fn single_file_doc_reordered() -> Vec<u8> {
    let mut d = b"d4:infod6:pieces20:".to_vec();
    d.extend(pieces());
    d.extend(b"4:name10:sample.txt12:piece lengthi32768e6:lengthi92063e7:comment2:hie8:announce22:http://tracker.test/ane".to_vec());
    d
}

#[test]
fn loads_single_file_document() {
    let t = Torrent::from_bytes(&single_file_doc()).unwrap();
    assert_eq!(t.announce, "http://tracker.test/an");
    assert_eq!(t.info.name, "sample.txt");
    assert_eq!(t.info.plength, 32768);
    assert_eq!(t.info.pieces.0.len(), 1);
    assert_eq!(t.info.pieces.0[0].to_vec(), pieces());
    assert!(matches!(t.info.keys, Keys::SingleFile { length: 92063 }));
}

#[test]
fn identifier_is_sha1_of_info_section() {
    let t = Torrent::from_bytes(&single_file_doc()).unwrap();
    let expected: [u8; 20] = [
        87, 189, 144, 174, 237, 107, 250, 47, 98, 239, 116, 170, 212, 1, 235, 194, 216, 208, 53,
        108,
    ];
    assert_eq!(t.info_hash(), expected);
}

#[test]
fn identifier_is_stable_across_loads() {
    let a = Torrent::from_bytes(&single_file_doc()).unwrap();
    let b = Torrent::from_bytes(&single_file_doc()).unwrap();
    assert_eq!(a.info_hash(), b.info_hash());
    assert_eq!(a.info_hash(), a.info_hash());
}

#[test]
fn identifier_ignores_key_order() {
    let a = Torrent::from_bytes(&single_file_doc()).unwrap();
    let b = Torrent::from_bytes(&single_file_doc_reordered()).unwrap();
    assert_eq!(a.info_hash(), b.info_hash());
}

#[test]
fn info_encoding_is_canonical() {
    let t = Torrent::from_bytes(&single_file_doc()).unwrap();
    let mut expected = b"d6:lengthi92063e4:name10:sample.txt12:piece lengthi32768e6:pieces20:".to_vec();
    expected.extend(pieces());
    expected.push(b'e');
    assert_eq!(t.info.encode(), expected);
}

#[test]
fn loads_multi_file_document() {
    let mut d = b"d8:announce3:url4:infod5:filesld6:lengthi5e4:pathl1:a5:b.bineed6:lengthi7e4:pathl1:ceee4:name3:dir12:piece lengthi16e6:pieces20:".to_vec();
    d.extend(pieces());
    d.extend(b"ee");
    let t = Torrent::from_bytes(&d).unwrap();
    match &t.info.keys {
        Keys::MultiFile { files } => {
            assert_eq!(files.len(), 2);
            assert_eq!(files[0].length, 5);
            assert_eq!(files[0].path, vec!["a".to_string(), "b.bin".to_string()]);
            assert_eq!(files[1].length, 7);
            assert_eq!(files[1].path, vec!["c".to_string()]);
        }
        other => panic!("unexpected {:?}", other),
    }
    let mut expected = b"d5:filesld6:lengthi5e4:pathl1:a5:b.bineed6:lengthi7e4:pathl1:ceee4:name3:dir12:piece lengthi16e6:pieces20:".to_vec();
    expected.extend(pieces());
    expected.push(b'e');
    assert_eq!(t.info.encode(), expected);
}

#[test]
fn rejects_missing_or_ambiguous_layout() {
    let mut neither = b"d8:announce3:url4:infod4:name1:n12:piece lengthi1e6:pieces0:ee".to_vec();
    assert_eq!(Torrent::from_bytes(&neither).unwrap_err(), Error::Model);
    neither.clear();
    let both = b"d8:announce3:url4:infod5:filesle6:lengthi1e4:name1:n12:piece lengthi1e6:pieces0:ee";
    assert_eq!(Torrent::from_bytes(both).unwrap_err(), Error::Model);
}

#[test]
fn rejects_bad_fields() {
    let no_announce = b"d4:infod6:lengthi1e4:name1:n12:piece lengthi1e6:pieces0:ee";
    assert_eq!(Torrent::from_bytes(no_announce).unwrap_err(), Error::Model);
    let short_pieces = b"d8:announce3:url4:infod6:lengthi1e4:name1:n12:piece lengthi1e6:pieces19:aaaaaaaaaaaaaaaaaaaee";
    assert_eq!(Torrent::from_bytes(short_pieces).unwrap_err(), Error::Model);
    let negative = b"d8:announce3:url4:infod6:lengthi-1e4:name1:n12:piece lengthi1e6:pieces0:ee";
    assert_eq!(Torrent::from_bytes(negative).unwrap_err(), Error::Model);
    let not_utf8 = b"d8:announce3:url4:infod6:lengthi1e4:name1:\xff12:piece lengthi1e6:pieces0:ee";
    assert_eq!(Torrent::from_bytes(not_utf8).unwrap_err(), Error::Model);
    let not_dict = b"l3:urle";
    assert_eq!(Torrent::from_bytes(not_dict).unwrap_err(), Error::Model);
}

#[test]
fn rejects_malformed_document() {
    assert_eq!(Torrent::from_bytes(b"d8:announce").unwrap_err(), Error::Format);
    let mut trailing = single_file_doc();
    trailing.push(b'x');
    assert_eq!(Torrent::from_bytes(&trailing).unwrap_err(), Error::Format);
}

#[test]
fn splits_and_joins_piece_hashes() {
    let raw: Vec<u8> = (0u8..40).collect();
    let h = Hashes::from_bytes(&raw).unwrap();
    assert_eq!(h.0.len(), 2);
    assert_eq!(h.0[1][0], 20);
    assert_eq!(h.to_bytes(), raw);
    assert_eq!(Hashes::from_bytes(&raw[..39]).unwrap_err(), Error::Model);
    assert_eq!(Hashes::from_bytes(&[]).unwrap().0.len(), 0);
}
