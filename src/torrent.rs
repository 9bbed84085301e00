//! The metainfo model: a resource's name, piece size, piece hashes and file
//! layout, read from a bencoded document, and its identifier.
use sha1::Digest;
use vstd::prelude::*;
use vstd::slice::slice_to_vec;
use vstd::utf8::{encode_utf8, valid_utf8};

use crate::bencode::{
    bytes_encoding, decode_bencoded_value, dict_get, encoding, entries_encoding,
    item_views, items_encoding, lemma_dict_view, lemma_list_view, lookup, parse, push_bytes,
    push_decimal, Bencode, Value,
};
use crate::error::Error;
use crate::handshake::copy_array;

verus! {

pub open spec fn key_announce() -> Seq<u8> {
    seq![97u8, 110, 110, 111, 117, 110, 99, 101]
}

pub open spec fn key_info() -> Seq<u8> {
    seq![105u8, 110, 102, 111]
}

pub open spec fn key_name() -> Seq<u8> {
    seq![110u8, 97, 109, 101]
}

pub open spec fn key_piece_length() -> Seq<u8> {
    seq![112u8, 105, 101, 99, 101, 32, 108, 101, 110, 103, 116, 104]
}

pub open spec fn key_pieces() -> Seq<u8> {
    seq![112u8, 105, 101, 99, 101, 115]
}

pub open spec fn key_length() -> Seq<u8> {
    seq![108u8, 101, 110, 103, 116, 104]
}

pub open spec fn key_files() -> Seq<u8> {
    seq![102u8, 105, 108, 101, 115]
}

pub open spec fn key_path() -> Seq<u8> {
    seq![112u8, 97, 116, 104]
}

// ---------------------------------------------------------------------------
// Piece hashes
/// The piece hashes, twenty bytes each, in order.
#[derive(Debug)]
pub struct Hashes(pub Vec<[u8; 20]>);

/// The hashes laid end to end.
pub open spec fn hashes_bytes(hs: Seq<[u8; 20]>) -> Seq<u8>
    decreases hs.len(),
{
    if hs.len() == 0 {
        Seq::empty()
    } else {
        hashes_bytes(hs.drop_last()) + hs.last()@
    }
}

impl Hashes {
    /// Splits a byte string into 20-byte hashes; a length that is not a
    /// multiple of twenty is refused.
    pub fn from_bytes(v: &[u8]) -> (r: Result<Hashes, Error>)
        ensures
            v@.len() % 20 != 0 ==> r == Err::<Hashes, Error>(Error::Model),
            v@.len() % 20 == 0 ==> (r matches Ok(h) && hashes_bytes(h.0@) == v@ && h.0@.len()
                == v@.len() / 20),
    {
        let len = v.len();
        if len % 20 != 0 {
            return Err(Error::Model);
        }
        let n = len / 20;
        let mut out: Vec<[u8; 20]> = Vec::new();
        let mut i: usize = 0;
        assert(v@.subrange(0, 0) =~= Seq::<u8>::empty());
        while i < n
            invariant
                20 * n == v@.len(),
                len == v@.len(),
                i <= n,
                out@.len() == i,
                hashes_bytes(out@) == v@.subrange(0, 20 * i),
            decreases n - i,
        {
            assert(20 * i + 20 <= 20 * n);
            let k = i * 20;
            let h: [u8; 20] = copy_array(v, k);
            proof {
                let s = out@.push(h);
                assert(s.drop_last() =~= out@);
                assert(v@.subrange(0, 20 * i + 20) =~= v@.subrange(0, 20 * i) + h@);
            }
            out.push(h);
            i += 1;
        }
        assert(v@.subrange(0, 20 * n) =~= v@);
        Ok(Hashes(out))
    }

    /// The hashes laid end to end.
    pub fn to_bytes(&self) -> (r: Vec<u8>)
        ensures
            r@ == hashes_bytes(self.0@),
    {
        let mut out: Vec<u8> = Vec::new();
        let mut i: usize = 0;
        while i < self.0.len()
            invariant
                i <= self.0@.len(),
                out@ == hashes_bytes(self.0@.subrange(0, i as int)),
            decreases self.0.len() - i,
        {
            let h = self.0[i];
            let ghost pre = out@;
            for j in 0..20
                invariant
                    out@ == pre + h@.subrange(0, j as int),
            {
                out.push(h[j]);
                assert(out@ =~= pre + h@.subrange(0, j + 1));
            }
            proof {
                let s = self.0@.subrange(0, i + 1);
                assert(s.drop_last() =~= self.0@.subrange(0, i as int));
                assert(h@.subrange(0, 20) =~= h@);
            }
            i += 1;
        }
        assert(self.0@.subrange(0, i as int) =~= self.0@);
        out
    }
}

// ---------------------------------------------------------------------------
// The model
/// One file of a multi-file resource.
#[derive(Debug)]
pub struct File {
    pub length: u64,
    pub path: Vec<String>,
}

/// How the resource is laid out in files.
#[derive(Debug)]
pub enum Keys {
    SingleFile { length: u64 },
    MultiFile { files: Vec<File> },
}

/// The info section of a metainfo document.
#[derive(Debug)]
pub struct Info {
    pub name: String,
    pub plength: u64,
    pub pieces: Hashes,
    pub keys: Keys,
}

/// A metainfo document: the tracker's address and the info section.
#[derive(Debug)]
pub struct Torrent {
    pub announce: String,
    pub info: Info,
}

pub open spec fn text_bencode(s: String) -> Bencode {
    Bencode::Bytes(encode_utf8(s@))
}

pub open spec fn file_bencode(f: File) -> Bencode {
    Bencode::Dict(
        seq![
            (key_length(), Bencode::Int(f.length as int)),
            (key_path(), Bencode::List(f.path@.map_values(|s: String| text_bencode(s)))),
        ],
    )
}

pub open spec fn layout_entry(k: Keys) -> (Seq<u8>, Bencode) {
    match k {
        Keys::SingleFile { length } => (key_length(), Bencode::Int(length as int)),
        Keys::MultiFile { files } => (
            key_files(),
            Bencode::List(files@.map_values(|f: File| file_bencode(f))),
        ),
    }
}

/// The info section as a dictionary, keys in ascending order.
pub open spec fn info_bencode(i: Info) -> Bencode {
    Bencode::Dict(
        seq![
            layout_entry(i.keys),
            (key_name(), text_bencode(i.name)),
            (key_piece_length(), Bencode::Int(i.plength as int)),
            (key_pieces(), Bencode::Bytes(hashes_bytes(i.pieces.0@))),
        ],
    )
}

// What a document must hold
pub open spec fn is_text(b: Option<Bencode>) -> bool {
    b matches Some(Bencode::Bytes(s)) && valid_utf8(s)
}

pub open spec fn is_count(b: Option<Bencode>) -> bool {
    b matches Some(Bencode::Int(i)) && i >= 0
}

pub open spec fn valid_file(f: Bencode) -> bool {
    &&& f is Dict
    &&& is_count(lookup(f->Dict_0, key_length()))
    &&& lookup(f->Dict_0, key_path()) matches Some(Bencode::List(xs))
    &&& forall|j: int| 0 <= j < xs.len() ==> is_text(Some(#[trigger] xs[j]))
}

/// An info dictionary with a text name, a piece length, pieces in whole
/// 20-byte hashes, and exactly one of `length` (one file) and `files`.
pub open spec fn valid_info(b: Bencode) -> bool {
    &&& b is Dict
    &&& is_text(lookup(b->Dict_0, key_name()))
    &&& is_count(lookup(b->Dict_0, key_piece_length()))
    &&& lookup(b->Dict_0, key_pieces()) matches Some(Bencode::Bytes(p))
    &&& p.len() % 20 == 0
    &&& match (lookup(b->Dict_0, key_length()), lookup(b->Dict_0, key_files())) {
        (Some(l), None) => is_count(Some(l)),
        (None, Some(Bencode::List(fs))) => forall|j: int|
            0 <= j < fs.len() ==> valid_file(#[trigger] fs[j]),
        _ => false,
    }
}

/// A metainfo document: a dictionary with a text `announce` and a valid
/// `info`.
pub open spec fn valid_metainfo(b: Bencode) -> bool {
    &&& b is Dict
    &&& is_text(lookup(b->Dict_0, key_announce()))
    &&& lookup(b->Dict_0, key_info()) matches Some(i)
    &&& valid_info(i)
}

pub open spec fn file_core(f: Bencode) -> Bencode {
    Bencode::Dict(
        seq![
            (key_length(), lookup(f->Dict_0, key_length())->0),
            (key_path(), lookup(f->Dict_0, key_path())->0),
        ],
    )
}

/// The fields of an info dictionary that the model keeps, keys in
/// ascending order; other keys are left out.
pub open spec fn info_core(b: Bencode) -> Bencode {
    let es = b->Dict_0;
    let first = match lookup(es, key_length()) {
        Some(l) => (key_length(), l),
        None => (
            key_files(),
            Bencode::List(
                lookup(es, key_files())->0->List_0.map_values(|f: Bencode| file_core(f)),
            ),
        ),
    };
    Bencode::Dict(
        seq![
            first,
            (key_name(), lookup(es, key_name())->0),
            (key_piece_length(), lookup(es, key_piece_length())->0),
            (key_pieces(), lookup(es, key_pieces())->0),
        ],
    )
}

/// `t` is the model of the decoded document `b`.
pub open spec fn models(t: Torrent, b: Bencode) -> bool {
    &&& Some(text_bencode(t.announce)) == lookup(b->Dict_0, key_announce())
    &&& info_bencode(t.info) == info_core(lookup(b->Dict_0, key_info())->0)
}

// ---------------------------------------------------------------------------
// Loading
/// Relies on String::from_utf8: it accepts exactly the valid UTF-8 byte
/// strings, and the string it gives holds those bytes.
#[verifier::external_body]
fn utf8_string(bytes: Vec<u8>) -> (r: Option<String>)
    ensures
        r is Some <==> valid_utf8(bytes@),
        r matches Some(s) ==> encode_utf8(s@) == bytes@,
{
    String::from_utf8(bytes).ok()
}

pub open spec fn opt_view(v: Option<&Value>) -> Option<Bencode> {
    match v {
        Some(x) => Some(x@),
        None => None,
    }
}

fn text_of(v: Option<&Value>) -> (r: Option<String>)
    ensures
        r is Some <==> is_text(opt_view(v)),
        r matches Some(s) ==> Some(text_bencode(s)) == opt_view(v),
{
    match v {
        Some(Value::ByteString(b)) => utf8_string(slice_to_vec(b.as_slice())),
        _ => None,
    }
}

fn count_of(v: Option<&Value>) -> (r: Option<u64>)
    ensures
        r is Some <==> is_count(opt_view(v)),
        r matches Some(n) ==> Some(Bencode::Int(n as int)) == opt_view(v),
{
    match v {
        Some(Value::Integer(i)) => if *i >= 0 {
            Some(*i as u64)
        } else {
            None
        },
        _ => None,
    }
}

fn file_of(v: &Value) -> (r: Option<File>)
    ensures
        r is Some <==> valid_file(v@),
        r matches Some(f) ==> file_bencode(f) == file_core(v@),
{
    let es = match v {
        Value::Dictionary(es) => es,
        _ => {
            return None;
        },
    };
    proof {
        lemma_dict_view(*es);
    }
    let k_length: Vec<u8> = vec![108, 101, 110, 103, 116, 104];
    let k_path: Vec<u8> = vec![112, 97, 116, 104];
    assert(k_length@ =~= key_length());
    assert(k_path@ =~= key_path());
    let length = match count_of(dict_get(es, k_length.as_slice())) {
        Some(n) => n,
        None => {
            return None;
        },
    };
    let items = match dict_get(es, k_path.as_slice()) {
        Some(Value::List(items)) => items,
        _ => {
            return None;
        },
    };
    proof {
        lemma_list_view(*items);
    }
    let ghost xs = item_views(items@);
    let mut path: Vec<String> = Vec::new();
    let mut i: usize = 0;
    while i < items.len()
        invariant
            i <= items@.len(),
            xs == item_views(items@),
            v@ is Dict,
            lookup(v@->Dict_0, key_path()) == Some(Bencode::List(xs)),
            path@.len() == i,
            forall|j: int| 0 <= j < i ==> is_text(Some(#[trigger] xs[j])),
            forall|j: int| 0 <= j < i ==> text_bencode(#[trigger] path@[j]) == xs[j],
        decreases items.len() - i,
    {
        match text_of(Some(&items[i])) {
            Some(s) => {
                path.push(s);
            },
            None => {
                assert(xs[i as int] == items@[i as int]@);
                assert(!is_text(Some(xs[i as int])));
                proof {
                    if valid_file(v@) {
                        let ys = lookup(v@->Dict_0, key_path())->0->List_0;
                        assert(ys == xs);
                        assert(is_text(Some(ys[i as int])));
                    }
                }
                return None;
            },
        }
        i += 1;
    }
    let f = File { length, path };
    assert(f.path@.map_values(|s: String| text_bencode(s)) =~= xs);
    assert(file_bencode(f) =~= file_core(v@));
    Some(f)
}

fn info_of(v: &Value) -> (r: Option<Info>)
    ensures
        r is Some <==> valid_info(v@),
        r matches Some(i) ==> info_bencode(i) == info_core(v@),
{
    let es = match v {
        Value::Dictionary(es) => es,
        _ => {
            return None;
        },
    };
    proof {
        lemma_dict_view(*es);
    }
    let k_name: Vec<u8> = vec![110, 97, 109, 101];
    let k_plength: Vec<u8> = vec![112, 105, 101, 99, 101, 32, 108, 101, 110, 103, 116, 104];
    let k_pieces: Vec<u8> = vec![112, 105, 101, 99, 101, 115];
    let k_length: Vec<u8> = vec![108, 101, 110, 103, 116, 104];
    let k_files: Vec<u8> = vec![102, 105, 108, 101, 115];
    assert(k_name@ =~= key_name());
    assert(k_plength@ =~= key_piece_length());
    assert(k_pieces@ =~= key_pieces());
    assert(k_length@ =~= key_length());
    assert(k_files@ =~= key_files());
    let name = match text_of(dict_get(es, k_name.as_slice())) {
        Some(s) => s,
        None => {
            return None;
        },
    };
    let plength = match count_of(dict_get(es, k_plength.as_slice())) {
        Some(n) => n,
        None => {
            return None;
        },
    };
    let raw = match dict_get(es, k_pieces.as_slice()) {
        Some(Value::ByteString(p)) => p,
        _ => {
            return None;
        },
    };
    let pieces = match Hashes::from_bytes(raw.as_slice()) {
        Ok(h) => h,
        Err(_) => {
            return None;
        },
    };
    let length_field = dict_get(es, k_length.as_slice());
    let files_field = dict_get(es, k_files.as_slice());
    let keys = match (length_field, files_field) {
        (Some(l), None) => match count_of(Some(l)) {
            Some(n) => Keys::SingleFile { length: n },
            None => {
                return None;
            },
        },
        (None, Some(Value::List(items))) => {
            proof {
                lemma_list_view(*items);
            }
            let ghost fs = item_views(items@);
            let mut files: Vec<File> = Vec::new();
            let mut i: usize = 0;
            while i < items.len()
                invariant
                    i <= items@.len(),
                    fs == item_views(items@),
                    v@ is Dict,
                    lookup(v@->Dict_0, key_length()) is None,
                    lookup(v@->Dict_0, key_files()) == Some(Bencode::List(fs)),
                    files@.len() == i,
                    forall|j: int| 0 <= j < i ==> valid_file(#[trigger] fs[j]),
                    forall|j: int| 0 <= j < i ==> file_bencode(#[trigger] files@[j]) == file_core(
                        fs[j],
                    ),
                decreases items.len() - i,
            {
                match file_of(&items[i]) {
                    Some(f) => {
                        files.push(f);
                    },
                    None => {
                        assert(fs[i as int] == items@[i as int]@);
                        assert(!valid_file(fs[i as int]));
                        assert(!valid_info(v@));
                        return None;
                    },
                }
                i += 1;
            }
            assert(files@.map_values(|f: File| file_bencode(f)) =~= fs.map_values(
                |f: Bencode| file_core(f),
            ));
            Keys::MultiFile { files }
        },
        _ => {
            return None;
        },
    };
    let info = Info { name, plength, pieces, keys };
    assert(info_bencode(info) =~= info_core(v@));
    Some(info)
}

impl Torrent {
    /// Loads a metainfo document: one bencoded dictionary and nothing after
    /// it.
    pub fn from_bytes(bytes: &[u8]) -> (r: Result<Torrent, Error>)
        ensures
            match parse(bytes@) {
                None => r == Err::<Torrent, Error>(Error::Format),
                Some((b, rest)) => if rest.len() > 0 {
                    r == Err::<Torrent, Error>(Error::Format)
                } else if valid_metainfo(b) {
                    r matches Ok(t) && models(t, b)
                } else {
                    r == Err::<Torrent, Error>(Error::Model)
                },
            },
    {
        let (v, rest) = match decode_bencoded_value(bytes) {
            Ok(x) => x,
            Err(e) => {
                return Err(e);
            },
        };
        if rest.len() > 0 {
            return Err(Error::Format);
        }
        let es = match &v {
            Value::Dictionary(es) => es,
            _ => {
                return Err(Error::Model);
            },
        };
        proof {
            lemma_dict_view(*es);
        }
        let k_announce: Vec<u8> = vec![97, 110, 110, 111, 117, 110, 99, 101];
        let k_info: Vec<u8> = vec![105, 110, 102, 111];
        assert(k_announce@ =~= key_announce());
        assert(k_info@ =~= key_info());
        let announce = match text_of(dict_get(es, k_announce.as_slice())) {
            Some(s) => s,
            None => {
                return Err(Error::Model);
            },
        };
        let info = match dict_get(es, k_info.as_slice()) {
            Some(iv) => match info_of(iv) {
                Some(i) => i,
                None => {
                    return Err(Error::Model);
                },
            },
            None => {
                return Err(Error::Model);
            },
        };
        Ok(Torrent { announce, info })
    }
}

// ---------------------------------------------------------------------------
// The identifier
/// The SHA-1 digest of a byte string.
pub uninterp spec fn sha1_of(data: Seq<u8>) -> Seq<u8>;

/// Relies on sha1::Sha1 through digest::Digest::digest: the 20-byte SHA-1
/// digest of the data, which depends on the data alone.
#[verifier::external_body]
fn sha1_digest(data: &[u8]) -> (r: [u8; 20])
    ensures
        r@ == sha1_of(data@),
{
    sha1::Sha1::digest(data).into()
}

proof fn lemma_entries_cons(e: (Seq<u8>, Bencode), es: Seq<(Seq<u8>, Bencode)>)
    ensures
        entries_encoding(seq![e] + es) == bytes_encoding(e.0) + encoding(e.1) + entries_encoding(es),
{
    assert((seq![e] + es).drop_first() =~= es);
}

fn push_count(n: u64, out: &mut Vec<u8>)
    ensures
        final(out)@ == old(out)@ + encoding(Bencode::Int(n as int)),
{
    out.push(105);
    push_decimal(n, out);
    out.push(101);
    assert(final(out)@ =~= old(out)@ + encoding(Bencode::Int(n as int)));
}

fn push_text(s: &String, out: &mut Vec<u8>)
    ensures
        final(out)@ == old(out)@ + encoding(text_bencode(*s)),
{
    push_bytes(s.as_str().as_bytes(), out);
}

fn key_length_bytes() -> (r: Vec<u8>)
    ensures
        r@ == key_length(),
{
    let r: Vec<u8> = vec![108, 101, 110, 103, 116, 104];
    assert(r@ =~= key_length());
    r
}

fn encode_file(f: &File, out: &mut Vec<u8>)
    ensures
        final(out)@ == old(out)@ + encoding(file_bencode(*f)),
{
    let k_length = key_length_bytes();
    let k_path: Vec<u8> = vec![112, 97, 116, 104];
    assert(k_path@ =~= key_path());
    out.push(100);
    push_bytes(k_length.as_slice(), out);
    push_count(f.length, out);
    push_bytes(k_path.as_slice(), out);
    out.push(108);
    let ghost xs = f.path@.map_values(|s: String| text_bencode(s));
    let ghost pre = out@;
    let mut i: usize = 0;
    assert(xs.subrange(0, xs.len() as int) =~= xs);
    while i < f.path.len()
        invariant
            i <= f.path@.len(),
            xs == f.path@.map_values(|s: String| text_bencode(s)),
            pre + items_encoding(xs) == out@ + items_encoding(xs.subrange(i as int, xs.len() as int)),
        decreases f.path.len() - i,
    {
        let ghost o = out@;
        let ghost sub = xs.subrange(i as int, xs.len() as int);
        assert(sub.drop_first() =~= xs.subrange(i + 1, xs.len() as int));
        push_text(&f.path[i], out);
        assert(o + items_encoding(sub) =~= out@ + items_encoding(sub.drop_first()));
        i += 1;
    }
    out.push(101);
    out.push(101);
    proof {
        let e0 = (key_length(), Bencode::Int(f.length as int));
        let e1 = (key_path(), Bencode::List(xs));
        lemma_entries_cons(e0, seq![e1]);
        lemma_entries_cons(e1, Seq::empty());
        assert(seq![e1] + Seq::empty() =~= seq![e1]);
        assert(seq![e0] + seq![e1] =~= seq![e0, e1]);
        assert(xs.subrange(i as int, xs.len() as int) =~= Seq::<Bencode>::empty());
    }
    assert(final(out)@ =~= old(out)@ + encoding(file_bencode(*f)));
}

fn encode_layout(keys: &Keys, out: &mut Vec<u8>)
    ensures
        final(out)@ == old(out)@ + bytes_encoding(layout_entry(*keys).0) + encoding(
            layout_entry(*keys).1,
        ),
{
    match keys {
        Keys::SingleFile { length } => {
            let k_length = key_length_bytes();
            push_bytes(k_length.as_slice(), out);
            push_count(*length, out);
        },
        Keys::MultiFile { files } => {
            let k_files: Vec<u8> = vec![102, 105, 108, 101, 115];
            assert(k_files@ =~= key_files());
            push_bytes(k_files.as_slice(), out);
            let ghost start = out@;
            out.push(108);
            let ghost xs = files@.map_values(|f: File| file_bencode(f));
            let ghost pre = out@;
            let mut i: usize = 0;
            assert(xs.subrange(0, xs.len() as int) =~= xs);
            while i < files.len()
                invariant
                    i <= files@.len(),
                    xs == files@.map_values(|f: File| file_bencode(f)),
                    pre + items_encoding(xs) == out@ + items_encoding(
                        xs.subrange(i as int, xs.len() as int),
                    ),
                decreases files.len() - i,
            {
                let ghost o = out@;
                let ghost sub = xs.subrange(i as int, xs.len() as int);
                assert(sub.drop_first() =~= xs.subrange(i + 1, xs.len() as int));
                encode_file(&files[i], out);
                assert(o + items_encoding(sub) =~= out@ + items_encoding(sub.drop_first()));
                i += 1;
            }
            out.push(101);
            assert(xs.subrange(i as int, xs.len() as int) =~= Seq::<Bencode>::empty());
            assert(out@ =~= start + encoding(Bencode::List(xs)));
        },
    }
}

proof fn lemma_info_encoding(i: Info)
    ensures
        encoding(info_bencode(i)) == seq![100u8] + bytes_encoding(layout_entry(i.keys).0)
            + encoding(layout_entry(i.keys).1) + bytes_encoding(key_name()) + encoding(
            text_bencode(i.name),
        ) + bytes_encoding(key_piece_length()) + encoding(Bencode::Int(i.plength as int))
            + bytes_encoding(key_pieces()) + encoding(
            Bencode::Bytes(hashes_bytes(i.pieces.0@)),
        ) + seq![101u8],
{
    let e0 = layout_entry(i.keys);
    let e1 = (key_name(), text_bencode(i.name));
    let e2 = (key_piece_length(), Bencode::Int(i.plength as int));
    let e3 = (key_pieces(), Bencode::Bytes(hashes_bytes(i.pieces.0@)));
    lemma_entries_cons(e3, Seq::empty());
    lemma_entries_cons(e2, seq![e3]);
    lemma_entries_cons(e1, seq![e2, e3]);
    lemma_entries_cons(e0, seq![e1, e2, e3]);
    assert(seq![e3] + Seq::empty() =~= seq![e3]);
    assert(seq![e2] + seq![e3] =~= seq![e2, e3]);
    assert(seq![e1] + seq![e2, e3] =~= seq![e1, e2, e3]);
    assert(seq![e0] + seq![e1, e2, e3] =~= seq![e0, e1, e2, e3]);
    assert(entries_encoding(Seq::<(Seq<u8>, Bencode)>::empty()) == Seq::<u8>::empty());
    assert(encoding(info_bencode(i)) =~= seq![100u8] + bytes_encoding(e0.0) + encoding(e0.1)
        + bytes_encoding(e1.0) + encoding(e1.1) + bytes_encoding(e2.0) + encoding(e2.1)
        + bytes_encoding(e3.0) + encoding(e3.1) + seq![101u8]);
}

impl Info {
    /// The canonical bencoding of this info section: keys in ascending
    /// order, pieces laid end to end.
    pub fn encode(&self) -> (r: Vec<u8>)
        ensures
            r@ == encoding(info_bencode(*self)),
    {
        let mut out: Vec<u8> = Vec::new();
        out.push(100);
        encode_layout(&self.keys, &mut out);
        let k_name: Vec<u8> = vec![110, 97, 109, 101];
        let k_plength: Vec<u8> = vec![112, 105, 101, 99, 101, 32, 108, 101, 110, 103, 116, 104];
        let k_pieces: Vec<u8> = vec![112, 105, 101, 99, 101, 115];
        assert(k_name@ =~= key_name());
        assert(k_plength@ =~= key_piece_length());
        assert(k_pieces@ =~= key_pieces());
        push_bytes(k_name.as_slice(), &mut out);
        push_text(&self.name, &mut out);
        push_bytes(k_plength.as_slice(), &mut out);
        push_count(self.plength, &mut out);
        push_bytes(k_pieces.as_slice(), &mut out);
        let raw = self.pieces.to_bytes();
        push_bytes(raw.as_slice(), &mut out);
        out.push(101);
        proof {
            lemma_info_encoding(*self);
        }
        assert(out@ =~= encoding(info_bencode(*self)));
        out
    }
}

impl Torrent {
    /// The resource's identifier: the SHA-1 digest of the canonical
    /// encoding of the info section.
    pub fn info_hash(&self) -> (r: [u8; 20])
        ensures
            r@ == sha1_of(encoding(info_bencode(self.info))),
    {
        let bytes = self.info.encode();
        sha1_digest(bytes.as_slice())
    }
}

/// The identifier of a loaded document is fixed by the document's decoded
/// value: two loads of documents that decode to the same value (the same
/// bytes twice, or the same entries written in another key order) give the
/// same info encoding, so the same identifier.
pub proof fn lemma_identifier_determined(t1: Torrent, t2: Torrent, b: Bencode)
    requires
        valid_metainfo(b),
        models(t1, b),
        models(t2, b),
    ensures
        encoding(info_bencode(t1.info)) == encoding(info_bencode(t2.info)),
        sha1_of(encoding(info_bencode(t1.info))) == sha1_of(encoding(info_bencode(t2.info))),
{
}

} // verus!
