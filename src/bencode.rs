//! Bencode: byte strings, integers, lists and dictionaries, each written
//! with a one-byte tag or a decimal length prefix.
use vstd::prelude::*;
use vstd::slice::{slice_subrange, slice_to_vec};

use crate::error::Error;

verus! {

broadcast use vstd::std_specs::vec::axiom_vec_index_decreases;

/// The mathematical value of a bencoded term.
///
/// A dictionary is a sequence of entries ordered by key, ascending in byte
/// order, with no key repeated.
pub enum Bencode {
    Bytes(Seq<u8>),
    Int(int),
    List(Seq<Bencode>),
    Dict(Seq<(Seq<u8>, Bencode)>),
}

/// A decoded bencode value.
#[derive(Debug)]
pub enum Value {
    ByteString(Vec<u8>),
    Integer(i64),
    List(Vec<Value>),
    /// Entries ordered by key, ascending in byte order, keys unique.
    Dictionary(Vec<(Vec<u8>, Value)>),
}

impl View for Value {
    type V = Bencode;

    open spec fn view(&self) -> Bencode
        decreases self,
    {
        match self {
            Value::ByteString(b) => Bencode::Bytes(b@),
            Value::Integer(i) => Bencode::Int(*i as int),
            Value::List(items) => Bencode::List(
                Seq::new(
                    items.len() as nat,
                    |i: int|
                        if 0 <= i < items.len() {
                            items[i].view()
                        } else {
                            Bencode::Int(0)
                        },
                ),
            ),
            Value::Dictionary(es) => Bencode::Dict(
                Seq::new(
                    es.len() as nat,
                    |i: int|
                        (
                            es[i].0@,
                            if 0 <= i < es.len() {
                                es[i].1.view()
                            } else {
                                Bencode::Int(0)
                            },
                        ),
                ),
            ),
        }
    }
}

pub open spec fn item_views(items: Seq<Value>) -> Seq<Bencode> {
    Seq::new(items.len(), |i: int| items[i]@)
}

pub open spec fn entry_views(es: Seq<(Vec<u8>, Value)>) -> Seq<(Seq<u8>, Bencode)> {
    Seq::new(es.len(), |i: int| (es[i].0@, es[i].1@))
}

// ---------------------------------------------------------------------------
// Byte order on keys
/// Strict lexicographic order on byte strings.
pub open spec fn lex_lt(a: Seq<u8>, b: Seq<u8>) -> bool
    decreases a.len(),
{
    if b.len() == 0 {
        false
    } else if a.len() == 0 {
        true
    } else if a[0] != b[0] {
        a[0] < b[0]
    } else {
        lex_lt(a.drop_first(), b.drop_first())
    }
}

/// Number of leading entries whose key is below `k`.
pub open spec fn insert_pos(es: Seq<(Seq<u8>, Bencode)>, k: Seq<u8>) -> nat
    decreases es.len(),
{
    if es.len() > 0 && lex_lt(es[0].0, k) {
        1 + insert_pos(es.drop_first(), k)
    } else {
        0
    }
}

/// `es` with the entry `(k, v)` put in its place by key; an entry with the
/// same key is replaced.
pub open spec fn insert_entry(es: Seq<(Seq<u8>, Bencode)>, k: Seq<u8>, v: Bencode) -> Seq<
    (Seq<u8>, Bencode),
> {
    let i = insert_pos(es, k) as int;
    if i < es.len() && es[i].0 == k {
        es.update(i, (k, v))
    } else {
        es.insert(i, (k, v))
    }
}

pub open spec fn keys_ascending(es: Seq<(Seq<u8>, Bencode)>) -> bool {
    forall|i: int, j: int| 0 <= i < j < es.len() ==> lex_lt(#[trigger] es[i].0, #[trigger] es[j].0)
}

/// A value that this codec can produce: integers fit in 64 bits and
/// dictionary keys ascend.
pub open spec fn well_formed(b: Bencode) -> bool
    decreases b,
{
    match b {
        Bencode::Bytes(_) => true,
        Bencode::Int(i) => i64::MIN <= i <= i64::MAX,
        Bencode::List(xs) => forall|i: int| 0 <= i < xs.len() ==> well_formed(#[trigger] xs[i]),
        Bencode::Dict(es) => keys_ascending(es) && forall|i: int|
            0 <= i < es.len() ==> well_formed(#[trigger] es[i].1),
    }
}

// ---------------------------------------------------------------------------
// Decimal text
pub open spec fn is_digit(c: u8) -> bool {
    48 <= c <= 57
}

/// Length of the run of ASCII digits that starts `s`.
pub open spec fn digit_run(s: Seq<u8>) -> nat
    decreases s.len(),
{
    if s.len() > 0 && is_digit(s[0]) {
        1 + digit_run(s.drop_first())
    } else {
        0
    }
}

/// The number that a run of ASCII digits denotes.
pub open spec fn digits_value(d: Seq<u8>) -> int
    decreases d.len(),
{
    if d.len() == 0 {
        0
    } else {
        10 * digits_value(d.drop_last()) + (d.last() - 48)
    }
}

/// Shortest decimal text of a natural number.
pub open spec fn nat_text(n: nat) -> Seq<u8>
    decreases n,
{
    if n < 10 {
        seq![(n + 48) as u8]
    } else {
        nat_text(n / 10).push((n % 10 + 48) as u8)
    }
}

/// Shortest decimal text of an integer, with `-` before a negative one.
pub open spec fn int_text(i: int) -> Seq<u8> {
    if i < 0 {
        seq![45u8] + nat_text((-i) as nat)
    } else {
        nat_text(i as nat)
    }
}

// ---------------------------------------------------------------------------
// Decoding
/// `i<sign?><digits>e`, read after the `i`; the number must fit in 64 bits.
pub open spec fn parse_int(t: Seq<u8>) -> Option<(Bencode, Seq<u8>)> {
    let start: int = if t.len() > 0 && (t[0] == 45 || t[0] == 43) {
        1
    } else {
        0
    };
    let n = digit_run(t.subrange(start, t.len() as int)) as int;
    if n == 0 || start + n >= t.len() || t[start + n] != 101 {
        None
    } else {
        let mag = digits_value(t.subrange(start, start + n));
        let val = if t[0] == 45 {
            -mag
        } else {
            mag
        };
        if i64::MIN <= val <= i64::MAX {
            Some((Bencode::Int(val), t.subrange(start + n + 1, t.len() as int)))
        } else {
            None
        }
    }
}

/// `<digits>:<payload>`, where the digits give the payload's length.
pub open spec fn parse_bytes(s: Seq<u8>) -> Option<(Bencode, Seq<u8>)> {
    let n = digit_run(s) as int;
    if n == 0 || n >= s.len() || s[n] != 58 {
        None
    } else {
        let len = digits_value(s.subrange(0, n));
        if n + 1 + len > s.len() {
            None
        } else {
            Some(
                (
                    Bencode::Bytes(s.subrange(n + 1, n + 1 + len)),
                    s.subrange(n + 1 + len, s.len() as int),
                ),
            )
        }
    }
}

/// Decodes one value from the front of `s`; gives the value and what
/// follows it.
pub open spec fn parse(s: Seq<u8>) -> Option<(Bencode, Seq<u8>)>
    decreases s.len(), 0nat,
{
    if s.len() == 0 {
        None
    } else if s[0] == 105 {
        parse_int(s.drop_first())
    } else if is_digit(s[0]) {
        parse_bytes(s)
    } else if s[0] == 108 {
        match parse_items(s.drop_first(), Seq::empty()) {
            Some((xs, rest)) => Some((Bencode::List(xs), rest)),
            None => None,
        }
    } else if s[0] == 100 {
        match parse_entries(s.drop_first(), Seq::empty()) {
            Some((es, rest)) => Some((Bencode::Dict(es), rest)),
            None => None,
        }
    } else {
        None
    }
}

/// List elements up to and including the closing `e`, after `acc`.
pub open spec fn parse_items(s: Seq<u8>, acc: Seq<Bencode>) -> Option<(Seq<Bencode>, Seq<u8>)>
    decreases s.len(), 1nat,
{
    if s.len() == 0 {
        None
    } else if s[0] == 101 {
        Some((acc, s.drop_first()))
    } else {
        match parse(s) {
            Some((v, r)) => if r.len() < s.len() {
                parse_items(r, acc.push(v))
            } else {
                None
            },
            None => None,
        }
    }
}

/// Dictionary entries up to and including the closing `e`, each inserted
/// into `acc` by key.
pub open spec fn parse_entries(s: Seq<u8>, acc: Seq<(Seq<u8>, Bencode)>) -> Option<
    (Seq<(Seq<u8>, Bencode)>, Seq<u8>),
>
    decreases s.len(), 1nat,
{
    if s.len() == 0 {
        None
    } else if s[0] == 101 {
        Some((acc, s.drop_first()))
    } else {
        match parse(s) {
            Some((Bencode::Bytes(k), r1)) => if r1.len() < s.len() {
                match parse(r1) {
                    Some((v, r2)) => if r2.len() < r1.len() {
                        parse_entries(r2, insert_entry(acc, k, v))
                    } else {
                        None
                    },
                    None => None,
                }
            } else {
                None
            },
            _ => None,
        }
    }
}

// ---------------------------------------------------------------------------
// Encoding
pub open spec fn bytes_encoding(s: Seq<u8>) -> Seq<u8> {
    nat_text(s.len()) + seq![58u8] + s
}

/// The canonical encoding of a value: shortest decimal text, dictionary
/// entries in the order held.
pub open spec fn encoding(b: Bencode) -> Seq<u8>
    decreases b, 0nat,
{
    match b {
        Bencode::Bytes(s) => bytes_encoding(s),
        Bencode::Int(i) => seq![105u8] + int_text(i) + seq![101u8],
        Bencode::List(xs) => seq![108u8] + items_encoding(xs) + seq![101u8],
        Bencode::Dict(es) => seq![100u8] + entries_encoding(es) + seq![101u8],
    }
}

pub open spec fn items_encoding(xs: Seq<Bencode>) -> Seq<u8>
    decreases xs, 1nat,
{
    if xs.len() == 0 {
        Seq::empty()
    } else {
        encoding(xs[0]) + items_encoding(xs.drop_first())
    }
}

pub open spec fn entries_encoding(es: Seq<(Seq<u8>, Bencode)>) -> Seq<u8>
    decreases es, 1nat,
{
    if es.len() == 0 {
        Seq::empty()
    } else {
        bytes_encoding(es[0].0) + encoding(es[0].1) + entries_encoding(es.drop_first())
    }
}

// ---------------------------------------------------------------------------
// Executable decoder
pub(crate) proof fn lemma_list_view(vs: Vec<Value>)
    ensures
        Value::List(vs)@ == Bencode::List(item_views(vs@)),
{
    let l = Value::List(vs);
    if let Bencode::List(xs) = l@ {
        assert(xs =~= item_views(vs@));
    }
}

pub(crate) proof fn lemma_dict_view(es: Vec<(Vec<u8>, Value)>)
    ensures
        Value::Dictionary(es)@ == Bencode::Dict(entry_views(es@)),
{
    let d = Value::Dictionary(es);
    if let Bencode::Dict(xs) = d@ {
        assert(xs =~= entry_views(es@));
    }
}

/// Whether `a` comes strictly before `b` in byte order.
pub fn bytes_less(a: &[u8], b: &[u8]) -> (r: bool)
    ensures
        r == lex_lt(a@, b@),
{
    let mut i: usize = 0;
    assert(a@.subrange(0, a@.len() as int) =~= a@);
    assert(b@.subrange(0, b@.len() as int) =~= b@);
    loop
        invariant
            i <= a.len(),
            i <= b.len(),
            lex_lt(a@, b@) == lex_lt(
                a@.subrange(i as int, a@.len() as int),
                b@.subrange(i as int, b@.len() as int),
            ),
        decreases a.len() - i,
    {
        if i == b.len() {
            return false;
        }
        if i == a.len() {
            return true;
        }
        if a[i] != b[i] {
            return a[i] < b[i];
        }
        proof {
            assert(a@.subrange(i as int, a@.len() as int).drop_first() =~= a@.subrange(
                i + 1,
                a@.len() as int,
            ));
            assert(b@.subrange(i as int, b@.len() as int).drop_first() =~= b@.subrange(
                i + 1,
                b@.len() as int,
            ));
        }
        i += 1;
    }
}

/// Whether two byte strings are equal.
pub fn bytes_equal(a: &[u8], b: &[u8]) -> (r: bool)
    ensures
        r == (a@ == b@),
{
    if a.len() != b.len() {
        return false;
    }
    let mut i: usize = 0;
    while i < a.len()
        invariant
            i <= a.len(),
            a.len() == b.len(),
            a@.subrange(0, i as int) == b@.subrange(0, i as int),
        decreases a.len() - i,
    {
        if a[i] != b[i] {
            return false;
        }
        assert(a@.subrange(0, i + 1) =~= a@.subrange(0, i as int).push(a[i as int]));
        assert(b@.subrange(0, i + 1) =~= b@.subrange(0, i as int).push(b[i as int]));
        i += 1;
    }
    assert(a@ =~= a@.subrange(0, i as int));
    assert(b@ =~= b@.subrange(0, i as int));
    true
}

/// Reads the run of ASCII digits at `start`. The value comes back exactly
/// while it is at most `cap`, and above `cap` otherwise.
fn scan_digits(input: &[u8], start: usize, cap: u128) -> (r: (usize, u128))
    requires
        start <= input.len(),
        cap <= 0x1_0000_0000_0000_0000u128,
    ensures
        r.0 == start + digit_run(input@.subrange(start as int, input@.len() as int)),
        r.0 <= input.len(),
        r.1 <= cap ==> r.1 == digits_value(input@.subrange(start as int, r.0 as int)),
        r.1 > cap ==> digits_value(input@.subrange(start as int, r.0 as int)) > cap,
{
    let len = input.len();
    let mut p: usize = start;
    let mut acc: u128 = 0;
    assert(input@.subrange(start as int, start as int).len() == 0);
    while p < len && 48 <= input[p] && input[p] <= 57
        invariant
            start <= p <= len,
            len == input@.len(),
            cap <= 0x1_0000_0000_0000_0000u128,
            digit_run(input@.subrange(start as int, len as int)) == (p - start) + digit_run(
                input@.subrange(p as int, len as int),
            ),
            digits_value(input@.subrange(start as int, p as int)) >= 0,
            acc <= cap * 10 + 9,
            acc <= cap ==> acc == digits_value(input@.subrange(start as int, p as int)),
            acc > cap ==> digits_value(input@.subrange(start as int, p as int)) > cap,
        decreases len - p,
    {
        proof {
            assert(input@.subrange(p as int, len as int).drop_first() =~= input@.subrange(
                p + 1,
                len as int,
            ));
            assert(input@.subrange(start as int, p + 1).drop_last() =~= input@.subrange(
                start as int,
                p as int,
            ));
        }
        let d = (input[p] - 48) as u128;
        if acc <= cap {
            acc = acc * 10 + d;
        }
        p += 1;
    }
    (p, acc)
}

fn parse_int_at(input: &[u8], start: usize) -> (r: Result<(Value, usize), Error>)
    requires
        start <= input.len(),
    ensures
        match parse_int(input@.subrange(start as int, input@.len() as int)) {
            Some((b, rest)) => r matches Ok((v, q)) && v@ == b && q <= input.len() && rest
                == input@.subrange(q as int, input@.len() as int),
            None => r == Err::<(Value, usize), Error>(Error::Format),
        },
{
    let len = input.len();
    let ghost t = input@.subrange(start as int, len as int);
    let neg = start < len && input[start] == 45;
    let signed = start < len && (input[start] == 45 || input[start] == 43);
    let ds = if signed {
        start + 1
    } else {
        start
    };
    assert(t.subrange(ds - start, t.len() as int) =~= input@.subrange(ds as int, len as int));
    let (end, acc) = scan_digits(input, ds, 0x8000_0000_0000_0000u128);
    if end == ds || end >= len || input[end] != 101 {
        return Err(Error::Format);
    }
    assert(t.subrange(ds - start, end - start) =~= input@.subrange(ds as int, end as int));
    assert(t.subrange(end - start + 1, t.len() as int) =~= input@.subrange(end + 1, len as int));
    if acc > 0x8000_0000_0000_0000u128 {
        return Err(Error::Format);
    }
    let val: i64 = if neg {
        if acc == 0x8000_0000_0000_0000u128 {
            i64::MIN
        } else {
            -(acc as i64)
        }
    } else {
        if acc > 0x7fff_ffff_ffff_ffffu128 {
            return Err(Error::Format);
        }
        acc as i64
    };
    Ok((Value::Integer(val), end + 1))
}

fn parse_bytes_at(input: &[u8], pos: usize) -> (r: Result<(Value, usize), Error>)
    requires
        pos <= input.len(),
    ensures
        match parse_bytes(input@.subrange(pos as int, input@.len() as int)) {
            Some((b, rest)) => r matches Ok((v, q)) && v@ == b && q <= input.len() && rest
                == input@.subrange(q as int, input@.len() as int),
            None => r == Err::<(Value, usize), Error>(Error::Format),
        },
{
    let len = input.len();
    let ghost s = input@.subrange(pos as int, len as int);
    assert(s.subrange(0, s.len() as int) =~= s);
    let (end, acc) = scan_digits(input, pos, len as u128);
    if end == pos || end >= len || input[end] != 58 {
        return Err(Error::Format);
    }
    assert(s.subrange(0, end - pos) =~= input@.subrange(pos as int, end as int));
    let avail = len - end - 1;
    if acc > avail as u128 {
        return Err(Error::Format);
    }
    let n = acc as usize;
    let bytes = slice_to_vec(slice_subrange(input, end + 1, end + 1 + n));
    assert(s.subrange(end - pos + 1, end - pos + 1 + n) =~= bytes@);
    assert(s.subrange(end - pos + 1 + n, s.len() as int) =~= input@.subrange(
        end + 1 + n,
        len as int,
    ));
    Ok((Value::ByteString(bytes), end + 1 + n))
}

fn parse_list_at(input: &[u8], start: usize) -> (r: Result<(Vec<Value>, usize), Error>)
    requires
        start <= input.len(),
    ensures
        match parse_items(input@.subrange(start as int, input@.len() as int), Seq::empty()) {
            Some((xs, rest)) => r matches Ok((vs, q)) && item_views(vs@) == xs && q
                <= input.len() && rest == input@.subrange(q as int, input@.len() as int),
            None => r == Err::<(Vec<Value>, usize), Error>(Error::Format),
        },
    decreases input.len() - start, 1nat,
{
    let len = input.len();
    let mut items: Vec<Value> = Vec::new();
    let mut p: usize = start;
    assert(item_views(items@) =~= Seq::<Bencode>::empty());
    loop
        invariant
            start <= p <= len,
            len == input@.len(),
            parse_items(input@.subrange(p as int, len as int), item_views(items@)) == parse_items(
                input@.subrange(start as int, len as int),
                Seq::empty(),
            ),
        decreases len - p,
    {
        if p >= len {
            return Err(Error::Format);
        }
        if input[p] == 101 {
            assert(input@.subrange(p as int, len as int).drop_first() =~= input@.subrange(
                p + 1,
                len as int,
            ));
            return Ok((items, p + 1));
        }
        match parse_at(input, p) {
            Err(e) => {
                return Err(e);
            },
            Ok((v, q)) => {
                if q <= p {
                    return Err(Error::Format);
                }
                assert(item_views(items@.push(v)) =~= item_views(items@).push(v@));
                items.push(v);
                p = q;
            },
        }
    }
}

fn insert_sorted(es: &mut Vec<(Vec<u8>, Value)>, k: Vec<u8>, v: Value)
    ensures
        entry_views(final(es)@) == insert_entry(entry_views(old(es)@), k@, v@),
{
    let ghost ev = entry_views(es@);
    let mut i: usize = 0;
    assert(ev.subrange(0, ev.len() as int) =~= ev);
    while i < es.len() && bytes_less(es[i].0.as_slice(), k.as_slice())
        invariant
            i <= es.len(),
            ev == entry_views(es@),
            insert_pos(ev, k@) == i + insert_pos(ev.subrange(i as int, ev.len() as int), k@),
        decreases es.len() - i,
    {
        assert(ev.subrange(i as int, ev.len() as int).drop_first() =~= ev.subrange(
            i + 1,
            ev.len() as int,
        ));
        i += 1;
    }
    if i < es.len() && bytes_equal(es[i].0.as_slice(), k.as_slice()) {
        es.remove(i);
        es.insert(i, (k, v));
        assert(entry_views(es@) =~= ev.update(i as int, (k@, v@)));
    } else {
        es.insert(i, (k, v));
        assert(entry_views(es@) =~= ev.insert(i as int, (k@, v@)));
    }
}

fn parse_dict_at(input: &[u8], start: usize) -> (r: Result<(Vec<(Vec<u8>, Value)>, usize), Error>)
    requires
        start <= input.len(),
    ensures
        match parse_entries(input@.subrange(start as int, input@.len() as int), Seq::empty()) {
            Some((es, rest)) => r matches Ok((vs, q)) && entry_views(vs@) == es && q
                <= input.len() && rest == input@.subrange(q as int, input@.len() as int),
            None => r == Err::<(Vec<(Vec<u8>, Value)>, usize), Error>(Error::Format),
        },
    decreases input.len() - start, 1nat,
{
    let len = input.len();
    let mut es: Vec<(Vec<u8>, Value)> = Vec::new();
    let mut p: usize = start;
    assert(entry_views(es@) =~= Seq::<(Seq<u8>, Bencode)>::empty());
    loop
        invariant
            start <= p <= len,
            len == input@.len(),
            parse_entries(input@.subrange(p as int, len as int), entry_views(es@))
                == parse_entries(input@.subrange(start as int, len as int), Seq::empty()),
        decreases len - p,
    {
        if p >= len {
            return Err(Error::Format);
        }
        if input[p] == 101 {
            assert(input@.subrange(p as int, len as int).drop_first() =~= input@.subrange(
                p + 1,
                len as int,
            ));
            return Ok((es, p + 1));
        }
        match parse_at(input, p) {
            Err(e) => {
                return Err(e);
            },
            Ok((Value::ByteString(k), q1)) => {
                if q1 <= p {
                    return Err(Error::Format);
                }
                match parse_at(input, q1) {
                    Err(e) => {
                        return Err(e);
                    },
                    Ok((v, q2)) => {
                        if q2 <= q1 {
                            return Err(Error::Format);
                        }
                        insert_sorted(&mut es, k, v);
                        p = q2;
                    },
                }
            },
            Ok(_) => {
                return Err(Error::Format);
            },
        }
    }
}

fn parse_at(input: &[u8], pos: usize) -> (r: Result<(Value, usize), Error>)
    requires
        pos <= input.len(),
    ensures
        match parse(input@.subrange(pos as int, input@.len() as int)) {
            Some((b, rest)) => r matches Ok((v, q)) && v@ == b && q <= input.len() && rest
                == input@.subrange(q as int, input@.len() as int),
            None => r == Err::<(Value, usize), Error>(Error::Format),
        },
    decreases input.len() - pos, 0nat,
{
    let len = input.len();
    if pos >= len {
        return Err(Error::Format);
    }
    let ghost s = input@.subrange(pos as int, len as int);
    assert(s.drop_first() =~= input@.subrange(pos + 1, len as int));
    let c = input[pos];
    if c == 105 {
        parse_int_at(input, pos + 1)
    } else if 48 <= c && c <= 57 {
        parse_bytes_at(input, pos)
    } else if c == 108 {
        match parse_list_at(input, pos + 1) {
            Ok((vs, q)) => {
                proof {
                    lemma_list_view(vs);
                }
                Ok((Value::List(vs), q))
            },
            Err(e) => Err(e),
        }
    } else if c == 100 {
        match parse_dict_at(input, pos + 1) {
            Ok((es, q)) => {
                proof {
                    lemma_dict_view(es);
                }
                Ok((Value::Dictionary(es), q))
            },
            Err(e) => Err(e),
        }
    } else {
        Err(Error::Format)
    }
}

/// Decodes the bencoded value at the front of `encoded_value` and gives it
/// together with the bytes that follow it.
pub fn decode_bencoded_value<'a>(encoded_value: &'a [u8]) -> (r: Result<(Value, &'a [u8]), Error>)
    ensures
        match parse(encoded_value@) {
            Some((b, rest)) => r matches Ok((v, tail)) && v@ == b && tail@ == rest && well_formed(
                b,
            ),
            None => r == Err::<(Value, &'a [u8]), Error>(Error::Format),
        },
{
    assert(encoded_value@.subrange(0, encoded_value@.len() as int) =~= encoded_value@);
    proof {
        lemma_parse_well_formed(encoded_value@);
    }
    match parse_at(encoded_value, 0) {
        Ok((v, q)) => Ok((v, slice_subrange(encoded_value, q, encoded_value.len()))),
        Err(e) => Err(e),
    }
}

// ---------------------------------------------------------------------------
// Executable encoder
pub(crate) fn push_decimal(n: u64, out: &mut Vec<u8>)
    ensures
        final(out)@ == old(out)@ + nat_text(n as nat),
    decreases n,
{
    if n >= 10 {
        push_decimal(n / 10, out);
    }
    let d = (n % 10) as u8 + 48;
    out.push(d);
    proof {
        if n >= 10 {
            assert(old(out)@ + nat_text(n as nat) =~= old(out)@ + nat_text((n / 10) as nat) + seq![d]);
        } else {
            assert(old(out)@ + nat_text(n as nat) =~= old(out)@.push(d));
        }
    }
}

pub(crate) fn push_bytes(b: &[u8], out: &mut Vec<u8>)
    ensures
        final(out)@ == old(out)@ + bytes_encoding(b@),
{
    push_decimal(b.len() as u64, out);
    out.push(58);
    let ghost pre = out@;
    let mut i: usize = 0;
    while i < b.len()
        invariant
            i <= b.len(),
            out@ == pre + b@.subrange(0, i as int),
        decreases b.len() - i,
    {
        out.push(b[i]);
        assert(pre + b@.subrange(0, i + 1) =~= (pre + b@.subrange(0, i as int)).push(b[i as int]));
        i += 1;
    }
    assert(b@.subrange(0, b@.len() as int) =~= b@);
    assert(old(out)@ + bytes_encoding(b@) =~= pre + b@);
}

fn encode_into(v: &Value, out: &mut Vec<u8>)
    ensures
        final(out)@ == old(out)@ + encoding(v@),
    decreases v@,
{
    match v {
        Value::ByteString(b) => {
            push_bytes(b.as_slice(), out);
        },
        Value::Integer(i) => {
            out.push(105);
            let mag: u64 = if *i < 0 {
                out.push(45);
                (-(*i as i128)) as u64
            } else {
                *i as u64
            };
            push_decimal(mag, out);
            out.push(101);
            assert(out@ =~= old(out)@ + encoding(v@));
        },
        Value::List(items) => {
            proof {
                lemma_list_view(*items);
            }
            let ghost xs = item_views(items@);
            out.push(108);
            let ghost pre = out@;
            let mut i: usize = 0;
            assert(xs.subrange(0, xs.len() as int) =~= xs);
            while i < items.len()
                invariant
                    i <= items.len(),
                    v@ == Bencode::List(xs),
                    xs == item_views(items@),
                    pre + items_encoding(xs) == out@ + items_encoding(
                        xs.subrange(i as int, xs.len() as int),
                    ),
                decreases items.len() - i,
            {
                let ghost o = out@;
                let ghost sub = xs.subrange(i as int, xs.len() as int);
                assert(sub.drop_first() =~= xs.subrange(i + 1, xs.len() as int));
                proof {
                    assert(xs[i as int] == items[i as int]@);
                    assert(decreases_to!(v@ => v@->List_0));
                    assert(decreases_to!(v@->List_0 => v@->List_0[i as int]));
                }
                encode_into(&items[i], out);
                assert(o + items_encoding(sub) =~= out@ + items_encoding(sub.drop_first()));
                i += 1;
            }
            out.push(101);
            assert(out@ =~= old(out)@ + encoding(v@));
        },
        Value::Dictionary(es) => {
            proof {
                lemma_dict_view(*es);
            }
            let ghost xs = entry_views(es@);
            out.push(100);
            let ghost pre = out@;
            let mut i: usize = 0;
            assert(xs.subrange(0, xs.len() as int) =~= xs);
            while i < es.len()
                invariant
                    i <= es.len(),
                    v@ == Bencode::Dict(xs),
                    xs == entry_views(es@),
                    pre + entries_encoding(xs) == out@ + entries_encoding(
                        xs.subrange(i as int, xs.len() as int),
                    ),
                decreases es.len() - i,
            {
                let ghost o = out@;
                let ghost sub = xs.subrange(i as int, xs.len() as int);
                assert(sub.drop_first() =~= xs.subrange(i + 1, xs.len() as int));
                push_bytes(es[i].0.as_slice(), out);
                proof {
                    assert(xs[i as int].1 == es[i as int].1@);
                    assert(decreases_to!(v@ => v@->Dict_0));
                    assert(decreases_to!(v@->Dict_0 => v@->Dict_0[i as int]));
                    assert(decreases_to!(v@->Dict_0[i as int] => v@->Dict_0[i as int].1));
                }
                encode_into(&es[i].1, out);
                assert(o + entries_encoding(sub) =~= out@ + entries_encoding(sub.drop_first()));
                i += 1;
            }
            out.push(101);
            assert(out@ =~= old(out)@ + encoding(v@));
        },
    }
}

/// The canonical encoding of `v`.
pub fn encode_bencoded_value(v: &Value) -> (r: Vec<u8>)
    ensures
        r@ == encoding(v@),
{
    let mut out: Vec<u8> = Vec::new();
    encode_into(v, &mut out);
    assert(out@ =~= encoding(v@));
    out
}

// ---------------------------------------------------------------------------
// Decoding the canonical encoding
proof fn lemma_nat_text(n: nat)
    ensures
        nat_text(n).len() >= 1,
        forall|i: int| 0 <= i < nat_text(n).len() ==> is_digit(#[trigger] nat_text(n)[i]),
        digits_value(nat_text(n)) == n,
    decreases n,
{
    if n < 10 {
        assert(nat_text(n).drop_last() =~= Seq::<u8>::empty());
        assert(nat_text(n).last() == (n + 48) as u8);
        assert(((n + 48) as u8) as int == n + 48);
        assert(digits_value(Seq::<u8>::empty()) == 0);
        assert(digits_value(nat_text(n)) == 10 * digits_value(nat_text(n).drop_last()) + (
        nat_text(n).last() - 48));
    } else {
        lemma_nat_text(n / 10);
        let t = nat_text(n / 10);
        assert(nat_text(n).drop_last() =~= t);
        assert(0 <= n % 10 < 10);
        assert(nat_text(n).last() == (n % 10 + 48) as u8);
        assert(((n % 10 + 48) as u8) as int == n % 10 + 48);
        assert(10 * (n / 10) + n % 10 == n) by (nonlinear_arith);
        assert(digits_value(nat_text(n)) == 10 * digits_value(t) + (n % 10));
    }
}

proof fn lemma_digit_run(ds: Seq<u8>, tail: Seq<u8>)
    requires
        forall|i: int| 0 <= i < ds.len() ==> is_digit(#[trigger] ds[i]),
        tail.len() == 0 || !is_digit(tail[0]),
    ensures
        digit_run(ds + tail) == ds.len(),
    decreases ds.len(),
{
    if ds.len() == 0 {
        assert(ds + tail =~= tail);
    } else {
        assert((ds + tail).drop_first() =~= ds.drop_first() + tail);
        lemma_digit_run(ds.drop_first(), tail);
    }
}

proof fn lemma_encoding_start(b: Bencode)
    ensures
        encoding(b).len() > 0,
        encoding(b)[0] != 101,
{
    if let Bencode::Bytes(s) = b {
        lemma_nat_text(s.len());
        assert(encoding(b)[0] == nat_text(s.len())[0]);
    }
}

proof fn lemma_parse_bytes_encoding(s: Seq<u8>, rest: Seq<u8>)
    ensures
        parse(bytes_encoding(s) + rest) == Some((Bencode::Bytes(s), rest)),
{
    let t = nat_text(s.len());
    lemma_nat_text(s.len());
    let x = bytes_encoding(s) + rest;
    let tail = seq![58u8] + s + rest;
    assert(x =~= t + tail);
    lemma_digit_run(t, tail);
    let n = t.len() as int;
    assert(x[0] == t[0]);
    assert(x[n] == 58);
    assert(x.subrange(0, n) =~= t);
    assert(x.subrange(n + 1, n + 1 + s.len()) =~= s);
    assert(x.subrange(n + 1 + s.len(), x.len() as int) =~= rest);
}

proof fn lemma_parse_int_negative(i: int, rest: Seq<u8>)
    requires
        i64::MIN <= i < 0,
    ensures
        parse_int(int_text(i) + seq![101u8] + rest) == Some((Bencode::Int(i), rest)),
{
    let t = int_text(i) + seq![101u8] + rest;
    let tail = seq![101u8] + rest;
    let d = nat_text((-i) as nat);
    lemma_nat_text((-i) as nat);
    assert(t =~= seq![45u8] + d + tail);
    assert(t.subrange(1, t.len() as int) =~= d + tail);
    lemma_digit_run(d, tail);
    assert(t.subrange(1, 1 + d.len() as int) =~= d);
    assert(t.subrange(1 + d.len() as int + 1, t.len() as int) =~= rest);
}

proof fn lemma_parse_int_non_negative(i: int, rest: Seq<u8>)
    requires
        0 <= i <= i64::MAX,
    ensures
        parse_int(int_text(i) + seq![101u8] + rest) == Some((Bencode::Int(i), rest)),
{
    let t = int_text(i) + seq![101u8] + rest;
    let tail = seq![101u8] + rest;
    let d = nat_text(i as nat);
    lemma_nat_text(i as nat);
    assert(t =~= d + tail);
    assert(t.subrange(0, t.len() as int) =~= d + tail);
    lemma_digit_run(d, tail);
    assert(t[0] == d[0]);
    assert(t.subrange(0, d.len() as int) =~= d);
    assert(t.subrange(d.len() as int + 1, t.len() as int) =~= rest);
}

proof fn lemma_parse_int_encoding(i: int, rest: Seq<u8>)
    requires
        i64::MIN <= i <= i64::MAX,
    ensures
        parse(encoding(Bencode::Int(i)) + rest) == Some((Bencode::Int(i), rest)),
{
    let x = encoding(Bencode::Int(i)) + rest;
    assert(x.drop_first() =~= int_text(i) + seq![101u8] + rest);
    if i < 0 {
        lemma_parse_int_negative(i, rest);
    } else {
        lemma_parse_int_non_negative(i, rest);
    }
}

proof fn lemma_insert_pos_end(acc: Seq<(Seq<u8>, Bencode)>, k: Seq<u8>)
    requires
        forall|i: int| 0 <= i < acc.len() ==> lex_lt(#[trigger] acc[i].0, k),
    ensures
        insert_pos(acc, k) == acc.len(),
    decreases acc.len(),
{
    if acc.len() > 0 {
        assert(lex_lt(acc[0].0, k));
        let t = acc.drop_first();
        assert forall|i: int| 0 <= i < t.len() implies lex_lt(#[trigger] t[i].0, k) by {
            assert(t[i] == acc[i + 1]);
        }
        lemma_insert_pos_end(t, k);
    }
}

/// Decoding the canonical encoding of a well-formed value, followed by
/// any bytes, gives back that value and those bytes.
pub proof fn lemma_decode_encoding(b: Bencode, rest: Seq<u8>)
    requires
        well_formed(b),
    ensures
        parse(encoding(b) + rest) == Some((b, rest)),
    decreases b, 0nat,
{
    match b {
        Bencode::Bytes(s) => {
            lemma_parse_bytes_encoding(s, rest);
        },
        Bencode::Int(i) => {
            lemma_parse_int_encoding(i, rest);
        },
        Bencode::List(xs) => {
            let x = encoding(b) + rest;
            assert(x.drop_first() =~= items_encoding(xs) + seq![101u8] + rest);
            assert(decreases_to!(b => b->List_0));
            lemma_decode_items(xs, Seq::empty(), rest);
            assert(Seq::<Bencode>::empty() + xs =~= xs);
        },
        Bencode::Dict(es) => {
            let x = encoding(b) + rest;
            assert(x.drop_first() =~= entries_encoding(es) + seq![101u8] + rest);
            assert(decreases_to!(b => b->Dict_0));
            lemma_decode_entries(es, Seq::empty(), rest);
            assert(Seq::<(Seq<u8>, Bencode)>::empty() + es =~= es);
        },
    }
}

proof fn lemma_decode_items(xs: Seq<Bencode>, acc: Seq<Bencode>, rest: Seq<u8>)
    requires
        forall|i: int| 0 <= i < xs.len() ==> well_formed(#[trigger] xs[i]),
    ensures
        parse_items(items_encoding(xs) + seq![101u8] + rest, acc) == Some((acc + xs, rest)),
    decreases xs, 1nat,
{
    let y = items_encoding(xs) + seq![101u8] + rest;
    if xs.len() == 0 {
        assert(y =~= seq![101u8] + rest);
        assert(y.drop_first() =~= rest);
        assert(acc + xs =~= acc);
    } else {
        let r = items_encoding(xs.drop_first()) + seq![101u8] + rest;
        assert(y =~= encoding(xs[0]) + r);
        assert(decreases_to!(xs => xs[0]));
        lemma_decode_encoding(xs[0], r);
        lemma_encoding_start(xs[0]);
        assert(y[0] == encoding(xs[0])[0]);
        let t = xs.drop_first();
        assert forall|i: int| 0 <= i < t.len() implies well_formed(#[trigger] t[i]) by {
            assert(t[i] == xs[i + 1]);
        }
        assert(decreases_to!(xs => xs.subrange(1, xs.len() as int)));
        assert(t == xs.subrange(1, xs.len() as int));
        lemma_decode_items(t, acc.push(xs[0]), rest);
        assert(acc.push(xs[0]) + t =~= acc + xs);
    }
}

proof fn lemma_decode_entries(
    es: Seq<(Seq<u8>, Bencode)>,
    acc: Seq<(Seq<u8>, Bencode)>,
    rest: Seq<u8>,
)
    requires
        keys_ascending(es),
        forall|i: int| 0 <= i < es.len() ==> well_formed(#[trigger] es[i].1),
        forall|i: int, j: int|
            0 <= i < acc.len() && 0 <= j < es.len() ==> lex_lt(#[trigger] acc[i].0, #[trigger] es[j].0),
    ensures
        parse_entries(entries_encoding(es) + seq![101u8] + rest, acc) == Some((acc + es, rest)),
    decreases es, 1nat,
{
    let y = entries_encoding(es) + seq![101u8] + rest;
    if es.len() == 0 {
        assert(y =~= seq![101u8] + rest);
        assert(y.drop_first() =~= rest);
        assert(acc + es =~= acc);
    } else {
        let k = es[0].0;
        let v = es[0].1;
        let r2 = entries_encoding(es.drop_first()) + seq![101u8] + rest;
        let r1 = encoding(v) + r2;
        assert(y =~= bytes_encoding(k) + r1);
        lemma_parse_bytes_encoding(k, r1);
        lemma_encoding_start(Bencode::Bytes(k));
        assert(y[0] == bytes_encoding(k)[0]);
        lemma_encoding_start(v);
        assert(decreases_to!(es => es[0]));
        assert(decreases_to!(es[0] => es[0].1));
        lemma_decode_encoding(v, r2);
        assert forall|i: int| 0 <= i < acc.len() implies lex_lt(#[trigger] acc[i].0, k) by {
            assert(lex_lt(acc[i].0, es[0].0));
        }
        lemma_insert_pos_end(acc, k);
        assert(insert_entry(acc, k, v) =~= acc.push((k, v)));
        let t = es.drop_first();
        let acc2 = acc.push((k, v));
        assert(es[0] == (k, v));
        assert forall|i: int| 0 <= i < t.len() implies well_formed(#[trigger] t[i].1) by {
            assert(t[i] == es[i + 1]);
        }
        assert forall|i: int, j: int| 0 <= i < t.len() && 0 <= j < t.len() && i < j implies lex_lt(
            #[trigger] t[i].0,
            #[trigger] t[j].0,
        ) by {
            assert(t[i] == es[i + 1]);
            assert(t[j] == es[j + 1]);
        }
        assert forall|i: int, j: int| 0 <= i < acc2.len() && 0 <= j < t.len() implies lex_lt(
            #[trigger] acc2[i].0,
            #[trigger] t[j].0,
        ) by {
            assert(t[j] == es[j + 1]);
            if i < acc.len() {
                assert(acc2[i] == acc[i]);
            } else {
                assert(acc2[i] == es[0]);
            }
        }
        assert(decreases_to!(es => es.subrange(1, es.len() as int)));
        assert(t == es.subrange(1, es.len() as int));
        lemma_decode_entries(t, acc2, rest);
        assert(acc2 + t =~= acc + es);
    }
}

// ---------------------------------------------------------------------------
// Decoded values are well formed
proof fn lemma_lex_trichotomy(a: Seq<u8>, b: Seq<u8>)
    ensures
        a == b || lex_lt(a, b) || lex_lt(b, a),
    decreases a.len(),
{
    if a.len() > 0 && b.len() > 0 && a[0] == b[0] {
        lemma_lex_trichotomy(a.drop_first(), b.drop_first());
        if a.drop_first() == b.drop_first() {
            assert(a =~= seq![a[0]] + a.drop_first());
            assert(b =~= seq![b[0]] + b.drop_first());
        }
    } else if a.len() == 0 && b.len() == 0 {
        assert(a =~= b);
    }
}

proof fn lemma_lex_transitive(a: Seq<u8>, b: Seq<u8>, c: Seq<u8>)
    requires
        lex_lt(a, b),
        lex_lt(b, c),
    ensures
        lex_lt(a, c),
    decreases a.len(),
{
    if a.len() > 0 && b.len() > 0 && c.len() > 0 && a[0] == b[0] && b[0] == c[0] {
        lemma_lex_transitive(a.drop_first(), b.drop_first(), c.drop_first());
    }
}

proof fn lemma_insert_pos(es: Seq<(Seq<u8>, Bencode)>, k: Seq<u8>)
    ensures
        insert_pos(es, k) <= es.len(),
        forall|j: int| 0 <= j < insert_pos(es, k) ==> lex_lt(#[trigger] es[j].0, k),
        insert_pos(es, k) < es.len() ==> !lex_lt(es[insert_pos(es, k) as int].0, k),
    decreases es.len(),
{
    if es.len() > 0 && lex_lt(es[0].0, k) {
        let t = es.drop_first();
        lemma_insert_pos(t, k);
        assert forall|j: int| 0 <= j < insert_pos(es, k) implies lex_lt(#[trigger] es[j].0, k) by {
            if j > 0 {
                assert(es[j] == t[j - 1]);
            }
        }
        if insert_pos(es, k) < es.len() {
            assert(es[insert_pos(es, k) as int] == t[insert_pos(t, k) as int]);
        }
    }
}

proof fn lemma_lex_irreflexive(a: Seq<u8>)
    ensures
        !lex_lt(a, a),
    decreases a.len(),
{
    if a.len() > 0 {
        lemma_lex_irreflexive(a.drop_first());
    }
}

proof fn lemma_insert_entry_ascending(es: Seq<(Seq<u8>, Bencode)>, k: Seq<u8>, v: Bencode)
    requires
        keys_ascending(es),
    ensures
        keys_ascending(insert_entry(es, k, v)),
{
    lemma_insert_pos(es, k);
    let p = insert_pos(es, k) as int;
    let r = insert_entry(es, k, v);
    if p < es.len() && es[p].0 == k {
        assert forall|i: int, j: int| 0 <= i < j < r.len() implies lex_lt(
            #[trigger] r[i].0,
            #[trigger] r[j].0,
        ) by {
            assert(r[i].0 == es[i].0);
            assert(r[j].0 == es[j].0);
        }
    } else {
        if p < es.len() {
            lemma_lex_trichotomy(k, es[p].0);
        }
        assert forall|i: int, j: int| 0 <= i < j < r.len() implies lex_lt(
            #[trigger] r[i].0,
            #[trigger] r[j].0,
        ) by {
            if j < p {
                assert(r[i] == es[i] && r[j] == es[j]);
            } else if j == p {
                assert(r[i] == es[i]);
            } else if i < p {
                assert(r[i] == es[i] && r[j] == es[j - 1]);
                if i < j - 1 {
                    assert(lex_lt(es[i].0, es[j - 1].0));
                }
            } else if i == p {
                assert(r[j] == es[j - 1]);
                if j - 1 > p {
                    assert(lex_lt(es[p].0, es[j - 1].0));
                    lemma_lex_transitive(k, es[p].0, es[j - 1].0);
                }
            } else {
                assert(r[i] == es[i - 1] && r[j] == es[j - 1]);
            }
        }
    }
}

proof fn lemma_insert_entry_well_formed(es: Seq<(Seq<u8>, Bencode)>, k: Seq<u8>, v: Bencode)
    requires
        keys_ascending(es),
        forall|i: int| 0 <= i < es.len() ==> well_formed(#[trigger] es[i].1),
        well_formed(v),
    ensures
        keys_ascending(insert_entry(es, k, v)),
        forall|i: int|
            0 <= i < insert_entry(es, k, v).len() ==> well_formed(
                #[trigger] insert_entry(es, k, v)[i].1,
            ),
{
    lemma_insert_entry_ascending(es, k, v);
    lemma_insert_pos(es, k);
    let p = insert_pos(es, k) as int;
    let r = insert_entry(es, k, v);
    assert forall|i: int| 0 <= i < r.len() implies well_formed(#[trigger] r[i].1) by {
        if i < p {
            assert(r[i] == es[i]);
        } else if i > p {
            if p < es.len() && es[p].0 == k {
                assert(r[i] == es[i]);
            } else {
                assert(r[i] == es[i - 1]);
            }
        }
    }
}

/// In ascending entries, no key is held twice.
proof fn lemma_ascending_key_unique(es: Seq<(Seq<u8>, Bencode)>, i: int, j: int)
    requires
        keys_ascending(es),
        0 <= i < es.len(),
        0 <= j < es.len(),
        i != j,
    ensures
        es[i].0 != es[j].0,
{
    lemma_lex_irreflexive(es[i].0);
}

proof fn lemma_insert_entry_contains(
    es: Seq<(Seq<u8>, Bencode)>,
    k: Seq<u8>,
    v: Bencode,
    e: (Seq<u8>, Bencode),
)
    requires
        keys_ascending(es),
    ensures
        insert_entry(es, k, v).contains(e) <==> (e == (k, v) || (es.contains(e) && e.0 != k)),
{
    lemma_insert_pos(es, k);
    let p = insert_pos(es, k) as int;
    let r = insert_entry(es, k, v);
    if p < es.len() && es[p].0 == k {
        if r.contains(e) {
            let i = choose|i: int| 0 <= i < r.len() && r[i] == e;
            if i != p {
                lemma_ascending_key_unique(es, i, p);
                assert(es[i] == e);
            }
        }
        if e == (k, v) {
            assert(r[p] == e);
        } else if es.contains(e) && e.0 != k {
            let i = choose|i: int| 0 <= i < es.len() && es[i] == e;
            assert(i != p);
            assert(r[i] == e);
        }
    } else {
        assert forall|j: int| 0 <= j < es.len() implies #[trigger] es[j].0 != k by {
            if j < p {
                lemma_lex_irreflexive(k);
            } else {
                lemma_lex_trichotomy(k, es[p].0);
                if j > p {
                    lemma_lex_transitive(k, es[p].0, es[j].0);
                }
                lemma_lex_irreflexive(k);
            }
        }
        if r.contains(e) {
            let i = choose|i: int| 0 <= i < r.len() && r[i] == e;
            if i < p {
                assert(es[i] == e);
            } else if i > p {
                assert(es[i - 1] == e);
            }
        }
        if e == (k, v) {
            assert(r[p] == e);
        } else if es.contains(e) && e.0 != k {
            let i = choose|i: int| 0 <= i < es.len() && es[i] == e;
            if i < p {
                assert(r[i] == e);
            } else {
                assert(r[i + 1] == e);
            }
        }
    }
}

/// Two ascending entry sequences holding the same entries are equal.
proof fn lemma_ascending_unique(a: Seq<(Seq<u8>, Bencode)>, b: Seq<(Seq<u8>, Bencode)>)
    requires
        keys_ascending(a),
        keys_ascending(b),
        forall|e: (Seq<u8>, Bencode)| a.contains(e) <==> b.contains(e),
    ensures
        a == b,
    decreases a.len(),
{
    if a.len() == 0 {
        if b.len() > 0 {
            assert(b.contains(b[0]));
        }
        assert(a =~= b);
    } else {
        assert(a.contains(a[0]));
        assert(b.contains(a[0]));
        let j = choose|j: int| 0 <= j < b.len() && b[j] == a[0];
        assert(b.contains(b[0]));
        assert(a.contains(b[0]));
        let i = choose|i: int| 0 <= i < a.len() && a[i] == b[0];
        if i != 0 && j != 0 {
            assert(lex_lt(a[0].0, a[i].0));
            assert(lex_lt(b[0].0, b[j].0));
            lemma_lex_transitive(a[0].0, b[0].0, a[0].0);
            lemma_lex_irreflexive(a[0].0);
        }
        assert(a[0] == b[0]);
        let a1 = a.drop_first();
        let b1 = b.drop_first();
        assert forall|e: (Seq<u8>, Bencode)| a1.contains(e) <==> b1.contains(e) by {
            if a1.contains(e) {
                let x = choose|x: int| 0 <= x < a1.len() && a1[x] == e;
                assert(a[x + 1] == e);
                assert(a.contains(e));
                let y = choose|y: int| 0 <= y < b.len() && b[y] == e;
                if y == 0 {
                    lemma_ascending_key_unique(a, 0, x + 1);
                }
                assert(b1[y - 1] == e);
            }
            if b1.contains(e) {
                let x = choose|x: int| 0 <= x < b1.len() && b1[x] == e;
                assert(b[x + 1] == e);
                assert(b.contains(e));
                let y = choose|y: int| 0 <= y < a.len() && a[y] == e;
                if y == 0 {
                    lemma_ascending_key_unique(b, 0, x + 1);
                }
                assert(a1[y - 1] == e);
            }
        }
        assert forall|x: int, y: int| 0 <= x < y < a1.len() implies lex_lt(
            #[trigger] a1[x].0,
            #[trigger] a1[y].0,
        ) by {
            assert(a1[x] == a[x + 1] && a1[y] == a[y + 1]);
        }
        assert forall|x: int, y: int| 0 <= x < y < b1.len() implies lex_lt(
            #[trigger] b1[x].0,
            #[trigger] b1[y].0,
        ) by {
            assert(b1[x] == b[x + 1] && b1[y] == b[y + 1]);
        }
        lemma_ascending_unique(a1, b1);
        assert(a =~= seq![a[0]] + a1);
        assert(b =~= seq![b[0]] + b1);
    }
}

proof fn lemma_insert_commutes(
    es: Seq<(Seq<u8>, Bencode)>,
    k1: Seq<u8>,
    v1: Bencode,
    k2: Seq<u8>,
    v2: Bencode,
)
    requires
        keys_ascending(es),
        k1 != k2,
    ensures
        insert_entry(insert_entry(es, k1, v1), k2, v2) == insert_entry(
            insert_entry(es, k2, v2),
            k1,
            v1,
        ),
{
    let a1 = insert_entry(es, k1, v1);
    let b1 = insert_entry(es, k2, v2);
    lemma_insert_entry_ascending(es, k1, v1);
    lemma_insert_entry_ascending(es, k2, v2);
    lemma_insert_entry_ascending(a1, k2, v2);
    lemma_insert_entry_ascending(b1, k1, v1);
    assert forall|e: (Seq<u8>, Bencode)|
        insert_entry(a1, k2, v2).contains(e) <==> insert_entry(b1, k1, v1).contains(e) by {
        lemma_insert_entry_contains(a1, k2, v2, e);
        lemma_insert_entry_contains(b1, k1, v1, e);
        lemma_insert_entry_contains(es, k1, v1, e);
        lemma_insert_entry_contains(es, k2, v2, e);
    }
    lemma_ascending_unique(insert_entry(a1, k2, v2), insert_entry(b1, k1, v1));
}

proof fn lemma_parse_well_formed(s: Seq<u8>)
    ensures
        parse(s) matches Some((b, _)) ==> well_formed(b),
    decreases s.len(), 0nat,
{
    if s.len() == 0 {
    } else if s[0] == 105 {
    } else if is_digit(s[0]) {
    } else if s[0] == 108 {
        lemma_items_well_formed(s.drop_first(), Seq::empty());
    } else if s[0] == 100 {
        lemma_entries_well_formed(s.drop_first(), Seq::empty());
    }
}

proof fn lemma_items_well_formed(s: Seq<u8>, acc: Seq<Bencode>)
    requires
        forall|i: int| 0 <= i < acc.len() ==> well_formed(#[trigger] acc[i]),
    ensures
        parse_items(s, acc) matches Some((xs, _)) ==> forall|i: int|
            0 <= i < xs.len() ==> well_formed(#[trigger] xs[i]),
    decreases s.len(), 1nat,
{
    if s.len() > 0 && s[0] != 101 {
        if let Some((v, r)) = parse(s) {
            if r.len() < s.len() {
                lemma_parse_well_formed(s);
                let acc2 = acc.push(v);
                assert forall|i: int| 0 <= i < acc2.len() implies well_formed(#[trigger] acc2[i]) by {
                    if i < acc.len() {
                        assert(acc2[i] == acc[i]);
                    }
                }
                lemma_items_well_formed(r, acc2);
            }
        }
    }
}

proof fn lemma_entries_well_formed(s: Seq<u8>, acc: Seq<(Seq<u8>, Bencode)>)
    requires
        keys_ascending(acc),
        forall|i: int| 0 <= i < acc.len() ==> well_formed(#[trigger] acc[i].1),
    ensures
        parse_entries(s, acc) matches Some((es, _)) ==> keys_ascending(es) && forall|i: int|
            0 <= i < es.len() ==> well_formed(#[trigger] es[i].1),
    decreases s.len(), 1nat,
{
    if s.len() > 0 && s[0] != 101 {
        if let Some((Bencode::Bytes(k), r1)) = parse(s) {
            if r1.len() < s.len() {
                if let Some((v, r2)) = parse(r1) {
                    if r2.len() < r1.len() {
                        lemma_parse_well_formed(r1);
                        lemma_insert_entry_well_formed(acc, k, v);
                        lemma_entries_well_formed(r2, insert_entry(acc, k, v));
                    }
                }
            }
        }
    }
}

/// Decoding canonicalises: a decoded value is well formed, and its
/// canonical encoding decodes to that same value with nothing left over.
pub proof fn lemma_canonical_form(x: Seq<u8>)
    ensures
        parse(x) matches Some((b, _)) ==> (well_formed(b) && parse(encoding(b)) == Some(
            (b, Seq::<u8>::empty()),
        )),
{
    lemma_parse_well_formed(x);
    if let Some((b, _)) = parse(x) {
        lemma_decode_encoding(b, Seq::empty());
        assert(encoding(b) + Seq::<u8>::empty() =~= encoding(b));
    }
}

proof fn lemma_entries_step(k: Seq<u8>, v: Bencode, tail: Seq<u8>, acc: Seq<(Seq<u8>, Bencode)>)
    requires
        well_formed(v),
    ensures
        parse_entries(bytes_encoding(k) + encoding(v) + tail, acc) == parse_entries(
            tail,
            insert_entry(acc, k, v),
        ),
{
    let y = bytes_encoding(k) + encoding(v) + tail;
    let r1 = encoding(v) + tail;
    assert(y =~= bytes_encoding(k) + r1);
    lemma_parse_bytes_encoding(k, r1);
    lemma_encoding_start(Bencode::Bytes(k));
    assert(y[0] == bytes_encoding(k)[0]);
    lemma_encoding_start(v);
    lemma_decode_encoding(v, tail);
}

/// Writing two neighbouring entries of a dictionary, with different keys,
/// in the other order does not change what the dictionary decodes to; so
/// the order in which a document lists a dictionary's keys does not matter.
pub proof fn lemma_entry_order_irrelevant(
    k1: Seq<u8>,
    v1: Bencode,
    k2: Seq<u8>,
    v2: Bencode,
    rest: Seq<u8>,
    acc: Seq<(Seq<u8>, Bencode)>,
)
    requires
        k1 != k2,
        well_formed(v1),
        well_formed(v2),
        keys_ascending(acc),
    ensures
        parse_entries(
            bytes_encoding(k1) + encoding(v1) + bytes_encoding(k2) + encoding(v2) + rest,
            acc,
        ) == parse_entries(
            bytes_encoding(k2) + encoding(v2) + bytes_encoding(k1) + encoding(v1) + rest,
            acc,
        ),
{
    let t2 = bytes_encoding(k2) + encoding(v2) + rest;
    let t1 = bytes_encoding(k1) + encoding(v1) + rest;
    assert(bytes_encoding(k1) + encoding(v1) + bytes_encoding(k2) + encoding(v2) + rest
        =~= bytes_encoding(k1) + encoding(v1) + t2);
    assert(bytes_encoding(k2) + encoding(v2) + bytes_encoding(k1) + encoding(v1) + rest
        =~= bytes_encoding(k2) + encoding(v2) + t1);
    lemma_entries_step(k1, v1, t2, acc);
    lemma_entries_step(k2, v2, rest, insert_entry(acc, k1, v1));
    lemma_entries_step(k2, v2, t1, acc);
    lemma_entries_step(k1, v1, rest, insert_entry(acc, k2, v2));
    lemma_insert_commutes(acc, k1, v1, k2, v2);
}

// ---------------------------------------------------------------------------
// Dictionary lookup
/// The value held under key `k`, if any.
pub open spec fn lookup(es: Seq<(Seq<u8>, Bencode)>, k: Seq<u8>) -> Option<Bencode>
    decreases es.len(),
{
    if es.len() == 0 {
        None
    } else if es[0].0 == k {
        Some(es[0].1)
    } else {
        lookup(es.drop_first(), k)
    }
}

/// The value held under `key` in a dictionary's entries.
pub fn dict_get<'a>(es: &'a Vec<(Vec<u8>, Value)>, key: &[u8]) -> (r: Option<&'a Value>)
    ensures
        match lookup(entry_views(es@), key@) {
            Some(b) => r matches Some(v) && v@ == b,
            None => r is None,
        },
{
    let ghost ev = entry_views(es@);
    let mut i: usize = 0;
    assert(ev.subrange(0, ev.len() as int) =~= ev);
    while i < es.len()
        invariant
            i <= es.len(),
            ev == entry_views(es@),
            lookup(ev, key@) == lookup(ev.subrange(i as int, ev.len() as int), key@),
        decreases es.len() - i,
    {
        assert(ev.subrange(i as int, ev.len() as int).drop_first() =~= ev.subrange(
            i + 1,
            ev.len() as int,
        ));
        if bytes_equal(es[i].0.as_slice(), key) {
            return Some(&es[i].1);
        }
        i += 1;
    }
    None
}

} // verus!
