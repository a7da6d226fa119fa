//! Bencode codec: the self-describing encoding used by .torrent files and
//! HTTP tracker replies.
//!
//! Four kinds of value exist on the wire: integers `i<digits>e`, byte
//! strings `<len>:<bytes>`, lists `l<values>e` and dictionaries
//! `d(<key><value>)*e` whose keys are byte strings.  The parser is specified
//! against a mathematical parser over byte sequences (`spec_parse`), and the
//! encoder against `encoded`; parsing an encoded well-formed value yields
//! the value back (`lemma_parse_encoded`).

use vstd::prelude::*;

verus! {

use crate::error::Error;
use crate::text::{
    all_dec_digits, dec_digits, digits_value, lemma_dec_digits_value, parse_decimal,
    push_decimal, str_from_utf8,
};
use vstd::string::StringExecFns;
use vstd::utf8::{valid_utf8, decode_utf8};

/// A bencode value as held in memory.
#[derive(Debug, PartialEq, Eq)]
pub enum BencodeValue {
    /// Signed 64-bit integer.
    Integer(i64),
    /// Byte string; not necessarily UTF-8.
    ByteString(Vec<u8>),
    /// List of values.
    List(Vec<BencodeValue>),
    /// Dictionary: byte-string keys with values, in the order they appear on
    /// the wire.
    Dictionary(Vec<(Vec<u8>, BencodeValue)>),
}

/// The mathematical shape of a bencode value, used in contracts.
pub enum SpecBencode {
    /// Integer.
    Int(int),
    /// Byte string.
    Bytes(Seq<u8>),
    /// List.
    List(Seq<SpecBencode>),
    /// Dictionary, keys in wire order.
    Dict(Seq<(Seq<u8>, SpecBencode)>),
}

/// The model of an in-memory value.
pub open spec fn view_value(v: BencodeValue) -> SpecBencode
    decreases v,
{
    match v {
        BencodeValue::Integer(n) => SpecBencode::Int(n as int),
        BencodeValue::ByteString(b) => SpecBencode::Bytes(b@),
        BencodeValue::List(items) => SpecBencode::List(view_items(items@)),
        BencodeValue::Dictionary(ps) => SpecBencode::Dict(view_pairs(ps@)),
    }
}

/// The models of a sequence of in-memory values.
pub open spec fn view_items(items: Seq<BencodeValue>) -> Seq<SpecBencode>
    decreases items,
{
    if items.len() == 0 {
        Seq::empty()
    } else {
        seq![view_value(items[0])] + view_items(items.drop_first())
    }
}

/// The models of a sequence of in-memory key/value pairs.
pub open spec fn view_pairs(ps: Seq<(Vec<u8>, BencodeValue)>) -> Seq<(Seq<u8>, SpecBencode)>
    decreases ps,
{
    if ps.len() == 0 {
        Seq::empty()
    } else {
        seq![(ps[0].0@, view_value(ps[0].1))] + view_pairs(ps.drop_first())
    }
}

impl View for BencodeValue {
    type V = SpecBencode;

    open spec fn view(&self) -> SpecBencode {
        view_value(*self)
    }
}

/// `view_items` maps element-wise.
pub proof fn lemma_view_items(items: Seq<BencodeValue>)
    ensures
        view_items(items).len() == items.len(),
        forall|i: int| 0 <= i < items.len()
            ==> view_items(items)[i] == view_value(#[trigger] items[i]),
    decreases items.len(),
{
    if items.len() > 0 {
        lemma_view_items(items.drop_first());
        assert forall|i: int| 0 <= i < items.len()
            implies view_items(items)[i] == view_value(#[trigger] items[i]) by {
            if i > 0 {
                assert(items.drop_first()[i - 1] == items[i]);
            }
        }
    }
}

/// Appending an element appends its model.
pub proof fn lemma_view_items_push(items: Seq<BencodeValue>, x: BencodeValue)
    ensures
        view_items(items.push(x)) == view_items(items).push(view_value(x)),
    decreases items.len(),
{
    if items.len() == 0 {
        assert(items.push(x).drop_first() =~= Seq::<BencodeValue>::empty());
        assert(items.push(x)[0] == x);
        assert(view_items(Seq::<BencodeValue>::empty()) =~= Seq::<SpecBencode>::empty());
        assert(view_items(items.push(x)) =~= seq![view_value(x)]);
        assert(view_items(items.push(x)) =~= view_items(items).push(view_value(x)));
    } else {
        lemma_view_items_push(items.drop_first(), x);
        assert(items.push(x).drop_first() =~= items.drop_first().push(x));
        assert(items.push(x)[0] == items[0]);
        assert(view_items(items.push(x)) == seq![view_value(items[0])] + view_items(
            items.drop_first().push(x),
        ));
        assert(view_items(items.push(x)) == seq![view_value(items[0])] + view_items(
            items.drop_first(),
        ).push(view_value(x)));
        assert(view_items(items.push(x)) =~= view_items(items).push(view_value(x)));
    }
}

/// `view_pairs` maps element-wise.
pub proof fn lemma_view_pairs(ps: Seq<(Vec<u8>, BencodeValue)>)
    ensures
        view_pairs(ps).len() == ps.len(),
        forall|i: int| 0 <= i < ps.len()
            ==> view_pairs(ps)[i] == ((#[trigger] ps[i]).0@, view_value(ps[i].1)),
    decreases ps.len(),
{
    if ps.len() > 0 {
        lemma_view_pairs(ps.drop_first());
        assert forall|i: int| 0 <= i < ps.len()
            implies view_pairs(ps)[i] == ((#[trigger] ps[i]).0@, view_value(ps[i].1)) by {
            if i > 0 {
                assert(ps.drop_first()[i - 1] == ps[i]);
            }
        }
    }
}

/// Appending a pair appends its model.
pub proof fn lemma_view_pairs_push(ps: Seq<(Vec<u8>, BencodeValue)>, k: Vec<u8>, v: BencodeValue)
    ensures
        view_pairs(ps.push((k, v))) == view_pairs(ps).push((k@, view_value(v))),
    decreases ps.len(),
{
    if ps.len() == 0 {
        assert(ps.push((k, v)).drop_first() =~= Seq::<(Vec<u8>, BencodeValue)>::empty());
        assert(ps.push((k, v))[0] == (k, v));
        assert(view_pairs(Seq::<(Vec<u8>, BencodeValue)>::empty()) =~= Seq::<
            (Seq<u8>, SpecBencode),
        >::empty());
        assert(view_pairs(ps.push((k, v))) =~= seq![(k@, view_value(v))]);
        assert(view_pairs(ps.push((k, v))) =~= view_pairs(ps).push((k@, view_value(v))));
    } else {
        lemma_view_pairs_push(ps.drop_first(), k, v);
        assert(ps.push((k, v)).drop_first() =~= ps.drop_first().push((k, v)));
        assert(ps.push((k, v))[0] == ps[0]);
        assert(view_pairs(ps.push((k, v))) == seq![(ps[0].0@, view_value(ps[0].1))] + view_pairs(
            ps.drop_first().push((k, v)),
        ));
        assert(view_pairs(ps.push((k, v))) == seq![(ps[0].0@, view_value(ps[0].1))] + view_pairs(
            ps.drop_first(),
        ).push((k@, view_value(v))));
        assert(view_pairs(ps.push((k, v))) =~= view_pairs(ps).push((k@, view_value(v))));
    }
}

// ---------------------------------------------------------------------------
// The specification parser
// ---------------------------------------------------------------------------

/// The first position at or after `from` holding `target`, if any.
pub open spec fn find_byte(s: Seq<u8>, from: int, target: u8) -> Option<int>
    decreases s.len() - from,
{
    if from < 0 || from >= s.len() {
        None
    } else if s[from] == target {
        Some(from)
    } else {
        find_byte(s, from + 1, target)
    }
}

/// What `find_byte` returns: the first occurrence, or nothing when the byte
/// does not occur.
pub proof fn lemma_find_byte(s: Seq<u8>, from: int, target: u8)
    requires
        0 <= from,
    ensures
        find_byte(s, from, target) matches Some(e)
            ==> from <= e < s.len() && s[e] == target
                && forall|j: int| from <= j < e ==> s[j] != target,
        find_byte(s, from, target) is None
            ==> forall|j: int| from <= j < s.len() ==> s[j] != target,
    decreases s.len() - from,
{
    if from < s.len() && s[from] != target {
        lemma_find_byte(s, from + 1, target);
    }
}

/// The value denoted by the body of an `i...e` integer: an optional sign
/// followed by decimal digits, within the signed 64-bit range.
pub open spec fn parse_int_body(body: Seq<u8>) -> Option<int> {
    if body.len() == 0 {
        None
    } else if body[0] == 45 {
        let ds = body.drop_first();
        if ds.len() > 0 && all_dec_digits(ds) && digits_value(ds) <= i64::MAX + 1 {
            Some(-digits_value(ds))
        } else {
            None
        }
    } else if body[0] == 43 {
        let ds = body.drop_first();
        if ds.len() > 0 && all_dec_digits(ds) && digits_value(ds) <= i64::MAX {
            Some(digits_value(ds))
        } else {
            None
        }
    } else {
        if all_dec_digits(body) && digits_value(body) <= i64::MAX {
            Some(digits_value(body))
        } else {
            None
        }
    }
}

/// Parse one value at `pos`.  `None` means the input is malformed there.
pub open spec fn spec_parse(s: Seq<u8>, pos: int) -> Option<(SpecBencode, int)>
    decreases s.len() - pos, 1int,
{
    if pos < 0 || pos >= s.len() {
        None
    } else {
        let c = s[pos];
        if c == 105 {
            match find_byte(s, pos + 1, 101) {
                Some(e) => match parse_int_body(s.subrange(pos + 1, e)) {
                    Some(n) => Some((SpecBencode::Int(n), e + 1)),
                    None => None,
                },
                None => None,
            }
        } else if 48 <= c <= 57 {
            match find_byte(s, pos, 58) {
                Some(colon) => {
                    let lds = s.subrange(pos, colon);
                    if all_dec_digits(lds) && lds.len() > 0
                        && digits_value(lds) <= usize::MAX {
                        let len = digits_value(lds);
                        if colon + 1 + len <= s.len() {
                            Some((
                                SpecBencode::Bytes(s.subrange(colon + 1, colon + 1 + len)),
                                colon + 1 + len,
                            ))
                        } else {
                            None
                        }
                    } else {
                        None
                    }
                },
                None => None,
            }
        } else if c == 108 {
            match spec_parse_items(s, pos + 1) {
                Some((items, p)) => Some((SpecBencode::List(items), p)),
                None => None,
            }
        } else if c == 100 {
            match spec_parse_pairs(s, pos + 1) {
                Some((ps, p)) => Some((SpecBencode::Dict(ps), p)),
                None => None,
            }
        } else {
            None
        }
    }
}

/// Parse list elements at `pos` up to and including the closing `e`.
pub open spec fn spec_parse_items(s: Seq<u8>, pos: int) -> Option<(Seq<SpecBencode>, int)>
    decreases s.len() - pos, 2int,
{
    if pos < 0 || pos >= s.len() {
        None
    } else if s[pos] == 101 {
        Some((Seq::empty(), pos + 1))
    } else {
        match spec_parse(s, pos) {
            Some((v, p2)) => if pos < p2 <= s.len() {
                match spec_parse_items(s, p2) {
                    Some((rest, p3)) => Some((seq![v] + rest, p3)),
                    None => None,
                }
            } else {
                None
            },
            None => None,
        }
    }
}

/// Parse dictionary pairs at `pos` up to and including the closing `e`.
/// Every key must be a byte string.
pub open spec fn spec_parse_pairs(s: Seq<u8>, pos: int) -> Option<
    (Seq<(Seq<u8>, SpecBencode)>, int),
>
    decreases s.len() - pos, 2int,
{
    if pos < 0 || pos >= s.len() {
        None
    } else if s[pos] == 101 {
        Some((Seq::empty(), pos + 1))
    } else {
        match spec_parse(s, pos) {
            Some((k, p2)) => match k {
                SpecBencode::Bytes(kb) => if pos < p2 <= s.len() {
                    match spec_parse(s, p2) {
                        Some((v, p3)) => if p2 < p3 <= s.len() {
                            match spec_parse_pairs(s, p3) {
                                Some((rest, p4)) => Some((seq![(kb, v)] + rest, p4)),
                                None => None,
                            }
                        } else {
                            None
                        },
                        None => None,
                    }
                } else {
                    None
                },
                _ => None,
            },
            None => None,
        }
    }
}

// ---------------------------------------------------------------------------
// The executable parser
// ---------------------------------------------------------------------------

/// A bencode parse error with the given description.
fn bencode_error(msg: &str) -> (r: Error)
    ensures
        r is BencodeError,
{
    Error::BencodeError(String::from_str(msg))
}

/// Find the first occurrence of `target` at or after `from`.
pub(crate) fn find_byte_from(data: &[u8], from: usize, target: u8) -> (r: Option<usize>)
    requires
        from <= data@.len(),
    ensures
        r matches Some(e) ==> find_byte(data@, from as int, target) == Some(e as int),
        r is None ==> find_byte(data@, from as int, target) is None,
{
    let n = data.len();
    let mut i: usize = from;
    while i < n
        invariant
            from <= i <= n == data@.len(),
            find_byte(data@, from as int, target) == find_byte(data@, i as int, target),
        decreases n - i,
    {
        if data[i] == target {
            return Some(i);
        }
        i = i + 1;
    }
    None
}

/// Parse the body of an `i...e` integer, `data[lo..hi]`.
fn parse_i64(data: &[u8], lo: usize, hi: usize) -> (r: Result<i64, Error>)
    requires
        lo <= hi <= data@.len(),
    ensures
        r matches Ok(n) ==> parse_int_body(data@.subrange(lo as int, hi as int)) == Some(
            n as int,
        ),
        r is Err ==> parse_int_body(data@.subrange(lo as int, hi as int)) is None,
        r matches Err(e) ==> e is BencodeError,
{
    let ghost body = data@.subrange(lo as int, hi as int);
    if lo == hi {
        return Err(bencode_error("invalid integer"));
    }
    let first = data[lo];
    proof {
        assert(body[0] == first);
        assert(body.drop_first() =~= data@.subrange(lo + 1, hi as int));
    }
    if first == 45 {
        match parse_decimal(data, lo + 1, hi, 9223372036854775808u64) {
            Some(v) => {
                if v == 9223372036854775808u64 {
                    Ok(i64::MIN)
                } else {
                    Ok(-(v as i64))
                }
            },
            None => Err(bencode_error("invalid integer")),
        }
    } else if first == 43 {
        match parse_decimal(data, lo + 1, hi, 9223372036854775807u64) {
            Some(v) => Ok(v as i64),
            None => Err(bencode_error("invalid integer")),
        }
    } else {
        match parse_decimal(data, lo, hi, 9223372036854775807u64) {
            Some(v) => Ok(v as i64),
            None => Err(bencode_error("invalid integer")),
        }
    }
}

/// Parse one bencode value at `pos`, returning it and the position just
/// after it.  The result agrees exactly with `spec_parse`.
pub fn parse_value_at(data: &[u8], pos: usize) -> (r: Result<(BencodeValue, usize), Error>)
    requires
        pos <= data@.len(),
    ensures
        r matches Ok((v, p)) ==> spec_parse(data@, pos as int) == Some((v@, p as int))
            && pos < p <= data@.len(),
        r is Err ==> spec_parse(data@, pos as int) is None,
        r matches Err(e) ==> e is BencodeError,
    decreases data@.len() - pos, 1int,
{
    let n = data.len();
    if pos >= n {
        return Err(bencode_error("unexpected end of data"));
    }
    let c = data[pos];
    if c == 105 {
        // i<digits>e
        match find_byte_from(data, pos + 1, 101) {
            Some(e) => {
                proof {
                    lemma_find_byte(data@, pos + 1, 101);
                }
                let num = match parse_i64(data, pos + 1, e) {
                    Ok(num) => num,
                    Err(err) => {
                        return Err(err);
                    },
                };
                Ok((BencodeValue::Integer(num), e + 1))
            },
            None => Err(bencode_error("unterminated integer")),
        }
    } else if 48 <= c && c <= 57 {
        // <len>:<bytes>
        match find_byte_from(data, pos, 58) {
            Some(colon) => {
                proof {
                    lemma_find_byte(data@, pos as int, 58);
                }
                match parse_decimal(data, pos, colon, usize::MAX as u64) {
                    Some(len64) => {
                        let len = len64 as usize;
                        if len > n - (colon + 1) {
                            return Err(bencode_error("string length exceeds data"));
                        }
                        let bytes = vstd::slice::slice_to_vec(
                            vstd::slice::slice_subrange(data, colon + 1, colon + 1 + len),
                        );
                        proof {
                            assert(bytes@ =~= data@.subrange(
                                colon + 1,
                                colon + 1 + len,
                            ));
                        }
                        Ok((BencodeValue::ByteString(bytes), colon + 1 + len))
                    },
                    None => Err(bencode_error("invalid length")),
                }
            },
            None => Err(bencode_error("missing colon in byte string")),
        }
    } else if c == 108 {
        // l<values>e
        match parse_items_at(data, pos + 1) {
            Ok((items, p)) => Ok((BencodeValue::List(items), p)),
            Err(err) => Err(err),
        }
    } else if c == 100 {
        // d(<key><value>)*e
        match parse_pairs_at(data, pos + 1) {
            Ok((ps, p)) => Ok((BencodeValue::Dictionary(ps), p)),
            Err(err) => Err(err),
        }
    } else {
        Err(bencode_error("unexpected character"))
    }
}

/// Parse list elements up to and including the closing `e`.
fn parse_items_at(data: &[u8], pos: usize) -> (r: Result<(Vec<BencodeValue>, usize), Error>)
    requires
        pos <= data@.len(),
    ensures
        r matches Ok((items, p)) ==> spec_parse_items(data@, pos as int) == Some(
            (view_items(items@), p as int),
        ) && pos < p <= data@.len(),
        r is Err ==> spec_parse_items(data@, pos as int) is None,
        r matches Err(e) ==> e is BencodeError,
    decreases data@.len() - pos, 2int,
{
    let n = data.len();
    let mut out: Vec<BencodeValue> = Vec::new();
    let mut cur: usize = pos;
    loop
        invariant
            pos <= cur <= n == data@.len(),
            match spec_parse_items(data@, cur as int) {
                Some((rest, p)) => spec_parse_items(data@, pos as int) == Some(
                    (view_items(out@) + rest, p),
                ),
                None => spec_parse_items(data@, pos as int) is None,
            },
        decreases n - cur,
    {
        if cur >= n {
            return Err(bencode_error("unterminated list"));
        }
        if data[cur] == 101 {
            proof {
                assert(view_items(out@) + Seq::<SpecBencode>::empty() =~= view_items(out@));
            }
            return Ok((out, cur + 1));
        }
        match parse_value_at(data, cur) {
            Ok((v, p2)) => {
                proof {
                    lemma_view_items_push(out@, v);
                    match spec_parse_items(data@, p2 as int) {
                        Some((rest, p)) => {
                            assert(view_items(out@.push(v)) + rest =~= view_items(out@) + (seq![
                                view_value(v),
                            ] + rest));
                        },
                        None => {},
                    }
                }
                out.push(v);
                cur = p2;
            },
            Err(err) => {
                return Err(err);
            },
        }
    }
}

/// Parse dictionary pairs up to and including the closing `e`.
fn parse_pairs_at(data: &[u8], pos: usize) -> (r: Result<
    (Vec<(Vec<u8>, BencodeValue)>, usize),
    Error,
>)
    requires
        pos <= data@.len(),
    ensures
        r matches Ok((ps, p)) ==> spec_parse_pairs(data@, pos as int) == Some(
            (view_pairs(ps@), p as int),
        ) && pos < p <= data@.len(),
        r is Err ==> spec_parse_pairs(data@, pos as int) is None,
        r matches Err(e) ==> e is BencodeError,
    decreases data@.len() - pos, 2int,
{
    let n = data.len();
    let mut out: Vec<(Vec<u8>, BencodeValue)> = Vec::new();
    let mut cur: usize = pos;
    loop
        invariant
            pos <= cur <= n == data@.len(),
            match spec_parse_pairs(data@, cur as int) {
                Some((rest, p)) => spec_parse_pairs(data@, pos as int) == Some(
                    (view_pairs(out@) + rest, p),
                ),
                None => spec_parse_pairs(data@, pos as int) is None,
            },
        decreases n - cur,
    {
        if cur >= n {
            return Err(bencode_error("unterminated dictionary"));
        }
        if data[cur] == 101 {
            proof {
                assert(view_pairs(out@) + Seq::<(Seq<u8>, SpecBencode)>::empty() =~= view_pairs(
                    out@,
                ));
            }
            return Ok((out, cur + 1));
        }
        let (kv, p2) = match parse_value_at(data, cur) {
            Ok(pair) => pair,
            Err(err) => {
                return Err(err);
            },
        };
        let kb = match kv {
            BencodeValue::ByteString(kb) => kb,
            _ => {
                return Err(bencode_error("dictionary key must be a string"));
            },
        };
        let (v, p3) = match parse_value_at(data, p2) {
            Ok(pair) => pair,
            Err(err) => {
                return Err(err);
            },
        };
        proof {
            lemma_view_pairs_push(out@, kb, v);
            match spec_parse_pairs(data@, p3 as int) {
                Some((rest, p)) => {
                    assert(view_pairs(out@.push((kb, v))) + rest =~= view_pairs(out@) + (seq![
                        (kb@, view_value(v)),
                    ] + rest));
                },
                None => {},
            }
        }
        out.push((kb, v));
        cur = p3;
    }
}

// ---------------------------------------------------------------------------
// The encoder
// ---------------------------------------------------------------------------

/// The wire bytes of an integer body: decimal digits with an optional
/// leading minus.
pub open spec fn int_bytes(n: int) -> Seq<u8> {
    if n < 0 {
        seq![45u8] + dec_digits((-n) as nat)
    } else {
        dec_digits(n as nat)
    }
}

/// The wire form of a byte string: `<len>:<bytes>`.
pub open spec fn enc_bytes(b: Seq<u8>) -> Seq<u8> {
    dec_digits(b.len()) + seq![58u8] + b
}

/// The wire bytes of a value.
pub open spec fn encoded(v: SpecBencode) -> Seq<u8>
    decreases v,
{
    match v {
        SpecBencode::Int(n) => seq![105u8] + int_bytes(n) + seq![101u8],
        SpecBencode::Bytes(b) => enc_bytes(b),
        SpecBencode::List(items) => seq![108u8] + encoded_items(items) + seq![101u8],
        SpecBencode::Dict(ps) => seq![100u8] + encoded_pairs(ps) + seq![101u8],
    }
}

/// The concatenated wire bytes of list elements.
pub open spec fn encoded_items(items: Seq<SpecBencode>) -> Seq<u8>
    decreases items,
{
    if items.len() == 0 {
        Seq::empty()
    } else {
        encoded(items[0]) + encoded_items(items.drop_first())
    }
}

/// The concatenated wire bytes of dictionary pairs.
pub open spec fn encoded_pairs(ps: Seq<(Seq<u8>, SpecBencode)>) -> Seq<u8>
    decreases ps,
{
    if ps.len() == 0 {
        Seq::empty()
    } else {
        enc_bytes(ps[0].0) + encoded(ps[0].1) + encoded_pairs(ps.drop_first())
    }
}

/// Appending an element appends its encoding.
pub proof fn lemma_encoded_items_push(items: Seq<SpecBencode>, x: SpecBencode)
    ensures
        encoded_items(items.push(x)) == encoded_items(items) + encoded(x),
    decreases items.len(),
{
    if items.len() == 0 {
        assert(items.push(x).drop_first() =~= Seq::<SpecBencode>::empty());
        assert(items.push(x)[0] == x);
        assert(encoded_items(Seq::<SpecBencode>::empty()) =~= Seq::<u8>::empty());
        assert(encoded_items(items.push(x)) =~= encoded(x));
        assert(encoded_items(items.push(x)) =~= encoded_items(items) + encoded(x));
    } else {
        lemma_encoded_items_push(items.drop_first(), x);
        assert(items.push(x).drop_first() =~= items.drop_first().push(x));
        assert(items.push(x)[0] == items[0]);
        assert(encoded_items(items.push(x)) == encoded(items[0]) + encoded_items(
            items.drop_first().push(x),
        ));
        assert(encoded_items(items.push(x)) == encoded(items[0]) + (encoded_items(
            items.drop_first(),
        ) + encoded(x)));
        assert(encoded_items(items.push(x)) =~= encoded_items(items) + encoded(x));
    }
}

/// Appending a pair appends its encoding.
pub proof fn lemma_encoded_pairs_push(ps: Seq<(Seq<u8>, SpecBencode)>, k: Seq<u8>, x: SpecBencode)
    ensures
        encoded_pairs(ps.push((k, x))) == encoded_pairs(ps) + enc_bytes(k) + encoded(x),
    decreases ps.len(),
{
    if ps.len() == 0 {
        assert(ps.push((k, x)).drop_first() =~= Seq::<(Seq<u8>, SpecBencode)>::empty());
        assert(ps.push((k, x))[0] == (k, x));
        assert(encoded_pairs(Seq::<(Seq<u8>, SpecBencode)>::empty()) =~= Seq::<u8>::empty());
        assert(encoded_pairs(ps.push((k, x))) =~= enc_bytes(k) + encoded(x));
        assert(encoded_pairs(ps.push((k, x))) =~= encoded_pairs(ps) + enc_bytes(k) + encoded(x));
    } else {
        lemma_encoded_pairs_push(ps.drop_first(), k, x);
        assert(ps.push((k, x)).drop_first() =~= ps.drop_first().push((k, x)));
        assert(ps.push((k, x))[0] == ps[0]);
        assert(encoded_pairs(ps.push((k, x))) == enc_bytes(ps[0].0) + encoded(ps[0].1)
            + encoded_pairs(ps.drop_first().push((k, x))));
        assert(encoded_pairs(ps.push((k, x))) == enc_bytes(ps[0].0) + encoded(ps[0].1) + (
        encoded_pairs(ps.drop_first()) + enc_bytes(k) + encoded(x)));
        assert(encoded_pairs(ps.push((k, x))) =~= encoded_pairs(ps) + enc_bytes(k) + encoded(x));
    }
}

/// Append the `<len>:<bytes>` wire form of `b` to `out`.
fn push_enc_bytes(b: &Vec<u8>, out: &mut Vec<u8>)
    ensures
        final(out)@ == old(out)@ + enc_bytes(b@),
{
    push_decimal(b.len() as u64, out);
    out.push(58);
    crate::text::push_all(b.as_slice(), out);
    proof {
        assert(out@ =~= old(out)@ + enc_bytes(b@));
    }
}

/// Append the wire bytes of `v` to `out`.
fn push_encoded(v: &BencodeValue, out: &mut Vec<u8>)
    ensures
        final(out)@ == old(out)@ + encoded(v@),
    decreases *v,
{
    match v {
        BencodeValue::Integer(n) => {
            out.push(105);
            if *n < 0 {
                out.push(45);
                let m: u64 = if *n == i64::MIN {
                    9223372036854775808u64
                } else {
                    (-(*n)) as u64
                };
                push_decimal(m, out);
            } else {
                push_decimal((*n) as u64, out);
            }
            out.push(101);
            proof {
                assert(out@ =~= old(out)@ + encoded(v@));
            }
        },
        BencodeValue::ByteString(b) => {
            push_enc_bytes(b, out);
            proof {
                assert(out@ =~= old(out)@ + encoded(v@));
            }
        },
        BencodeValue::List(items) => {
            out.push(108);
            let n = items.len();
            let mut i: usize = 0;
            while i < n
                invariant
                    *v == BencodeValue::List(*items),
                    i <= n == items@.len(),
                    out@ == old(out)@ + seq![108u8] + encoded_items(view_items(items@.take(
                        i as int,
                    ))),
                decreases n - i,
            {
                proof {
                    let ghost sv = *v;
                    assert(sv->List_0 == *items);
                    assert(decreases_to!(sv => sv->List_0));
                    assert(decreases_to!(*items => items@));
                    assert(decreases_to!(items@ => items@[i as int]));
                }
                push_encoded(&items[i], out);
                proof {
                    assert(items@.take(i + 1) =~= items@.take(i as int).push(items@[i as int]));
                    lemma_view_items_push(items@.take(i as int), items@[i as int]);
                    lemma_encoded_items_push(
                        view_items(items@.take(i as int)),
                        view_value(items@[i as int]),
                    );
                    assert(out@ =~= old(out)@ + seq![108u8] + encoded_items(view_items(items@.take(
                        i + 1,
                    ))));
                }
                i = i + 1;
            }
            out.push(101);
            proof {
                assert(items@.take(n as int) =~= items@);
                assert(out@ =~= old(out)@ + encoded(v@));
            }
        },
        BencodeValue::Dictionary(ps) => {
            out.push(100);
            let n = ps.len();
            let mut i: usize = 0;
            while i < n
                invariant
                    *v == BencodeValue::Dictionary(*ps),
                    i <= n == ps@.len(),
                    out@ == old(out)@ + seq![100u8] + encoded_pairs(view_pairs(ps@.take(i as int))),
                decreases n - i,
            {
                push_enc_bytes(&ps[i].0, out);
                proof {
                    let ghost sv = *v;
                    assert(sv->Dictionary_0 == *ps);
                    assert(decreases_to!(sv => sv->Dictionary_0));
                    assert(decreases_to!(*ps => ps@));
                    assert(decreases_to!(ps@ => ps@[i as int]));
                    assert(decreases_to!(ps@[i as int] => ps@[i as int].1));
                }
                push_encoded(&ps[i].1, out);
                proof {
                    assert(ps@.take(i + 1) =~= ps@.take(i as int).push(ps@[i as int]));
                    lemma_view_pairs_push(
                        ps@.take(i as int),
                        ps@[i as int].0,
                        ps@[i as int].1,
                    );
                    lemma_encoded_pairs_push(
                        view_pairs(ps@.take(i as int)),
                        ps@[i as int].0@,
                        view_value(ps@[i as int].1),
                    );
                    assert(out@ =~= old(out)@ + seq![100u8] + encoded_pairs(view_pairs(ps@.take(
                        i + 1,
                    ))));
                }
                i = i + 1;
            }
            out.push(101);
            proof {
                assert(ps@.take(n as int) =~= ps@);
                assert(out@ =~= old(out)@ + encoded(v@));
            }
        },
    }
}

// ---------------------------------------------------------------------------
// Round trip: parsing an encoding yields the value back
// ---------------------------------------------------------------------------

/// Byte-string `a` sorts strictly before `b` in lexicographic byte order.
pub open spec fn lex_lt(a: Seq<u8>, b: Seq<u8>) -> bool
    decreases a.len(),
{
    if b.len() == 0 {
        false
    } else if a.len() == 0 {
        true
    } else if a[0] < b[0] {
        true
    } else if a[0] > b[0] {
        false
    } else {
        lex_lt(a.drop_first(), b.drop_first())
    }
}

/// Dictionary keys appear in strictly ascending byte order.
pub open spec fn sorted_keys(ps: Seq<(Seq<u8>, SpecBencode)>) -> bool {
    forall|i: int| 0 <= i < ps.len() - 1 ==> lex_lt(#[trigger] ps[i].0, ps[i + 1].0)
}

/// A value the encoder can produce faithfully: integers within the signed
/// 64-bit range, byte strings that fit in memory, and dictionaries with
/// sorted keys.
pub open spec fn wf_value(v: SpecBencode) -> bool
    decreases v,
{
    match v {
        SpecBencode::Int(n) => i64::MIN <= n <= i64::MAX,
        SpecBencode::Bytes(b) => b.len() <= usize::MAX,
        SpecBencode::List(items) => wf_items(items),
        SpecBencode::Dict(ps) => wf_pairs(ps) && sorted_keys(ps),
    }
}

/// Every element is well formed.
pub open spec fn wf_items(items: Seq<SpecBencode>) -> bool
    decreases items,
{
    items.len() == 0 || (wf_value(items[0]) && wf_items(items.drop_first()))
}

/// Every key fits in memory and every value is well formed.
pub open spec fn wf_pairs(ps: Seq<(Seq<u8>, SpecBencode)>) -> bool
    decreases ps,
{
    ps.len() == 0 || (ps[0].0.len() <= usize::MAX && wf_value(ps[0].1) && wf_pairs(
        ps.drop_first(),
    ))
}

/// Every encoding is at least two bytes long, never starts with `e`, and
/// starts with the byte that identifies its kind.
pub proof fn lemma_encoded_head(v: SpecBencode)
    ensures
        encoded(v).len() >= 2,
        encoded(v)[0] != 101,
        v is Int ==> encoded(v)[0] == 105,
        v is Bytes ==> 48 <= encoded(v)[0] <= 57,
        v is List ==> encoded(v)[0] == 108,
        v is Dict ==> encoded(v)[0] == 100,
{
    match v {
        SpecBencode::Int(n) => {
            assert(encoded(v)[0] == 105);
        },
        SpecBencode::Bytes(b) => {
            lemma_dec_digits_value(b.len());
            assert(encoded(v)[0] == dec_digits(b.len())[0]);
        },
        SpecBencode::List(items) => {
            assert(encoded(v)[0] == 108);
        },
        SpecBencode::Dict(ps) => {
            assert(encoded(v)[0] == 100);
        },
    }
}

/// A segment of a buffer that carries `enc` at `pos` matches the
/// corresponding segment of `enc`.
proof fn lemma_embed(s: Seq<u8>, pos: int, enc: Seq<u8>, a: int, b: int)
    requires
        0 <= pos,
        pos + enc.len() <= s.len(),
        s.subrange(pos, pos + enc.len() as int) == enc,
        0 <= a <= b <= enc.len(),
    ensures
        s.subrange(pos + a, pos + b) == enc.subrange(a, b),
{
    let whole = s.subrange(pos, pos + enc.len() as int);
    assert forall|j: int| 0 <= j < b - a implies s.subrange(pos + a, pos + b)[j] == enc.subrange(
        a,
        b,
    )[j] by {
        assert(whole[a + j] == s[pos + (a + j)]);
        assert(enc.subrange(a, b)[j] == enc[a + j]);
        assert(s.subrange(pos + a, pos + b)[j] == s[pos + a + j]);
    }
    assert(s.subrange(pos + a, pos + b) =~= enc.subrange(a, b));
}

/// One byte of a buffer that carries `enc` at `pos` matches `enc`.
proof fn lemma_embed_at(s: Seq<u8>, pos: int, enc: Seq<u8>, k: int)
    requires
        0 <= pos,
        pos + enc.len() <= s.len(),
        s.subrange(pos, pos + enc.len() as int) == enc,
        0 <= k < enc.len(),
    ensures
        s[pos + k] == enc[k],
{
    let whole = s.subrange(pos, pos + enc.len() as int);
    assert(whole[k] == s[pos + k]);
}

/// Parsing at `pos` in a buffer that carries `enc_bytes(kb)` there yields
/// exactly the byte string `kb`.
proof fn lemma_parse_bytestring(kb: Seq<u8>, s: Seq<u8>, pos: int)
    requires
        0 <= pos,
        kb.len() <= usize::MAX,
        pos + enc_bytes(kb).len() <= s.len(),
        s.subrange(pos, pos + enc_bytes(kb).len()) == enc_bytes(kb),
    ensures
        spec_parse(s, pos) == Some((SpecBencode::Bytes(kb), pos + enc_bytes(kb).len())),
{
    let enc = enc_bytes(kb);
    let total = enc.len() as int;
    lemma_dec_digits_value(kb.len());
    let ds = dec_digits(kb.len());
    let dlen = ds.len() as int;
    lemma_embed_at(s, pos, enc, 0);
    assert(enc[0] == ds[0]);
    assert(48 <= s[pos] <= 57);
    lemma_embed_at(s, pos, enc, dlen);
    assert(enc[dlen] == 58);
    assert(s[pos + dlen] == 58);
    lemma_find_byte(s, pos, 58);
    match find_byte(s, pos, 58) {
        None => {
            assert(false);
        },
        Some(colon) => {
            if colon < pos + dlen {
                lemma_embed_at(s, pos, enc, colon - pos);
                assert(enc[colon - pos] == ds[colon - pos]);
                assert(48 <= s[colon] <= 57);
                assert(false);
            }
            if colon > pos + dlen {
                assert(false);
            }
            assert(colon == pos + dlen);
            lemma_embed(s, pos, enc, 0, dlen);
            let lds = s.subrange(pos, colon);
            assert(enc.subrange(0, dlen) =~= ds);
            assert(lds =~= ds);
            assert(digits_value(lds) == kb.len());
            assert(colon + 1 + kb.len() == pos + total <= s.len());
            lemma_embed(s, pos, enc, dlen + 1, total);
            assert(enc.subrange(dlen + 1, total) =~= kb);
            assert(s.subrange(colon + 1, colon + 1 + kb.len()) =~= kb);
        },
    }
}

/// Parsing at `pos` in a buffer that carries the encoding of `Int(n)` there
/// yields exactly `Int(n)`.
proof fn lemma_parse_int(n: int, s: Seq<u8>, pos: int)
    requires
        0 <= pos,
        i64::MIN <= n <= i64::MAX,
        pos + encoded(SpecBencode::Int(n)).len() <= s.len(),
        s.subrange(pos, pos + encoded(SpecBencode::Int(n)).len()) == encoded(SpecBencode::Int(n)),
    ensures
        spec_parse(s, pos) == Some((SpecBencode::Int(n), pos + encoded(SpecBencode::Int(n)).len())),
{
    let enc = encoded(SpecBencode::Int(n));
    let total = enc.len() as int;
    let body = int_bytes(n);
    let blen = body.len() as int;
    let mag = if n < 0 { -n } else { n };
    lemma_dec_digits_value(mag as nat);
    lemma_embed_at(s, pos, enc, 0);
    assert(enc[0] == 105);
    assert(s[pos] == 105);
    assert forall|j: int| 0 <= j < blen implies body[j] != 101 by {
        if n < 0 {
            if j == 0 {
            } else {
                assert(body[j] == dec_digits(mag as nat)[j - 1]);
            }
        } else {
            assert(body[j] == dec_digits(mag as nat)[j]);
        }
    }
    lemma_embed_at(s, pos, enc, 1 + blen);
    assert(enc[1 + blen] == 101);
    assert(s[pos + (1 + blen)] == 101);
    lemma_find_byte(s, pos + 1, 101);
    match find_byte(s, pos + 1, 101) {
        None => {
            assert(false);
        },
        Some(e) => {
            if e < pos + 1 + blen {
                lemma_embed_at(s, pos, enc, e - pos);
                assert(enc[e - pos] == body[e - pos - 1]);
                assert(s[e] != 101);
                assert(false);
            }
            if e > pos + 1 + blen {
                assert(false);
            }
            assert(e == pos + 1 + blen);
            lemma_embed(s, pos, enc, 1, 1 + blen);
            assert(enc.subrange(1, 1 + blen) =~= body);
            let got = s.subrange(pos + 1, e);
            assert(got =~= body);
            if n < 0 {
                assert(body[0] == 45);
                assert(got.drop_first() =~= dec_digits(mag as nat));
                assert(parse_int_body(got) == Some(n));
            } else {
                assert(got =~= dec_digits(mag as nat));
                assert(48 <= got[0] <= 57);
                assert(parse_int_body(got) == Some(n));
            }
            assert(e + 1 == pos + total);
        },
    }
}

/// Parsing an encoded well-formed value embedded at `pos` yields the value
/// back and stops right after it.  This is the round-trip law: for any
/// value the encoder can produce, `parse` of `encode` returns the value,
/// so encoding again reproduces the same bytes.
pub proof fn lemma_parse_encoded(v: SpecBencode, s: Seq<u8>, pos: int)
    requires
        wf_value(v),
        0 <= pos,
        pos + encoded(v).len() <= s.len(),
        s.subrange(pos, pos + encoded(v).len()) == encoded(v),
    ensures
        spec_parse(s, pos) == Some((v, pos + encoded(v).len())),
    decreases v,
{
    match v {
        SpecBencode::Int(n) => {
            lemma_parse_int(n, s, pos);
        },
        SpecBencode::Bytes(b) => {
            lemma_parse_bytestring(b, s, pos);
        },
        SpecBencode::List(items) => {
            let enc = encoded(v);
            let total = enc.len() as int;
            let inner = encoded_items(items);
            let ilen = inner.len() as int;
            lemma_embed_at(s, pos, enc, 0);
            assert(enc[0] == 108);
            assert(s[pos] == 108);
            lemma_embed(s, pos, enc, 1, 1 + ilen);
            assert(enc.subrange(1, 1 + ilen) =~= inner);
            assert(s.subrange(pos + 1, pos + 1 + ilen) =~= inner);
            lemma_embed_at(s, pos, enc, 1 + ilen);
            assert(enc[1 + ilen] == 101);
            assert(s[pos + 1 + ilen] == 101);
            lemma_parse_encoded_items(items, s, pos + 1);
            assert(pos + total == pos + 1 + ilen + 1);
        },
        SpecBencode::Dict(ps) => {
            let enc = encoded(v);
            let total = enc.len() as int;
            let inner = encoded_pairs(ps);
            let ilen = inner.len() as int;
            lemma_embed_at(s, pos, enc, 0);
            assert(enc[0] == 100);
            assert(s[pos] == 100);
            lemma_embed(s, pos, enc, 1, 1 + ilen);
            assert(enc.subrange(1, 1 + ilen) =~= inner);
            assert(s.subrange(pos + 1, pos + 1 + ilen) =~= inner);
            lemma_embed_at(s, pos, enc, 1 + ilen);
            assert(enc[1 + ilen] == 101);
            assert(s[pos + 1 + ilen] == 101);
            lemma_parse_encoded_pairs(ps, s, pos + 1);
            assert(pos + total == pos + 1 + ilen + 1);
        },
    }
}

/// Parsing encoded list elements followed by `e` yields them all back.
proof fn lemma_parse_encoded_items(items: Seq<SpecBencode>, s: Seq<u8>, pos: int)
    requires
        wf_items(items),
        0 <= pos,
        pos + encoded_items(items).len() + 1 <= s.len(),
        s.subrange(pos, pos + encoded_items(items).len()) == encoded_items(items),
        s[pos + encoded_items(items).len()] == 101,
    ensures
        spec_parse_items(s, pos) == Some((items, pos + encoded_items(items).len() + 1)),
    decreases items,
{
    let inner = encoded_items(items);
    let ilen = inner.len() as int;
    if items.len() == 0 {
        assert(s[pos] == 101);
        assert(spec_parse_items(s, pos) == Some((Seq::<SpecBencode>::empty(), pos + 1)));
        assert(items =~= Seq::<SpecBencode>::empty());
    } else {
        let v0 = items[0];
        let e0 = encoded(v0);
        let e0len = e0.len() as int;
        let rest = items.drop_first();
        let er = encoded_items(rest);
        assert(inner == e0 + er);
        lemma_encoded_head(v0);
        lemma_embed_at(s, pos, inner, 0);
        assert(inner[0] == e0[0]);
        assert(s[pos] != 101);
        lemma_embed(s, pos, inner, 0, e0len);
        assert(inner.subrange(0, e0len) =~= e0);
        assert(s.subrange(pos, pos + e0len) =~= e0);
        lemma_parse_encoded(v0, s, pos);
        let p2 = pos + e0len;
        lemma_embed(s, pos, inner, e0len, ilen);
        assert(inner.subrange(e0len, ilen) =~= er);
        assert(s.subrange(p2, p2 + er.len()) =~= er);
        assert(s[p2 + er.len()] == 101);
        lemma_parse_encoded_items(rest, s, p2);
        assert(spec_parse_items(s, p2) == Some((rest, p2 + er.len() + 1)));
        assert(seq![v0] + rest =~= items);
        assert(p2 + er.len() + 1 == pos + ilen + 1);
    }
}

/// Parsing encoded dictionary pairs followed by `e` yields them all back.
proof fn lemma_parse_encoded_pairs(ps: Seq<(Seq<u8>, SpecBencode)>, s: Seq<u8>, pos: int)
    requires
        wf_pairs(ps),
        0 <= pos,
        pos + encoded_pairs(ps).len() + 1 <= s.len(),
        s.subrange(pos, pos + encoded_pairs(ps).len()) == encoded_pairs(ps),
        s[pos + encoded_pairs(ps).len()] == 101,
    ensures
        spec_parse_pairs(s, pos) == Some((ps, pos + encoded_pairs(ps).len() + 1)),
    decreases ps,
{
    let inner = encoded_pairs(ps);
    let ilen = inner.len() as int;
    if ps.len() == 0 {
        assert(s[pos] == 101);
        assert(spec_parse_pairs(s, pos) == Some((Seq::<(Seq<u8>, SpecBencode)>::empty(), pos + 1)));
        assert(ps =~= Seq::<(Seq<u8>, SpecBencode)>::empty());
    } else {
        let k0 = ps[0].0;
        let v0 = ps[0].1;
        let ek = enc_bytes(k0);
        let eklen = ek.len() as int;
        let e0 = encoded(v0);
        let e0len = e0.len() as int;
        let rest = ps.drop_first();
        let er = encoded_pairs(rest);
        assert(inner == ek + e0 + er);
        lemma_dec_digits_value(k0.len());
        lemma_embed_at(s, pos, inner, 0);
        assert(inner[0] == ek[0]);
        assert(ek[0] == dec_digits(k0.len())[0]);
        assert(48 <= s[pos] <= 57);
        assert(s[pos] != 101);
        lemma_embed(s, pos, inner, 0, eklen);
        assert(inner.subrange(0, eklen) =~= ek);
        assert(s.subrange(pos, pos + eklen) =~= ek);
        lemma_parse_bytestring(k0, s, pos);
        let p2 = pos + eklen;
        lemma_embed(s, pos, inner, eklen, eklen + e0len);
        assert(inner.subrange(eklen, eklen + e0len) =~= e0);
        assert(s.subrange(p2, p2 + e0len) =~= e0);
        assert(decreases_to!(ps => ps[0]));
        assert(decreases_to!(ps[0] => ps[0].1));
        lemma_parse_encoded(v0, s, p2);
        let p3 = p2 + e0len;
        lemma_encoded_head(v0);
        lemma_embed(s, pos, inner, eklen + e0len, ilen);
        assert(inner.subrange(eklen + e0len, ilen) =~= er);
        assert(s.subrange(p3, p3 + er.len()) =~= er);
        assert(s[p3 + er.len()] == 101);
        lemma_parse_encoded_pairs(rest, s, p3);
        assert(spec_parse_pairs(s, p3) == Some((rest, p3 + er.len() + 1)));
        assert(seq![(k0, v0)] + rest =~= ps);
        assert(p3 + er.len() + 1 == pos + ilen + 1);
    }
}

/// Round trip at the top level: parsing the encoding of a well-formed
/// value yields the value and consumes every byte, so a re-encoding is
/// byte-for-byte the original buffer.
pub proof fn lemma_encode_parse_round_trip(v: SpecBencode)
    requires
        wf_value(v),
    ensures
        spec_parse(encoded(v), 0) == Some((v, encoded(v).len() as int)),
{
    assert(encoded(v).subrange(0, encoded(v).len() as int) =~= encoded(v));
    lemma_parse_encoded(v, encoded(v), 0);
}

impl BencodeValue {
    /// Parse a bencode value from the front of `data`.  Succeeds exactly
    /// when `spec_parse` does, and returns that value.  Bytes after the
    /// first value are ignored.
    pub fn parse(data: &[u8]) -> (r: Result<BencodeValue, Error>)
        ensures
            r matches Ok(v) ==> (spec_parse(data@, 0) matches Some(sp) && sp.0 == v@),
            r is Err ==> spec_parse(data@, 0) is None,
            r matches Err(e) ==> e is BencodeError,
    {
        match parse_value_at(data, 0) {
            Ok((v, _p)) => Ok(v),
            Err(e) => Err(e),
        }
    }

    /// The wire bytes of this value, exactly `encoded` of its model.
    /// Dictionary pairs are written in their stored order.
    pub fn encode(&self) -> (r: Vec<u8>)
        ensures
            r@ == encoded(self@),
    {
        let mut out: Vec<u8> = Vec::new();
        push_encoded(self, &mut out);
        proof {
            assert(out@ =~= encoded(self@));
        }
        out
    }

    /// The integer held, if this is an integer.
    pub fn as_integer(&self) -> (r: Option<i64>)
        ensures
            self@ matches SpecBencode::Int(m) ==> (r matches Some(n) && n == m),
            !(self@ is Int) ==> r is None,
    {
        match self {
            BencodeValue::Integer(n) => Some(*n),
            _ => None,
        }
    }

    /// The bytes held, if this is a byte string.
    pub fn as_bytes(&self) -> (r: Option<&Vec<u8>>)
        ensures
            self@ matches SpecBencode::Bytes(b) ==> (r matches Some(v) && v@ == b),
            !(self@ is Bytes) ==> r is None,
    {
        match self {
            BencodeValue::ByteString(b) => Some(b),
            _ => None,
        }
    }

    /// The text held, if this is a byte string holding valid UTF-8.
    pub fn as_str(&self) -> (r: Option<&str>)
        ensures
            r matches Some(t) ==> (self@ matches SpecBencode::Bytes(b) && valid_utf8(b) && t@
                == decode_utf8(b)),
            r is None ==> !(self@ matches SpecBencode::Bytes(b) && valid_utf8(b)),
    {
        match self {
            BencodeValue::ByteString(b) => str_from_utf8(b.as_slice()),
            _ => None,
        }
    }

    /// The elements held, if this is a list.
    pub fn as_list(&self) -> (r: Option<&Vec<BencodeValue>>)
        ensures
            self@ matches SpecBencode::List(items) ==> (r matches Some(v) && view_items(v@)
                == items),
            !(self@ is List) ==> r is None,
    {
        match self {
            BencodeValue::List(items) => Some(items),
            _ => None,
        }
    }

    /// The key/value pairs held, in wire order, if this is a dictionary.
    pub fn as_dict(&self) -> (r: Option<&Vec<(Vec<u8>, BencodeValue)>>)
        ensures
            self@ matches SpecBencode::Dict(ps) ==> (r matches Some(v) && view_pairs(v@) == ps),
            !(self@ is Dict) ==> r is None,
    {
        match self {
            BencodeValue::Dictionary(ps) => Some(ps),
            _ => None,
        }
    }

    /// The value under `key`, if this is a dictionary that holds the key.
    /// The first occurrence wins.
    pub fn dict_get(&self, key: &[u8]) -> (r: Option<&BencodeValue>)
        ensures
            self@ matches SpecBencode::Dict(ps) ==> (match r {
                Some(v) => dict_lookup(ps, key@) == Some(v@),
                None => dict_lookup(ps, key@) is None,
            }),
            !(self@ is Dict) ==> r is None,
    {
        let ps = match self {
            BencodeValue::Dictionary(ps) => ps,
            _ => {
                return None;
            },
        };
        let ghost vps = view_pairs(ps@);
        proof {
            lemma_view_pairs(ps@);
            assert(vps.skip(0) =~= vps);
        }
        let n = ps.len();
        let mut i: usize = 0;
        while i < n
            invariant
                *self == BencodeValue::Dictionary(*ps),
                i <= n == ps@.len(),
                vps == view_pairs(ps@),
                vps.len() == n,
                forall|j: int| 0 <= j < vps.len()
                    ==> vps[j] == ((#[trigger] ps@[j]).0@, view_value(ps@[j].1)),
                dict_lookup(vps, key@) == dict_lookup(vps.skip(i as int), key@),
            decreases n - i,
        {
            proof {
                assert(vps.skip(i as int)[0] == vps[i as int]);
                assert(vps.skip(i as int).drop_first() =~= vps.skip(i + 1));
            }
            if slice_eq(ps[i].0.as_slice(), key) {
                proof {
                    assert(dict_lookup(vps.skip(i as int), key@) == Some(vps[i as int].1));
                }
                return Some(&ps[i].1);
            }
            i = i + 1;
        }
        proof {
            assert(vps.skip(n as int) =~= Seq::<(Seq<u8>, SpecBencode)>::empty());
        }
        None
    }

    /// The text under `key`, if this is a dictionary whose value there is a
    /// byte string holding valid UTF-8.
    pub fn dict_get_str(&self, key: &[u8]) -> (r: Option<&str>)
        ensures
            r matches Some(t) ==> (self@ matches SpecBencode::Dict(ps) && dict_lookup(ps, key@)
                matches Some(SpecBencode::Bytes(b)) && valid_utf8(b) && t@ == decode_utf8(b)),
            r is None ==> !(self@ matches SpecBencode::Dict(ps) && dict_lookup(ps, key@) matches
                Some(SpecBencode::Bytes(b)) && valid_utf8(b)),
    {
        match self.dict_get(key) {
            Some(v) => v.as_str(),
            None => None,
        }
    }

    /// The integer under `key`, if this is a dictionary whose value there
    /// is an integer.
    pub fn dict_get_int(&self, key: &[u8]) -> (r: Option<i64>)
        ensures
            r matches Some(n) ==> (self@ matches SpecBencode::Dict(ps) && dict_lookup(ps, key@)
                matches Some(SpecBencode::Int(m)) && n == m),
            r is None ==> !(self@ matches SpecBencode::Dict(ps) && dict_lookup(ps, key@) matches
                Some(SpecBencode::Int(m))),
    {
        match self.dict_get(key) {
            Some(v) => v.as_integer(),
            None => None,
        }
    }
}

/// The value under `key` in a pair list, first occurrence first.
pub open spec fn dict_lookup(ps: Seq<(Seq<u8>, SpecBencode)>, key: Seq<u8>) -> Option<SpecBencode>
    decreases ps.len(),
{
    if ps.len() == 0 {
        None
    } else if ps[0].0 == key {
        Some(ps[0].1)
    } else {
        dict_lookup(ps.drop_first(), key)
    }
}

/// Whether two byte slices hold the same bytes.
pub fn slice_eq(a: &[u8], b: &[u8]) -> (r: bool)
    ensures
        r == (a@ == b@),
{
    let n = a.len();
    if n != b.len() {
        return false;
    }
    let mut i: usize = 0;
    while i < n
        invariant
            i <= n == a@.len() == b@.len(),
            forall|j: int| 0 <= j < i ==> a@[j] == b@[j],
        decreases n - i,
    {
        if a[i] != b[i] {
            proof {
                assert(a@[i as int] != b@[i as int]);
            }
            return false;
        }
        i = i + 1;
    }
    proof {
        assert(a@ =~= b@);
    }
    true
}

// ---------------------------------------------------------------------------
// The raw byte range of a dictionary entry
// ---------------------------------------------------------------------------

/// Walk the pairs of a dictionary body starting at `pos` and return the
/// byte range `[start, end)` that the value under `key` occupies.
pub open spec fn spec_key_range(s: Seq<u8>, pos: int, key: Seq<u8>) -> Option<(int, int)>
    decreases s.len() - pos,
{
    if pos < 0 || pos >= s.len() {
        None
    } else if s[pos] == 101 {
        None
    } else {
        match spec_parse(s, pos) {
            Some((k, p2)) => match k {
                SpecBencode::Bytes(kb) => if pos < p2 <= s.len() {
                    match spec_parse(s, p2) {
                        Some((v, p3)) => if p2 < p3 <= s.len() {
                            if kb == key {
                                Some((p2, p3))
                            } else {
                                spec_key_range(s, p3, key)
                            }
                        } else {
                            None
                        },
                        None => None,
                    }
                } else {
                    None
                },
                _ => None,
            },
            None => None,
        }
    }
}

/// The range found by `spec_key_range` is the range of a parseable value,
/// and that value is what `dict_lookup` finds under the key among the pairs
/// parsed from the same position.
pub proof fn lemma_key_range(s: Seq<u8>, pos: int, key: Seq<u8>)
    ensures
        spec_key_range(s, pos, key) matches Some(pr) ==> (spec_parse(s, pr.0) matches Some(vp)
            && vp.1 == pr.1 && (spec_parse_pairs(s, pos) matches Some(psp) ==> dict_lookup(
            psp.0,
            key,
        ) == Some(vp.0))),
    decreases s.len() - pos,
{
    if 0 <= pos < s.len() && s[pos] != 101 {
        match spec_parse(s, pos) {
            Some((k, p2)) => {
                match k {
                    SpecBencode::Bytes(kb) => {
                        if pos < p2 <= s.len() {
                            match spec_parse(s, p2) {
                                Some((v, p3)) => {
                                    if p2 < p3 <= s.len() {
                                        if kb == key {
                                            match spec_parse_pairs(s, p3) {
                                                Some((rest, p4)) => {
                                                    assert((seq![(kb, v)] + rest)[0] == (kb, v));
                                                },
                                                None => {},
                                            }
                                        } else {
                                            lemma_key_range(s, p3, key);
                                            match spec_parse_pairs(s, p3) {
                                                Some((rest, p4)) => {
                                                    assert((seq![(kb, v)] + rest)[0] == (kb, v));
                                                    assert((seq![(kb, v)]
                                                        + rest).drop_first() =~= rest);
                                                },
                                                None => {},
                                            }
                                        }
                                    }
                                },
                                None => {},
                            }
                        }
                    },
                    _ => {},
                }
            },
            None => {},
        }
    }
}

/// The byte range `[start, end)` of the value under `key` in the top-level
/// dictionary of `data`, or nothing when `data` does not start a dictionary
/// that holds the key.  Hashing those bytes hashes the value exactly as it
/// appeared on the wire.
pub fn raw_range_of_key(data: &[u8], key: &[u8]) -> (r: Option<(usize, usize)>)
    ensures
        r matches Some(pr) ==> data@.len() > 0 && data@[0] == 100 && spec_key_range(
            data@,
            1,
            key@,
        ) == Some((pr.0 as int, pr.1 as int)) && pr.0 <= pr.1 <= data@.len(),
        r is None ==> !(data@.len() > 0 && data@[0] == 100 && spec_key_range(data@, 1, key@)
            is Some),
{
    let n = data.len();
    if n == 0 || data[0] != 100 {
        return None;
    }
    let mut cur: usize = 1;
    loop
        invariant
            1 <= cur <= n == data@.len(),
            data@[0] == 100,
            spec_key_range(data@, 1, key@) == spec_key_range(data@, cur as int, key@),
        decreases n - cur,
    {
        if cur >= n {
            return None;
        }
        if data[cur] == 101 {
            return None;
        }
        let (kv, p2) = match parse_value_at(data, cur) {
            Ok(pair) => pair,
            Err(_) => {
                return None;
            },
        };
        let kb = match kv {
            BencodeValue::ByteString(kb) => kb,
            _ => {
                return None;
            },
        };
        let (_v, p3) = match parse_value_at(data, p2) {
            Ok(pair) => pair,
            Err(_) => {
                return None;
            },
        };
        if slice_eq(kb.as_slice(), key) {
            return Some((p2, p3));
        }
        cur = p3;
    }
}

} // verus!
