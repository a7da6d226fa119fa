//! Byte- and text-level helpers shared by the parsers and formatters:
//! ASCII/UTF-8 conversion, decimal digits, hex digits, percent-decoding.

use vstd::prelude::*;

verus! {

use vstd::utf8::{valid_utf8, decode_utf8, encode_utf8, is_ascii_chars};
use vstd::utf8::{is_ascii_chars_encode_utf8, encode_utf8_valid_utf8, encode_utf8_decode_utf8};

// ---------------------------------------------------------------------------
// ASCII and UTF-8
// ---------------------------------------------------------------------------

/// The characters that a sequence of ASCII bytes spells.
pub open spec fn ascii_chars_of(bytes: Seq<u8>) -> Seq<char> {
    Seq::new(bytes.len(), |i: int| bytes[i] as char)
}

/// Every byte of the sequence is ASCII.
pub open spec fn all_ascii(bytes: Seq<u8>) -> bool {
    forall|i: int| 0 <= i < bytes.len() ==> bytes[i] < 128
}

/// Relies on std's `str::from_utf8`: it returns `Ok` exactly on valid UTF-8
/// input, and the returned `str` consists of the decoded characters.
#[verifier::external_body]
pub fn str_from_utf8(v: &[u8]) -> (r: Option<&str>)
    ensures
        r is Some <==> valid_utf8(v@),
        r matches Some(s) ==> s@ == decode_utf8(v@),
{
    core::str::from_utf8(v).ok()
}

/// A sequence of ASCII bytes is valid UTF-8 and decodes to the same
/// characters.
pub proof fn lemma_ascii_utf8(bytes: Seq<u8>)
    requires
        all_ascii(bytes),
    ensures
        valid_utf8(bytes),
        decode_utf8(bytes) == ascii_chars_of(bytes),
{
    let chars = ascii_chars_of(bytes);
    assert(is_ascii_chars(chars));
    is_ascii_chars_encode_utf8(chars);
    assert(encode_utf8(chars) =~= bytes);
    encode_utf8_valid_utf8(chars);
    encode_utf8_decode_utf8(chars);
}

/// Turn ASCII bytes into the `String` that spells them.
pub fn ascii_to_string(bytes: &[u8]) -> (r: String)
    requires
        all_ascii(bytes@),
    ensures
        r@ == ascii_chars_of(bytes@),
{
    proof {
        lemma_ascii_utf8(bytes@);
    }
    match str_from_utf8(bytes) {
        Some(s) => s.to_owned(),
        None => vstd::pervasive::unreached(),
    }
}

/// Turn arbitrary bytes into a `String` when they are valid UTF-8, and
/// `None` otherwise.
pub fn utf8_to_string(bytes: &[u8]) -> (r: Option<String>)
    ensures
        r is Some <==> valid_utf8(bytes@),
        r matches Some(s) ==> s@ == decode_utf8(bytes@),
{
    match str_from_utf8(bytes) {
        Some(s) => Some(s.to_owned()),
        None => None,
    }
}

// ---------------------------------------------------------------------------
// Decimal digits
// ---------------------------------------------------------------------------

/// The decimal digit characters of `n`, as ASCII bytes, no sign and no
/// leading zero (except for `n == 0` itself).
pub open spec fn dec_digits(n: nat) -> Seq<u8>
    decreases n,
{
    if n < 10 {
        seq![(48 + n) as u8]
    } else {
        dec_digits(n / 10) + seq![(48 + n % 10) as u8]
    }
}

/// Every byte of the sequence is a decimal digit.
pub open spec fn all_dec_digits(ds: Seq<u8>) -> bool {
    forall|i: int| 0 <= i < ds.len() ==> 48 <= #[trigger] ds[i] <= 57
}

/// The number that a sequence of decimal digits denotes (most significant
/// digit first).
pub open spec fn digits_value(ds: Seq<u8>) -> int
    decreases ds.len(),
{
    if ds.len() == 0 {
        0
    } else {
        digits_value(ds.drop_last()) * 10 + (ds.last() - 48)
    }
}

/// `dec_digits` spells its argument: reading the digits back gives `n`.
pub proof fn lemma_dec_digits_value(n: nat)
    ensures
        all_dec_digits(dec_digits(n)),
        dec_digits(n).len() >= 1,
        digits_value(dec_digits(n)) == n,
    decreases n,
{
    if n < 10 {
        assert(dec_digits(n) =~= seq![(48 + n) as u8]);
        assert(dec_digits(n).drop_last() =~= Seq::<u8>::empty());
        assert((48 + n) as u8 == 48 + n);
        assert(digits_value(Seq::<u8>::empty()) == 0);
        assert(digits_value(dec_digits(n)) == digits_value(Seq::<u8>::empty()) * 10 + ((48 + n) - 48));
    } else {
        lemma_dec_digits_value(n / 10);
        let ds = dec_digits(n);
        assert(ds.drop_last() =~= dec_digits(n / 10));
        assert(ds.last() == (48 + n % 10) as u8);
        assert(digits_value(ds) == (n / 10) * 10 + n % 10);
        assert((n / 10) * 10 + n % 10 == n) by (nonlinear_arith);
    }
}

/// A digit string is worth no less than any of its prefixes.
pub proof fn lemma_digits_value_prefix(ds: Seq<u8>, k: int)
    requires
        all_dec_digits(ds),
        0 <= k <= ds.len(),
    ensures
        digits_value(ds) >= digits_value(ds.take(k)) >= 0,
    decreases ds.len(),
{
    if ds.len() == 0 {
        assert(ds.take(k) =~= ds);
    } else if k == ds.len() {
        assert(ds.take(k) =~= ds);
        lemma_digits_value_prefix(ds.drop_last(), ds.len() - 1);
        assert(ds.drop_last().take(ds.len() - 1) =~= ds.drop_last());
        assert(digits_value(ds.drop_last()) * 10 >= digits_value(ds.drop_last())) by (nonlinear_arith)
            requires digits_value(ds.drop_last()) >= 0;
    } else {
        lemma_digits_value_prefix(ds.drop_last(), k);
        assert(ds.take(k) =~= ds.drop_last().take(k));
        assert(digits_value(ds.drop_last()) * 10 >= digits_value(ds.drop_last())) by (nonlinear_arith)
            requires digits_value(ds.drop_last()) >= 0;
        assert(digits_value(ds) >= digits_value(ds.drop_last()));
    }
}

/// Append the decimal digits of `n` to `out`.
pub fn push_decimal(n: u64, out: &mut Vec<u8>)
    ensures
        final(out)@ == old(out)@ + dec_digits(n as nat),
    decreases n,
{
    if n >= 10 {
        push_decimal(n / 10, out);
    }
    out.push((48 + (n % 10)) as u8);
    proof {
        assert(out@ =~= old(out)@ + dec_digits(n as nat));
    }
}

/// The decimal digits of `n` as a fresh byte vector.
pub fn u64_to_decimal(n: u64) -> (r: Vec<u8>)
    ensures
        r@ == dec_digits(n as nat),
{
    let mut out: Vec<u8> = Vec::new();
    push_decimal(n, &mut out);
    proof {
        assert(out@ =~= dec_digits(n as nat));
    }
    out
}

/// Parse the decimal digits `data[lo..hi]` into a number, refusing an empty
/// run, a non-digit byte, or a value above `limit`.
pub fn parse_decimal(data: &[u8], lo: usize, hi: usize, limit: u64) -> (r: Option<u64>)
    requires
        lo <= hi <= data@.len(),
    ensures
        r matches Some(v)
            ==> all_dec_digits(data@.subrange(lo as int, hi as int))
                && lo < hi
                && v == digits_value(data@.subrange(lo as int, hi as int))
                && v <= limit,
        r is None
            ==> !(all_dec_digits(data@.subrange(lo as int, hi as int))
                && lo < hi
                && digits_value(data@.subrange(lo as int, hi as int)) <= limit),
{
    if lo == hi {
        return None;
    }
    let ghost ds = data@.subrange(lo as int, hi as int);
    let mut acc: u64 = 0;
    let mut i: usize = lo;
    while i < hi
        invariant
            lo <= i <= hi <= data@.len(),
            ds == data@.subrange(lo as int, hi as int),
            all_dec_digits(ds.take(i - lo)),
            acc == digits_value(ds.take(i - lo)),
            acc <= limit,
        decreases hi - i,
    {
        let b = data[i];
        if b < 48 || b > 57 {
            proof {
                assert(ds[i - lo] == b);
                assert(!all_dec_digits(ds));
            }
            return None;
        }
        let d: u64 = (b - 48) as u64;
        proof {
            assert(ds.take(i + 1 - lo).drop_last() =~= ds.take(i - lo));
            assert(ds.take(i + 1 - lo).last() == b);
        }
        if acc > limit / 10 {
            proof {
                assert(digits_value(ds.take(i + 1 - lo)) == acc * 10 + d);
                assert(acc * 10 + d > limit) by (nonlinear_arith)
                    requires
                        acc > limit / 10,
                        acc >= 0,
                        0 <= d <= 9,
                ;
                if all_dec_digits(ds) {
                    lemma_digits_value_prefix(ds, i + 1 - lo);
                }
            }
            return None;
        }
        proof {
            assert(acc * 10 <= limit) by (nonlinear_arith)
                requires
                    acc <= limit / 10,
                    acc >= 0,
            ;
        }
        let next: u64 = acc * 10;
        if d > limit - next {
            proof {
                assert(digits_value(ds.take(i + 1 - lo)) == acc * 10 + d);
                if all_dec_digits(ds) {
                    lemma_digits_value_prefix(ds, i + 1 - lo);
                }
            }
            return None;
        }
        acc = next + d;
        i = i + 1;
    }
    proof {
        assert(ds.take(hi - lo) =~= ds);
    }
    Some(acc)
}

/// Whether two strings spell the same characters.
pub fn str_eq(a: &str, b: &str) -> (r: bool)
    ensures
        r == (a@ == b@),
{
    let sa = a.to_owned();
    let sb = b.to_owned();
    sa == sb
}

/// Append all of `src` to `out`.
pub fn push_all(src: &[u8], out: &mut Vec<u8>)
    ensures
        final(out)@ == old(out)@ + src@,
{
    let n = src.len();
    let mut i: usize = 0;
    while i < n
        invariant
            i <= n == src@.len(),
            out@ == old(out)@ + src@.take(i as int),
        decreases n - i,
    {
        out.push(src[i]);
        proof {
            assert(out@ =~= old(out)@ + src@.take(i + 1));
        }
        i = i + 1;
    }
    proof {
        assert(src@.take(n as int) =~= src@);
    }
}

// ---------------------------------------------------------------------------
// Hex digits
// ---------------------------------------------------------------------------

/// The lowercase hex digit for a value below 16, as an ASCII byte.
pub open spec fn hex_digit(v: u8) -> u8 {
    if v < 10 {
        (48 + v) as u8
    } else {
        (87 + v) as u8
    }
}

/// The two lowercase hex digits of a byte.
pub open spec fn hex_byte(b: u8) -> Seq<u8> {
    seq![hex_digit(b / 16), hex_digit(b % 16)]
}

/// The lowercase hex spelling of a byte sequence, two digits per byte.
pub open spec fn hex_of(bytes: Seq<u8>) -> Seq<u8>
    decreases bytes.len(),
{
    if bytes.len() == 0 {
        Seq::empty()
    } else {
        hex_byte(bytes[0]) + hex_of(bytes.drop_first())
    }
}

/// The hex spelling has two digits per byte, all ASCII.
pub proof fn lemma_hex_of_len(bytes: Seq<u8>)
    ensures
        hex_of(bytes).len() == 2 * bytes.len(),
        all_ascii(hex_of(bytes)),
    decreases bytes.len(),
{
    if bytes.len() > 0 {
        lemma_hex_of_len(bytes.drop_first());
    }
}

/// Append the lowercase hex spelling of `bytes` to `out`.
pub fn push_hex(bytes: &[u8], out: &mut Vec<u8>)
    ensures
        final(out)@ == old(out)@ + hex_of(bytes@),
{
    let n = bytes.len();
    let mut i: usize = 0;
    while i < n
        invariant
            i <= n == bytes@.len(),
            out@ == old(out)@ + hex_of(bytes@.take(i as int)),
        decreases n - i,
    {
        let b = bytes[i];
        let hi = b / 16;
        let lo = b % 16;
        out.push(if hi < 10 { (48 + hi) as u8 } else { (87 + hi) as u8 });
        out.push(if lo < 10 { (48 + lo) as u8 } else { (87 + lo) as u8 });
        proof {
            lemma_hex_take_step(bytes@, i as int);
        }
        i = i + 1;
    }
    proof {
        assert(bytes@.take(n as int) =~= bytes@);
    }
}

/// Unrolling `hex_of` one byte at a time from the front.
proof fn lemma_hex_take_step(bytes: Seq<u8>, i: int)
    requires
        0 <= i < bytes.len(),
    ensures
        hex_of(bytes.take(i + 1)) == hex_of(bytes.take(i)) + hex_byte(bytes[i]),
    decreases i,
{
    if i == 0 {
        assert(bytes.take(1).drop_first() =~= Seq::<u8>::empty());
        assert(bytes.take(0) =~= Seq::<u8>::empty());
        assert(hex_of(bytes.take(1)) =~= hex_byte(bytes[0]) + hex_of(Seq::<u8>::empty()));
        assert(hex_of(bytes.take(1)) =~= hex_of(bytes.take(0)) + hex_byte(bytes[0]));
    } else {
        lemma_hex_take_step(bytes.drop_first(), i - 1);
        assert(bytes.take(i + 1).drop_first() =~= bytes.drop_first().take(i));
        assert(bytes.take(i).drop_first() =~= bytes.drop_first().take(i - 1));
        assert(bytes.take(i + 1)[0] == bytes[0]);
        assert(bytes.drop_first()[i - 1] == bytes[i]);
        assert(hex_of(bytes.take(i + 1)) == hex_byte(bytes[0]) + hex_of(bytes.drop_first().take(i)));
        assert(hex_of(bytes.take(i)) == hex_byte(bytes[0]) + hex_of(bytes.drop_first().take(i - 1)));
        assert(hex_of(bytes.take(i + 1)) =~= hex_of(bytes.take(i)) + hex_byte(bytes[i]));
    }
}

/// The lowercase hex spelling of `bytes` as a `String`.
pub fn hex_string(bytes: &[u8]) -> (r: String)
    ensures
        r@ == ascii_chars_of(hex_of(bytes@)),
{
    let mut out: Vec<u8> = Vec::new();
    push_hex(bytes, &mut out);
    proof {
        lemma_hex_of_len(bytes@);
    }
    ascii_to_string(out.as_slice())
}

/// The value of an ASCII hex digit, if it is one (both cases accepted).
pub open spec fn hex_digit_value(b: u8) -> Option<u8> {
    if 48 <= b <= 57 {
        Some((b - 48) as u8)
    } else if 65 <= b <= 70 {
        Some((b - 65 + 10) as u8)
    } else if 97 <= b <= 102 {
        Some((b - 97 + 10) as u8)
    } else {
        None
    }
}

/// Read one ASCII hex digit.
pub fn parse_hex_digit(b: u8) -> (r: Option<u8>)
    ensures
        r == hex_digit_value(b),
{
    if 48 <= b && b <= 57 {
        Some(b - 48)
    } else if 65 <= b && b <= 70 {
        Some(b - 65 + 10)
    } else if 97 <= b && b <= 102 {
        Some(b - 97 + 10)
    } else {
        None
    }
}

// ---------------------------------------------------------------------------
// Percent-decoding
// ---------------------------------------------------------------------------

/// Whether a byte is an ASCII hex digit.
pub open spec fn is_hex_byte(b: u8) -> bool {
    hex_digit_value(b) is Some
}

/// The value of a hex digit byte (meaningful only when `is_hex_byte`).
pub open spec fn hex_val(b: u8) -> u8 {
    match hex_digit_value(b) {
        Some(v) => v,
        None => 0,
    }
}

/// Percent-decoding of a byte string: `%hh` becomes one byte; a `%` not
/// followed by two hex digits is kept as literal text; everything else is
/// copied unchanged.  `+` is not special.
pub open spec fn pct_decoded(s: Seq<u8>) -> Seq<u8>
    decreases s.len(),
{
    if s.len() == 0 {
        Seq::empty()
    } else if s[0] == 37 {
        if s.len() < 3 {
            s
        } else if is_hex_byte(s[1]) && is_hex_byte(s[2]) {
            seq![(hex_val(s[1]) * 16 + hex_val(s[2])) as u8] + pct_decoded(s.skip(3))
        } else if !is_hex_byte(s[1]) {
            seq![37u8] + pct_decoded(s.skip(1))
        } else {
            seq![37u8, s[1]] + pct_decoded(s.skip(2))
        }
    } else {
        seq![s[0]] + pct_decoded(s.skip(1))
    }
}

/// Percent-decode `data[lo..]`.
pub fn percent_decode(data: &[u8], lo: usize) -> (r: Vec<u8>)
    requires
        lo <= data@.len(),
    ensures
        r@ == pct_decoded(data@.skip(lo as int)),
    decreases data@.len() - lo,
{
    let n = data.len();
    let mut out: Vec<u8> = Vec::new();
    let mut i: usize = lo;
    while i < n
        invariant
            lo <= i <= n == data@.len(),
            pct_decoded(data@.skip(lo as int)) == out@ + pct_decoded(data@.skip(i as int)),
        decreases n - i,
    {
        let ghost rest = data@.skip(i as int);
        let b = data[i];
        proof {
            assert(rest[0] == b);
        }
        if b == 37 {
            if n - i > 2 {
                let d1 = parse_hex_digit(data[i + 1]);
                let d2 = parse_hex_digit(data[i + 2]);
                proof {
                    assert(rest[1] == data@[i + 1]);
                    assert(rest[2] == data@[i + 2]);
                }
                match (d1, d2) {
                    (Some(v1), Some(v2)) => {
                        out.push(v1 * 16 + v2);
                        proof {
                            assert(rest.skip(3) =~= data@.skip(i + 3));
                        }
                        i = i + 3;
                    },
                    (None, _) => {
                        out.push(37);
                        proof {
                            assert(rest.skip(1) =~= data@.skip(i + 1));
                        }
                        i = i + 1;
                    },
                    (Some(_), None) => {
                        out.push(37);
                        out.push(data[i + 1]);
                        proof {
                            assert(rest.skip(2) =~= data@.skip(i + 2));
                        }
                        i = i + 2;
                    },
                }
            } else {
                // A trailing `%` or `%h`: kept as-is, and nothing follows it.
                out.push(37);
                if n - i > 1 {
                    out.push(data[i + 1]);
                }
                proof {
                    assert(rest.len() < 3);
                    if rest.len() == 2 {
                        assert(rest =~= seq![37u8, data@[i + 1]]);
                    } else {
                        assert(rest =~= seq![37u8]);
                    }
                    assert(data@.skip(n as int) =~= Seq::<u8>::empty());
                }
                i = n;
            }
        } else {
            out.push(b);
            proof {
                assert(rest.skip(1) =~= data@.skip(i + 1));
            }
            i = i + 1;
        }
    }
    proof {
        assert(data@.skip(n as int) =~= Seq::<u8>::empty());
    }
    out
}

} // verus!
