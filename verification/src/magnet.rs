//! Magnet URI parsing: the query string after `magnet:?`, percent-decoded,
//! with a required `xt=urn:btih:` info hash in hex or base32 and optional
//! display name, trackers and web seeds.

use vstd::prelude::*;

verus! {

use crate::bencode::{find_byte, find_byte_from, slice_eq};
use crate::text::{pct_decoded, percent_decode, hex_digit_value, utf8_to_string};
use crate::torrent::strings_view;
use vstd::string::{StringExecFns, StringSliceAdditionalSpecFns};
use vstd::utf8::{valid_utf8, decode_utf8, decode_utf8_encode_utf8};

/// The bytes of `magnet:?`.
pub open spec fn magnet_prefix() -> Seq<u8> {
    seq![109u8, 97, 103, 110, 101, 116, 58, 63]
}

/// The bytes of `urn:btih:`.
pub open spec fn urn_prefix() -> Seq<u8> {
    seq![117u8, 114, 110, 58, 98, 116, 105, 104, 58]
}

/// The key/value parameters of the query string from `pos` on: segments
/// split on `&`, each with a `=`; the value is percent-decoded, a segment
/// without `=` is skipped.
pub open spec fn params_from(b: Seq<u8>, pos: int) -> Seq<(Seq<u8>, Seq<u8>)>
    decreases b.len() - pos,
{
    if pos < 0 || pos > b.len() {
        Seq::empty()
    } else {
        let end = match find_byte(b, pos, 38) {
            Some(i) => i,
            None => b.len() as int,
        };
        let seg = b.subrange(pos, end);
        let this = match find_byte(seg, 0, 61) {
            Some(e) => seq![(seg.take(e), pct_decoded(seg.skip(e + 1)))],
            None => Seq::<(Seq<u8>, Seq<u8>)>::empty(),
        };
        if end < pos {
            this
        } else if end >= b.len() {
            this
        } else {
            this + params_from(b, end + 1)
        }
    }
}

/// Every parameter value decodes as UTF-8.
pub open spec fn all_values_utf8(ps: Seq<(Seq<u8>, Seq<u8>)>) -> bool {
    forall|i: int| 0 <= i < ps.len() ==> valid_utf8((#[trigger] ps[i]).1)
}

/// The first value stored under `key`.
pub open spec fn first_of(ps: Seq<(Seq<u8>, Seq<u8>)>, key: Seq<u8>) -> Option<Seq<u8>>
    decreases ps.len(),
{
    if ps.len() == 0 {
        None
    } else if ps[0].0 == key {
        Some(ps[0].1)
    } else {
        first_of(ps.drop_first(), key)
    }
}

/// A key that names a tracker: `tr`, or `tr_` followed by anything (the
/// spelling used when the key repeats).
pub open spec fn is_tr_key(k: Seq<u8>) -> bool {
    k == seq![116u8, 114] || (k.len() >= 3 && k.take(3) == seq![116u8, 114, 95])
}

/// A key that names a web seed: `ws`, or `ws_` followed by anything.
pub open spec fn is_ws_key(k: Seq<u8>) -> bool {
    k == seq![119u8, 115] || (k.len() >= 3 && k.take(3) == seq![119u8, 115, 95])
}

/// The decoded values of the first `n` parameters whose key satisfies the
/// tracker predicate (or, when `ws` is set, the web-seed predicate).
pub open spec fn picked_upto(ps: Seq<(Seq<u8>, Seq<u8>)>, ws: bool, n: int) -> Seq<Seq<char>>
    decreases n,
{
    if n <= 0 {
        Seq::empty()
    } else {
        picked_upto(ps, ws, n - 1) + if (if ws {
            is_ws_key(ps[n - 1].0)
        } else {
            is_tr_key(ps[n - 1].0)
        }) {
            seq![decode_utf8(ps[n - 1].1)]
        } else {
            Seq::empty()
        }
    }
}

/// The value of a base32 digit, both cases accepted; `None` for any other
/// byte.
pub open spec fn b32_val(c: u8) -> Option<u8> {
    if 65 <= c <= 90 {
        Some((c - 65) as u8)
    } else if 97 <= c <= 122 {
        Some((c - 97) as u8)
    } else if 50 <= c <= 55 {
        Some((c - 50 + 26) as u8)
    } else {
        None
    }
}

/// Bit `j` of the 160-bit base32 payload, 5 bits per digit, high bit
/// first.
pub open spec fn b32_bit(h: Seq<u8>, j: int) -> u8 {
    let v = match b32_val(h[j / 5]) {
        Some(v) => v,
        None => 0,
    };
    (v >> ((4 - (j % 5)) as u8)) & 1
}

/// The first `k` bits of byte `i` of the base32 payload, folded high bit
/// first.
pub open spec fn b32_fold(h: Seq<u8>, i: int, k: int) -> u8
    decreases k,
{
    if k <= 0 {
        0
    } else {
        ((b32_fold(h, i, k - 1) * 2) as u8 | b32_bit(h, 8 * i + k - 1)) as u8
    }
}

/// All 32 digits of a base32 hash are valid.
pub open spec fn b32_ok(h: Seq<u8>) -> bool {
    forall|i: int| 0 <= i < h.len() ==> (#[trigger] b32_val(h[i])) is Some
}

/// All digits of a hex hash are valid.
pub open spec fn hex_ok(h: Seq<u8>) -> bool {
    forall|i: int| 0 <= i < h.len() ==> (#[trigger] hex_digit_value(h[i])) is Some
}

/// The 20 bytes spelt by 40 hex digits.
pub open spec fn hex_hash(h: Seq<u8>) -> Seq<u8> {
    Seq::new(20, |i: int| (hex_val_of(h[2 * i]) * 16 + hex_val_of(h[2 * i + 1])) as u8)
}

/// The value of a hex digit, zero when invalid.
pub open spec fn hex_val_of(c: u8) -> u8 {
    match hex_digit_value(c) {
        Some(v) => v,
        None => 0,
    }
}

/// The 20 bytes spelt by 32 base32 digits.
pub open spec fn b32_hash(h: Seq<u8>) -> Seq<u8> {
    Seq::new(20, |i: int| b32_fold(h, i, 8))
}

/// The info hash named by a decoded `xt` value, when it is
/// `urn:btih:` followed by 40 hex digits or 32 base32 digits.
pub open spec fn xt_hash(v: Seq<u8>) -> Option<Seq<u8>> {
    if !(v.len() >= 9 && v.take(9) == urn_prefix()) {
        None
    } else {
        let h = v.skip(9);
        if h.len() == 40 && hex_ok(h) {
            Some(hex_hash(h))
        } else if h.len() == 32 && b32_ok(h) {
            Some(b32_hash(h))
        } else {
            None
        }
    }
}

/// A magnet URI is accepted when it starts with `magnet:?`, every
/// parameter value percent-decodes to UTF-8, and the first `xt` value
/// names an info hash.
pub open spec fn magnet_ok(b: Seq<u8>) -> bool {
    &&& b.len() >= 8
    &&& b.take(8) == magnet_prefix()
    &&& all_values_utf8(params_from(b, 8))
    &&& first_of(params_from(b, 8), seq![120u8, 116]) matches Some(v) && xt_hash(v) is Some
}

/// A parsed magnet link.
#[derive(Debug, Clone)]
pub struct MagnetLink {
    /// The 20-byte info hash.
    pub info_hash: [u8; 20],
    /// Optional display name.
    pub display_name: Option<String>,
    /// Tracker URLs, in query order.
    pub trackers: Vec<String>,
    /// Web seed URLs, in query order.
    pub web_seeds: Vec<String>,
}

impl MagnetLink {
    /// Parse a magnet URI.  Succeeds exactly when `magnet_ok` accepts the
    /// URI's bytes; the fields carry the modelled values.
    #[verifier::rlimit(60)]
    pub fn parse(uri: &str) -> (r: Result<MagnetLink, String>)
        ensures
            r is Ok <==> magnet_ok(uri.spec_bytes()),
            r matches Ok(m) ==> {
                let ps = params_from(uri.spec_bytes(), 8);
                &&& (first_of(ps, seq![120u8, 116]) matches Some(v) && xt_hash(v) matches Some(h)
                    && m.info_hash@ == h)
                &&& (match first_of(ps, seq![100u8, 110]) {
                    Some(v) => m.display_name matches Some(d) && d@ == decode_utf8(v),
                    None => m.display_name is None,
                })
                &&& strings_view(m.trackers) == picked_upto(ps, false, ps.len() as int)
                &&& strings_view(m.web_seeds) == picked_upto(ps, true, ps.len() as int)
            },
    {
        let data = uri.as_bytes();
        let n = data.len();
        let ghost b = uri.spec_bytes();
        let prefix: [u8; 8] = [109, 97, 103, 110, 101, 116, 58, 63];
        proof {
            assert(prefix@ =~= magnet_prefix());
        }
        if n < 8 {
            return Err(String::from_str("invalid magnet uri"));
        }
        if !slice_eq(vstd::slice::slice_subrange(data, 0, 8), prefix.as_slice()) {
            proof {
                assert(b.take(8) =~= b.subrange(0, 8));
            }
            return Err(String::from_str("invalid magnet uri: must start with 'magnet:?'"));
        }
        proof {
            assert(b.take(8) =~= b.subrange(0, 8));
        }
        // Collect the parameters, percent-decoding each value.
        let mut pairs: Vec<(Vec<u8>, String)> = Vec::new();
        let ghost ps = params_from(b, 8);
        let mut pos: usize = 8;
        proof {
            assert(params_from(b, 8).skip(0) =~= params_from(b, 8));
        }
        loop
            invariant_except_break
                pairs@.len() <= ps.len(),
                params_from(b, 8).skip(pairs@.len() as int) =~= params_from(b, pos as int),
            invariant
                8 <= pos <= n == b.len(),
                data@ == b,
                b == uri.spec_bytes(),
                params_from(b, 8) == ps,
                pairs_ok(pairs@, ps, pairs@.len() as int),
            ensures
                pairs@.len() == ps.len(),
                pairs_ok(pairs@, ps, pairs@.len() as int),
            decreases n - pos + 1,
        {
            let ghost rest = params_from(b, pos as int);
            let end = match find_byte_from(data, pos, 38) {
                Some(i) => i,
                None => n,
            };
            proof {
                crate::bencode::lemma_find_byte(b, pos as int, 38);
            }
            let seg = vstd::slice::slice_subrange(data, pos, end);
            proof {
                assert(seg@ == b.subrange(pos as int, end as int));
            }
            match find_byte_from(seg, 0, 61) {
                Some(e) => {
                    proof {
                        crate::bencode::lemma_find_byte(seg@, 0, 61);
                    }
                    let key = vstd::slice::slice_to_vec(vstd::slice::slice_subrange(seg, 0, e));
                    let decoded = percent_decode(seg, e + 1);
                    proof {
                        assert(seg@.take(e as int) =~= key@);
                        assert(seg@.skip(e + 1) =~= seg@.subrange(e + 1, seg@.len() as int));
                        assert(rest[0] == (key@, pct_decoded(seg@.skip(e + 1))));
                        assert(rest == ps.skip(pairs@.len() as int));
                        assert(rest.len() >= 1);
                        assert(pairs@.len() < ps.len());
                        assert(ps.skip(pairs@.len() as int)[0] == ps[pairs@.len() as int]);
                    }
                    let value = match utf8_to_string(decoded.as_slice()) {
                        Some(s) => s,
                        None => {
                            proof {
                                assert(rest[0].1 == pct_decoded(seg@.skip(e + 1)));
                                assert(rest == ps.skip(pairs@.len() as int));
                                assert(rest.len() >= 1);
                                assert(pairs@.len() < ps.len());
                                assert(ps.skip(pairs@.len() as int)[0] == ps[pairs@.len() as int]);
                                assert(ps[pairs@.len() as int] == rest[0]);
                                assert(!all_values_utf8(ps));
                            }
                            return Err(String::from_str("failed to decode parameter"));
                        },
                    };
                    let ghost prev = pairs@;
                    let ghost gkey = key@;
                    let ghost gval = value@;
                    let ghost gdec = decoded@;
                    pairs.push((key, value));
                    proof {
                        assert(ps.skip(pairs@.len() - 1)[0] == ps[pairs@.len() - 1]);
                        assert(ps[pairs@.len() - 1] == rest[0]);
                        assert(ps[prev.len() as int] == (gkey, gdec));
                        assert(valid_utf8(gdec));
                        assert(gval == decode_utf8(gdec));
                        assert forall|k2: int| 0 <= k2 < prev.len() implies #[trigger] pairs@[k2]
                            == prev[k2] by {
                            assert(pairs@ == prev.push(pairs@[prev.len() as int]));
                        }
                        lemma_pairs_ok_agree(prev, pairs@, ps, prev.len() as int);
                        assert(pairs@[prev.len() as int].0@ == gkey);
                        assert(pairs@[prev.len() as int].1@ == gval);
                        assert(ps[prev.len() as int].0 == gkey);
                        assert(ps[prev.len() as int].1 == gdec);
                        assert(pairs_ok(pairs@, ps, pairs@.len() as int));
                        if end < n {
                            assert(rest.drop_first() =~= params_from(b, end + 1));
                        } else {
                            assert(rest.drop_first() =~= params_from(b, n as int + 1));
                            assert(params_from(b, n as int + 1) =~= Seq::<
                                (Seq<u8>, Seq<u8>),
                            >::empty());
                        }
                        assert(params_from(b, 8).skip(pairs@.len() as int) =~= rest.drop_first());
                    }
                },
                None => {
                    proof {
                        assert(rest =~= if end < n {
                            params_from(b, end + 1)
                        } else {
                            params_from(b, n as int + 1)
                        });
                        assert(params_from(b, n as int + 1) =~= Seq::<(Seq<u8>, Seq<u8>)>::empty());
                    }
                },
            }
            if end >= n {
                proof {
                    assert(params_from(b, n as int + 1) =~= Seq::<(Seq<u8>, Seq<u8>)>::empty());
                    assert(params_from(b, 8).skip(pairs@.len() as int) =~= Seq::<
                        (Seq<u8>, Seq<u8>),
                    >::empty());
                    assert(pairs@.len() == ps.len());
                }
                break;
            }
            pos = end + 1;
        }
        proof {
            assert forall|i: int| 0 <= i < ps.len() implies valid_utf8((#[trigger] ps[i]).1) by {
                lemma_pairs_at(pairs@, ps, pairs@.len() as int, i);
            }
            assert(all_values_utf8(ps));
        }
        // The required xt parameter.
        let k_xt: [u8; 2] = [120, 116];
        let k_dn: [u8; 2] = [100, 110];
        proof {
            assert(k_xt@ =~= seq![120u8, 116]);
            assert(k_dn@ =~= seq![100u8, 110]);
        }
        let xt = match find_first(&pairs, k_xt.as_slice(), Ghost(ps)) {
            Some(s) => s,
            None => {
                return Err(String::from_str("missing 'xt' parameter (info hash)"));
            },
        };
        proof {
            lemma_first_of_member(ps, k_xt@);
        }
        let info_hash = match decode_xt(xt, Ghost(first_of(ps, seq![120u8, 116]))) {
            Ok(h) => h,
            Err(e) => {
                return Err(e);
            },
        };
        let display_name = find_first(&pairs, k_dn.as_slice(), Ghost(ps));
        let display_name = match display_name {
            Some(s) => Some(s.clone()),
            None => None,
        };
        // Trackers and web seeds, in order.
        let trackers = pick_values(&pairs, false, Ghost(ps));
        let web_seeds = pick_values(&pairs, true, Ghost(ps));
        Ok(MagnetLink { info_hash, display_name, trackers, web_seeds })
    }

    /// The info hash as forty lowercase hex digits.
    pub fn info_hash_hex(&self) -> (r: String)
        ensures
            r@ == crate::text::ascii_chars_of(crate::text::hex_of(self.info_hash@)),
    {
        crate::text::hex_string(self.info_hash.as_slice())
    }
}

/// The first stored value under `key`.
fn find_first<'a>(pairs: &'a Vec<(Vec<u8>, String)>, key: &[u8], Ghost(ps): Ghost<
    Seq<(Seq<u8>, Seq<u8>)>,
>) -> (r: Option<&'a String>)
    requires
        pairs@.len() == ps.len(),
        pairs_ok(pairs@, ps, ps.len() as int),
    ensures
        r matches Some(s) ==> (first_of(ps, key@) matches Some(v) && s@ == decode_utf8(v)),
        r is None ==> first_of(ps, key@) is None,
{
    let n = pairs.len();
    let mut k: usize = 0;
    proof {
        assert(ps.skip(0) =~= ps);
    }
    while k < n
        invariant
            k <= n == pairs@.len() == ps.len(),
            pairs_ok(pairs@, ps, ps.len() as int),
            first_of(ps, key@) == first_of(ps.skip(k as int), key@),
        decreases n - k,
    {
        proof {
            lemma_pairs_at(pairs@, ps, ps.len() as int, k as int);
            assert(ps.skip(k as int)[0] == ps[k as int]);
            assert(ps.skip(k as int).drop_first() =~= ps.skip(k + 1));
        }
        if slice_eq(pairs[k].0.as_slice(), key) {
            return Some(&pairs[k].1);
        }
        k = k + 1;
    }
    proof {
        assert(ps.skip(n as int) =~= Seq::<(Seq<u8>, Seq<u8>)>::empty());
    }
    None
}

/// The values whose key names a tracker (or a web seed), in order.
fn pick_values(pairs: &Vec<(Vec<u8>, String)>, ws: bool, Ghost(ps): Ghost<
    Seq<(Seq<u8>, Seq<u8>)>,
>) -> (r: Vec<String>)
    requires
        pairs@.len() == ps.len(),
        pairs_ok(pairs@, ps, ps.len() as int),
    ensures
        strings_view(r) == picked_upto(ps, ws, ps.len() as int),
{
    let n = pairs.len();
    let mut out: Vec<String> = Vec::new();
    let mut k: usize = 0;
    proof {
        assert(strings_view(out) =~= picked_upto(ps, ws, 0));
    }
    while k < n
        invariant
            k <= n == pairs@.len() == ps.len(),
            pairs_ok(pairs@, ps, ps.len() as int),
            strings_view(out) == picked_upto(ps, ws, k as int),
        decreases n - k,
    {
        proof {
            lemma_pairs_at(pairs@, ps, ps.len() as int, k as int);
        }
        let ghost pre = picked_upto(ps, ws, k as int);
        let key = &pairs[k].0;
        let tr2: [u8; 2] = [116, 114];
        let ws2: [u8; 2] = [119, 115];
        let tr3: [u8; 3] = [116, 114, 95];
        let ws3: [u8; 3] = [119, 115, 95];
        let want = if ws {
            slice_eq(key.as_slice(), ws2.as_slice()) || (key.len() >= 3 && slice_eq(
                vstd::slice::slice_subrange(key.as_slice(), 0, 3),
                ws3.as_slice(),
            ))
        } else {
            slice_eq(key.as_slice(), tr2.as_slice()) || (key.len() >= 3 && slice_eq(
                vstd::slice::slice_subrange(key.as_slice(), 0, 3),
                tr3.as_slice(),
            ))
        };
        proof {
            assert(tr2@ =~= seq![116u8, 114]);
            assert(ws2@ =~= seq![119u8, 115]);
            assert(tr3@ =~= seq![116u8, 114, 95]);
            assert(ws3@ =~= seq![119u8, 115, 95]);
            if key@.len() >= 3 {
                assert(key@.subrange(0, 3) =~= key@.take(3));
            }
            assert(want == if ws {
                is_ws_key(ps[k as int].0)
            } else {
                is_tr_key(ps[k as int].0)
            });
        }
        if want {
            out.push(pairs[k].1.clone());
        }
        proof {
            assert(strings_view(out) =~= picked_upto(ps, ws, k + 1));
        }
        k = k + 1;
    }
    out
}

/// Decode the hash named by a decoded `xt` value.
fn decode_xt(xt: &String, Ghost(spec_v): Ghost<Option<Seq<u8>>>) -> (r: Result<[u8; 20], String>)
    requires
        spec_v matches Some(v) && valid_utf8(v) && xt@ == decode_utf8(v),
    ensures
        r is Ok <==> (spec_v matches Some(v) && xt_hash(v) is Some),
        r matches Ok(h) ==> (spec_v matches Some(v) && xt_hash(v) matches Some(hh) && h@ == hh),
{
    let ghost v = spec_v->0;
    let data = xt.as_str().as_bytes();
    proof {
        decode_utf8_encode_utf8(v);
        assert(data@ == v);
    }
    let n = data.len();
    let urn: [u8; 9] = [117, 114, 110, 58, 98, 116, 105, 104, 58];
    proof {
        assert(urn@ =~= urn_prefix());
    }
    if n < 9 || !slice_eq(vstd::slice::slice_subrange(data, 0, 9), urn.as_slice()) {
        proof {
            if n >= 9 {
                assert(v.take(9) =~= v.subrange(0, 9));
            }
        }
        return Err(String::from_str("invalid 'xt' parameter: must start with 'urn:btih:'"));
    }
    proof {
        assert(v.take(9) =~= v.subrange(0, 9));
        assert(v.skip(9) =~= v.subrange(9, v.len() as int));
    }
    let h = vstd::slice::slice_subrange(data, 9, n);
    let hn = n - 9;
    let ghost hs = v.skip(9);
    if hn == 40 {
        let mut out: [u8; 20] = [0u8; 20];
        let mut i: usize = 0;
        while i < 20
            invariant
                i <= 20,
                spec_v == Some(v),
                v.len() >= 9,
                v.take(9) == urn_prefix(),
                hs == v.skip(9),
                h@ == hs,
                hs.len() == 40,
                forall|j: int| 0 <= j < 2 * i ==> (#[trigger] hex_digit_value(hs[j])) is Some,
                forall|j: int| 0 <= j < i ==> out@[j] == hex_hash(hs)[j],
            decreases 20 - i,
        {
            let d1 = match crate::text::parse_hex_digit(h[2 * i]) {
                Some(d) => d,
                None => {
                    proof {
                        assert(!hex_ok(hs));
                    }
                    return Err(String::from_str("invalid hex character"));
                },
            };
            let d2 = match crate::text::parse_hex_digit(h[2 * i + 1]) {
                Some(d) => d,
                None => {
                    proof {
                        assert(!hex_ok(hs));
                    }
                    return Err(String::from_str("invalid hex character"));
                },
            };
            out[i] = d1 * 16 + d2;
            proof {
                assert(out@[i as int] == hex_hash(hs)[i as int]);
                assert forall|j: int| 0 <= j < 2 * (i + 1) implies (#[trigger] hex_digit_value(
                    hs[j],
                )) is Some by {
                    if j == 2 * i {
                    } else if j == 2 * i + 1 {
                    }
                }
            }
            i = i + 1;
        }
        proof {
            assert(hex_ok(hs));
            assert(out@ =~= hex_hash(hs));
        }
        Ok(out)
    } else if hn == 32 {
        // Base32: five bits per digit, 160 bits in all.
        let mut vi: usize = 0;
        while vi < 32
            invariant
                vi <= 32,
                spec_v == Some(v),
                v.len() >= 9,
                v.take(9) == urn_prefix(),
                hs == v.skip(9),
                h@ == hs,
                hs.len() == 32,
                forall|j: int| 0 <= j < vi ==> (#[trigger] b32_val(hs[j])) is Some,
            decreases 32 - vi,
        {
            match b32_val_exec(h[vi]) {
                Some(_) => {},
                None => {
                    proof {
                        assert(!b32_ok(hs));
                    }
                    return Err(String::from_str("invalid base32 character"));
                },
            }
            vi = vi + 1;
        }
        let mut out: [u8; 20] = [0u8; 20];
        let mut i: usize = 0;
        while i < 20
            invariant
                i <= 20,
                spec_v == Some(v),
                v.len() >= 9,
                v.take(9) == urn_prefix(),
                hs == v.skip(9),
                h@ == hs,
                hs.len() == 32,
                forall|j: int| 0 <= j < hs.len() ==> (#[trigger] b32_val(hs[j])) is Some,
                forall|j: int| 0 <= j < i ==> out@[j] == b32_hash(hs)[j],
            decreases 20 - i,
        {
            let mut byte: u8 = 0;
            let mut k: usize = 0;
            while k < 8
                invariant
                    i < 20,
                    k <= 8,
                    h@ == hs,
                    hs.len() == 32,
                    forall|j: int| 0 <= j < hs.len() ==> (#[trigger] b32_val(hs[j])) is Some,
                    byte == b32_fold(hs, i as int, k as int),
                decreases 8 - k,
            {
                let j = 8 * i + k;
                proof {
                    assert(j / 5 < 32) by (nonlinear_arith)
                        requires
                            j == 8 * (i as int) + k,
                            i < 20,
                            k < 8,
                    ;
                }
                let c = h[j / 5];
                let val = match b32_val_exec(c) {
                    Some(va) => va,
                    None => vstd::pervasive::unreached(),
                };
                let shift: u8 = 4 - ((j % 5) as u8);
                let bit = (val >> shift) & 1;
                proof {
                    assert(bit == b32_bit(hs, j as int));
                    lemma_b32_bit_small(hs, j as int);
                    lemma_b32_fold_bound(hs, i as int, k as int);
                    assert((1u8 << (k as u8)) - 1 <= 127) by (bit_vector)
                        requires
                            k < 8,
                    ;
                }
                byte = (byte * 2) | bit;
                k = k + 1;
            }
            out[i] = byte;
            proof {
                assert(out@[i as int] == b32_hash(hs)[i as int]);
            }
            i = i + 1;
        }
        proof {
            assert(b32_ok(hs));
            assert(out@ =~= b32_hash(hs));
        }
        Ok(out)
    } else {
        // The check runs before validity, so an odd length fails cleanly.
        Err(String::from_str("invalid info hash length"))
    }
}

/// The first `n` stored pairs match their models: same key bytes, a
/// UTF-8-decodable value, and the decoded text of it.
pub open spec fn pairs_ok(
    pairsv: Seq<(Vec<u8>, String)>,
    ps: Seq<(Seq<u8>, Seq<u8>)>,
    n: int,
) -> bool
    decreases n,
{
    n <= 0 || (pairs_ok(pairsv, ps, n - 1) && 0 < n <= pairsv.len() && n <= ps.len() && pairsv[n
        - 1].0@ == ps[n - 1].0 && valid_utf8(ps[n - 1].1) && pairsv[n - 1].1@ == decode_utf8(
        ps[n - 1].1,
    ))
}

/// Sequences that agree on their first `n` pairs satisfy `pairs_ok`
/// together.
proof fn lemma_pairs_ok_agree(
    a: Seq<(Vec<u8>, String)>,
    c: Seq<(Vec<u8>, String)>,
    ps: Seq<(Seq<u8>, Seq<u8>)>,
    n: int,
)
    requires
        pairs_ok(a, ps, n),
        c.len() >= n,
        forall|j: int| 0 <= j < n ==> #[trigger] c[j] == a[j],
    ensures
        pairs_ok(c, ps, n),
    decreases n,
{
    if n > 0 {
        lemma_pairs_ok_agree(a, c, ps, n - 1);
    }
}

/// What `pairs_ok` says of one stored pair.
proof fn lemma_pairs_at(
    pairsv: Seq<(Vec<u8>, String)>,
    ps: Seq<(Seq<u8>, Seq<u8>)>,
    n: int,
    j: int,
)
    requires
        pairs_ok(pairsv, ps, n),
        0 <= j < n,
    ensures
        pairsv[j].0@ == ps[j].0,
        valid_utf8(ps[j].1),
        pairsv[j].1@ == decode_utf8(ps[j].1),
    decreases n,
{
    if j < n - 1 {
        lemma_pairs_at(pairsv, ps, n - 1, j);
    }
}

/// A value found under a key is one of the stored values./// A value found under a key is one of the stored values.
proof fn lemma_first_of_member(ps: Seq<(Seq<u8>, Seq<u8>)>, key: Seq<u8>)
    ensures
        first_of(ps, key) matches Some(v) ==> exists|i: int|
            0 <= i < ps.len() && (#[trigger] ps[i]).1 == v,
    decreases ps.len(),
{
    if ps.len() > 0 {
        if ps[0].0 == key {
            assert(ps[0].1 == ps[0].1);
        } else {
            lemma_first_of_member(ps.drop_first(), key);
            match first_of(ps.drop_first(), key) {
                Some(v) => {
                    let i = choose|i: int|
                        0 <= i < ps.drop_first().len() && (#[trigger] ps.drop_first()[i]).1 == v;
                    assert(ps[i + 1].1 == v);
                },
                None => {},
            }
        }
    }
}

/// One bit of the base32 payload is at most one.
proof fn lemma_b32_bit_small(h: Seq<u8>, j: int)
    ensures
        b32_bit(h, j) <= 1,
{
    let v = match b32_val(h[j / 5]) {
        Some(v) => v,
        None => 0,
    };
    let sh = (4 - (j % 5)) as u8;
    assert((v >> sh) & 1 <= 1) by (bit_vector);
}

/// A fold of `k` bits fits in `k` bits.
proof fn lemma_b32_fold_bound(h: Seq<u8>, i: int, k: int)
    requires
        0 <= k <= 7,
    ensures
        b32_fold(h, i, k) < (1u8 << (k as u8)),
    decreases k,
{
    if k == 0 {
        assert(0u8 < (1u8 << 0u8)) by (bit_vector);
        assert(k as u8 == 0u8);
    } else {
        lemma_b32_fold_bound(h, i, k - 1);
        let a = b32_fold(h, i, k - 1);
        let b = b32_bit(h, 8 * i + k - 1);
        lemma_b32_bit_small(h, 8 * i + k - 1);
        let kk = k as u8;
        assert((kk - 1) as u8 == (k - 1) as u8);
        assert(a < (1u8 << ((kk - 1) as u8)));
        assert(b32_fold(h, i, k) == (((a * 2) as u8) | b) as u8);
        assert((((a * 2) as u8) | b) < (1u8 << kk)) by (bit_vector)
            requires
                1 <= kk <= 7,
                a < (1u8 << ((kk - 1) as u8)),
                b <= 1,
        ;
    }
}

/// The value of a base32 digit.
fn b32_val_exec(c: u8) -> (r: Option<u8>)
    ensures
        r == b32_val(c),
{
    if 65 <= c && c <= 90 {
        Some(c - 65)
    } else if 97 <= c && c <= 122 {
        Some(c - 97)
    } else if 50 <= c && c <= 55 {
        Some(c - 50 + 26)
    } else {
        None
    }
}

} // verus!
