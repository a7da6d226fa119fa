//! Small helpers: peer-id generation and human-readable formatting of
//! sizes, speeds and durations.

use vstd::prelude::*;

verus! {

use crate::text::{ascii_chars_of, ascii_to_string, all_ascii, dec_digits, lemma_dec_digits_value};

/// Relies on rand's `thread_rng` and `Rng::gen_range` over `0..n`: a value
/// strictly below `n`.
#[verifier::external_body]
pub fn rand_below(n: usize) -> (r: usize)
    requires
        n > 0,
    ensures
        r < n,
{
    rand::Rng::gen_range(&mut rand::thread_rng(), 0..n)
}

/// Relies on rand's `thread_rng` and `Rng::gen_range` over `33..=126`: a
/// printable ASCII byte.
#[verifier::external_body]
fn rand_printable() -> (r: u8)
    ensures
        33 <= r <= 126,
{
    rand::Rng::gen_range(&mut rand::thread_rng(), 33..=126u8)
}

/// The fixed eight-byte client prefix of our peer id.
pub open spec fn peer_id_prefix() -> Seq<u8> {
    seq![45u8, 83, 67, 48, 49, 48, 48, 45]
}

/// A fresh 20-byte peer id: the client prefix followed by twelve random
/// printable ASCII bytes.
pub fn generate_peer_id() -> (r: [u8; 20])
    ensures
        r@.subrange(0, 8) == peer_id_prefix(),
        forall|i: int| 8 <= i < 20 ==> 33 <= #[trigger] r@[i] <= 126,
{
    let mut id: [u8; 20] = [45, 83, 67, 48, 49, 48, 48, 45, 0, 0, 0, 0, 0, 0, 0, 0, 0, 0, 0, 0];
    let mut i: usize = 8;
    while i < 20
        invariant
            8 <= i <= 20,
            id@.subrange(0, 8) =~= peer_id_prefix(),
            forall|j: int| 8 <= j < i ==> 33 <= #[trigger] id@[j] <= 126,
        decreases 20 - i,
    {
        id[i] = rand_printable();
        proof {
            assert(id@.subrange(0, 8) =~= peer_id_prefix());
        }
        i = i + 1;
    }
    id
}

/// `1024` to the `k`-th power.
pub open spec fn pow1024(k: int) -> int
    decreases k,
{
    if k <= 0 {
        1
    } else {
        1024 * pow1024(k - 1)
    }
}

/// The unit a byte count is shown in: the largest power of 1024 it reaches,
/// capped at pebibytes.
pub open spec fn unit_index(b: int) -> int {
    if b >= pow1024(5) {
        5
    } else if b >= pow1024(4) {
        4
    } else if b >= pow1024(3) {
        3
    } else if b >= pow1024(2) {
        2
    } else if b >= pow1024(1) {
        1
    } else {
        0
    }
}

/// The ASCII suffix for a unit index: ` B`, ` KiB`, ...
pub open spec fn unit_suffix(k: int) -> Seq<u8> {
    if k == 0 {
        seq![32u8, 66]
    } else if k == 1 {
        seq![32u8, 75, 105, 66]
    } else if k == 2 {
        seq![32u8, 77, 105, 66]
    } else if k == 3 {
        seq![32u8, 71, 105, 66]
    } else if k == 4 {
        seq![32u8, 84, 105, 66]
    } else {
        seq![32u8, 80, 105, 66]
    }
}

/// A value below 100 as exactly two ASCII digits.
pub open spec fn two_digits(v: int) -> Seq<u8> {
    if v < 10 {
        seq![48u8, (48 + v) as u8]
    } else {
        dec_digits(v as nat)
    }
}

/// The hundredfold of `b` scaled down by `1024^k`: the shown quantity with
/// two implied decimal places.
pub open spec fn scaled_centi(b: int, k: int) -> int {
    (b / pow1024(k)) * 100 + (b % pow1024(k)) * 100 / pow1024(k)
}

/// The ASCII spelling of a byte count: the integer part, two decimal
/// places when a unit above bytes is used, and the unit suffix.
pub open spec fn fmt_bytes_ascii(b: int) -> Seq<u8> {
    if b == 0 {
        seq![48u8, 32, 66]
    } else {
        let k = unit_index(b);
        if k == 0 {
            dec_digits(b as nat) + unit_suffix(0)
        } else {
            let s = scaled_centi(b, k);
            dec_digits((s / 100) as nat) + seq![46u8] + two_digits(s % 100) + unit_suffix(k)
        }
    }
}

/// Format a byte count for people: `0 B`, `100 B`, `1.50 KiB`, `2.00 GiB`.
#[verifier::rlimit(100)]
pub fn format_bytes(bytes: u64) -> (r: String)
    ensures
        r@ == ascii_chars_of(fmt_bytes_ascii(bytes as int)),
{
    proof {
        lemma_pow1024_values();
    }
    let mut out: Vec<u8> = Vec::new();
    if bytes == 0 {
        out.push(48);
        out.push(32);
        out.push(66);
        proof {
            assert(out@ =~= fmt_bytes_ascii(0));
            lemma_fmt_ascii(0);
        }
        return ascii_to_string(out.as_slice());
    }
    let p: u64 = if bytes >= 0x4000000000000 {
        0x4000000000000
    } else if bytes >= 0x10000000000 {
        0x10000000000
    } else if bytes >= 0x40000000 {
        0x40000000
    } else if bytes >= 0x100000 {
        0x100000
    } else if bytes >= 1024 {
        1024
    } else {
        1
    };
    let ghost k = unit_index(bytes as int);
    proof {
        assert(p == pow1024(k));
    }
    if p == 1 {
        crate::text::push_decimal(bytes, &mut out);
        out.push(32);
        out.push(66);
        proof {
            assert(out@ =~= fmt_bytes_ascii(bytes as int));
            lemma_fmt_ascii(bytes as int);
        }
        return ascii_to_string(out.as_slice());
    }
    let whole = bytes / p;
    proof {
        assert(bytes % p < p);
        assert(((bytes % p) as int) * 100 < (p as int) * 100) by (nonlinear_arith)
            requires
                ((bytes % p) as int) < (p as int),
                p >= 1,
        ;
    }
    let frac = ((bytes % p) * 100) / p;
    proof {
        assert((frac as int) < 100) by (nonlinear_arith)
            requires
                ((bytes % p) as int) * 100 < (p as int) * 100,
                p >= 1,
                (frac as int) == (((bytes % p) as int) * 100) / (p as int),
        ;
    }
    let scaled = whole * 100 + frac;
    proof {
        assert(scaled as int == scaled_centi(bytes as int, k));
        assert((scaled as int) / 100 == (whole as int) && (scaled as int) % 100 == (frac as int))
            by (nonlinear_arith)
            requires
                (scaled as int) == (whole as int) * 100 + (frac as int),
                0 <= (frac as int) < 100,
                (whole as int) >= 0,
        ;
    }
    crate::text::push_decimal(whole, &mut out);
    out.push(46);
    if frac < 10 {
        out.push(48);
        out.push((48 + frac) as u8);
        proof {
            assert(seq![48u8, (48 + frac) as u8] =~= two_digits(frac as int));
        }
    } else {
        crate::text::push_decimal(frac, &mut out);
    }
    out.push(32);
    out.push(
        if p == 1024 {
            75
        } else if p == 0x100000 {
            77
        } else if p == 0x40000000 {
            71
        } else if p == 0x10000000000 {
            84
        } else {
            80
        },
    );
    out.push(105);
    out.push(66);
    proof {
        assert(out@ =~= fmt_bytes_ascii(bytes as int));
        lemma_fmt_ascii(bytes as int);
    }
    ascii_to_string(out.as_slice())
}

/// The concrete values of the powers of 1024 used by the formatter.
proof fn lemma_pow1024_values()
    ensures
        pow1024(0) == 1,
        pow1024(1) == 1024,
        pow1024(2) == 0x100000,
        pow1024(3) == 0x40000000,
        pow1024(4) == 0x10000000000,
        pow1024(5) == 0x4000000000000,
{
    assert(pow1024(0) == 1);
    assert(pow1024(1) == 1024 * pow1024(0));
    assert(pow1024(2) == 1024 * pow1024(1));
    assert(pow1024(3) == 1024 * pow1024(2));
    assert(pow1024(4) == 1024 * pow1024(3));
    assert(pow1024(5) == 1024 * pow1024(4));
}

/// Every formatted byte count is ASCII.
proof fn lemma_fmt_ascii(b: int)
    requires
        b >= 0,
    ensures
        all_ascii(fmt_bytes_ascii(b)),
{
    if b != 0 {
        let k = unit_index(b);
        lemma_dec_digits_value(b as nat);
        if k != 0 {
            let s = scaled_centi(b, k);
            lemma_pow1024_values();
            assert(pow1024(k) >= 1);
            assert(b / pow1024(k) >= 0 && b % pow1024(k) >= 0);
            assert((b % pow1024(k)) * 100 / pow1024(k) >= 0) by (nonlinear_arith)
                requires
                    b % pow1024(k) >= 0,
                    pow1024(k) >= 1,
            ;
            assert(s >= 0) by (nonlinear_arith)
                requires
                    b / pow1024(k) >= 0,
                    (b % pow1024(k)) * 100 / pow1024(k) >= 0,
                    s == (b / pow1024(k)) * 100 + (b % pow1024(k)) * 100 / pow1024(k),
            ;
            assert(s / 100 >= 0 && 0 <= s % 100 < 100);
            lemma_dec_digits_value((s / 100) as nat);
            if s % 100 >= 10 {
                lemma_dec_digits_value((s % 100) as nat);
            }
        }
    }
}

/// Format a transfer speed: the byte count with `/s` appended.
pub fn format_speed(bytes_per_sec: u64) -> (r: String)
    ensures
        r@ == ascii_chars_of(fmt_bytes_ascii(bytes_per_sec as int) + seq![47u8, 115]),
{
    let base = format_bytes(bytes_per_sec);
    let mut out: Vec<u8> = Vec::new();
    proof {
        lemma_fmt_ascii(bytes_per_sec as int);
    }
    let tail: [u8; 2] = [47, 115];
    crate::text::push_all(tail.as_slice(), &mut out);
    let suffix = ascii_to_string(out.as_slice());
    let combined = base.concat(suffix.as_str());
    proof {
        assert(ascii_chars_of(fmt_bytes_ascii(bytes_per_sec as int) + seq![47u8, 115])
            =~= ascii_chars_of(fmt_bytes_ascii(bytes_per_sec as int)) + ascii_chars_of(
            seq![47u8, 115],
        ));
        assert(out@ =~= seq![47u8, 115]);
    }
    combined
}

/// The ASCII spelling of a duration in seconds: `Xh Ym Zs`, omitting the
/// leading parts that are zero.
pub open spec fn fmt_duration_ascii(s: int) -> Seq<u8> {
    if s == 0 {
        seq![48u8, 115]
    } else {
        let hours = s / 3600;
        let minutes = (s % 3600) / 60;
        let secs = s % 60;
        if hours > 0 {
            dec_digits(hours as nat) + seq![104u8, 32] + dec_digits(minutes as nat) + seq![
                109u8,
                32,
            ] + dec_digits(secs as nat) + seq![115u8]
        } else if minutes > 0 {
            dec_digits(minutes as nat) + seq![109u8, 32] + dec_digits(secs as nat) + seq![115u8]
        } else {
            dec_digits(secs as nat) + seq![115u8]
        }
    }
}

/// Format a duration for people: `0s`, `45s`, `1m 30s`, `1h 1m 1s`.
pub fn format_duration(seconds: u64) -> (r: String)
    ensures
        r@ == ascii_chars_of(fmt_duration_ascii(seconds as int)),
{
    let mut out: Vec<u8> = Vec::new();
    if seconds == 0 {
        out.push(48);
        out.push(115);
        proof {
            assert(out@ =~= fmt_duration_ascii(0));
            lemma_duration_ascii(0);
        }
        return ascii_to_string(out.as_slice());
    }
    let hours = seconds / 3600;
    let minutes = (seconds % 3600) / 60;
    let secs = seconds % 60;
    proof {
        assert(minutes < 60);
        assert(secs < 60);
    }
    if hours > 0 {
        crate::text::push_decimal(hours, &mut out);
        out.push(104);
        out.push(32);
        crate::text::push_decimal(minutes, &mut out);
        out.push(109);
        out.push(32);
        crate::text::push_decimal(secs, &mut out);
        out.push(115);
    } else if minutes > 0 {
        crate::text::push_decimal(minutes, &mut out);
        out.push(109);
        out.push(32);
        crate::text::push_decimal(secs, &mut out);
        out.push(115);
    } else {
        crate::text::push_decimal(secs, &mut out);
        out.push(115);
    }
    proof {
        assert(out@ =~= fmt_duration_ascii(seconds as int));
        lemma_duration_ascii(seconds as int);
    }
    ascii_to_string(out.as_slice())
}

/// Every formatted duration is ASCII.
proof fn lemma_duration_ascii(s: int)
    requires
        s >= 0,
    ensures
        all_ascii(fmt_duration_ascii(s)),
{
    if s != 0 {
        lemma_dec_digits_value((s / 3600) as nat);
        lemma_dec_digits_value(((s % 3600) / 60) as nat);
        lemma_dec_digits_value((s % 60) as nat);
    }
}

/// Seconds left at the current rate, or nothing while the rate is zero.
pub fn calculate_eta(remaining_bytes: u64, download_speed: u64) -> (r: Option<u64>)
    ensures
        download_speed > 0 ==> r == Some((remaining_bytes as int / download_speed as int) as u64),
        download_speed == 0 ==> r is None,
{
    if download_speed == 0 {
        return None;
    }
    Some(remaining_bytes / download_speed)
}

} // verus!
