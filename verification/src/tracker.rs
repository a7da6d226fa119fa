//! Tracker data model and the pure halves of the HTTP tracker exchange:
//! building the announce query string and parsing the bencoded reply.
//! The HTTP transfer itself lives outside the library.

use vstd::prelude::*;

verus! {

use crate::bencode::{BencodeValue, SpecBencode, spec_parse, find_byte};
use crate::error::Error;
use crate::text::{
    hex_byte, ascii_chars_of, all_ascii, all_dec_digits, dec_digits, digits_value,
    lemma_dec_digits_value, parse_decimal, push_decimal, push_all,
};
use crate::torrent::{get_key, opt_int_of, opt_str_of, root_of};
use vstd::string::{StringExecFns, StringSliceAdditionalSpecFns};
use vstd::utf8::{valid_utf8, decode_utf8, valid_utf8_concat};
use vstd::utf8::encode_utf8_valid_utf8;

/// The percent-encoding of raw bytes for a tracker query: `%xx` for every
/// byte, lowercase hex.
pub open spec fn pct_bytes(bytes: Seq<u8>) -> Seq<u8>
    decreases bytes.len(),
{
    if bytes.len() == 0 {
        Seq::empty()
    } else {
        seq![37u8] + hex_byte(bytes[0]) + pct_bytes(bytes.drop_first())
    }
}

/// Every percent-encoded byte sequence is ASCII, three bytes per input
/// byte.
pub proof fn lemma_pct_bytes(bytes: Seq<u8>)
    ensures
        pct_bytes(bytes).len() == 3 * bytes.len(),
        all_ascii(pct_bytes(bytes)),
    decreases bytes.len(),
{
    if bytes.len() > 0 {
        lemma_pct_bytes(bytes.drop_first());
    }
}

/// Unrolling `pct_bytes` one byte at a time from the front.
proof fn lemma_pct_take_step(bytes: Seq<u8>, i: int)
    requires
        0 <= i < bytes.len(),
    ensures
        pct_bytes(bytes.take(i + 1)) == pct_bytes(bytes.take(i)) + seq![37u8] + hex_byte(bytes[i]),
    decreases i,
{
    if i == 0 {
        assert(bytes.take(1).drop_first() =~= Seq::<u8>::empty());
        assert(bytes.take(0) =~= Seq::<u8>::empty());
        assert(pct_bytes(bytes.take(1)) =~= pct_bytes(bytes.take(0)) + seq![37u8] + hex_byte(
            bytes[0],
        ));
    } else {
        lemma_pct_take_step(bytes.drop_first(), i - 1);
        assert(bytes.take(i + 1).drop_first() =~= bytes.drop_first().take(i));
        assert(bytes.take(i).drop_first() =~= bytes.drop_first().take(i - 1));
        assert(bytes.take(i + 1)[0] == bytes[0]);
        assert(bytes.drop_first()[i - 1] == bytes[i]);
        assert(pct_bytes(bytes.take(i + 1)) =~= pct_bytes(bytes.take(i)) + seq![37u8] + hex_byte(
            bytes[i],
        ));
    }
}

/// Append the percent-encoding of `bytes` to `out`.
pub fn push_pct(bytes: &[u8], out: &mut Vec<u8>)
    ensures
        final(out)@ == old(out)@ + pct_bytes(bytes@),
{
    let n = bytes.len();
    let mut i: usize = 0;
    while i < n
        invariant
            i <= n == bytes@.len(),
            out@ == old(out)@ + pct_bytes(bytes@.take(i as int)),
        decreases n - i,
    {
        let b = bytes[i];
        let hi = b / 16;
        let lo = b % 16;
        out.push(37);
        out.push(if hi < 10 { (48 + hi) as u8 } else { (87 + hi) as u8 });
        out.push(if lo < 10 { (48 + lo) as u8 } else { (87 + lo) as u8 });
        proof {
            lemma_pct_take_step(bytes@, i as int);
            assert(out@ =~= old(out)@ + pct_bytes(bytes@.take(i + 1)));
        }
        i = i + 1;
    }
    proof {
        assert(bytes@.take(n as int) =~= bytes@);
    }
}

/// Percent-encode raw bytes as a string, `%xx` per byte.
pub fn url_encode_bytes(bytes: &[u8]) -> (r: String)
    ensures
        r@ == ascii_chars_of(pct_bytes(bytes@)),
{
    let mut out: Vec<u8> = Vec::new();
    push_pct(bytes, &mut out);
    proof {
        lemma_pct_bytes(bytes@);
    }
    crate::text::ascii_to_string(out.as_slice())
}

/// Which announce a request marks.
#[derive(Debug, Clone, Copy, PartialEq, Eq, Structural)]
pub enum AnnounceEvent {
    /// A periodic announce; no event parameter is sent.
    Regular,
    /// The first announce after Start.
    Started,
    /// Sent once when the download finishes.
    Completed,
    /// Sent when the engine stops.
    Stopped,
}

impl AnnounceEvent {
    /// The event parameter's wire value, when one is sent.
    pub fn as_str(&self) -> (r: Option<&str>)
        ensures
            self is Regular <==> r is None,
            self is Started ==> (r matches Some(s) && s@ == "started"@),
            self is Completed ==> (r matches Some(s) && s@ == "completed"@),
            self is Stopped ==> (r matches Some(s) && s@ == "stopped"@),
    {
        match self {
            AnnounceEvent::Regular => None,
            AnnounceEvent::Started => Some("started"),
            AnnounceEvent::Completed => Some("completed"),
            AnnounceEvent::Stopped => Some("stopped"),
        }
    }
}

/// What an announce sends to the tracker.
#[derive(Debug, Clone)]
pub struct AnnounceRequest {
    /// The torrent's 20-byte info hash.
    pub info_hash: [u8; 20],
    /// Our 20-byte peer id.
    pub peer_id: [u8; 20],
    /// The port we accept peers on.
    pub port: u16,
    /// Total bytes uploaded.
    pub uploaded: u64,
    /// Total bytes downloaded.
    pub downloaded: u64,
    /// Bytes still missing.
    pub left: u64,
    /// Ask for the compact peer list.
    pub compact: bool,
    /// How many peers to ask for.
    pub numwant: Option<u32>,
    /// Which event this announce marks.
    pub event: AnnounceEvent,
}

impl Default for AnnounceRequest {
    /// A zeroed request on the standard port, compact, asking for fifty
    /// peers.
    fn default() -> (r: AnnounceRequest)
        ensures
            r.info_hash@ =~= Seq::new(20, |i: int| 0u8),
            r.peer_id@ =~= Seq::new(20, |i: int| 0u8),
            r.port == 6881,
            r.uploaded == 0,
            r.downloaded == 0,
            r.left == 0,
            r.compact,
            r.numwant == Some(50u32),
            r.event is Regular,
    {
        AnnounceRequest {
            info_hash: [0u8; 20],
            peer_id: [0u8; 20],
            port: 6881,
            uploaded: 0,
            downloaded: 0,
            left: 0,
            compact: true,
            numwant: Some(50),
            event: AnnounceEvent::Regular,
        }
    }
}

/// How a tracker is faring, for display.
#[derive(Debug, Clone, Copy, PartialEq, Eq, Structural)]
pub enum TrackerStatus {
    /// The last announce succeeded.
    Working,
    /// An announce is in flight.
    Updating,
    /// The last announce failed.
    Error,
    /// Switched off by the user.
    Disabled,
}

/// One tracker row of the tracker view.
#[derive(Debug, Clone)]
pub struct TrackerInfo {
    /// The announce URL.
    pub url: String,
    /// Current status.
    pub status: TrackerStatus,
    /// Status or error message.
    pub message: String,
    /// Peers returned by the last announce.
    pub peers: u32,
    /// Seeds the tracker reports.
    pub seeds: u32,
    /// Leechers the tracker reports.
    pub leechers: u32,
    /// Completed downloads the tracker reports.
    pub downloaded: u32,
    /// When the last announce succeeded, seconds since the epoch.
    pub last_announce: Option<i64>,
    /// When the next announce is due, seconds since the epoch.
    pub next_announce: Option<i64>,
}

/// An IPv4 endpoint of a peer.
#[derive(Debug, Clone, Copy, PartialEq, Eq, Structural)]
pub struct PeerAddr {
    /// First octet of the address.
    pub o1: u8,
    /// Second octet.
    pub o2: u8,
    /// Third octet.
    pub o3: u8,
    /// Fourth octet.
    pub o4: u8,
    /// TCP port.
    pub port: u16,
}

/// The dotted-quad-and-port ASCII spelling of an address.
pub open spec fn addr_ascii(a: PeerAddr) -> Seq<u8> {
    dec_digits(a.o1 as nat) + seq![46u8] + dec_digits(a.o2 as nat) + seq![46u8] + dec_digits(
        a.o3 as nat,
    ) + seq![46u8] + dec_digits(a.o4 as nat) + seq![58u8] + dec_digits(a.port as nat)
}

impl PeerAddr {
    /// `a.b.c.d:port`.
    pub fn to_display_string(&self) -> (r: String)
        ensures
            r@ == decode_utf8(addr_ascii(*self)),
    {
        let mut out: Vec<u8> = Vec::new();
        push_decimal(self.o1 as u64, &mut out);
        out.push(46);
        push_decimal(self.o2 as u64, &mut out);
        out.push(46);
        push_decimal(self.o3 as u64, &mut out);
        out.push(46);
        push_decimal(self.o4 as u64, &mut out);
        out.push(58);
        push_decimal(self.port as u64, &mut out);
        proof {
            assert(out@ =~= addr_ascii(*self));
            lemma_digits_valid(self.o1 as nat);
            lemma_digits_valid(self.o2 as nat);
            lemma_digits_valid(self.o3 as nat);
            lemma_digits_valid(self.o4 as nat);
            lemma_digits_valid(self.port as nat);
            lemma_byte_valid(46);
            lemma_byte_valid(58);
            let p1 = dec_digits(self.o1 as nat);
            let p2 = dec_digits(self.o2 as nat);
            let p3 = dec_digits(self.o3 as nat);
            let p4 = dec_digits(self.o4 as nat);
            let pp = dec_digits(self.port as nat);
            valid_utf8_concat(p1, seq![46u8]);
            valid_utf8_concat(p1 + seq![46u8], p2);
            valid_utf8_concat(p1 + seq![46u8] + p2, seq![46u8]);
            valid_utf8_concat(p1 + seq![46u8] + p2 + seq![46u8], p3);
            valid_utf8_concat(p1 + seq![46u8] + p2 + seq![46u8] + p3, seq![46u8]);
            valid_utf8_concat(p1 + seq![46u8] + p2 + seq![46u8] + p3 + seq![46u8], p4);
            valid_utf8_concat(p1 + seq![46u8] + p2 + seq![46u8] + p3 + seq![46u8] + p4, seq![58u8]);
            valid_utf8_concat(
                p1 + seq![46u8] + p2 + seq![46u8] + p3 + seq![46u8] + p4 + seq![58u8],
                pp,
            );
        }
        match crate::text::utf8_to_string(out.as_slice()) {
            Some(r) => r,
            None => vstd::pervasive::unreached(),
        }
    }
}

/// One peer returned by a tracker.
#[derive(Debug, Clone, PartialEq, Eq)]
pub struct Peer {
    /// The peer's 20-byte id, when the tracker sent one.
    pub peer_id: Option<Vec<u8>>,
    /// The peer's endpoint.
    pub addr: PeerAddr,
}

/// A parsed announce reply.
#[derive(Debug)]
pub struct AnnounceResponse {
    /// The tracker's warning, if any.
    pub warning_message: Option<String>,
    /// Seconds until the next announce.
    pub interval: u32,
    /// A lower bound on the announce cadence, when given.
    pub min_interval: Option<u32>,
    /// An id to echo in later announces, when given.
    pub tracker_id: Option<String>,
    /// How many seeds the tracker sees.
    pub complete: u32,
    /// How many leechers the tracker sees.
    pub incomplete: u32,
    /// The peers returned.
    pub peers: Vec<Peer>,
}

// ---------------------------------------------------------------------------
// The announce query string
// ---------------------------------------------------------------------------

/// The ASCII query string of an announce request, in parameter order:
/// info hash and peer id percent-encoded, the numeric counters in decimal,
/// `compact` as a flag, then the optional peer count and event.
pub open spec fn query_ascii(req: AnnounceRequest) -> Seq<u8> {
    lit_b("info_hash=") + pct_bytes(req.info_hash@) + lit_b("&peer_id=") + pct_bytes(req.peer_id@)
        + lit_b("&port=") + dec_digits(req.port as nat) + lit_b("&uploaded=") + dec_digits(
        req.uploaded as nat,
    ) + lit_b("&downloaded=") + dec_digits(req.downloaded as nat) + lit_b("&left=") + dec_digits(
        req.left as nat,
    ) + lit_b("&compact=") + (if req.compact {
        seq![49u8]
    } else {
        seq![48u8]
    }) + (match req.numwant {
        Some(n) => lit_b("&numwant=") + dec_digits(n as nat),
        None => Seq::empty(),
    }) + (match req.event {
        AnnounceEvent::Regular => Seq::empty(),
        AnnounceEvent::Started => lit_b("&event=started"),
        AnnounceEvent::Completed => lit_b("&event=completed"),
        AnnounceEvent::Stopped => lit_b("&event=stopped"),
    })
}

/// The bytes a string literal spells (for ASCII literals).
pub open spec fn lit_b(s: &str) -> Seq<u8> {
    s.spec_bytes()
}

/// Build the announce query string for a request.  The caller appends it
/// to the tracker URL.
pub fn build_announce_query(req: &AnnounceRequest) -> (r: String)
    ensures
        r@ == decode_utf8(query_ascii(*req)),
{
    let mut out: Vec<u8> = Vec::new();
    push_lit(&mut out, "info_hash=");
    push_pct(req.info_hash.as_slice(), &mut out);
    push_lit(&mut out, "&peer_id=");
    push_pct(req.peer_id.as_slice(), &mut out);
    push_lit(&mut out, "&port=");
    push_decimal(req.port as u64, &mut out);
    push_lit(&mut out, "&uploaded=");
    push_decimal(req.uploaded, &mut out);
    push_lit(&mut out, "&downloaded=");
    push_decimal(req.downloaded, &mut out);
    push_lit(&mut out, "&left=");
    push_decimal(req.left, &mut out);
    push_lit(&mut out, "&compact=");
    if req.compact {
        out.push(49);
    } else {
        out.push(48);
    }
    match &req.numwant {
        Some(n) => {
            push_lit(&mut out, "&numwant=");
            push_decimal(*n as u64, &mut out);
        },
        None => {},
    }
    match req.event {
        AnnounceEvent::Regular => {},
        AnnounceEvent::Started => {
            push_lit(&mut out, "&event=started");
        },
        AnnounceEvent::Completed => {
            push_lit(&mut out, "&event=completed");
        },
        AnnounceEvent::Stopped => {
            push_lit(&mut out, "&event=stopped");
        },
    }
    proof {
        assert(out@ =~= query_ascii(*req));
        lemma_query_valid(*req);
    }
    match crate::text::utf8_to_string(out.as_slice()) {
        Some(r) => r,
        None => vstd::pervasive::unreached(),
    }
}

/// Append the bytes of an ASCII literal.
fn push_lit(out: &mut Vec<u8>, s: &str)
    ensures
        final(out)@ == old(out)@ + lit_b(s),
{
    push_all(s.as_bytes(), out);
}

// ---------------------------------------------------------------------------
// The announce reply
// ---------------------------------------------------------------------------

/// The bytes of the key `failure reason`.
pub open spec fn key_failure() -> Seq<u8> {
    seq![102u8, 97, 105, 108, 117, 114, 101, 32, 114, 101, 97, 115, 111, 110]
}

/// The bytes of the key `interval`.
pub open spec fn key_interval() -> Seq<u8> {
    seq![105u8, 110, 116, 101, 114, 118, 97, 108]
}

/// The bytes of the key `warning message`.
pub open spec fn key_warning() -> Seq<u8> {
    seq![119u8, 97, 114, 110, 105, 110, 103, 32, 109, 101, 115, 115, 97, 103, 101]
}

/// The bytes of the key `min interval`.
pub open spec fn key_min_interval() -> Seq<u8> {
    seq![109u8, 105, 110, 32, 105, 110, 116, 101, 114, 118, 97, 108]
}

/// The bytes of the key `tracker id`.
pub open spec fn key_tracker_id() -> Seq<u8> {
    seq![116u8, 114, 97, 99, 107, 101, 114, 32, 105, 100]
}

/// The bytes of the key `complete`.
pub open spec fn key_complete() -> Seq<u8> {
    seq![99u8, 111, 109, 112, 108, 101, 116, 101]
}

/// The bytes of the key `incomplete`.
pub open spec fn key_incomplete() -> Seq<u8> {
    seq![105u8, 110, 99, 111, 109, 112, 108, 101, 116, 101]
}

/// The bytes of the key `peers`.
pub open spec fn key_peers() -> Seq<u8> {
    seq![112u8, 101, 101, 114, 115]
}

/// The bytes of the key `peer id`.
pub open spec fn key_peer_id() -> Seq<u8> {
    seq![112u8, 101, 101, 114, 32, 105, 100]
}

/// The bytes of the key `ip`.
pub open spec fn key_ip() -> Seq<u8> {
    seq![105u8, 112]
}

/// The bytes of the key `port`.
pub open spec fn key_port() -> Seq<u8> {
    seq![112u8, 111, 114, 116]
}

/// One octet of a dotted quad: one or more decimal digits worth at most
/// 255.
pub open spec fn part_ok(x: Seq<u8>) -> bool {
    x.len() >= 1 && all_dec_digits(x) && digits_value(x) <= 255
}

/// A dotted-quad IPv4 address in ASCII: four octet runs separated by
/// exactly three dots.
pub open spec fn ipv4_of(s: Seq<u8>) -> Option<PeerAddr> {
    match find_byte(s, 0, 46) {
        Some(d1) => match find_byte(s, d1 + 1, 46) {
            Some(d2) => match find_byte(s, d2 + 1, 46) {
                Some(d3) => {
                    let p1 = s.subrange(0, d1);
                    let p2 = s.subrange(d1 + 1, d2);
                    let p3 = s.subrange(d2 + 1, d3);
                    let p4 = s.subrange(d3 + 1, s.len() as int);
                    if part_ok(p1) && part_ok(p2) && part_ok(p3) && part_ok(p4) && find_byte(
                        s,
                        d3 + 1,
                        46,
                    ) is None {
                        Some(
                            PeerAddr {
                                o1: digits_value(p1) as u8,
                                o2: digits_value(p2) as u8,
                                o3: digits_value(p3) as u8,
                                o4: digits_value(p4) as u8,
                                port: 0,
                            },
                        )
                    } else {
                        None
                    }
                },
                None => None,
            },
            None => None,
        },
        None => None,
    }
}

/// The addresses of the first `n` peers of a compact reply: six bytes per
/// peer, a big-endian IPv4 address and port.
pub open spec fn compact_upto(b: Seq<u8>, n: int) -> Seq<PeerAddr>
    decreases n,
{
    if n <= 0 {
        Seq::empty()
    } else {
        compact_upto(b, n - 1).push(
            PeerAddr {
                o1: b[6 * (n - 1)],
                o2: b[6 * (n - 1) + 1],
                o3: b[6 * (n - 1) + 2],
                o4: b[6 * (n - 1) + 3],
                port: ((b[6 * (n - 1) + 4] as int) * 256 + (b[6 * (n - 1) + 5] as int)) as u16,
            },
        )
    }
}

/// One entry of a dictionary-format peer list is usable: an `ip` byte
/// string in dotted-quad form and an integer `port`.
pub open spec fn peer_entry_ok(v: SpecBencode) -> bool {
    &&& get_key(v, key_ip()) matches Some(SpecBencode::Bytes(ib)) && ipv4_of(ib) is Some
    &&& get_key(v, key_port()) matches Some(SpecBencode::Int(_))
}

/// The model of one dictionary-format peer: its optional id bytes and its
/// endpoint.
pub open spec fn peer_entry_model(v: SpecBencode) -> (Option<Seq<u8>>, PeerAddr) {
    let id = match get_key(v, key_peer_id()) {
        Some(SpecBencode::Bytes(pb)) => Some(pb),
        _ => None,
    };
    let base = match get_key(v, key_ip()) {
        Some(SpecBencode::Bytes(ib)) => match ipv4_of(ib) {
            Some(a) => a,
            None => PeerAddr { o1: 0, o2: 0, o3: 0, o4: 0, port: 0 },
        },
        _ => PeerAddr { o1: 0, o2: 0, o3: 0, o4: 0, port: 0 },
    };
    let port = match get_key(v, key_port()) {
        Some(SpecBencode::Int(p)) => p as u16,
        _ => 0u16,
    };
    (id, PeerAddr { o1: base.o1, o2: base.o2, o3: base.o3, o4: base.o4, port })
}

/// Every one of the first `n` dictionary-format peers is usable.
pub open spec fn peers_ok_upto(items: Seq<SpecBencode>, n: int) -> bool
    decreases n,
{
    n <= 0 || (peers_ok_upto(items, n - 1) && peer_entry_ok(items[n - 1]))
}

/// The models of the first `n` dictionary-format peers.
pub open spec fn peers_model_upto(items: Seq<SpecBencode>, n: int) -> Seq<
    (Option<Seq<u8>>, PeerAddr),
>
    decreases n,
{
    if n <= 0 {
        Seq::empty()
    } else {
        peers_model_upto(items, n - 1).push(peer_entry_model(items[n - 1]))
    }
}

/// The models of a parsed peer list.
pub open spec fn peers_view(peers: Vec<Peer>) -> Seq<(Option<Seq<u8>>, PeerAddr)> {
    Seq::new(
        peers@.len(),
        |i: int|
            (
                match peers@[i].peer_id {
                    Some(pid) => Some(pid@),
                    None => None,
                },
                peers@[i].addr,
            ),
    )
}

/// A reply is accepted when it parses to a dictionary without a readable
/// `failure reason`, with an integer `interval` and a usable `peers` value
/// in either wire form.
pub open spec fn resp_ok(root: SpecBencode) -> bool {
    &&& root is Dict
    &&& opt_str_of(root, key_failure()) is None
    &&& opt_int_of(root, key_interval()) is Some
    &&& match get_key(root, key_peers()) {
        Some(SpecBencode::Bytes(b)) => b.len() % 6 == 0,
        Some(SpecBencode::List(items)) => peers_ok_upto(items, items.len() as int),
        _ => false,
    }
}

/// Parse a bencoded announce reply.  A readable `failure reason` becomes a
/// tracker error carrying that text; otherwise the reply must carry an
/// integer `interval` and a compact or dictionary-format peer list, whose
/// exact models the result's fields carry.
pub fn parse_announce_response(data: &[u8]) -> (r: Result<AnnounceResponse, Error>)
    ensures
        r is Ok <==> (spec_parse(data@, 0) is Some && resp_ok(root_of(data@))),
        r matches Ok(resp) ==> {
            let root = root_of(data@);
            &&& resp.interval == (match opt_int_of(root, key_interval()) {
                Some(n) => n as u32,
                None => 0u32,
            })
            &&& resp.min_interval == (match opt_int_of(root, key_min_interval()) {
                Some(n) => Some(n as u32),
                None => None::<u32>,
            })
            &&& (match opt_str_of(root, key_warning()) {
                Some(cs) => resp.warning_message matches Some(w) && w@ == cs,
                None => resp.warning_message is None,
            })
            &&& (match opt_str_of(root, key_tracker_id()) {
                Some(cs) => resp.tracker_id matches Some(t) && t@ == cs,
                None => resp.tracker_id is None,
            })
            &&& resp.complete == (match opt_int_of(root, key_complete()) {
                Some(n) => n as u32,
                None => 0u32,
            })
            &&& resp.incomplete == (match opt_int_of(root, key_incomplete()) {
                Some(n) => n as u32,
                None => 0u32,
            })
            &&& (match get_key(root, key_peers()) {
                Some(SpecBencode::Bytes(b)) => peers_view(resp.peers) =~= Seq::new(
                    (b.len() / 6) as nat,
                    |i: int| (None::<Seq<u8>>, compact_upto(b, b.len() as int / 6)[i]),
                ),
                Some(SpecBencode::List(items)) => peers_view(resp.peers) =~= peers_model_upto(
                    items,
                    items.len() as int,
                ),
                _ => true,
            })
        },
{
    let k_failure: [u8; 14] = [102, 97, 105, 108, 117, 114, 101, 32, 114, 101, 97, 115, 111, 110];
    let k_interval: [u8; 8] = [105, 110, 116, 101, 114, 118, 97, 108];
    let k_warning: [u8; 15] = [
        119, 97, 114, 110, 105, 110, 103, 32, 109, 101, 115, 115, 97, 103, 101,
    ];
    let k_min_interval: [u8; 12] = [109, 105, 110, 32, 105, 110, 116, 101, 114, 118, 97, 108];
    let k_tracker_id: [u8; 10] = [116, 114, 97, 99, 107, 101, 114, 32, 105, 100];
    let k_complete: [u8; 8] = [99, 111, 109, 112, 108, 101, 116, 101];
    let k_incomplete: [u8; 10] = [105, 110, 99, 111, 109, 112, 108, 101, 116, 101];
    let k_peers: [u8; 5] = [112, 101, 101, 114, 115];
    proof {
        assert(k_failure@ =~= key_failure());
        assert(k_interval@ =~= key_interval());
        assert(k_warning@ =~= key_warning());
        assert(k_min_interval@ =~= key_min_interval());
        assert(k_tracker_id@ =~= key_tracker_id());
        assert(k_complete@ =~= key_complete());
        assert(k_incomplete@ =~= key_incomplete());
        assert(k_peers@ =~= key_peers());
    }
    let root_val = match BencodeValue::parse(data) {
        Ok(v) => v,
        Err(e) => {
            return Err(e);
        },
    };
    if !matches!(&root_val, BencodeValue::Dictionary(_)) {
        return Err(Error::MetainfoError(String::from_str("response must be a dictionary")));
    }
    match root_val.dict_get_str(k_failure.as_slice()) {
        Some(_) => {
            return Err(Error::NetworkError(String::from_str("tracker reported a failure")));
        },
        None => {},
    }
    let interval_int = match root_val.dict_get_int(k_interval.as_slice()) {
        Some(n) => n,
        None => {
            return Err(Error::MetainfoError(String::from_str("missing interval")));
        },
    };
    let interval = interval_int as u32;
    let warning_message = match root_val.dict_get_str(k_warning.as_slice()) {
        Some(s) => Some(s.to_owned()),
        None => None,
    };
    let min_interval = match root_val.dict_get_int(k_min_interval.as_slice()) {
        Some(n) => Some(n as u32),
        None => None,
    };
    let tracker_id = match root_val.dict_get_str(k_tracker_id.as_slice()) {
        Some(s) => Some(s.to_owned()),
        None => None,
    };
    let complete = match root_val.dict_get_int(k_complete.as_slice()) {
        Some(n) => n as u32,
        None => 0,
    };
    let incomplete = match root_val.dict_get_int(k_incomplete.as_slice()) {
        Some(n) => n as u32,
        None => 0,
    };
    let peers_val = match root_val.dict_get(k_peers.as_slice()) {
        Some(v) => v,
        None => {
            return Err(Error::MetainfoError(String::from_str("missing peers")));
        },
    };
    let peers = match peers_val.as_bytes() {
        Some(b) => match parse_compact_peers(b.as_slice()) {
            Ok(ps) => ps,
            Err(e) => {
                return Err(e);
            },
        },
        None => match peers_val.as_list() {
            Some(items) => match parse_dict_peers(items) {
                Ok(ps) => ps,
                Err(e) => {
                    return Err(e);
                },
            },
            None => {
                return Err(Error::MetainfoError(String::from_str("invalid peers format")));
            },
        },
    };
    Ok(
        AnnounceResponse {
            warning_message,
            interval,
            min_interval,
            tracker_id,
            complete,
            incomplete,
            peers,
        },
    )
}

/// Parse a compact peer list: six bytes per peer, a big-endian IPv4
/// address and port.  Fails when the length is not a multiple of six.
pub fn parse_compact_peers(bytes: &[u8]) -> (r: Result<Vec<Peer>, Error>)
    ensures
        r is Ok <==> bytes@.len() % 6 == 0,
        r matches Ok(ps) ==> peers_view(ps) =~= Seq::new(
            (bytes@.len() / 6) as nat,
            |i: int| (None::<Seq<u8>>, compact_upto(bytes@, bytes@.len() as int / 6)[i]),
        ),
        r matches Err(e) ==> e is MetainfoError,
{
    let n = bytes.len();
    if n % 6 != 0 {
        return Err(
            Error::MetainfoError(
                String::from_str("compact peers length must be multiple of 6"),
            ),
        );
    }
    let count = n / 6;
    let mut out: Vec<Peer> = Vec::new();
    let mut k: usize = 0;
    proof {
        vstd::arithmetic::div_mod::lemma_fundamental_div_mod(n as int, 6);
    }
    while k < count
        invariant
            n == bytes@.len(),
            n % 6 == 0,
            count == n / 6,
            6 * count == n,
            k <= count,
            out@.len() == k,
            forall|j: int| 0 <= j < k ==> (#[trigger] out@[j]).peer_id is None && out@[j].addr
                == compact_upto(bytes@, count as int)[j],
        decreases count - k,
    {
        proof {
            assert(6 * (k as int) + 5 < n) by (nonlinear_arith)
                requires
                    k < count,
                    6 * (count as int) == n,
            ;
            lemma_compact_index(bytes@, count as int, k as int);
        }
        let base = 6 * k;
        let addr = PeerAddr {
            o1: bytes[base],
            o2: bytes[base + 1],
            o3: bytes[base + 2],
            o4: bytes[base + 3],
            port: (bytes[base + 4] as u16) * 256 + (bytes[base + 5] as u16),
        };
        out.push(Peer { peer_id: None, addr });
        k = k + 1;
    }
    proof {
        assert(peers_view(out) =~= Seq::new(
            (bytes@.len() / 6) as nat,
            |i: int| (None::<Seq<u8>>, compact_upto(bytes@, bytes@.len() as int / 6)[i]),
        ));
    }
    Ok(out)
}

/// What `compact_upto` stores at one index.
proof fn lemma_compact_index(b: Seq<u8>, n: int, j: int)
    requires
        0 <= j < n,
    ensures
        compact_upto(b, n)[j] == (PeerAddr {
            o1: b[6 * j],
            o2: b[6 * j + 1],
            o3: b[6 * j + 2],
            o4: b[6 * j + 3],
            port: ((b[6 * j + 4] as int) * 256 + (b[6 * j + 5] as int)) as u16,
        }),
        compact_upto(b, n).len() == n,
    decreases n,
{
    if j < n - 1 {
        lemma_compact_index(b, n - 1, j);
    } else {
        lemma_compact_len(b, n - 1);
    }
}

/// `compact_upto` lists one address per peer.
proof fn lemma_compact_len(b: Seq<u8>, n: int)
    ensures
        compact_upto(b, n).len() == if n >= 0 {
            n
        } else {
            0
        },
    decreases n,
{
    if n > 0 {
        lemma_compact_len(b, n - 1);
    }
}

/// Parse a dictionary-format peer list: each entry needs an `ip` in
/// dotted-quad form and an integer `port`; a `peer id` is kept when sent.
fn parse_dict_peers(items: &Vec<BencodeValue>) -> (r: Result<Vec<Peer>, Error>)
    ensures
        r is Ok <==> peers_ok_upto(
            crate::bencode::view_items(items@),
            crate::bencode::view_items(items@).len() as int,
        ),
        r matches Ok(ps) ==> peers_view(ps) =~= peers_model_upto(
            crate::bencode::view_items(items@),
            crate::bencode::view_items(items@).len() as int,
        ),
        r matches Err(e) ==> e is MetainfoError,
{
    let k_peer_id: [u8; 7] = [112, 101, 101, 114, 32, 105, 100];
    let k_ip: [u8; 2] = [105, 112];
    let k_port: [u8; 4] = [112, 111, 114, 116];
    proof {
        assert(k_peer_id@ =~= key_peer_id());
        assert(k_ip@ =~= key_ip());
        assert(k_port@ =~= key_port());
    }
    let ghost models = crate::bencode::view_items(items@);
    proof {
        crate::bencode::lemma_view_items(items@);
    }
    let n = items.len();
    let mut out: Vec<Peer> = Vec::new();
    let mut k: usize = 0;
    while k < n
        invariant
            k_peer_id@ == key_peer_id(),
            k_ip@ == key_ip(),
            k_port@ == key_port(),
            n == items@.len(),
            k <= n,
            models == crate::bencode::view_items(items@),
            models.len() == n,
            forall|j: int| 0 <= j < n ==> models[j] == crate::bencode::view_value(
                #[trigger] items@[j],
            ),
            peers_ok_upto(models, k as int),
            peers_view(out) =~= peers_model_upto(models, k as int),
        decreases n - k,
    {
        let entry = &items[k];
        proof {
            assert(entry@ == models[k as int]);
        }
        let ip_val = match entry.dict_get(k_ip.as_slice()) {
            Some(v) => v,
            None => {
                proof {
                    lemma_peers_not_ok(models, k as int, n as int);
                }
                return Err(Error::MetainfoError(String::from_str("missing peer ip")));
            },
        };
        let ip_bytes = match ip_val.as_bytes() {
            Some(b) => b,
            None => {
                proof {
                    lemma_peers_not_ok(models, k as int, n as int);
                }
                return Err(Error::MetainfoError(String::from_str("missing peer ip")));
            },
        };
        let base = match parse_ipv4(ip_bytes.as_slice()) {
            Some(a) => a,
            None => {
                proof {
                    lemma_peers_not_ok(models, k as int, n as int);
                }
                return Err(Error::MetainfoError(String::from_str("invalid ip address")));
            },
        };
        let port_int = match entry.dict_get_int(k_port.as_slice()) {
            Some(p) => p,
            None => {
                proof {
                    lemma_peers_not_ok(models, k as int, n as int);
                }
                return Err(Error::MetainfoError(String::from_str("missing peer port")));
            },
        };
        let peer_id = match entry.dict_get(k_peer_id.as_slice()) {
            Some(v) => match v.as_bytes() {
                Some(b) => Some(vstd::slice::slice_to_vec(b.as_slice())),
                None => None,
            },
            None => None,
        };
        let addr = PeerAddr {
            o1: base.o1,
            o2: base.o2,
            o3: base.o3,
            o4: base.o4,
            port: port_int as u16,
        };
        out.push(Peer { peer_id, addr });
        proof {
            assert(peer_entry_ok(models[k as int]));
            assert(peers_view(out) =~= peers_model_upto(models, k + 1));
        }
        k = k + 1;
    }
    Ok(out)
}

/// A unusable entry poisons the whole dictionary-format peer list.
proof fn lemma_peers_not_ok(items: Seq<SpecBencode>, bad: int, n: int)
    requires
        0 <= bad < n,
        !peer_entry_ok(items[bad]),
    ensures
        !peers_ok_upto(items, n),
    decreases n,
{
    if bad < n - 1 {
        lemma_peers_not_ok(items, bad, n - 1);
    }
}

/// Parse a dotted-quad IPv4 address from ASCII bytes.
pub fn parse_ipv4(s: &[u8]) -> (r: Option<PeerAddr>)
    ensures
        r == ipv4_of(s@),
{
    let n = s.len();
    let d1 = match crate::bencode::find_byte_from(s, 0, 46) {
        Some(d) => d,
        None => {
            return None;
        },
    };
    proof {
        crate::bencode::lemma_find_byte(s@, 0, 46);
    }
    let d2 = match crate::bencode::find_byte_from(s, d1 + 1, 46) {
        Some(d) => d,
        None => {
            return None;
        },
    };
    proof {
        crate::bencode::lemma_find_byte(s@, d1 + 1, 46);
    }
    let d3 = match crate::bencode::find_byte_from(s, d2 + 1, 46) {
        Some(d) => d,
        None => {
            return None;
        },
    };
    proof {
        crate::bencode::lemma_find_byte(s@, d2 + 1, 46);
    }
    let extra = crate::bencode::find_byte_from(s, d3 + 1, 46);
    if matches!(extra, Some(_)) {
        return None;
    }
    let p1 = match parse_decimal(s, 0, d1, 255) {
        Some(v) => v,
        None => {
            return None;
        },
    };
    let p2 = match parse_decimal(s, d1 + 1, d2, 255) {
        Some(v) => v,
        None => {
            return None;
        },
    };
    let p3 = match parse_decimal(s, d2 + 1, d3, 255) {
        Some(v) => v,
        None => {
            return None;
        },
    };
    let p4 = match parse_decimal(s, d3 + 1, n, 255) {
        Some(v) => v,
        None => {
            return None;
        },
    };
    Some(
        PeerAddr {
            o1: p1 as u8,
            o2: p2 as u8,
            o3: p3 as u8,
            o4: p4 as u8,
            port: 0,
        },
    )
}

/// The decimal digits of a number are valid UTF-8.
proof fn lemma_digits_valid(n: nat)
    ensures
        valid_utf8(dec_digits(n)),
{
    lemma_dec_digits_value(n);
    crate::text::lemma_ascii_utf8(dec_digits(n));
}

/// A single ASCII byte is valid UTF-8.
proof fn lemma_byte_valid(b: u8)
    requires
        b < 128,
    ensures
        valid_utf8(seq![b]),
{
    crate::text::lemma_ascii_utf8(seq![b]);
}

/// A percent-encoding is valid UTF-8.
proof fn lemma_pct_valid(bytes: Seq<u8>)
    ensures
        valid_utf8(pct_bytes(bytes)),
{
    lemma_pct_bytes(bytes);
    crate::text::lemma_ascii_utf8(pct_bytes(bytes));
}

/// The bytes of a string literal are valid UTF-8.
proof fn lemma_lit_valid(s: &str)
    ensures
        valid_utf8(lit_b(s)),
{
    encode_utf8_valid_utf8(s@);
}

/// Every announce query is valid UTF-8.
proof fn lemma_query_valid(req: AnnounceRequest)
    ensures
        valid_utf8(query_ascii(req)),
{
    lemma_lit_valid("info_hash=");
    lemma_lit_valid("&peer_id=");
    lemma_lit_valid("&port=");
    lemma_lit_valid("&uploaded=");
    lemma_lit_valid("&downloaded=");
    lemma_lit_valid("&left=");
    lemma_lit_valid("&compact=");
    lemma_lit_valid("&numwant=");
    lemma_lit_valid("&event=started");
    lemma_lit_valid("&event=completed");
    lemma_lit_valid("&event=stopped");
    lemma_pct_valid(req.info_hash@);
    lemma_pct_valid(req.peer_id@);
    lemma_digits_valid(req.port as nat);
    lemma_digits_valid(req.uploaded as nat);
    lemma_digits_valid(req.downloaded as nat);
    lemma_digits_valid(req.left as nat);
    lemma_byte_valid(48);
    lemma_byte_valid(49);
    let q1 = lit_b("info_hash=") + pct_bytes(req.info_hash@);
    valid_utf8_concat(lit_b("info_hash="), pct_bytes(req.info_hash@));
    let q2 = q1 + lit_b("&peer_id=");
    valid_utf8_concat(q1, lit_b("&peer_id="));
    let q3 = q2 + pct_bytes(req.peer_id@);
    valid_utf8_concat(q2, pct_bytes(req.peer_id@));
    let q4 = q3 + lit_b("&port=");
    valid_utf8_concat(q3, lit_b("&port="));
    let q5 = q4 + dec_digits(req.port as nat);
    valid_utf8_concat(q4, dec_digits(req.port as nat));
    let q6 = q5 + lit_b("&uploaded=");
    valid_utf8_concat(q5, lit_b("&uploaded="));
    let q7 = q6 + dec_digits(req.uploaded as nat);
    valid_utf8_concat(q6, dec_digits(req.uploaded as nat));
    let q8 = q7 + lit_b("&downloaded=");
    valid_utf8_concat(q7, lit_b("&downloaded="));
    let q9 = q8 + dec_digits(req.downloaded as nat);
    valid_utf8_concat(q8, dec_digits(req.downloaded as nat));
    let q10 = q9 + lit_b("&left=");
    valid_utf8_concat(q9, lit_b("&left="));
    let q11 = q10 + dec_digits(req.left as nat);
    valid_utf8_concat(q10, dec_digits(req.left as nat));
    let q12 = q11 + lit_b("&compact=");
    valid_utf8_concat(q11, lit_b("&compact="));
    let flag: Seq<u8> = if req.compact {
        seq![49u8]
    } else {
        seq![48u8]
    };
    let q13 = q12 + flag;
    valid_utf8_concat(q12, flag);
    let nw: Seq<u8> = match req.numwant {
        Some(n) => lit_b("&numwant=") + dec_digits(n as nat),
        None => Seq::empty(),
    };
    match req.numwant {
        Some(n) => {
            lemma_digits_valid(n as nat);
            valid_utf8_concat(lit_b("&numwant="), dec_digits(n as nat));
        },
        None => {
            crate::text::lemma_ascii_utf8(Seq::<u8>::empty());
        },
    }
    let q14 = q13 + nw;
    valid_utf8_concat(q13, nw);
    let ev: Seq<u8> = match req.event {
        AnnounceEvent::Regular => Seq::empty(),
        AnnounceEvent::Started => lit_b("&event=started"),
        AnnounceEvent::Completed => lit_b("&event=completed"),
        AnnounceEvent::Stopped => lit_b("&event=stopped"),
    };
    match req.event {
        AnnounceEvent::Regular => {
            crate::text::lemma_ascii_utf8(Seq::<u8>::empty());
        },
        _ => {},
    }
    valid_utf8_concat(q14, ev);
    assert(query_ascii(req) == q14 + ev);
}

} // verus!
