//! The supervisor's decision kernel: the engine state machine and the pure
//! planning steps of the announce loop.  Timers, tasks and sockets run in
//! the host; they feed events in and carry the decisions out.

use vstd::prelude::*;

verus! {

use crate::text::str_eq;
use vstd::string::StringExecFns;

/// Where the engine stands.
#[derive(Debug, Clone, Copy, PartialEq, Eq, Structural)]
pub enum EngineState {
    /// Not running.
    Stopped,
    /// Allocating files and contacting trackers.
    Starting,
    /// Fetching pieces.
    Downloading,
    /// Every piece verified; serving uploads only.
    Seeding,
    /// Running but issuing no new requests.
    Paused,
    /// A fatal failure; stays until restarted.
    Error,
}

/// What happened to the engine.
#[derive(Debug, Clone, Copy, PartialEq, Eq, Structural)]
pub enum EngineEvent {
    /// Start was requested; whether the descriptor carries real metadata.
    StartRequested { metadata_available: bool },
    /// Files are allocated and the first announce went out.
    StartSucceeded,
    /// Allocation or startup failed.
    StartFailed,
    /// Our bitfield became full.
    DownloadCompleted,
    /// Pause was requested.
    PauseRequested,
    /// Resume was requested; whether every piece is verified.
    ResumeRequested { complete: bool },
    /// Stop was requested.
    StopRequested,
    /// A disk write of a verified piece failed, or another fatal fault.
    FatalError,
}

/// The transition table of the supervisor: Stopped moves through Starting
/// into Downloading and on to Seeding; Pause and Resume toggle from any
/// running state; Stop returns to Stopped; a fatal fault lands in Error,
/// which only a new Start leaves.  A start without metadata fails at once.
pub open spec fn spec_next_state(state: EngineState, event: EngineEvent) -> EngineState {
    match event {
        EngineEvent::StartRequested { metadata_available } => if metadata_available {
            EngineState::Starting
        } else {
            EngineState::Error
        },
        EngineEvent::StartSucceeded => if state is Starting {
            EngineState::Downloading
        } else {
            state
        },
        EngineEvent::StartFailed => if state is Starting {
            EngineState::Error
        } else {
            state
        },
        EngineEvent::DownloadCompleted => if state is Downloading {
            EngineState::Seeding
        } else {
            state
        },
        EngineEvent::PauseRequested => if state is Stopped || state is Error {
            state
        } else {
            EngineState::Paused
        },
        EngineEvent::ResumeRequested { complete } => if state is Paused {
            if complete {
                EngineState::Seeding
            } else {
                EngineState::Downloading
            }
        } else {
            state
        },
        EngineEvent::StopRequested => EngineState::Stopped,
        EngineEvent::FatalError => EngineState::Error,
    }
}

/// Apply one event to the engine state.
pub fn next_state(state: EngineState, event: EngineEvent) -> (r: EngineState)
    ensures
        r == spec_next_state(state, event),
{
    match event {
        EngineEvent::StartRequested { metadata_available } => if metadata_available {
            EngineState::Starting
        } else {
            EngineState::Error
        },
        EngineEvent::StartSucceeded => if matches!(state, EngineState::Starting) {
            EngineState::Downloading
        } else {
            state
        },
        EngineEvent::StartFailed => if matches!(state, EngineState::Starting) {
            EngineState::Error
        } else {
            state
        },
        EngineEvent::DownloadCompleted => if matches!(state, EngineState::Downloading) {
            EngineState::Seeding
        } else {
            state
        },
        EngineEvent::PauseRequested => if matches!(state, EngineState::Stopped)
            || matches!(state, EngineState::Error) {
            state
        } else {
            EngineState::Paused
        },
        EngineEvent::ResumeRequested { complete } => if matches!(state, EngineState::Paused) {
            if complete {
                EngineState::Seeding
            } else {
                EngineState::Downloading
            }
        } else {
            state
        },
        EngineEvent::StopRequested => EngineState::Stopped,
        EngineEvent::FatalError => EngineState::Error,
    }
}

/// Whether a descriptor can enter Downloading: a magnet stub without its
/// piece table cannot, and the caller reports the diagnostic instead of
/// spinning.
pub fn can_start(piece_count: usize, total_size: u64) -> (r: Result<(), String>)
    ensures
        r is Ok <==> (piece_count > 0 && total_size > 0),
{
    if piece_count == 0 || total_size == 0 {
        return Err(String::from_str("cannot start: metadata not yet available"));
    }
    Ok(())
}

/// The length of the last piece of a torrent: the remainder of the total
/// size, or a full piece when it divides evenly.
pub fn last_piece_length(total_size: u64, piece_length: u64) -> (r: u64)
    requires
        piece_length >= 1,
    ensures
        r == if total_size % piece_length == 0 {
            piece_length as int
        } else {
            (total_size % piece_length) as int
        },
{
    if total_size % piece_length == 0 {
        piece_length
    } else {
        total_size % piece_length
    }
}

/// A URL the HTTP tracker client can speak to.
pub open spec fn spec_is_http(url: Seq<char>) -> bool {
    url.len() >= 7 && (url.take(7) == seq!['h', 't', 't', 'p', ':', '/', '/'] || (url.len() >= 8
        && url.take(8) == seq!['h', 't', 't', 'p', 's', ':', '/', '/']))
}

/// The deduplicated announce candidates among the primary URL and the
/// first `n` flattened tier entries, keeping only HTTP(S) URLs.
pub open spec fn spec_candidates_upto(primary: Seq<char>, flat: Seq<Seq<char>>, n: int) -> Seq<
    Seq<char>,
>
    decreases n,
{
    if n < 0 {
        Seq::empty()
    } else if n == 0 {
        if spec_is_http(primary) {
            seq![primary]
        } else {
            Seq::empty()
        }
    } else {
        let prev = spec_candidates_upto(primary, flat, n - 1);
        if spec_is_http(flat[n - 1]) && !prev.contains(flat[n - 1]) {
            prev.push(flat[n - 1])
        } else {
            prev
        }
    }
}

/// The flattened announce-list tiers.
pub open spec fn spec_flat_tiers(tiers: Seq<Seq<Seq<char>>>) -> Seq<Seq<char>>
    decreases tiers.len(),
{
    if tiers.len() == 0 {
        Seq::empty()
    } else {
        spec_flat_tiers(tiers.drop_last()) + tiers.last()
    }
}

/// The announce URLs one round tries, in order: the primary first, then
/// every tier entry, duplicates dropped, non-HTTP(S) trackers skipped.
pub fn plan_announce_urls(primary: &String, tiers: &Vec<Vec<String>>) -> (r: Vec<String>)
    ensures
        ({
            let flat = spec_flat_tiers(crate::torrent::tiers_view(*tiers));
            let model = spec_candidates_upto(primary@, flat, flat.len() as int);
            &&& r@.len() == model.len()
            &&& forall|k: int| 0 <= k < r@.len() ==> (#[trigger] r@[k])@ == model[k]
        }),
{
    let ghost flat = spec_flat_tiers(crate::torrent::tiers_view(*tiers));
    let mut out: Vec<String> = Vec::new();
    if is_http_url(primary.as_str()) {
        out.push(primary.clone());
    }
    proof {
        lemma_views_eq(out@, spec_candidates_upto(primary@, flat, 0));
    }
    let nt = tiers.len();
    let ghost mut done: int = 0;
    let mut t: usize = 0;
    while t < nt
        invariant
            nt == tiers@.len(),
            t <= nt,
            flat == spec_flat_tiers(crate::torrent::tiers_view(*tiers)),
            done == spec_flat_tiers(crate::torrent::tiers_view(*tiers).take(t as int)).len(),
            0 <= done <= flat.len(),
            spec_flat_tiers(crate::torrent::tiers_view(*tiers).take(t as int)) =~= flat.take(
                done,
            ),
            views_eq(out@, spec_candidates_upto(primary@, flat, done)),
        decreases nt - t,
    {
        let tier = &tiers[t];
        let m = tier.len();
        let ghost tv = crate::torrent::tiers_view(*tiers);
        proof {
            assert(tv.take(t + 1).drop_last() =~= tv.take(t as int));
            assert(tv.take(t + 1).last() == tv[t as int]);
            assert(spec_flat_tiers(tv.take(t + 1)) =~= flat.take(done) + tv[t as int]);
            lemma_flat_prefix(tv, t + 1);
        }
        let mut u: usize = 0;
        while u < m
            invariant
                nt == tiers@.len(),
                t < nt,
                m == tier@.len(),
                tier == &tiers@[t as int],
                u <= m,
                flat == spec_flat_tiers(crate::torrent::tiers_view(*tiers)),
                0 <= done,
                done + m <= flat.len(),
                forall|j: int| 0 <= j < m ==> flat[done + j] == (#[trigger] tier@[j])@,
                views_eq(out@, spec_candidates_upto(primary@, flat, done + u)),
            decreases m - u,
        {
            let url = &tier[u];
            let ghost prev_model = spec_candidates_upto(primary@, flat, done + u);
            if is_http_url(url.as_str()) && !contains_str(&out, url.as_str()) {
                let ghost pre = out@;
                out.push(url.clone());
                proof {
                    assert(flat[done + u] == url@);
                    assert(!prev_model.contains(flat[done + u])) by {
                        if prev_model.contains(flat[done + u]) {
                            let w = choose|w: int|
                                0 <= w < prev_model.len() && prev_model[w] == flat[done + u];
                            assert(pre[w]@ == url@);
                        }
                    }
                    assert forall|k: int| 0 <= k < out@.len() implies (#[trigger] out@[k])@
                        == spec_candidates_upto(primary@, flat, done + u + 1)[k] by {
                        if k < pre.len() {
                            assert(out@[k] == pre[k]);
                        } else {
                            assert(out@[k]@ == url@);
                        }
                    }
                }
            } else {
                proof {
                    if spec_is_http(flat[done + u]) {
                        assert(prev_model.contains(flat[done + u])) by {
                            let w = choose|w: int|
                                0 <= w < out@.len() && out@[w]@ == url@;
                            assert(prev_model[w] == flat[done + u]);
                        }
                    }
                    assert(spec_candidates_upto(primary@, flat, done + u + 1) == prev_model);
                }
            }
            u = u + 1;
        }
        proof {
            done = done + m as int;
            assert(spec_flat_tiers(tv.take(t + 1)) =~= flat.take(done));
        }
        t = t + 1;
    }
    proof {
        assert(crate::torrent::tiers_view(*tiers).take(nt as int) =~= crate::torrent::tiers_view(
            *tiers,
        ));
        assert(flat.take(done) =~= flat);
        assert(done == flat.len());
    }
    out
}

/// The string views of two vectors agree position by position.
pub open spec fn views_eq(v: Seq<String>, model: Seq<Seq<char>>) -> bool {
    v.len() == model.len() && forall|k: int| 0 <= k < v.len() ==> (#[trigger] v[k])@ == model[k]
}

/// Two equal-length views are views of each other.
proof fn lemma_views_eq(v: Seq<String>, model: Seq<Seq<char>>)
    requires
        v.len() == model.len(),
        forall|k: int| 0 <= k < v.len() ==> (#[trigger] v[k])@ == model[k],
    ensures
        views_eq(v, model),
{
}

/// Flattening a prefix of the tiers yields a prefix of the flattening.
proof fn lemma_flat_prefix(tiers: Seq<Seq<Seq<char>>>, n: int)
    requires
        0 <= n <= tiers.len(),
    ensures
        spec_flat_tiers(tiers.take(n)).len() <= spec_flat_tiers(tiers).len(),
        forall|j: int| 0 <= j < spec_flat_tiers(tiers.take(n)).len()
            ==> #[trigger] spec_flat_tiers(tiers)[j] == spec_flat_tiers(tiers.take(n))[j],
    decreases tiers.len() - n,
{
    if n < tiers.len() {
        lemma_flat_prefix(tiers, n + 1);
        assert(tiers.take(n + 1).drop_last() =~= tiers.take(n));
        assert(tiers.take(n + 1).last() == tiers[n]);
        assert(spec_flat_tiers(tiers.take(n + 1)) == spec_flat_tiers(tiers.take(n)) + tiers[n]);
    } else {
        assert(tiers.take(n) =~= tiers);
    }
}

/// Whether a URL starts with `http://` or `https://`.
fn is_http_url(url: &str) -> (r: bool)
    ensures
        r == spec_is_http(url@),
{
    let n = url.unicode_len();
    if n < 7 {
        proof {
            assert(!spec_is_http(url@));
        }
        return false;
    }
    let c0 = url.get_char(0);
    let c1 = url.get_char(1);
    let c2 = url.get_char(2);
    let c3 = url.get_char(3);
    let c4 = url.get_char(4);
    let c5 = url.get_char(5);
    let c6 = url.get_char(6);
    if c0 == 'h' && c1 == 't' && c2 == 't' && c3 == 'p' && c4 == ':' && c5 == '/' && c6 == '/' {
        proof {
            assert(url@.take(7) =~= seq!['h', 't', 't', 'p', ':', '/', '/']);
        }
        return true;
    }
    if n >= 8 {
        let c7 = url.get_char(7);
        if c0 == 'h' && c1 == 't' && c2 == 't' && c3 == 'p' && c4 == 's' && c5 == ':' && c6 == '/'
            && c7 == '/' {
            proof {
                assert(url@.take(8) =~= seq!['h', 't', 't', 'p', 's', ':', '/', '/']);
            }
            return true;
        }
    }
    proof {
        if url@.take(7) == seq!['h', 't', 't', 'p', ':', '/', '/'] {
            assert(url@[4] == ':');
            assert(false);
        }
        if url@.len() >= 8 && url@.take(8) == seq!['h', 't', 't', 'p', 's', ':', '/', '/'] {
            assert(url@[4] == 's');
            assert(false);
        }
    }
    false
}

/// Whether the vector holds a string spelling `s`.
fn contains_str(v: &Vec<String>, s: &str) -> (r: bool)
    ensures
        r == exists|k: int| 0 <= k < v@.len() && (#[trigger] v@[k])@ == s@,
{
    let n = v.len();
    let mut k: usize = 0;
    while k < n
        invariant
            n == v@.len(),
            k <= n,
            forall|j: int| 0 <= j < k ==> (#[trigger] v@[j])@ != s@,
        decreases n - k,
    {
        if str_eq(v[k].as_str(), s) {
            return true;
        }
        k = k + 1;
    }
    false
}

} // verus!
