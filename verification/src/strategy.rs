//! Piece selection: which piece to fetch next from a given peer, driven by
//! a per-piece availability histogram over the connected peers.

use vstd::prelude::*;

verus! {

use crate::bitfield::Bitfield;
use crate::util::rand_below;

/// How the next piece is chosen.
#[derive(Debug, Clone, Copy, PartialEq, Eq, Structural)]
pub enum SelectionStrategy {
    /// Fewest peers first; the standard choice.
    RarestFirst,
    /// Lowest index first; good for streaming.
    Sequential,
    /// Uniformly at random.
    Random,
    /// Late stage: also re-request pieces already in flight.
    Endgame,
}

/// A count one higher, capped at the machine maximum.
pub open spec fn sat_inc(v: int) -> int {
    if v < usize::MAX {
        v + 1
    } else {
        v
    }
}

/// A count one lower, stopping at zero.
pub open spec fn sat_dec(v: int) -> int {
    if v > 0 {
        v - 1
    } else {
        0
    }
}

/// A piece index occurs in the slice of pending pieces.
pub open spec fn in_pending(pending: Seq<usize>, i: int) -> bool {
    exists|k: int| 0 <= k < pending.len() && pending[k] == i
}

/// A piece worth asking this peer for: a real piece we lack, the peer has,
/// and that is not already in flight.
pub open spec fn is_candidate(our: Bitfield, peer: Bitfield, pending: Seq<usize>, i: int) -> bool {
    0 <= i < our.spec_num_pieces() && !our.spec_has(i) && peer.spec_has(i) && !in_pending(
        pending,
        i,
    )
}

/// Chooses pieces according to a strategy, using a histogram that counts,
/// for each piece, how many connected peers advertise it.
pub struct PieceSelector {
    strategy: SelectionStrategy,
    avail: Vec<(usize, usize)>,
}

/// The count stored under `key` in an association list, zero when absent.
pub open spec fn assoc_count(s: Seq<(usize, usize)>, key: int) -> int
    decreases s.len(),
{
    if s.len() == 0 {
        0
    } else if s[0].0 == key {
        s[0].1 as int
    } else {
        assoc_count(s.drop_first(), key)
    }
}

/// Keys occur at most once.
pub open spec fn assoc_unique(s: Seq<(usize, usize)>) -> bool {
    forall|i: int, j: int| 0 <= i < j < s.len() ==> (#[trigger] s[i]).0 != (#[trigger] s[j]).0
}

impl PieceSelector {
    /// The histogram is an association list with unique keys.
    pub closed spec fn wf(self) -> bool {
        assoc_unique(self.avail@)
    }

    /// The current strategy.
    pub closed spec fn spec_strategy(self) -> SelectionStrategy {
        self.strategy
    }

    /// How many connected peers advertise piece `i`.
    pub closed spec fn spec_avail(self, i: int) -> int {
        assoc_count(self.avail@, i)
    }

    /// A selector with the given strategy and an empty histogram.
    pub fn new(strategy: SelectionStrategy) -> (r: PieceSelector)
        ensures
            r.wf(),
            r.spec_strategy() == strategy,
            forall|i: int| r.spec_avail(i) == 0,
    {
        PieceSelector { strategy, avail: Vec::new() }
    }

    /// Add `1` to (or, when `increment` is false, subtract `1` from) the
    /// count of `piece`, within the bounds of the machine.
    fn bump(&mut self, piece: usize, increment: bool)
        requires
            old(self).wf(),
        ensures
            final(self).wf(),
            final(self).spec_strategy() == old(self).spec_strategy(),
            final(self).spec_avail(piece as int) == if increment {
                sat_inc(old(self).spec_avail(piece as int))
            } else {
                sat_dec(old(self).spec_avail(piece as int))
            },
            forall|q: int| q != piece ==> final(self).spec_avail(q) == old(self).spec_avail(q),
    {
        let ghost orig = self.avail@;
        let n = self.avail.len();
        let mut k: usize = 0;
        while k < n
            invariant
                self.avail@ == orig,
                self.strategy == old(self).strategy,
                orig == old(self).avail@,
                assoc_unique(orig),
                n == self.avail@.len(),
                k <= n,
                forall|j: int| 0 <= j < k ==> (#[trigger] self.avail@[j]).0 != piece,
            decreases n - k,
        {
            if self.avail[k].0 == piece {
                let cur = self.avail[k].1;
                let updated: usize = if increment {
                    if cur < usize::MAX {
                        cur + 1
                    } else {
                        cur
                    }
                } else {
                    if cur > 0 {
                        cur - 1
                    } else {
                        0
                    }
                };
                proof {
                    lemma_assoc_found(orig, k as int, piece as int);
                }
                self.avail.set(k, (piece, updated));
                proof {
                    lemma_assoc_update(orig, self.avail@, k as int, piece as int, updated as int);
                }
                return;
            }
            k = k + 1;
        }
        let fresh: usize = if increment {
            1
        } else {
            0
        };
        proof {
            lemma_assoc_absent(orig, piece as int);
        }
        self.avail.push((piece, fresh));
        proof {
            lemma_assoc_push(orig, piece as int, fresh as int);
        }
    }

    /// Fold a peer's bitfield into the histogram: every piece the peer
    /// advertises gains one (or, on leave, loses one, never below zero).
    pub fn update_peer_availability(&mut self, peer_bitfield: &Bitfield, increment: bool)
        requires
            old(self).wf(),
            peer_bitfield.wf(),
        ensures
            final(self).wf(),
            final(self).spec_strategy() == old(self).spec_strategy(),
            forall|q: int| #[trigger] final(self).spec_avail(q) == if peer_bitfield.spec_has(q) {
                if increment {
                    sat_inc(old(self).spec_avail(q))
                } else {
                    sat_dec(old(self).spec_avail(q))
                }
            } else {
                old(self).spec_avail(q)
            },
    {
        let pieces = peer_bitfield.available_pieces();
        proof {
            peer_bitfield.lemma_num_pieces_bound();
            peer_bitfield.lemma_indices_where(None, 0, peer_bitfield.spec_num_pieces());
            assert forall|i: int| 0 <= i < peer_bitfield.spec_num_pieces()
                && peer_bitfield.spec_has(i) implies pieces@.contains(i as usize) by {
                assert(peer_bitfield.index_matches(None, 0, i));
            }
        }
        let n = pieces.len();
        let mut k: usize = 0;
        while k < n
            invariant
                self.wf(),
                self.spec_strategy() == old(self).spec_strategy(),
                k <= n == pieces@.len(),
                forall|k1: int, k2: int| 0 <= k1 < k2 < pieces@.len()
                    ==> #[trigger] pieces@[k1] < #[trigger] pieces@[k2],
                forall|j: int| 0 <= j < pieces@.len() ==> peer_bitfield.spec_has(
                    #[trigger] pieces@[j] as int,
                ),
                forall|i: int| 0 <= i < peer_bitfield.spec_num_pieces() && peer_bitfield.spec_has(
                    i,
                ) ==> pieces@.contains(i as usize),
                forall|q: int| #[trigger] self.spec_avail(q) == if (exists|j: int|
                    0 <= j < k && pieces@[j] == q) {
                    if increment {
                        sat_inc(old(self).spec_avail(q))
                    } else {
                        sat_dec(old(self).spec_avail(q))
                    }
                } else {
                    old(self).spec_avail(q)
                },
            decreases n - k,
        {
            let p = pieces[k];
            proof {
                assert forall|j: int| 0 <= j < k implies pieces@[j] != p by {
                    assert(pieces@[j] < pieces@[k as int]);
                }
            }
            self.bump(p, increment);
            k = k + 1;
            proof {
                assert forall|q: int| #[trigger] self.spec_avail(q) == if (exists|j: int|
                    0 <= j < k && pieces@[j] == q) {
                    if increment {
                        sat_inc(old(self).spec_avail(q))
                    } else {
                        sat_dec(old(self).spec_avail(q))
                    }
                } else {
                    old(self).spec_avail(q)
                } by {
                    if q == p {
                        assert(pieces@[k - 1] == q);
                    } else {
                        assert((exists|j: int| 0 <= j < k && pieces@[j] == q) == (exists|j: int|
                            0 <= j < k - 1 && pieces@[j] == q));
                    }
                }
            }
        }
        proof {
            assert forall|q: int| #[trigger] self.spec_avail(q) == if peer_bitfield.spec_has(q) {
                if increment {
                    sat_inc(old(self).spec_avail(q))
                } else {
                    sat_dec(old(self).spec_avail(q))
                }
            } else {
                old(self).spec_avail(q)
            } by {
                peer_bitfield.lemma_num_pieces_bound();
                peer_bitfield.lemma_has_in_range(q);
                if peer_bitfield.spec_has(q) {
                    assert(pieces@.contains(q as usize));
                    let j = choose|j: int| 0 <= j < pieces@.len() && pieces@[j] == q as usize;
                    assert(pieces@[j] == q);
                } else {
                    if exists|j: int| 0 <= j < n && pieces@[j] == q {
                        let j = choose|j: int| 0 <= j < n && pieces@[j] == q;
                        assert(peer_bitfield.spec_has(pieces@[j] as int));
                        assert(false);
                    }
                }
            }
        }
    }

    /// A peer joined with this bitfield: raise the count of every piece it
    /// advertises.
    pub fn add_peer(&mut self, peer_bitfield: &Bitfield)
        requires
            old(self).wf(),
            peer_bitfield.wf(),
        ensures
            final(self).wf(),
            final(self).spec_strategy() == old(self).spec_strategy(),
            forall|q: int| #[trigger] final(self).spec_avail(q) == if peer_bitfield.spec_has(q) {
                sat_inc(old(self).spec_avail(q))
            } else {
                old(self).spec_avail(q)
            },
    {
        self.update_peer_availability(peer_bitfield, true);
    }

    /// A peer left with this bitfield: lower the count of every piece it
    /// advertised, never below zero.
    pub fn remove_peer(&mut self, peer_bitfield: &Bitfield)
        requires
            old(self).wf(),
            peer_bitfield.wf(),
        ensures
            final(self).wf(),
            final(self).spec_strategy() == old(self).spec_strategy(),
            forall|q: int| #[trigger] final(self).spec_avail(q) == if peer_bitfield.spec_has(q) {
                sat_dec(old(self).spec_avail(q))
            } else {
                old(self).spec_avail(q)
            },
    {
        self.update_peer_availability(peer_bitfield, false);
    }

    /// A known peer announced one more piece with HAVE: raise its count.
    pub fn mark_piece_available(&mut self, piece_idx: usize)
        requires
            old(self).wf(),
        ensures
            final(self).wf(),
            final(self).spec_strategy() == old(self).spec_strategy(),
            final(self).spec_avail(piece_idx as int) == sat_inc(
                old(self).spec_avail(piece_idx as int),
            ),
            forall|q: int| q != piece_idx ==> final(self).spec_avail(q) == old(self).spec_avail(q),
    {
        self.bump(piece_idx, true);
    }

    /// How many connected peers advertise `piece_idx`.
    pub fn get_availability(&self, piece_idx: usize) -> (r: usize)
        requires
            self.wf(),
        ensures
            r == self.spec_avail(piece_idx as int),
    {
        let n = self.avail.len();
        let mut k: usize = 0;
        while k < n
            invariant
                n == self.avail@.len(),
                k <= n,
                self.wf(),
                forall|j: int| 0 <= j < k ==> (#[trigger] self.avail@[j]).0 != piece_idx,
            decreases n - k,
        {
            if self.avail[k].0 == piece_idx {
                proof {
                    lemma_assoc_found(self.avail@, k as int, piece_idx as int);
                }
                return self.avail[k].1;
            }
            k = k + 1;
        }
        proof {
            lemma_assoc_absent(self.avail@, piece_idx as int);
        }
        0
    }

    /// The availability count of every piece below `num_pieces`, in order.
    pub fn get_piece_availability(&self, num_pieces: usize) -> (r: Vec<usize>)
        requires
            self.wf(),
        ensures
            r@.len() == num_pieces,
            forall|i: int| 0 <= i < num_pieces ==> #[trigger] r@[i] == self.spec_avail(i),
    {
        let mut out: Vec<usize> = Vec::new();
        let mut i: usize = 0;
        while i < num_pieces
            invariant
                self.wf(),
                i <= num_pieces,
                out@.len() == i,
                forall|j: int| 0 <= j < i ==> #[trigger] out@[j] == self.spec_avail(j),
            decreases num_pieces - i,
        {
            out.push(self.get_availability(i));
            i = i + 1;
        }
        out
    }

    /// The current strategy.
    pub fn strategy(&self) -> (r: SelectionStrategy)
        ensures
            r == self.spec_strategy(),
    {
        self.strategy
    }

    /// Switch to another strategy; the histogram is kept.
    pub fn set_strategy(&mut self, strategy: SelectionStrategy)
        requires
            old(self).wf(),
        ensures
            final(self).wf(),
            final(self).spec_strategy() == strategy,
            forall|q: int| final(self).spec_avail(q) == old(self).spec_avail(q),
    {
        self.strategy = strategy;
    }

    /// Pick at most one piece to request from a peer.
    ///
    /// Outside endgame the piece returned is one we lack, the peer has and
    /// that is not pending, chosen by the strategy: rarest-first returns a
    /// candidate of minimal availability, sequential the lowest index, and
    /// random any candidate; the result is `None` exactly when no candidate
    /// exists.  In endgame a missing piece the peer has is preferred, and
    /// failing that any pending piece we lack is returned, so requests may
    /// be duplicated across peers.
    pub fn select_piece(
        &self,
        our_bitfield: &Bitfield,
        peer_bitfield: &Bitfield,
        pending_pieces: &[usize],
    ) -> (r: Option<usize>)
        requires
            self.wf(),
            our_bitfield.wf(),
            peer_bitfield.wf(),
        ensures
            self.spec_strategy() != SelectionStrategy::Endgame ==> match r {
                Some(i) => is_candidate(*our_bitfield, *peer_bitfield, pending_pieces@, i as int)
                    && (self.spec_strategy() == SelectionStrategy::RarestFirst ==> forall|j: int|
                    is_candidate(*our_bitfield, *peer_bitfield, pending_pieces@, j)
                        ==> self.spec_avail(i as int) <= #[trigger] self.spec_avail(j)) && (
                self.spec_strategy() == SelectionStrategy::Sequential ==> forall|j: int|
                    is_candidate(*our_bitfield, *peer_bitfield, pending_pieces@, j) ==> i <= j),
                None => forall|j: int|
                    !is_candidate(*our_bitfield, *peer_bitfield, pending_pieces@, j),
            },
            self.spec_strategy() == SelectionStrategy::Endgame ==> match r {
                Some(i) => !our_bitfield.spec_has(i as int) && (peer_bitfield.spec_has(i as int)
                    || in_pending(pending_pieces@, i as int)),
                None => (forall|j: int|
                    !(0 <= j < our_bitfield.spec_num_pieces() && !our_bitfield.spec_has(j)
                        && peer_bitfield.spec_has(j))) && (forall|k: int|
                    0 <= k < pending_pieces@.len() ==> our_bitfield.spec_has(
                        #[trigger] pending_pieces@[k] as int,
                    )),
            },
    {
        let wanted = our_bitfield.pieces_to_request(peer_bitfield);
        proof {
            our_bitfield.lemma_num_pieces_bound();
            our_bitfield.lemma_indices_where(
                Some(*peer_bitfield),
                2,
                our_bitfield.spec_num_pieces(),
            );
            assert forall|i: int| 0 <= i < our_bitfield.spec_num_pieces()
                && !our_bitfield.spec_has(i) && peer_bitfield.spec_has(i) implies wanted@.contains(
                i as usize,
            ) by {
                assert(our_bitfield.index_matches(Some(*peer_bitfield), 2, i));
            }
        }
        match self.strategy {
            SelectionStrategy::Endgame => {
                if wanted.len() > 0 {
                    return Some(wanted[0]);
                }
                let np = pending_pieces.len();
                let mut k: usize = 0;
                while k < np
                    invariant
                        self.spec_strategy() == SelectionStrategy::Endgame,
                        our_bitfield.wf(),
                        k <= np == pending_pieces@.len(),
                        forall|j: int| 0 <= j < k ==> our_bitfield.spec_has(
                            #[trigger] pending_pieces@[j] as int,
                        ),
                    decreases np - k,
                {
                    let p = pending_pieces[k];
                    if !our_bitfield.has_piece(p) {
                        return Some(p);
                    }
                    k = k + 1;
                }
                proof {
                    assert forall|j: int| !(0 <= j < our_bitfield.spec_num_pieces()
                        && !our_bitfield.spec_has(j) && peer_bitfield.spec_has(j)) by {
                        if 0 <= j < our_bitfield.spec_num_pieces() && !our_bitfield.spec_has(j)
                            && peer_bitfield.spec_has(j) {
                            assert(wanted@.contains(j as usize));
                        }
                    }
                }
                None
            },
            _ => {
                // Candidates: pieces the peer has, we lack, and that are not
                // already in flight.
                let nw = wanted.len();
                let mut cands: Vec<usize> = Vec::new();
                let mut k: usize = 0;
                while k < nw
                    invariant
                        our_bitfield.wf(),
                        peer_bitfield.wf(),
                        k <= nw == wanted@.len(),
                        forall|j: int| 0 <= j < wanted@.len() ==> {
                            let w = #[trigger] wanted@[j];
                            0 <= w < our_bitfield.spec_num_pieces() && !our_bitfield.spec_has(
                                w as int,
                            ) && peer_bitfield.spec_has(w as int)
                        },
                        forall|i: int| 0 <= i < our_bitfield.spec_num_pieces()
                            && !our_bitfield.spec_has(i) && peer_bitfield.spec_has(i)
                            ==> wanted@.contains(i as usize),
                        forall|c: int| 0 <= c < cands@.len() ==> is_candidate(
                            *our_bitfield,
                            *peer_bitfield,
                            pending_pieces@,
                            #[trigger] cands@[c] as int,
                        ),
                        forall|j: int| 0 <= j < k && !in_pending(
                            pending_pieces@,
                            #[trigger] wanted@[j] as int,
                        ) ==> cands@.contains(wanted@[j]),
                    decreases nw - k,
                {
                    let w = wanted[k];
                    let ghost pre = cands@;
                    if !contains_piece(pending_pieces, w) {
                        cands.push(w);
                        proof {
                            assert(cands@[pre.len() as int] == w);
                            assert forall|j: int| 0 <= j < k + 1 && !in_pending(
                                pending_pieces@,
                                #[trigger] wanted@[j] as int,
                            ) implies cands@.contains(wanted@[j]) by {
                                if j < k {
                                    let d = choose|d: int|
                                        0 <= d < pre.len() && pre[d] == wanted@[j];
                                    assert(cands@[d] == wanted@[j]);
                                } else {
                                    assert(cands@[pre.len() as int] == wanted@[j]);
                                }
                            }
                        }
                    } else {
                        proof {
                            assert forall|j: int| 0 <= j < k + 1 && !in_pending(
                                pending_pieces@,
                                #[trigger] wanted@[j] as int,
                            ) implies cands@.contains(wanted@[j]) by {
                                assert(j < k);
                            }
                        }
                    }
                    k = k + 1;
                }
                proof {
                    assert forall|j: int| cands@.len() == 0 implies !is_candidate(
                        *our_bitfield,
                        *peer_bitfield,
                        pending_pieces@,
                        j,
                    ) by {
                        if is_candidate(*our_bitfield, *peer_bitfield, pending_pieces@, j) {
                            assert(wanted@.contains(j as usize));
                            let wk = choose|wk: int|
                                0 <= wk < wanted@.len() && wanted@[wk] == j as usize;
                            assert(cands@.contains(wanted@[wk]));
                        }
                    }
                }
                if cands.len() == 0 {
                    return None;
                }
                match self.strategy {
                    SelectionStrategy::RarestFirst => {
                        let mut best = cands[0];
                        let mut best_avail = self.get_availability(best);
                        let nc = cands.len();
                        let mut c: usize = 1;
                        while c < nc
                            invariant
                                self.spec_strategy() == SelectionStrategy::RarestFirst,
                                self.wf(),
                                our_bitfield.wf(),
                                peer_bitfield.wf(),
                                1 <= c <= nc == cands@.len(),
                                best_avail == self.spec_avail(best as int),
                                is_candidate(
                                    *our_bitfield,
                                    *peer_bitfield,
                                    pending_pieces@,
                                    best as int,
                                ),
                                forall|d: int| 0 <= d < cands@.len() ==> is_candidate(
                                    *our_bitfield,
                                    *peer_bitfield,
                                    pending_pieces@,
                                    #[trigger] cands@[d] as int,
                                ),
                                forall|d: int| 0 <= d < c ==> self.spec_avail(best as int)
                                    <= self.spec_avail(#[trigger] cands@[d] as int),
                                forall|j: int| is_candidate(
                                    *our_bitfield,
                                    *peer_bitfield,
                                    pending_pieces@,
                                    j,
                                ) ==> cands@.contains(j as usize),
                            decreases nc - c,
                        {
                            let cv = cands[c];
                            let av = self.get_availability(cv);
                            if av < best_avail {
                                best = cv;
                                best_avail = av;
                            }
                            c = c + 1;
                        }
                        proof {
                            assert forall|j: int| is_candidate(
                                *our_bitfield,
                                *peer_bitfield,
                                pending_pieces@,
                                j,
                            ) implies self.spec_avail(best as int) <= self.spec_avail(j) by {
                                assert(cands@.contains(j as usize));
                                let d = choose|d: int|
                                    0 <= d < cands@.len() && cands@[d] == j as usize;
                                assert(self.spec_avail(best as int) <= self.spec_avail(
                                    cands@[d] as int,
                                ));
                            }
                        }
                        Some(best)
                    },
                    SelectionStrategy::Sequential => {
                        let mut best = cands[0];
                        let nc = cands.len();
                        let mut c: usize = 1;
                        while c < nc
                            invariant
                                self.spec_strategy() == SelectionStrategy::Sequential,
                                our_bitfield.wf(),
                                peer_bitfield.wf(),
                                1 <= c <= nc == cands@.len(),
                                is_candidate(
                                    *our_bitfield,
                                    *peer_bitfield,
                                    pending_pieces@,
                                    best as int,
                                ),
                                forall|d: int| 0 <= d < cands@.len() ==> is_candidate(
                                    *our_bitfield,
                                    *peer_bitfield,
                                    pending_pieces@,
                                    #[trigger] cands@[d] as int,
                                ),
                                forall|d: int| 0 <= d < c ==> best <= #[trigger] cands@[d],
                                forall|j: int| is_candidate(
                                    *our_bitfield,
                                    *peer_bitfield,
                                    pending_pieces@,
                                    j,
                                ) ==> cands@.contains(j as usize),
                            decreases nc - c,
                        {
                            let cv = cands[c];
                            if cv < best {
                                best = cv;
                            }
                            c = c + 1;
                        }
                        proof {
                            assert forall|j: int| is_candidate(
                                *our_bitfield,
                                *peer_bitfield,
                                pending_pieces@,
                                j,
                            ) implies best <= j by {
                                assert(cands@.contains(j as usize));
                                let d = choose|d: int|
                                    0 <= d < cands@.len() && cands@[d] == j as usize;
                                assert(best <= cands@[d]);
                            }
                        }
                        Some(best)
                    },
                    SelectionStrategy::Random => {
                        let pick = rand_below(cands.len());
                        Some(cands[pick])
                    },
                    SelectionStrategy::Endgame => Some(cands[0]),
                }
            },
        }
    }

    /// Whether endgame should start: fewer than ten pieces missing, or less
    /// than five percent of the torrent.
    pub fn should_enter_endgame(&self, our_bitfield: &Bitfield) -> (r: bool)
        requires
            our_bitfield.wf(),
        ensures
            r == {
                let missing = our_bitfield.spec_num_pieces() - our_bitfield.spec_count();
                missing < 10 || 20 * missing < our_bitfield.spec_num_pieces()
            },
    {
        let total = our_bitfield.num_pieces();
        let have = our_bitfield.count_pieces();
        proof {
            our_bitfield.lemma_count_bounds(our_bitfield.spec_num_pieces());
        }
        let missing = total - have;
        missing < 10 || (missing as u128) * 20 < total as u128
    }
}

/// Whether `piece` occurs in `pending`.
fn contains_piece(pending: &[usize], piece: usize) -> (r: bool)
    ensures
        r == in_pending(pending@, piece as int),
{
    let n = pending.len();
    let mut k: usize = 0;
    while k < n
        invariant
            k <= n == pending@.len(),
            forall|j: int| 0 <= j < k ==> pending@[j] != piece,
        decreases n - k,
    {
        if pending[k] == piece {
            return true;
        }
        k = k + 1;
    }
    false
}

/// Updating the count stored at a found key changes that key alone.
proof fn lemma_assoc_update(
    orig: Seq<(usize, usize)>,
    now: Seq<(usize, usize)>,
    k: int,
    key: int,
    v: int,
)
    requires
        0 <= k < orig.len(),
        0 <= key <= usize::MAX,
        0 <= v <= usize::MAX,
        now == orig.update(k, ((key as usize), (v as usize))),
        orig[k].0 == key,
        assoc_unique(orig),
        forall|j: int| 0 <= j < k ==> (#[trigger] orig[j]).0 != key,
    ensures
        assoc_unique(now),
        assoc_count(now, key) == v,
        forall|q: int| q != key ==> assoc_count(now, q) == assoc_count(orig, q),
    decreases orig.len(),
{
    if k == 0 {
        assert(now[0].0 == key);
        assert(now.drop_first() =~= orig.drop_first());
        assert(assoc_count(now, key) == v);
        assert forall|q: int| q != key implies assoc_count(now, q) == assoc_count(orig, q) by {
            assert(assoc_count(now, q) == assoc_count(now.drop_first(), q));
            assert(assoc_count(orig, q) == assoc_count(orig.drop_first(), q));
        }
        assert forall|i: int, j: int| 0 <= i < j < now.len() implies (#[trigger] now[i]).0 != (
        #[trigger] now[j]).0 by {
            if i > 0 {
                assert(now[i] == orig[i]);
            }
            assert(now[j] == orig[j]);
            assert(now[0].0 == orig[0].0);
        }
    } else {
        assert(now.drop_first() =~= orig.drop_first().update(k - 1, ((key as usize), (v as usize))));
        lemma_assoc_update(orig.drop_first(), now.drop_first(), k - 1, key, v);
        assert(now[0] == orig[0]);
        assert(orig[0].0 != key);
        assert forall|q: int| q != key implies assoc_count(now, q) == assoc_count(orig, q) by {
            if now[0].0 == q {
            } else {
                assert(assoc_count(now, q) == assoc_count(now.drop_first(), q));
                assert(assoc_count(orig, q) == assoc_count(orig.drop_first(), q));
            }
        }
        assert(assoc_count(now, key) == assoc_count(now.drop_first(), key));
        assert forall|i: int, j: int| 0 <= i < j < now.len() implies (#[trigger] now[i]).0 != (
        #[trigger] now[j]).0 by {
            if i > 0 {
                assert(now.drop_first()[i - 1] == now[i]);
                assert(now.drop_first()[j - 1] == now[j]);
            } else {
                assert(now[0] == orig[0]);
                if j == k {
                    assert(now[j].0 == key);
                } else {
                    assert(now[j] == orig[j]);
                }
            }
        }
    }
}

/// When no entry holds the key, the count is zero.
proof fn lemma_assoc_absent(s: Seq<(usize, usize)>, key: int)
    requires
        forall|j: int| 0 <= j < s.len() ==> (#[trigger] s[j]).0 != key,
    ensures
        assoc_count(s, key) == 0,
    decreases s.len(),
{
    if s.len() > 0 {
        lemma_assoc_absent(s.drop_first(), key);
    }
}

/// The count at a found key, when no earlier entry holds it.
proof fn lemma_assoc_found(s: Seq<(usize, usize)>, k: int, key: int)
    requires
        0 <= k < s.len(),
        s[k].0 == key,
        forall|j: int| 0 <= j < k ==> (#[trigger] s[j]).0 != key,
    ensures
        assoc_count(s, key) == s[k].1 as int,
    decreases k,
{
    if k > 0 {
        lemma_assoc_found(s.drop_first(), k - 1, key);
    }
}

/// Appending a fresh key adds its count and keeps every other count.
proof fn lemma_assoc_push(s: Seq<(usize, usize)>, key: int, v: int)
    requires
        forall|j: int| 0 <= j < s.len() ==> (#[trigger] s[j]).0 != key,
        0 <= key <= usize::MAX,
        0 <= v <= usize::MAX,
        assoc_unique(s),
    ensures
        assoc_unique(s.push(((key as usize), (v as usize)))),
        assoc_count(s.push(((key as usize), (v as usize))), key) == v,
        forall|q: int| q != key ==> assoc_count(s.push(((key as usize), (v as usize))), q)
            == assoc_count(s, q),
    decreases s.len(),
{
    let appended = s.push(((key as usize), (v as usize)));
    assert(appended[s.len() as int].0 == key);
    assert forall|i: int, j: int| 0 <= i < j < appended.len() implies (#[trigger] appended[i]).0
        != (#[trigger] appended[j]).0 by {
        if j < s.len() {
            assert(appended[i] == s[i] && appended[j] == s[j]);
        } else {
            assert(appended[i] == s[i]);
            assert(appended[j].0 == key);
        }
    }
    if s.len() == 0 {
        assert(appended.drop_first() =~= Seq::<(usize, usize)>::empty());
        assert forall|q: int| q != key implies assoc_count(appended, q) == assoc_count(s, q) by {
            assert(assoc_count(appended, q) == assoc_count(appended.drop_first(), q));
        }
    } else {
        lemma_assoc_push(s.drop_first(), key, v);
        assert(appended.drop_first() =~= s.drop_first().push(((key as usize), (v as usize))));
        assert(appended[0] == s[0]);
        assert forall|q: int| q != key implies assoc_count(appended, q) == assoc_count(s, q) by {
            if appended[0].0 == q {
            } else {
                assert(assoc_count(appended, q) == assoc_count(appended.drop_first(), q));
                assert(assoc_count(s, q) == assoc_count(s.drop_first(), q));
            }
        }
        assert(assoc_count(appended, key) == assoc_count(appended.drop_first(), key));
    }
}

} // verus!
