//! The pure state of one peer session: the four choke/interest flags, the
//! peer's bitfield, the pending block requests with their issue times, and
//! the transfer counters.  The host performs the socket I/O and feeds every
//! received frame through `on_frame`, which decides what changed and what
//! to do next.

use vstd::prelude::*;

verus! {

use crate::bitfield::Bitfield;
use crate::error::Error;
use crate::message::{be32, Message, payload_ok};
use crate::piece::BlockInfo;

/// Most block requests allowed in flight per peer.
pub const MAX_PENDING_REQUESTS: usize = 5;

/// Block requests not answered within this many milliseconds time out.
pub const REQUEST_TIMEOUT_MS: u64 = 30000;

/// An idle session sends a keep-alive after this many milliseconds.
pub const KEEP_ALIVE_INTERVAL_MS: u64 = 120000;

/// What a received frame means for the caller.
#[derive(Debug, PartialEq, Eq)]
pub enum FrameOutcome {
    /// Nothing to do beyond the state change.
    Quiet,
    /// The frame carried an id this engine does not know; it is skipped,
    /// the session stays up.
    Ignored,
    /// The peer stopped choking us: request blocks now.
    Unchoked,
    /// The peer announced a piece.
    PeerHasPiece { piece_index: u32 },
    /// The peer sent its bitfield.
    GotBitfield,
    /// The peer asked for a block; serve it if `may_serve` allows.
    BlockRequested { index: u32, begin: u32, length: u32 },
    /// A block arrived that this session was waiting for.
    BlockArrived { index: u32, begin: u32 },
    /// A block arrived that was never requested; it is dropped.
    UnrequestedBlock,
    /// The peer withdrew a request.
    RequestCancelled { index: u32, begin: u32, length: u32 },
}

/// The protocol state of one peer connection.
pub struct PeerSessionState {
    /// We refuse to serve this peer.  Initially set.
    pub am_choking: bool,
    /// We want pieces this peer has.  Initially clear.
    pub am_interested: bool,
    /// The peer refuses to serve us.  Initially set.
    pub peer_choking: bool,
    /// The peer wants pieces we have.  Initially clear.
    pub peer_interested: bool,
    /// The peer's bitfield, once its BITFIELD message arrived.
    pub peer_bitfield: Option<Bitfield>,
    /// In-flight block requests with their issue times; kept free of
    /// duplicates.
    pub pending: Vec<(BlockInfo, u64)>,
    /// Bytes of requested blocks this peer delivered.
    pub downloaded_bytes: u64,
    /// Bytes served to this peer.
    pub uploaded_bytes: u64,
    /// When the session last sent or received, milliseconds.
    pub last_activity: u64,
}

impl PeerSessionState {
    /// No block is pending twice — distinct entries name distinct blocks —
    /// and the stored peer bitfield, when present, is well formed.
    pub closed spec fn wf(self) -> bool {
        &&& forall|i: int, j: int| 0 <= i < j < self.pending@.len() ==> (
        #[trigger] self.pending@[i]).0 != (#[trigger] self.pending@[j]).0
        &&& match self.peer_bitfield {
            Some(bf) => bf.wf(),
            None => true,
        }
    }

    /// The pending requests with their issue times.
    pub closed spec fn spec_pending(self) -> Seq<(BlockInfo, u64)> {
        self.pending@
    }

    /// A block is pending.
    pub open spec fn spec_pending_has(self, b: BlockInfo) -> bool {
        exists|i: int| 0 <= i < self.spec_pending().len() && (#[trigger] self.spec_pending()[i]).0
            == b
    }

    /// The peer's bitfield, once received.
    pub closed spec fn spec_peer_bitfield(self) -> Option<Bitfield> {
        self.peer_bitfield
    }

    /// A fresh session at time `now`: we choke and are not interested, the
    /// peer likewise, nothing pending.
    pub fn new(now: u64) -> (r: PeerSessionState)
        ensures
            r.wf(),
            r.am_choking,
            !r.am_interested,
            r.peer_choking,
            !r.peer_interested,
            r.spec_peer_bitfield() is None,
            r.spec_pending().len() == 0,
            r.downloaded_bytes == 0,
            r.uploaded_bytes == 0,
            r.last_activity == now,
    {
        PeerSessionState {
            am_choking: true,
            am_interested: false,
            peer_choking: true,
            peer_interested: false,
            peer_bitfield: None,
            pending: Vec::new(),
            downloaded_bytes: 0,
            uploaded_bytes: 0,
            last_activity: now,
        }
    }

    /// Whether we may ask for one more block: the peer serves us and the
    /// pipeline is not full.
    pub fn can_request(&self) -> (r: bool)
        ensures
            r == (!self.peer_choking && self.spec_pending().len() < MAX_PENDING_REQUESTS),
    {
        !self.peer_choking && self.pending.len() < MAX_PENDING_REQUESTS
    }

    /// Whether we may serve this peer's requests.
    pub fn may_serve(&self) -> (r: bool)
        ensures
            r == (!self.am_choking && self.peer_interested),
    {
        !self.am_choking && self.peer_interested
    }

    /// Note that a request for `block` went out at `now`.  A block already
    /// pending is not added again, so the pending map never holds the same
    /// block twice.
    pub fn add_pending_request(&mut self, block: BlockInfo, now: u64)
        requires
            old(self).wf(),
        ensures
            final(self).wf(),
            final(self).spec_pending_has(block),
            forall|b: BlockInfo| b != block ==> #[trigger] final(self).spec_pending_has(b) == old(
                self,
            ).spec_pending_has(b),
            unchanged_flags(*old(self), *final(self)),
    {
        let n = self.pending.len();
        let mut i: usize = 0;
        while i < n
            invariant
                n == self.pending@.len(),
                i <= n,
                self == old(self),
                old(self).wf(),
                forall|j: int| 0 <= j < i ==> (#[trigger] self.pending@[j]).0 != block,
            decreases n - i,
        {
            if block_eq(&self.pending[i].0, &block) {
                proof {
                    assert(old(self).spec_pending()[i as int].0 == block);
                    assert(old(self).spec_pending_has(block));
                }
                return;
            }
            i = i + 1;
        }
        let ghost prev = self.pending@;
        self.pending.push((block, now));
        proof {
            assert(self.spec_pending()[prev.len() as int].0 == block);
            assert forall|i2: int, j2: int| 0 <= i2 < j2 < self.pending@.len() implies (
            #[trigger] self.pending@[i2]).0 != (#[trigger] self.pending@[j2]).0 by {
                assert(self.pending@[i2] == prev[i2]);
                if j2 < prev.len() {
                    assert(self.pending@[j2] == prev[j2]);
                } else {
                    assert(self.pending@[j2].0 == block);
                }
            }
            assert forall|b: BlockInfo| b != block implies #[trigger] self.spec_pending_has(b)
                == old(self).spec_pending_has(b) by {
                if old(self).spec_pending_has(b) {
                    let w = choose|w: int|
                        0 <= w < old(self).spec_pending().len() && old(self).spec_pending()[w].0
                            == b;
                    assert(self.spec_pending()[w].0 == b);
                }
                if self.spec_pending_has(b) {
                    let w = choose|w: int|
                        0 <= w < self.spec_pending().len() && self.spec_pending()[w].0 == b;
                    assert(w < prev.len());
                    assert(old(self).spec_pending()[w].0 == b);
                }
            }
        }
    }

    /// Drop the pending entry for `block`; whether one existed.
    pub fn remove_pending_request(&mut self, block: &BlockInfo) -> (r: bool)
        requires
            old(self).wf(),
        ensures
            final(self).wf(),
            r == old(self).spec_pending_has(*block),
            !final(self).spec_pending_has(*block),
            forall|b: BlockInfo| b != *block ==> #[trigger] final(self).spec_pending_has(b) == old(
                self,
            ).spec_pending_has(b),
            unchanged_flags(*old(self), *final(self)),
    {
        let n = self.pending.len();
        let mut i: usize = 0;
        while i < n
            invariant
                n == self.pending@.len(),
                i <= n,
                self == old(self),
                old(self).wf(),
                forall|j: int| 0 <= j < i ==> (#[trigger] self.pending@[j]).0 != *block,
            decreases n - i,
        {
            if block_eq(&self.pending[i].0, block) {
                let ghost prev = self.pending@;
                self.pending.remove(i);
                proof {
                    assert(self.pending@ == prev.remove(i as int));
                    assert forall|i2: int, j2: int| 0 <= i2 < j2 < self.pending@.len() implies (
                    #[trigger] self.pending@[i2]).0 != (#[trigger] self.pending@[j2]).0 by {
                        lemma_remove_index(prev, i as int, i2);
                        lemma_remove_index(prev, i as int, j2);
                    }
                    assert(old(self).spec_pending()[i as int].0 == *block);
                    assert(old(self).spec_pending_has(*block));
                    assert forall|b: BlockInfo| #[trigger] self.spec_pending_has(b)
                        implies old(self).spec_pending_has(b) && b != *block by {
                        let w = choose|w: int|
                            0 <= w < self.spec_pending().len() && self.spec_pending()[w].0 == b;
                        lemma_remove_index(prev, i as int, w);
                        if w < i {
                            assert(old(self).spec_pending()[w].0 == b);
                        } else {
                            assert(old(self).spec_pending()[w + 1].0 == b);
                        }
                    }
                    assert forall|b: BlockInfo| b != *block && old(self).spec_pending_has(b)
                        implies #[trigger] self.spec_pending_has(b) by {
                        let w = choose|w: int|
                            0 <= w < old(self).spec_pending().len() && old(
                                self,
                            ).spec_pending()[w].0 == b;
                        lemma_remove_index(prev, i as int, if w < i {
                            w
                        } else {
                            w - 1
                        });
                        if w < i {
                            assert(self.spec_pending()[w].0 == b);
                        } else {
                            assert(w > i);
                            assert(self.spec_pending()[w - 1].0 == b);
                        }
                    }
                }
                return true;
            }
            i = i + 1;
        }
        proof {
            if old(self).spec_pending_has(*block) {
                let w = choose|w: int|
                    0 <= w < old(self).spec_pending().len() && old(self).spec_pending()[w].0
                        == *block;
                assert(self.pending@[w].0 != *block);
            }
        }
        false
    }

    /// The blocks whose requests were issued more than the timeout before
    /// `now`, in pending order.
    pub fn get_timed_out_requests(&self, now: u64) -> (r: Vec<BlockInfo>)
        requires
            self.wf(),
        ensures
            r@ == spec_timed_out(self.spec_pending(), now, self.spec_pending().len() as int),
    {
        let n = self.pending.len();
        let mut out: Vec<BlockInfo> = Vec::new();
        let mut i: usize = 0;
        while i < n
            invariant
                self.wf(),
                n == self.pending@.len(),
                i <= n,
                out@ == spec_timed_out(self.spec_pending(), now, i as int),
            decreases n - i,
        {
            let ghost pre = out@;
            let entry_time = self.pending[i].1;
            if now >= entry_time && now - entry_time > REQUEST_TIMEOUT_MS {
                out.push(self.pending[i].0);
                proof {
                    assert(out@ =~= spec_timed_out(self.spec_pending(), now, i + 1));
                }
            } else {
                proof {
                    assert(out@ =~= spec_timed_out(self.spec_pending(), now, i + 1));
                }
            }
            i = i + 1;
        }
        out
    }

    /// Whether the idle timer calls for a keep-alive at `now`.
    pub fn needs_keep_alive(&self, now: u64) -> (r: bool)
        ensures
            r == (now >= self.last_activity && now - self.last_activity
                > KEEP_ALIVE_INTERVAL_MS),
    {
        now >= self.last_activity && now - self.last_activity > KEEP_ALIVE_INTERVAL_MS
    }

    /// The peer's bitfield, once received.
    pub fn peer_bitfield(&self) -> (r: &Option<Bitfield>)
        ensures
            r == self.spec_peer_bitfield(),
    {
        &self.peer_bitfield
    }

    /// Feed one received frame body (id and payload, no length prefix)
    /// through the session state machine at time `now`.
    ///
    /// An unknown message id is skipped: the session state is unchanged but
    /// for the activity clock, the outcome is `Ignored`, and no error is
    /// returned, so the connection survives newer peers.  A malformed known
    /// message is an error.  Flag messages flip their flag; HAVE sets the
    /// bit in the peer's bitfield; BITFIELD installs it; a PIECE frame is
    /// matched against the pending map and cleared from it.
    #[verifier::spinoff_prover]
    #[verifier::rlimit(100)]
    pub fn on_frame(&mut self, frame: &[u8], num_pieces: usize, now: u64) -> (r: Result<
        FrameOutcome,
        Error,
    >)
        requires
            old(self).wf(),
            num_pieces <= usize::MAX - 7,
        ensures
            final(self).wf(),
            final(self).last_activity == now,
            frame@.len() > 0 && frame@[0] > 8 ==> (r matches Ok(o) && o == FrameOutcome::Ignored
                && flags_pending_bitfield_unchanged(*old(self), *final(self))),
            r is Err ==> frame@.len() > 0 && frame@[0] <= 8 && (!payload_ok(frame@) || frame@[0]
                == 5),
            frame@.len() == 0 ==> (r matches Ok(o) && o == FrameOutcome::Quiet
                && flags_pending_bitfield_unchanged(*old(self), *final(self))),
            frame@.len() == 1 && frame@[0] <= 3 ==> {
                &&& flag_frame_effect(frame@[0], *old(self), *final(self))
                &&& (frame@[0] == 1 ==> (r matches Ok(o) && o == FrameOutcome::Unchoked))
                &&& (frame@[0] != 1 ==> (r matches Ok(o) && o == FrameOutcome::Quiet))
            },
            frame@.len() == 5 && frame@[0] == 4 ==> {
                let idx = be32(frame@[1], frame@[2], frame@[3], frame@[4]);
                &&& r matches Ok(o) && o == (FrameOutcome::PeerHasPiece { piece_index: idx })
                &&& final(self).spec_pending() == old(self).spec_pending()
                &&& (match (old(self).peer_bitfield, final(self).peer_bitfield) {
                    (Some(ob), Some(nb)) => idx < usize::MAX - 7 ==> forall|j: int|
                        #[trigger] nb.spec_has(j) <==> (ob.spec_has(j) || (j == idx
                            && idx < ob.spec_num_pieces())),
                    (None, None) => true,
                    _ => false,
                })
            },
            frame@.len() >= 1 && frame@[0] == 5 && frame@.len() - 1 >= (num_pieces + 7) / 8 ==> {
                &&& r matches Ok(o) && o == FrameOutcome::GotBitfield
                &&& final(self).peer_bitfield matches Some(nb) && nb.spec_num_pieces()
                    == num_pieces && (forall|i: int| #[trigger] nb.spec_has(i) <==> (0 <= i
                    < num_pieces && crate::bitfield::nth_bit(
                    frame@[1 + i / 8],
                    (7 - i % 8) as u8,
                )))
            },
            frame@.len() == 13 && frame@[0] == 6 ==> (r matches Ok(o) && o == (
            FrameOutcome::BlockRequested {
                index: be32(frame@[1], frame@[2], frame@[3], frame@[4]),
                begin: be32(frame@[5], frame@[6], frame@[7], frame@[8]),
                length: be32(frame@[9], frame@[10], frame@[11], frame@[12]),
            }) && flags_pending_bitfield_unchanged(*old(self), *final(self))),
            frame@.len() >= 9 && frame@[0] == 7 ==> {
                let block = BlockInfo {
                    piece_index: be32(frame@[1], frame@[2], frame@[3], frame@[4]) as usize,
                    offset: be32(frame@[5], frame@[6], frame@[7], frame@[8]) as usize,
                    length: (frame@.len() - 9) as usize,
                };
                &&& !final(self).spec_pending_has(block)
                &&& (old(self).spec_pending_has(block) ==> (r matches Ok(o) && o == (
                FrameOutcome::BlockArrived {
                    index: be32(frame@[1], frame@[2], frame@[3], frame@[4]),
                    begin: be32(frame@[5], frame@[6], frame@[7], frame@[8]),
                })))
                &&& (!old(self).spec_pending_has(block) ==> (r matches Ok(o) && o
                    == FrameOutcome::UnrequestedBlock
                    && final(self).downloaded_bytes == old(self).downloaded_bytes))
                &&& forall|b: BlockInfo| b != block ==> #[trigger] final(self).spec_pending_has(b)
                    == old(self).spec_pending_has(b)
            },
            frame@.len() == 13 && frame@[0] == 8 ==> (r matches Ok(o) && o == (
            FrameOutcome::RequestCancelled {
                index: be32(frame@[1], frame@[2], frame@[3], frame@[4]),
                begin: be32(frame@[5], frame@[6], frame@[7], frame@[8]),
                length: be32(frame@[9], frame@[10], frame@[11], frame@[12]),
            }) && flags_pending_bitfield_unchanged(*old(self), *final(self))),
    {
        self.last_activity = now;
        if frame.len() > 0 && frame[0] > 8 {
            return Ok(FrameOutcome::Ignored);
        }
        let msg = match Message::from_bytes(frame) {
            Ok(m) => m,
            Err(e) => {
                return Err(e);
            },
        };
        match msg {
            Message::KeepAlive => Ok(FrameOutcome::Quiet),
            Message::Choke => {
                self.peer_choking = true;
                Ok(FrameOutcome::Quiet)
            },
            Message::Unchoke => {
                self.peer_choking = false;
                Ok(FrameOutcome::Unchoked)
            },
            Message::Interested => {
                self.peer_interested = true;
                Ok(FrameOutcome::Quiet)
            },
            Message::NotInterested => {
                self.peer_interested = false;
                Ok(FrameOutcome::Quiet)
            },
            Message::Have { piece_index } => {
                proof {
                    crate::message::lemma_be32_round_trip(piece_index);
                    let ub = crate::message::u32_bytes(piece_index);
                    assert(frame@[1] == ub[0] && frame@[2] == ub[1] && frame@[3] == ub[2]
                        && frame@[4] == ub[3]);
                    assert(be32(frame@[1], frame@[2], frame@[3], frame@[4]) == piece_index);
                }
                let idx = piece_index as usize;
                match &mut self.peer_bitfield {
                    Some(bf) => {
                        if idx < usize::MAX - 7 {
                            bf.set_piece(idx);
                        }
                    },
                    None => {},
                }
                Ok(FrameOutcome::PeerHasPiece { piece_index })
            },
            Message::Bitfield { bitfield } => {
                proof {
                    assert forall|j: int| 0 <= j < bitfield@.len() implies #[trigger] bitfield@[j]
                        == frame@[1 + j] by {
                        assert(frame@[1 + j] == (seq![5u8] + bitfield@)[1 + j]);
                    }
                }
                if bitfield.len() < (num_pieces + 7) / 8 {
                    return Err(Error::InvalidData(
                        <String as vstd::string::StringExecFns>::from_str("bitfield too short"),
                    ));
                }
                self.peer_bitfield = Some(Bitfield::from_bytes(bitfield, num_pieces));
                Ok(FrameOutcome::GotBitfield)
            },
            Message::Request { index, begin, length } => {
                proof {
                    lemma_frame_triple(frame@, index, begin, length);
                }
                Ok(FrameOutcome::BlockRequested { index, begin, length })
            },
            Message::Piece { index, begin, data } => {
                proof {
                    crate::message::lemma_be32_round_trip(index);
                    crate::message::lemma_be32_round_trip(begin);
                    let ui = crate::message::u32_bytes(index);
                    let ub = crate::message::u32_bytes(begin);
                    assert(frame@[1] == ui[0] && frame@[2] == ui[1] && frame@[3] == ui[2]
                        && frame@[4] == ui[3]);
                    assert(frame@[5] == ub[0] && frame@[6] == ub[1] && frame@[7] == ub[2]
                        && frame@[8] == ub[3]);
                    assert(be32(frame@[1], frame@[2], frame@[3], frame@[4]) == index);
                    assert(be32(frame@[5], frame@[6], frame@[7], frame@[8]) == begin);
                    assert(frame@.len() == 9 + data@.len());
                }
                let block = BlockInfo {
                    piece_index: index as usize,
                    offset: begin as usize,
                    length: data.len(),
                };
                let ghost mid = *self;
                let was_pending = self.remove_pending_request(&block);
                let ghost post_rm = *self;
                let outcome = if was_pending {
                    if data.len() as u64 <= u64::MAX - self.downloaded_bytes {
                        self.downloaded_bytes = self.downloaded_bytes + data.len() as u64;
                    }
                    FrameOutcome::BlockArrived { index, begin }
                } else {
                    FrameOutcome::UnrequestedBlock
                };
                proof {
                    lemma_pending_same(mid, *old(self), block);
                    lemma_pending_same(*self, post_rm, block);
                    assert forall|b: BlockInfo| b != block implies #[trigger] self.spec_pending_has(
                        b,
                    ) == old(self).spec_pending_has(b) by {
                        lemma_pending_same(mid, *old(self), b);
                        lemma_pending_same(*self, post_rm, b);
                    }
                }
                Ok(outcome)
            },
            Message::Cancel { index, begin, length } => {
                proof {
                    lemma_frame_triple(frame@, index, begin, length);
                }
                Ok(FrameOutcome::RequestCancelled { index, begin, length })
            },
        }
    }
}

/// The blocks among the first `n` pending entries whose requests, issued
/// at the recorded time, are older than the timeout at `now`.
pub open spec fn spec_timed_out(pending: Seq<(BlockInfo, u64)>, now: u64, n: int) -> Seq<BlockInfo>
    decreases n,
{
    if n <= 0 {
        Seq::empty()
    } else {
        spec_timed_out(pending, now, n - 1) + if now >= pending[n - 1].1 && now - pending[n
            - 1].1 > REQUEST_TIMEOUT_MS {
            seq![pending[n - 1].0]
        } else {
            Seq::empty()
        }
    }
}

/// What one of the four flag messages does: its flag flips, everything
/// else stays.
pub open spec fn flag_frame_effect(id: u8, a: PeerSessionState, b: PeerSessionState) -> bool {
    &&& b.peer_choking == if id == 0 {
        true
    } else if id == 1 {
        false
    } else {
        a.peer_choking
    }
    &&& b.peer_interested == if id == 2 {
        true
    } else if id == 3 {
        false
    } else {
        a.peer_interested
    }
    &&& b.am_choking == a.am_choking
    &&& b.am_interested == a.am_interested
    &&& b.spec_pending() == a.spec_pending()
    &&& b.spec_peer_bitfield() == a.spec_peer_bitfield()
    &&& b.downloaded_bytes == a.downloaded_bytes
    &&& b.uploaded_bytes == a.uploaded_bytes
}

/// The four flags, the pending map and the peer bitfield are unchanged.
pub open spec fn flags_pending_bitfield_unchanged(a: PeerSessionState, b: PeerSessionState) -> bool {
    &&& b.am_choking == a.am_choking
    &&& b.am_interested == a.am_interested
    &&& b.peer_choking == a.peer_choking
    &&& b.peer_interested == a.peer_interested
    &&& b.spec_pending() == a.spec_pending()
    &&& b.spec_peer_bitfield() == a.spec_peer_bitfield()
    &&& b.downloaded_bytes == a.downloaded_bytes
    &&& b.uploaded_bytes == a.uploaded_bytes
}

/// The four protocol flags and the counters are unchanged.
pub open spec fn unchanged_flags(a: PeerSessionState, b: PeerSessionState) -> bool {
    &&& b.am_choking == a.am_choking
    &&& b.am_interested == a.am_interested
    &&& b.peer_choking == a.peer_choking
    &&& b.peer_interested == a.peer_interested
    &&& b.downloaded_bytes == a.downloaded_bytes
    &&& b.uploaded_bytes == a.uploaded_bytes
    &&& b.last_activity == a.last_activity
    &&& b.spec_peer_bitfield() == a.spec_peer_bitfield()
}

/// Sessions with the same pending entries pend the same blocks.
proof fn lemma_pending_same(a: PeerSessionState, b: PeerSessionState, x: BlockInfo)
    requires
        a.spec_pending() == b.spec_pending(),
    ensures
        a.spec_pending_has(x) == b.spec_pending_has(x),
{
    if a.spec_pending_has(x) {
        let w = choose|w: int|
            0 <= w < a.spec_pending().len() && (#[trigger] a.spec_pending()[w]).0 == x;
        assert((b.spec_pending()[w]).0 == x);
    }
    if b.spec_pending_has(x) {
        let w = choose|w: int|
            0 <= w < b.spec_pending().len() && (#[trigger] b.spec_pending()[w]).0 == x;
        assert((a.spec_pending()[w]).0 == x);
    }
}

/// The three big-endian fields of a request or cancel frame read back as
/// the values the message carries.
proof fn lemma_frame_triple(frame: Seq<u8>, index: u32, begin: u32, length: u32)
    requires
        frame.len() == 13,
        frame == seq![frame[0]] + crate::message::u32_bytes(index) + crate::message::u32_bytes(
            begin,
        ) + crate::message::u32_bytes(length),
    ensures
        be32(frame[1], frame[2], frame[3], frame[4]) == index,
        be32(frame[5], frame[6], frame[7], frame[8]) == begin,
        be32(frame[9], frame[10], frame[11], frame[12]) == length,
{
    crate::message::lemma_be32_round_trip(index);
    crate::message::lemma_be32_round_trip(begin);
    crate::message::lemma_be32_round_trip(length);
    let ui = crate::message::u32_bytes(index);
    let ub = crate::message::u32_bytes(begin);
    let ul = crate::message::u32_bytes(length);
    assert(frame[1] == ui[0] && frame[2] == ui[1] && frame[3] == ui[2] && frame[4] == ui[3]);
    assert(frame[5] == ub[0] && frame[6] == ub[1] && frame[7] == ub[2] && frame[8] == ub[3]);
    assert(frame[9] == ul[0] && frame[10] == ul[1] && frame[11] == ul[2] && frame[12] == ul[3]);
}

/// Whether two blocks are the same.
fn block_eq(a: &BlockInfo, b: &BlockInfo) -> (r: bool)
    ensures
        r == (*a == *b),
{
    a.piece_index == b.piece_index && a.offset == b.offset && a.length == b.length
}

/// Where an element of a sequence with one entry removed came from.
proof fn lemma_remove_index<T>(s: Seq<T>, at: int, j: int)
    requires
        0 <= at < s.len(),
    ensures
        0 <= j < at ==> s.remove(at)[j] == s[j],
        at <= j < s.len() - 1 ==> s.remove(at)[j] == s[j + 1],
{
    if 0 <= j < s.len() - 1 {
        assert(s.remove(at)[j] == if j < at {
            s[j]
        } else {
            s[j + 1]
        });
    }
}

} // verus!
