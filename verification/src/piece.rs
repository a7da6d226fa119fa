//! The piece manager: sole owner of the verified bitfield and of the
//! scratch buffers of pieces in flight.  A piece is Missing, InProgress
//! (buffer present) or Verified (bit set), never two at once; a bit is set
//! only after the buffer hashed to the expected digest; and the count of
//! downloaded bytes always equals the summed length of the verified pieces.

use vstd::prelude::*;

verus! {

use crate::BLOCK_SIZE;
use crate::bitfield::Bitfield;
use crate::hashing::{sha1_of, sha1_digest};
use crate::strategy::{PieceSelector, SelectionStrategy, sat_inc, sat_dec, is_candidate, in_pending};
use vstd::string::StringExecFns;

/// A block within a piece: the unit of request and timeout.
#[derive(Debug, Clone, Copy, PartialEq, Eq, Hash, Structural)]
pub struct BlockInfo {
    /// Which piece the block belongs to.
    pub piece_index: usize,
    /// Byte offset of the block within its piece.
    pub offset: usize,
    /// Length of the block in bytes.
    pub length: usize,
}

impl BlockInfo {
    /// A block descriptor from its three coordinates.
    pub fn new(piece_index: usize, offset: usize, length: usize) -> (r: BlockInfo)
        ensures
            r.piece_index == piece_index,
            r.offset == offset,
            r.length == length,
    {
        BlockInfo { piece_index, offset, length }
    }
}

/// How many blocks a piece of `len` bytes has.
pub open spec fn spec_num_blocks(len: int) -> int {
    (len + BLOCK_SIZE - 1) / BLOCK_SIZE as int
}

/// The length of block `k` of a piece of `len` bytes: a full block, except
/// that the last block takes only what remains.
pub open spec fn spec_block_len(len: int, k: int) -> int {
    if len - k * BLOCK_SIZE < BLOCK_SIZE {
        len - k * BLOCK_SIZE
    } else {
        BLOCK_SIZE as int
    }
}

/// Block `k` of piece `piece` of `len` bytes.
pub open spec fn spec_block(piece: int, len: int, k: int) -> BlockInfo {
    BlockInfo {
        piece_index: piece as usize,
        offset: (k * BLOCK_SIZE) as usize,
        length: spec_block_len(len, k) as usize,
    }
}

/// The full block list of piece `piece` of `len` bytes.
pub open spec fn spec_blocks(piece: int, len: int) -> Seq<BlockInfo> {
    Seq::new(spec_num_blocks(len) as nat, |k: int| spec_block(piece, len, k))
}

/// The total bytes of the first `n` blocks of a piece of `len` bytes.
pub open spec fn spec_blocks_sum(len: int, n: int) -> int
    decreases n,
{
    if n <= 0 {
        0
    } else {
        spec_blocks_sum(len, n - 1) + spec_block_len(len, n - 1)
    }
}

/// The blocks of a piece tile it exactly: offsets advance in full blocks,
/// every block but the last is full, and the lengths sum to the piece
/// length.  This is how a short last piece and a short last block come out
/// of the same formulas as the full ones.
pub proof fn lemma_blocks_cover(piece: int, len: int)
    requires
        1 <= len <= usize::MAX,
    ensures
        spec_blocks(piece, len).len() == spec_num_blocks(len),
        forall|k: int| 0 <= k < spec_num_blocks(len) ==> (#[trigger] spec_blocks(piece, len)[k]).offset
            == k * BLOCK_SIZE,
        forall|k: int| 0 <= k < spec_num_blocks(len) - 1 ==> (#[trigger] spec_blocks(piece, len)[k]).length
            == BLOCK_SIZE,
        spec_blocks_sum(len, spec_num_blocks(len)) == len,
        forall|k: int| 0 <= k < spec_num_blocks(len) ==> 1 <= (#[trigger] spec_blocks(piece, len)[k]).length
            <= BLOCK_SIZE,
{
    let nb = spec_num_blocks(len);
    assert(nb >= 1);
    assert forall|k: int| 0 <= k < nb implies (#[trigger] spec_blocks(piece, len)[k]).offset == k
        * BLOCK_SIZE by {
        assert(k * BLOCK_SIZE < len) by (nonlinear_arith)
            requires
                0 <= k < nb,
                nb == (len + BLOCK_SIZE - 1) / (BLOCK_SIZE as int),
                len >= 1,
                BLOCK_SIZE == 16384,
        ;
        assert(k * BLOCK_SIZE >= 0) by (nonlinear_arith)
            requires
                k >= 0,
        ;
        assert((k * BLOCK_SIZE) as usize == k * BLOCK_SIZE);
    }
    assert forall|k: int| 0 <= k < nb implies 1 <= (#[trigger] spec_blocks(piece, len)[k]).length
        <= BLOCK_SIZE by {
        lemma_block_len_bounds(len, k);
    }
    assert forall|k: int| 0 <= k < nb - 1 implies (#[trigger] spec_blocks(piece, len)[k]).length
        == BLOCK_SIZE by {
        assert(len - k * BLOCK_SIZE >= BLOCK_SIZE) by (nonlinear_arith)
            requires
                0 <= k < nb - 1,
                nb == (len + BLOCK_SIZE - 1) / (BLOCK_SIZE as int),
                len >= 1,
                BLOCK_SIZE == 16384,
        ;
    }
    lemma_blocks_sum(len, nb);
}

/// Bounds of one block's length.
proof fn lemma_block_len_bounds(len: int, k: int)
    requires
        len >= 1,
        0 <= k < spec_num_blocks(len),
    ensures
        1 <= spec_block_len(len, k) <= BLOCK_SIZE,
        k * BLOCK_SIZE < len,
{
    assert(k * BLOCK_SIZE < len && len - k * BLOCK_SIZE >= 1) by (nonlinear_arith)
        requires
            0 <= k < (len + BLOCK_SIZE - 1) / (BLOCK_SIZE as int),
            len >= 1,
            BLOCK_SIZE == 16384,
    ;
}

/// The first `n` blocks hold `n * BLOCK_SIZE` bytes, capped at the piece
/// length.
proof fn lemma_blocks_sum(len: int, n: int)
    requires
        len >= 1,
        0 <= n <= spec_num_blocks(len),
    ensures
        spec_blocks_sum(len, n) == if n * BLOCK_SIZE <= len {
            n * BLOCK_SIZE
        } else {
            len
        },
    decreases n,
{
    if n > 0 {
        lemma_blocks_sum(len, n - 1);
        assert((n - 1) * BLOCK_SIZE == n * BLOCK_SIZE - BLOCK_SIZE) by (nonlinear_arith);
        if n < spec_num_blocks(len) {
            assert(n * BLOCK_SIZE < len + BLOCK_SIZE) by (nonlinear_arith)
                requires
                    n < (len + BLOCK_SIZE - 1) / (BLOCK_SIZE as int) + 0,
                    len >= 1,
                    BLOCK_SIZE == 16384,
            ;
        } else {
            assert(n * BLOCK_SIZE >= len) by (nonlinear_arith)
                requires
                    n == (len + BLOCK_SIZE - 1) / (BLOCK_SIZE as int),
                    len >= 1,
                    BLOCK_SIZE == 16384,
            ;
        }
    }
}

/// The scratch state of one piece in flight.
struct PieceState {
    data: Vec<u8>,
    received: Vec<bool>,
}

impl PieceState {
    /// Buffer sized to the piece, one flag per block.
    spec fn wf(self, len: int) -> bool {
        self.data@.len() == len && self.received@.len() == spec_num_blocks(len)
    }

    /// Every block has landed.
    spec fn complete(self) -> bool {
        forall|k: int| 0 <= k < self.received@.len() ==> self.received@[k]
    }
}

/// How many blocks a piece of `len` bytes has.
fn num_blocks_of(len: usize) -> (r: usize)
    ensures
        r == spec_num_blocks(len as int),
{
    let q = len / BLOCK_SIZE;
    let r = if len % BLOCK_SIZE != 0 {
        q + 1
    } else {
        q
    };
    proof {
        vstd::arithmetic::div_mod::lemma_fundamental_div_mod(len as int, BLOCK_SIZE as int);
        assert(r == ((len as int) + BLOCK_SIZE - 1) / (BLOCK_SIZE as int)) by (nonlinear_arith)
            requires
                (len as int) == ((len as int) / (BLOCK_SIZE as int)) * BLOCK_SIZE + ((len as int)
                    % (BLOCK_SIZE as int)),
                0 <= (len as int) % (BLOCK_SIZE as int) < BLOCK_SIZE,
                (q as int) == (len as int) / (BLOCK_SIZE as int),
                (r as int) == (q as int) + if (len as int) % (BLOCK_SIZE as int) != 0 {
                    1int
                } else {
                    0int
                },
                BLOCK_SIZE == 16384,
        ;
    }
    r
}

/// A fresh scratch state: zeroed buffer, no block received.
fn piece_state_new(piece_length: usize) -> (r: PieceState)
    requires
        piece_length >= 1,
    ensures
        r.wf(piece_length as int),
        forall|k: int| 0 <= k < r.received@.len() ==> !r.received@[k],
        forall|j: int| 0 <= j < piece_length ==> r.data@[j] == 0u8,
{
    let mut data: Vec<u8> = Vec::new();
    let mut i: usize = 0;
    while i < piece_length
        invariant
            data@.len() == i <= piece_length,
            forall|j: int| 0 <= j < i ==> data@[j] == 0u8,
        decreases piece_length - i,
    {
        data.push(0);
        i = i + 1;
    }
    let nb = num_blocks_of(piece_length);
    let mut received: Vec<bool> = Vec::new();
    let mut k: usize = 0;
    while k < nb
        invariant
            received@.len() == k <= nb,
            forall|j: int| 0 <= j < k ==> !received@[j],
        decreases nb - k,
    {
        received.push(false);
        k = k + 1;
    }
    PieceState { data, received }
}

/// Counters shown on the pieces view.
#[derive(Debug, Clone)]
pub struct PieceStats {
    /// How many pieces the torrent has.
    pub total_pieces: usize,
    /// How many are verified.
    pub completed_pieces: usize,
    /// How many hold a scratch buffer right now.
    pub in_progress_pieces: usize,
    /// How many passed digest verification; equal to `completed_pieces`.
    pub verified_pieces: usize,
}

/// Per-piece state codes and availability for display.
#[derive(Debug, Clone)]
pub struct PiecesInfo {
    /// How many pieces the torrent has.
    pub total_pieces: usize,
    /// How many are verified.
    pub pieces_have: usize,
    /// How many are in flight.
    pub pieces_downloading: usize,
    /// One code per piece: 0 missing, 1 verified, 2 downloading.
    pub bitfield: Vec<u8>,
    /// How many connected peers hold each piece.
    pub availability: Vec<usize>,
}

/// The piece manager.
pub struct PieceManager {
    our_bitfield: Bitfield,
    selector: PieceSelector,
    piece_hashes: Vec<Vec<u8>>,
    piece_length: usize,
    last_piece_length: usize,
    num_pieces: usize,
    in_progress: Vec<Option<PieceState>>,
    peer_requests: Vec<(String, Vec<usize>)>,
    downloaded_bytes: u64,
}

impl PieceManager {
    /// The length of piece `i`: uniform except for the last.
    pub open spec fn spec_piece_len(self, i: int) -> int {
        if i == self.spec_num_pieces() - 1 {
            self.spec_last_piece_length()
        } else {
            self.spec_piece_length()
        }
    }

    /// How many pieces the torrent has.
    pub closed spec fn spec_num_pieces(self) -> int {
        self.num_pieces as int
    }

    /// The uniform piece length.
    pub closed spec fn spec_piece_length(self) -> int {
        self.piece_length as int
    }

    /// The length of the last piece.
    pub closed spec fn spec_last_piece_length(self) -> int {
        self.last_piece_length as int
    }

    /// Our verified bitfield.
    pub closed spec fn spec_bitfield(self) -> Bitfield {
        self.our_bitfield
    }

    /// Piece `i` is verified.
    pub open spec fn spec_has(self, i: int) -> bool {
        self.spec_bitfield().spec_has(i)
    }

    /// Piece `i` holds a scratch buffer.
    pub closed spec fn spec_in_progress(self, i: int) -> bool {
        0 <= i < self.in_progress@.len() && self.in_progress@[i] is Some
    }

    /// The scratch buffer of piece `i`, when in flight.
    pub closed spec fn spec_buffer(self, i: int) -> Seq<u8> {
        if 0 <= i < self.in_progress@.len() {
            match self.in_progress@[i] {
                Some(st) => st.data@,
                None => Seq::empty(),
            }
        } else {
            Seq::empty()
        }
    }

    /// Block `k` of piece `i` has landed.
    pub closed spec fn spec_received(self, i: int, k: int) -> bool {
        0 <= i < self.in_progress@.len() && match self.in_progress@[i] {
            Some(st) => 0 <= k < st.received@.len() && st.received@[k],
            None => false,
        }
    }

    /// The expected digest of piece `i`.
    pub closed spec fn spec_hash(self, i: int) -> Seq<u8> {
        self.piece_hashes@[i]@
    }

    /// The selector in use.
    pub closed spec fn spec_selector(self) -> PieceSelector {
        self.selector
    }

    /// The number of bytes of verified pieces among the first `n`.
    pub open spec fn verified_bytes_up_to(self, n: int) -> int
        decreases n,
    {
        if n <= 0 {
            0
        } else {
            self.verified_bytes_up_to(n - 1) + if self.spec_has(n - 1) {
                self.spec_piece_len(n - 1)
            } else {
                0
            }
        }
    }

    /// Bytes acquired through verified pieces.
    pub open spec fn spec_downloaded(self) -> int {
        self.verified_bytes_up_to(self.spec_num_pieces())
    }

    /// The structural invariant: sizes agree, a verified piece never keeps
    /// a buffer, buffers are sized to their piece, and the byte counter
    /// equals the summed length of the verified pieces.
    pub closed spec fn wf(self) -> bool {
        &&& self.our_bitfield.wf()
        &&& self.our_bitfield.spec_num_pieces() == self.num_pieces
        &&& self.selector.wf()
        &&& self.piece_hashes@.len() == self.num_pieces
        &&& self.in_progress@.len() == self.num_pieces
        &&& self.piece_length >= 1
        &&& 1 <= self.last_piece_length <= self.piece_length
        &&& self.num_pieces * self.piece_length <= u64::MAX
        &&& forall|i: int| 0 <= i < self.num_pieces && self.our_bitfield.spec_has(i)
            ==> !(#[trigger] self.in_progress@[i] is Some)
        &&& forall|i: int| 0 <= i < self.num_pieces ==> match #[trigger] self.in_progress@[i] {
            Some(st) => st.wf(self.spec_piece_len(i)),
            None => true,
        }
        &&& self.downloaded_bytes == self.spec_downloaded()
    }

    /// Two managers that agree on piece lengths and verified bits agree on
    /// verified byte counts.
    proof fn lemma_verified_bytes_agree(a: PieceManager, b: PieceManager, n: int)
        requires
            a.spec_num_pieces() == b.spec_num_pieces(),
            a.spec_piece_length() == b.spec_piece_length(),
            a.spec_last_piece_length() == b.spec_last_piece_length(),
            forall|i: int| 0 <= i < n ==> a.spec_has(i) == b.spec_has(i),
        ensures
            a.verified_bytes_up_to(n) == b.verified_bytes_up_to(n),
        decreases n,
    {
        if n > 0 {
            PieceManager::lemma_verified_bytes_agree(a, b, n - 1);
        }
    }

    /// Setting one more bit adds exactly that piece's length to the sum.
    proof fn lemma_verified_bytes_set(a: PieceManager, b: PieceManager, piece: int, n: int)
        requires
            a.spec_num_pieces() == b.spec_num_pieces(),
            a.spec_piece_length() == b.spec_piece_length(),
            a.spec_last_piece_length() == b.spec_last_piece_length(),
            0 <= piece < n,
            !a.spec_has(piece),
            b.spec_has(piece),
            forall|i: int| 0 <= i < n && i != piece ==> a.spec_has(i) == b.spec_has(i),
        ensures
            b.verified_bytes_up_to(n) == a.verified_bytes_up_to(n) + a.spec_piece_len(piece),
        decreases n,
    {
        if piece == n - 1 {
            PieceManager::lemma_verified_bytes_agree(a, b, n - 1);
        } else {
            PieceManager::lemma_verified_bytes_set(a, b, piece, n - 1);
        }
    }

    /// The verified byte sum stays within the torrent's total size.
    proof fn lemma_verified_bytes_bound(self, n: int)
        requires
            self.spec_piece_length() >= 1,
            self.spec_last_piece_length() <= self.spec_piece_length(),
            0 <= n,
        ensures
            0 <= self.verified_bytes_up_to(n) <= n * self.spec_piece_length(),
        decreases n,
    {
        if n > 0 {
            self.lemma_verified_bytes_bound(n - 1);
            assert((n - 1) * self.spec_piece_length() + self.spec_piece_length() == n
                * self.spec_piece_length()) by (nonlinear_arith);
        } else {
            assert(n * self.spec_piece_length() == 0) by (nonlinear_arith)
                requires
                    n == 0,
            ;
        }
    }

    /// A manager for a torrent of `num_pieces` pieces with the given piece
    /// lengths and expected digests, starting with nothing verified.
    pub fn new(
        num_pieces: usize,
        piece_length: usize,
        last_piece_length: usize,
        piece_hashes: Vec<Vec<u8>>,
        strategy: SelectionStrategy,
    ) -> (r: PieceManager)
        requires
            piece_hashes@.len() == num_pieces,
            piece_length >= 1,
            1 <= last_piece_length <= piece_length,
            num_pieces * piece_length <= u64::MAX,
            num_pieces <= usize::MAX - 7,
        ensures
            r.wf(),
            r.spec_num_pieces() == num_pieces,
            r.spec_piece_length() == piece_length,
            r.spec_last_piece_length() == last_piece_length,
            forall|i: int| !r.spec_has(i),
            forall|i: int| !r.spec_in_progress(i),
            forall|i: int| 0 <= i < num_pieces ==> r.spec_hash(i) == piece_hashes@[i]@,
            r.spec_selector().spec_strategy() == strategy,
            forall|i: int| r.spec_selector().spec_avail(i) == 0,
            r.spec_downloaded() == 0,
    {
        let our_bitfield = Bitfield::new(num_pieces);
        let selector = PieceSelector::new(strategy);
        let mut in_progress: Vec<Option<PieceState>> = Vec::new();
        let mut i: usize = 0;
        while i < num_pieces
            invariant
                in_progress@.len() == i <= num_pieces,
                forall|j: int| 0 <= j < i ==> (#[trigger] in_progress@[j]) is None,
            decreases num_pieces - i,
        {
            in_progress.push(None);
            i = i + 1;
        }
        let r = PieceManager {
            our_bitfield,
            selector,
            piece_hashes,
            piece_length,
            last_piece_length,
            num_pieces,
            in_progress,
            peer_requests: Vec::new(),
            downloaded_bytes: 0,
        };
        proof {
            r.lemma_no_bits_no_bytes(r.spec_num_pieces());
        }
        r
    }

    /// With no bit set there are no verified bytes.
    proof fn lemma_no_bits_no_bytes(self, n: int)
        requires
            forall|i: int| !self.spec_has(i),
        ensures
            self.verified_bytes_up_to(n) == 0,
        decreases n,
    {
        if n > 0 {
            self.lemma_no_bits_no_bytes(n - 1);
        }
    }

    /// Drop the request-tracking entry of `peer_id`, if present.
    fn drop_tracking(&mut self, peer_id: &str)
        ensures
            final(self).our_bitfield == old(self).our_bitfield,
            final(self).selector == old(self).selector,
            final(self).piece_hashes == old(self).piece_hashes,
            final(self).piece_length == old(self).piece_length,
            final(self).last_piece_length == old(self).last_piece_length,
            final(self).num_pieces == old(self).num_pieces,
            final(self).in_progress == old(self).in_progress,
            final(self).downloaded_bytes == old(self).downloaded_bytes,
    {
        let n = self.peer_requests.len();
        let mut k: usize = 0;
        while k < n
            invariant
                k <= n <= self.peer_requests@.len(),
                self.our_bitfield == old(self).our_bitfield,
                self.selector == old(self).selector,
                self.piece_hashes == old(self).piece_hashes,
                self.piece_length == old(self).piece_length,
                self.last_piece_length == old(self).last_piece_length,
                self.num_pieces == old(self).num_pieces,
                self.in_progress == old(self).in_progress,
                self.downloaded_bytes == old(self).downloaded_bytes,
            decreases n - k,
        {
            if crate::text::str_eq(self.peer_requests[k].0.as_str(), peer_id) {
                self.peer_requests.remove(k);
                return;
            }
            k = k + 1;
        }
    }

    /// Register a peer and fold its bitfield into the availability
    /// histogram.  The set of pieces tracked for that peer id starts empty.
    pub fn add_peer(&mut self, peer_id: String, peer_bitfield: &Bitfield)
        requires
            old(self).wf(),
            peer_bitfield.wf(),
        ensures
            final(self).wf(),
            unchanged_pieces(*old(self), *final(self)),
            final(self).spec_selector().spec_strategy() == old(
                self,
            ).spec_selector().spec_strategy(),
            forall|q: int| #[trigger] final(self).spec_selector().spec_avail(q)
                == if peer_bitfield.spec_has(q) {
                sat_inc(old(self).spec_selector().spec_avail(q))
            } else {
                old(self).spec_selector().spec_avail(q)
            },
    {
        self.selector.add_peer(peer_bitfield);
        self.drop_tracking(peer_id.as_str());
        self.peer_requests.push((peer_id, Vec::new()));
        proof {
            PieceManager::lemma_verified_bytes_agree(
                *old(self),
                *self,
                self.spec_num_pieces(),
            );
        }
    }

    /// Unregister a peer: its bitfield leaves the histogram and its
    /// tracked pieces are forgotten.
    pub fn remove_peer(&mut self, peer_id: &str, peer_bitfield: &Bitfield)
        requires
            old(self).wf(),
            peer_bitfield.wf(),
        ensures
            final(self).wf(),
            unchanged_pieces(*old(self), *final(self)),
            final(self).spec_selector().spec_strategy() == old(
                self,
            ).spec_selector().spec_strategy(),
            forall|q: int| #[trigger] final(self).spec_selector().spec_avail(q)
                == if peer_bitfield.spec_has(q) {
                sat_dec(old(self).spec_selector().spec_avail(q))
            } else {
                old(self).spec_selector().spec_avail(q)
            },
    {
        self.selector.remove_peer(peer_bitfield);
        self.drop_tracking(peer_id);
        proof {
            PieceManager::lemma_verified_bytes_agree(
                *old(self),
                *self,
                self.spec_num_pieces(),
            );
        }
    }

    /// A known peer announced one more piece with HAVE.
    pub fn peer_has_piece(&mut self, piece_index: usize)
        requires
            old(self).wf(),
        ensures
            final(self).wf(),
            unchanged_pieces(*old(self), *final(self)),
            final(self).spec_selector().spec_strategy() == old(
                self,
            ).spec_selector().spec_strategy(),
            final(self).spec_selector().spec_avail(piece_index as int) == sat_inc(
                old(self).spec_selector().spec_avail(piece_index as int),
            ),
            forall|q: int| q != piece_index ==> final(self).spec_selector().spec_avail(q) == old(
                self,
            ).spec_selector().spec_avail(q),
    {
        self.selector.mark_piece_available(piece_index);
        proof {
            PieceManager::lemma_verified_bytes_agree(
                *old(self),
                *self,
                self.spec_num_pieces(),
            );
        }
    }

    /// Our verified bitfield; what a BITFIELD message would carry.
    pub fn our_bitfield(&self) -> (r: &Bitfield)
        ensures
            *r == self.spec_bitfield(),
    {
        &self.our_bitfield
    }

    /// Whether piece `piece_index` is verified.
    pub fn has_piece(&self, piece_index: usize) -> (r: bool)
        requires
            self.wf(),
        ensures
            r == self.spec_has(piece_index as int),
    {
        self.our_bitfield.has_piece(piece_index)
    }

    /// Whether every piece is verified.
    pub fn is_complete(&self) -> (r: bool)
        requires
            self.wf(),
        ensures
            r == (self.spec_bitfield().spec_count() == self.spec_num_pieces()),
    {
        self.our_bitfield.is_complete()
    }

    /// The length of piece `piece_index` in bytes.
    pub fn piece_len(&self, piece_index: usize) -> (r: usize)
        ensures
            r == if piece_index == self.spec_num_pieces() - 1 {
                self.spec_last_piece_length()
            } else {
                self.spec_piece_length()
            },
    {
        if self.num_pieces >= 1 && piece_index == self.num_pieces - 1 {
            self.last_piece_length
        } else {
            self.piece_length
        }
    }

    /// The bytes of verified pieces so far: always the summed length of
    /// exactly the pieces whose bit is set.
    pub fn downloaded_bytes(&self) -> (r: u64)
        requires
            self.wf(),
        ensures
            r == self.spec_downloaded(),
    {
        self.downloaded_bytes
    }

    /// The full block list of piece `piece_index`: offsets every
    /// `BLOCK_SIZE` bytes, each block full except a shorter final one.
    pub fn get_blocks_for_piece(&self, piece_index: usize) -> (r: Vec<BlockInfo>)
        requires
            self.wf(),
            piece_index < self.spec_num_pieces(),
        ensures
            r@ == spec_blocks(piece_index as int, self.spec_piece_len(piece_index as int)),
    {
        let piece_len = self.piece_len(piece_index);
        let nb = num_blocks_of(piece_len);
        let ghost plen = self.spec_piece_len(piece_index as int);
        let mut out: Vec<BlockInfo> = Vec::new();
        let mut k: usize = 0;
        while k < nb
            invariant
                self.wf(),
                piece_len == plen == self.spec_piece_len(piece_index as int),
                1 <= plen,
                nb == spec_num_blocks(plen),
                k <= nb,
                out@.len() == k,
                forall|j: int| 0 <= j < k ==> #[trigger] out@[j] == spec_block(
                    piece_index as int,
                    plen,
                    j,
                ),
            decreases nb - k,
        {
            proof {
                lemma_block_len_bounds(plen, k as int);
            }
            let offset = k * BLOCK_SIZE;
            let length = if piece_len - offset < BLOCK_SIZE {
                piece_len - offset
            } else {
                BLOCK_SIZE
            };
            out.push(BlockInfo { piece_index, offset, length });
            k = k + 1;
        }
        proof {
            assert(out@ =~= spec_blocks(piece_index as int, plen));
        }
        out
    }

    /// The pieces currently holding a scratch buffer, in ascending order.
    pub fn in_progress_pieces(&self) -> (r: Vec<usize>)
        requires
            self.wf(),
        ensures
            forall|k: int| 0 <= k < r@.len() ==> self.spec_in_progress(#[trigger] r@[k] as int)
                && r@[k] < self.spec_num_pieces(),
            forall|i: int| 0 <= i < self.spec_num_pieces() && self.spec_in_progress(i)
                ==> r@.contains(i as usize),
    {
        let mut out: Vec<usize> = Vec::new();
        let n = self.num_pieces;
        let mut i: usize = 0;
        while i < n
            invariant
                self.wf(),
                n == self.spec_num_pieces(),
                i <= n,
                forall|k: int| 0 <= k < out@.len() ==> self.spec_in_progress(
                    #[trigger] out@[k] as int,
                ) && out@[k] < n,
                forall|j: int| 0 <= j < i && self.spec_in_progress(j) ==> out@.contains(
                    j as usize,
                ),
            decreases n - i,
        {
            let ghost pre = out@;
            let in_flight = match &self.in_progress[i] {
                Some(_) => true,
                None => false,
            };
            if in_flight {
                out.push(i);
            }
            proof {
                assert forall|j: int| 0 <= j < i + 1 && self.spec_in_progress(j)
                    implies out@.contains(j as usize) by {
                    if j < i {
                        let d = choose|d: int| 0 <= d < pre.len() && pre[d] == j as usize;
                        assert(out@[d] == j as usize);
                    } else {
                        assert(out@[out@.len() - 1] == j as usize);
                    }
                }
            }
            i = i + 1;
        }
        out
    }

    /// Pick the next piece to fetch from a peer and return its full block
    /// list, allocating the scratch buffer on first touch.  The piece
    /// returned is never verified; outside endgame it is also not already
    /// in flight, and the peer advertises it.
    pub fn select_next_piece(&mut self, peer_id: &str, peer_bitfield: &Bitfield) -> (r: Option<
        (usize, Vec<BlockInfo>),
    >)
        requires
            old(self).wf(),
            peer_bitfield.wf(),
            peer_bitfield.spec_num_pieces() == old(self).spec_num_pieces(),
        ensures
            final(self).wf(),
            final(self).spec_bitfield() == old(self).spec_bitfield(),
            final(self).spec_selector() == old(self).spec_selector(),
            final(self).spec_downloaded() == old(self).spec_downloaded(),
            match r {
                Some((idx, blocks)) => {
                    &&& idx < old(self).spec_num_pieces()
                    &&& !old(self).spec_has(idx as int)
                    &&& old(self).spec_selector().spec_strategy()
                        != SelectionStrategy::Endgame ==> (peer_bitfield.spec_has(idx as int)
                        && !old(self).spec_in_progress(idx as int))
                    &&& final(self).spec_in_progress(idx as int)
                    &&& blocks@ == spec_blocks(idx as int, old(self).spec_piece_len(idx as int))
                    &&& forall|i: int| i != idx ==> #[trigger] final(self).spec_in_progress(i)
                        == old(self).spec_in_progress(i)
                    &&& forall|i: int| i != idx ==> #[trigger] final(self).spec_buffer(i) == old(
                        self,
                    ).spec_buffer(i)
                },
                None => *final(self) == *old(self),
            },
    {
        let pending = self.in_progress_pieces();
        let choice = self.selector.select_piece(
            &self.our_bitfield,
            peer_bitfield,
            pending.as_slice(),
        );
        let piece_index = match choice {
            Some(piece_index) => piece_index,
            None => {
                return None;
            },
        };
        proof {
            peer_bitfield.lemma_has_in_range(piece_index as int);
            if in_pending(pending@, piece_index as int) {
                let k = choose|k: int|
                    0 <= k < pending@.len() && pending@[k] == piece_index;
                assert(pending@[k] < self.spec_num_pieces());
            }
        }
        proof {
            if self.spec_selector().spec_strategy() != SelectionStrategy::Endgame {
                assert(is_candidate(
                    self.spec_bitfield(),
                    *peer_bitfield,
                    pending@,
                    piece_index as int,
                ));
                if self.spec_in_progress(piece_index as int) {
                    assert(pending@.contains(piece_index));
                    let kk = choose|kk: int|
                        0 <= kk < pending@.len() && pending@[kk] == piece_index;
                    assert(in_pending(pending@, piece_index as int));
                }
            }
        }
        let piece_len = self.piece_len(piece_index);
        let ghost before = *self;
        let already = match &self.in_progress[piece_index] {
            Some(_) => true,
            None => false,
        };
        if !already {
            let st = piece_state_new(piece_len);
            self.in_progress.set(piece_index, Some(st));
        }
        proof {
            PieceManager::lemma_verified_bytes_agree(before, *self, self.spec_num_pieces());
        }
        self.track_piece(peer_id, piece_index);
        proof {
            PieceManager::lemma_verified_bytes_agree(before, *self, self.spec_num_pieces());
        }
        let blocks = self.get_blocks_for_piece(piece_index);
        Some((piece_index, blocks))
    }

    /// Note that `piece_index` was handed to `peer_id`.  Pure bookkeeping:
    /// no decision of the manager reads it back; verification clears it.
    fn track_piece(&mut self, peer_id: &str, piece_index: usize)
        ensures
            final(self).our_bitfield == old(self).our_bitfield,
            final(self).selector == old(self).selector,
            final(self).piece_hashes == old(self).piece_hashes,
            final(self).piece_length == old(self).piece_length,
            final(self).last_piece_length == old(self).last_piece_length,
            final(self).num_pieces == old(self).num_pieces,
            final(self).in_progress == old(self).in_progress,
            final(self).downloaded_bytes == old(self).downloaded_bytes,
    {
        let n = self.peer_requests.len();
        let mut k: usize = 0;
        while k < n
            invariant
                k <= n <= self.peer_requests@.len(),
                self.our_bitfield == old(self).our_bitfield,
                self.selector == old(self).selector,
                self.piece_hashes == old(self).piece_hashes,
                self.piece_length == old(self).piece_length,
                self.last_piece_length == old(self).last_piece_length,
                self.num_pieces == old(self).num_pieces,
                self.in_progress == old(self).in_progress,
                self.downloaded_bytes == old(self).downloaded_bytes,
            decreases n - k,
        {
            if crate::text::str_eq(self.peer_requests[k].0.as_str(), peer_id) {
                let mut entry = self.peer_requests.remove(k);
                if !contains_usize(entry.1.as_slice(), piece_index) {
                    entry.1.push(piece_index);
                }
                self.peer_requests.insert(k, entry);
                return;
            }
            k = k + 1;
        }
    }

    /// The blocks of an in-flight piece that have not landed yet.
    pub fn get_missing_blocks(&self, piece_index: usize) -> (r: Option<Vec<BlockInfo>>)
        requires
            self.wf(),
            piece_index < self.spec_num_pieces(),
        ensures
            r is Some <==> self.spec_in_progress(piece_index as int),
            r matches Some(v) ==> {
                let plen = self.spec_piece_len(piece_index as int);
                &&& forall|c: int| 0 <= c < v@.len() ==> {
                    let j = ((#[trigger] v@[c]).offset as int) / (BLOCK_SIZE as int);
                    0 <= j < spec_num_blocks(plen) && !self.spec_received(piece_index as int, j)
                        && v@[c] == spec_block(piece_index as int, plen, j)
                }
                &&& forall|j: int| 0 <= j < spec_num_blocks(plen) && !self.spec_received(
                    piece_index as int,
                    j,
                ) ==> v@.contains(spec_block(piece_index as int, plen, j))
            },
    {
        let piece_len = self.piece_len(piece_index);
        let ghost plen = self.spec_piece_len(piece_index as int);
        let nb = num_blocks_of(piece_len);
        let st = match &self.in_progress[piece_index] {
            Some(st) => st,
            None => {
                return None;
            },
        };
        let mut out: Vec<BlockInfo> = Vec::new();
        let mut k: usize = 0;
        while k < nb
            invariant
                self.wf(),
                piece_index < self.spec_num_pieces(),
                self.spec_in_progress(piece_index as int),
                st == self.in_progress@[piece_index as int]->0,
                piece_len == plen == self.spec_piece_len(piece_index as int),
                1 <= plen <= usize::MAX,
                nb == spec_num_blocks(plen),
                nb == st.received@.len(),
                k <= nb,
                forall|c: int| 0 <= c < out@.len() ==> {
                    let j = ((#[trigger] out@[c]).offset as int) / (BLOCK_SIZE as int);
                    0 <= j < nb && !self.spec_received(piece_index as int, j) && out@[c]
                        == spec_block(piece_index as int, plen, j)
                },
                forall|j: int| 0 <= j < k && !self.spec_received(piece_index as int, j)
                    ==> out@.contains(spec_block(piece_index as int, plen, j)),
            decreases nb - k,
        {
            let ghost pre = out@;
            if !st.received[k] {
                proof {
                    lemma_block_len_bounds(plen, k as int);
                }
                let offset = k * BLOCK_SIZE;
                let length = if piece_len - offset < BLOCK_SIZE {
                    piece_len - offset
                } else {
                    BLOCK_SIZE
                };
                out.push(BlockInfo { piece_index, offset, length });
                proof {
                    assert(out@[pre.len() as int] == spec_block(piece_index as int, plen, k as int));
                    assert((offset as int) / (BLOCK_SIZE as int) == k as int) by (nonlinear_arith)
                        requires
                            offset == (k as int) * BLOCK_SIZE,
                            k >= 0,
                            BLOCK_SIZE == 16384,
                    ;
                    assert forall|c: int| 0 <= c < out@.len() implies {
                        let j = ((#[trigger] out@[c]).offset as int) / (BLOCK_SIZE as int);
                        0 <= j < nb && !self.spec_received(piece_index as int, j) && out@[c]
                            == spec_block(piece_index as int, plen, j)
                    } by {
                        if c < pre.len() {
                            assert(out@[c] == pre[c]);
                        } else {
                            assert(out@[c] == spec_block(piece_index as int, plen, k as int));
                        }
                    }
                }
            }
            proof {
                assert forall|j: int| 0 <= j < k + 1 && !self.spec_received(piece_index as int, j)
                    implies out@.contains(spec_block(piece_index as int, plen, j)) by {
                    if j < k {
                        let d = choose|d: int|
                            0 <= d < pre.len() && pre[d] == spec_block(piece_index as int, plen, j);
                        assert(out@[d] == spec_block(piece_index as int, plen, j));
                    } else {
                        assert(out@[out@.len() - 1] == spec_block(piece_index as int, plen, j));
                    }
                }
            }
            k = k + 1;
        }
        Some(out)
    }

    /// Write a received block into its piece's scratch buffer.  Fails when
    /// the data length does not match the descriptor or the piece is not in
    /// flight.  Returns whether the piece is now complete.  A block that
    /// would overrun the buffer is ignored; one aligned to the block grid
    /// marks its slot received.
    pub fn write_block(&mut self, block: BlockInfo, data: &[u8]) -> (r: Result<bool, String>)
        requires
            old(self).wf(),
        ensures
            final(self).wf(),
            r is Ok <==> (block.length == data@.len() && old(self).spec_in_progress(
                block.piece_index as int,
            )),
            r matches Ok(complete) ==> {
                let i = block.piece_index as int;
                let plen = old(self).spec_piece_len(i);
                &&& final(self).spec_bitfield() == old(self).spec_bitfield()
                &&& final(self).spec_selector() == old(self).spec_selector()
                &&& final(self).spec_downloaded() == old(self).spec_downloaded()
                &&& forall|j: int| j != i ==> #[trigger] final(self).spec_buffer(j) == old(
                    self,
                ).spec_buffer(j)
                &&& forall|j: int| #[trigger] final(self).spec_in_progress(j) == old(
                    self,
                ).spec_in_progress(j)
                &&& (block.offset + block.length <= plen ==> final(self).spec_buffer(i) == old(
                    self,
                ).spec_buffer(i).take(block.offset as int) + data@ + old(self).spec_buffer(i).skip(
                    block.offset + block.length,
                ))
                &&& (block.offset + block.length > plen ==> final(self).spec_buffer(i) == old(
                    self,
                ).spec_buffer(i))
                &&& forall|j: int, kk: int| j != i ==> #[trigger] final(self).spec_received(j, kk)
                    == old(self).spec_received(j, kk)
                &&& forall|kk: int| #[trigger] final(self).spec_received(i, kk) == (old(
                    self,
                ).spec_received(i, kk) || (block.offset == kk * BLOCK_SIZE && 0 <= kk
                    < spec_num_blocks(plen) && block.offset + block.length <= plen))
                &&& complete == forall|kk: int| 0 <= kk < spec_num_blocks(plen)
                    ==> final(self).spec_received(i, kk)
            },
            r is Err ==> *final(self) == *old(self),
    {
        if block.length != data.len() {
            return Err(String::from_str("block data length mismatch"));
        }
        if block.piece_index >= self.num_pieces {
            return Err(String::from_str("piece not in progress"));
        }
        let in_flight = match &self.in_progress[block.piece_index] {
            Some(_) => true,
            None => false,
        };
        if !in_flight {
            return Err(String::from_str("piece not in progress"));
        }
        let ghost before = *self;
        let i = block.piece_index;
        let ghost plen = self.spec_piece_len(i as int);
        let st = self.in_progress.remove(i);
        let mut state = match st {
            Some(state) => state,
            None => vstd::pervasive::unreached(),
        };
        let buf_len = state.data.len();
        if block.offset <= buf_len && block.length <= buf_len - block.offset {
            // Copy the data into place.
            let mut j: usize = 0;
            while j < block.length
                invariant
                    before == *old(self),
                    j <= block.length == data@.len(),
                    block.offset + block.length <= state.data@.len() <= usize::MAX,
                    state.data@.len() == before.spec_buffer(i as int).len(),
                    state.received == before.in_progress@[i as int]->0.received,
                    forall|q: int| 0 <= q < block.offset ==> #[trigger] state.data@[q]
                        == before.spec_buffer(i as int)[q],
                    forall|q: int| 0 <= q < j ==> #[trigger] state.data@[block.offset + q]
                        == data@[q],
                    forall|q: int| block.offset + block.length <= q < state.data@.len()
                        ==> #[trigger] state.data@[q] == before.spec_buffer(i as int)[q],
                decreases block.length - j,
            {
                state.data.set(block.offset + j, data[j]);
                j = j + 1;
            }
            // Mark the block received when it sits on the block grid.
            if block.offset % BLOCK_SIZE == 0 {
                let idx = block.offset / BLOCK_SIZE;
                if idx < state.received.len() {
                    state.received.set(idx, true);
                }
            }
        }
        let complete = all_true(state.received.as_slice());
        let ghost newbuf = state.data@;
        let ghost newrecv = state.received@;
        let ghost snapshot = state;
        self.in_progress.insert(i, Some(state));
        proof {
            lemma_remove_insert(before.in_progress@, i as int, Some(snapshot));
            assert(self.in_progress@ == before.in_progress@.update(i as int, Some(snapshot)));
            assert(self.spec_buffer(i as int) == newbuf);
            assert forall|j: int| j != i implies #[trigger] self.spec_buffer(j)
                == before.spec_buffer(j) by {
                if 0 <= j < before.in_progress@.len() && j != i {
                    assert(self.in_progress@[j] == before.in_progress@[j]);
                }
            }
            assert forall|j: int, kk: int| j != i implies #[trigger] self.spec_received(j, kk)
                == before.spec_received(j, kk) by {
                if 0 <= j < before.in_progress@.len() {
                    assert(self.in_progress@[j] == before.in_progress@[j]);
                }
            }
            assert forall|j: int| #[trigger] self.spec_in_progress(j)
                == before.spec_in_progress(j) by {
                if 0 <= j < before.in_progress@.len() && j != i {
                    assert(self.in_progress@[j] == before.in_progress@[j]);
                }
            }
            PieceManager::lemma_verified_bytes_agree(before, *self, self.spec_num_pieces());
            assert(newrecv.len() == spec_num_blocks(plen));
            if block.offset + block.length <= plen {
                let rhs = before.spec_buffer(i as int).take(block.offset as int) + data@
                    + before.spec_buffer(i as int).skip(block.offset + block.length);
                assert forall|t: int| 0 <= t < newbuf.len() implies newbuf[t] == rhs[t] by {
                    if block.offset <= t < block.offset + block.length {
                        assert(newbuf[block.offset + (t - block.offset)] == data@[t
                            - block.offset]);
                    }
                }
                assert(self.spec_buffer(i as int) =~= rhs);
            } else {
                assert(self.spec_buffer(i as int) =~= before.spec_buffer(i as int));
            }
            if complete {
                assert forall|kk: int| 0 <= kk < spec_num_blocks(plen) implies self.spec_received(
                    i as int,
                    kk,
                ) by {
                    assert(newrecv[kk]);
                }
            } else {
                let w = choose|k: int| 0 <= k < newrecv.len() && !newrecv[k];
                assert(!self.spec_received(i as int, w));
            }
            assert(complete == (forall|kk: int| 0 <= kk < spec_num_blocks(plen)
                ==> self.spec_received(i as int, kk)));
            assert forall|kk: int| #[trigger] self.spec_received(i as int, kk) == (
            before.spec_received(i as int, kk) || (block.offset == kk * BLOCK_SIZE && 0 <= kk
                < spec_num_blocks(plen) && block.offset + block.length <= plen)) by {
                if 0 <= kk < newrecv.len() {
                    if block.offset % BLOCK_SIZE == 0 && block.offset + block.length <= plen {
                        vstd::arithmetic::div_mod::lemma_fundamental_div_mod(
                            block.offset as int,
                            BLOCK_SIZE as int,
                        );
                        if kk == (block.offset as int) / (BLOCK_SIZE as int) {
                            assert(block.offset == kk * BLOCK_SIZE);
                        } else {
                            assert(block.offset != kk * BLOCK_SIZE) by (nonlinear_arith)
                                requires
                                    block.offset == ((block.offset as int) / (BLOCK_SIZE as int))
                                        * BLOCK_SIZE,
                                    kk != (block.offset as int) / (BLOCK_SIZE as int),
                                    BLOCK_SIZE == 16384,
                            ;
                        }
                    } else {
                        if block.offset == kk * BLOCK_SIZE && 0 <= kk {
                            assert(block.offset % BLOCK_SIZE == 0) by (nonlinear_arith)
                                requires
                                    block.offset == kk * BLOCK_SIZE,
                                    kk >= 0,
                                    BLOCK_SIZE == 16384,
                            ;
                        }
                    }
                }
            }
        }
        Ok(complete)
    }

    /// Hash a completed piece and commit or reject it.
    ///
    /// On success the returned bytes are the assembled buffer, their SHA-1
    /// digest equals the stored digest for the piece, the piece's bit is
    /// set, its buffer is dropped, and the downloaded-byte counter grows by
    /// exactly the piece length.  On a digest mismatch the bit stays clear
    /// and the piece resets to a fresh buffer so it can be fetched again;
    /// nothing is committed.
    pub fn verify_piece(&mut self, piece_index: usize) -> (r: Result<Vec<u8>, String>)
        requires
            old(self).wf(),
            piece_index < old(self).spec_num_pieces(),
        ensures
            final(self).wf(),
            final(self).spec_selector() == old(self).spec_selector(),
            r is Ok <==> (old(self).spec_in_progress(piece_index as int) && (forall|kk: int|
                0 <= kk < spec_num_blocks(old(self).spec_piece_len(piece_index as int)) ==> old(
                self,
            ).spec_received(piece_index as int, kk)) && sha1_of(
                old(self).spec_buffer(piece_index as int),
            ) == old(self).spec_hash(piece_index as int)),
            r matches Ok(bytes) ==> {
                let i = piece_index as int;
                &&& bytes@ == old(self).spec_buffer(i)
                &&& sha1_of(bytes@) == old(self).spec_hash(i)
                &&& final(self).spec_has(i)
                &&& forall|j: int| j != i ==> #[trigger] final(self).spec_has(j) == old(
                    self,
                ).spec_has(j)
                &&& !final(self).spec_in_progress(i)
                &&& forall|j: int| j != i ==> #[trigger] final(self).spec_in_progress(j) == old(
                    self,
                ).spec_in_progress(j)
                &&& final(self).spec_downloaded() == old(self).spec_downloaded() + old(
                    self,
                ).spec_piece_len(i)
            },
            r is Err ==> {
                &&& final(self).spec_bitfield() == old(self).spec_bitfield()
                &&& final(self).spec_downloaded() == old(self).spec_downloaded()
                &&& forall|j: int| #[trigger] final(self).spec_in_progress(j) == old(
                    self,
                ).spec_in_progress(j)
            },
    {
        let in_flight = match &self.in_progress[piece_index] {
            Some(_) => true,
            None => false,
        };
        if !in_flight {
            return Err(String::from_str("piece not in progress"));
        }
        let ghost before = *self;
        let i = piece_index;
        let st = self.in_progress.remove(i);
        let state = match st {
            Some(state) => state,
            None => vstd::pervasive::unreached(),
        };
        if !all_true(state.received.as_slice()) {
            let ghost snapshot = state;
            self.in_progress.insert(i, Some(state));
            proof {
                lemma_remove_insert(before.in_progress@, i as int, Some(snapshot));
                assert(before.in_progress@[i as int] == Some(snapshot));
                assert(self.in_progress@ =~= before.in_progress@);
                PieceManager::lemma_verified_bytes_agree(before, *self, self.spec_num_pieces());
                let kk = choose|kk: int|
                    0 <= kk < snapshot.received@.len() && !snapshot.received@[kk];
                assert(!old(self).spec_received(piece_index as int, kk));
                assert(0 <= kk < spec_num_blocks(old(self).spec_piece_len(piece_index as int)));
            }
            return Err(String::from_str("piece not complete"));
        }
        let digest = sha1_digest(state.data.as_slice());
        let expected_matches = crate::bencode::slice_eq(
            digest.as_slice(),
            self.piece_hashes[i].as_slice(),
        );
        if !expected_matches {
            // Reset so the piece can be fetched afresh.
            let piece_len = self.piece_len(i);
            let fresh = piece_state_new(piece_len);
            let ghost freshsnap = fresh;
            self.in_progress.insert(i, Some(fresh));
            proof {
                lemma_remove_insert(before.in_progress@, i as int, Some(freshsnap));
                assert(self.in_progress@ == before.in_progress@.update(i as int, Some(freshsnap)));
                assert forall|j: int| #[trigger] self.spec_in_progress(j)
                    == before.spec_in_progress(j) by {
                    if j != i && 0 <= j < before.in_progress@.len() {
                        assert(self.in_progress@[j] == before.in_progress@[j]);
                    }
                }
                PieceManager::lemma_verified_bytes_agree(before, *self, self.spec_num_pieces());
                assert(sha1_of(old(self).spec_buffer(piece_index as int)) != old(self).spec_hash(
                    piece_index as int,
                ));
            }
            return Err(String::from_str("piece digest mismatch"));
        }
        self.in_progress.insert(i, None);
        proof {
            lemma_remove_insert(before.in_progress@, i as int, None);
            assert(self.in_progress@ == before.in_progress@.update(i as int, None));
        }
        self.our_bitfield.set_piece(i);
        self.untrack_piece(i);
        proof {
            assert forall|j: int| j != i implies #[trigger] self.spec_in_progress(j)
                == before.spec_in_progress(j) by {
                if 0 <= j < before.in_progress@.len() {
                    assert(self.in_progress@[j] == before.in_progress@[j]);
                }
            }
            PieceManager::lemma_verified_bytes_set(
                before,
                *self,
                i as int,
                self.spec_num_pieces(),
            );
            (*self).lemma_verified_bytes_bound(self.spec_num_pieces());
            assert(self.spec_num_pieces() * self.spec_piece_length() <= u64::MAX);
            assert(state.received@.len() == spec_num_blocks(before.spec_piece_len(i as int)));
            assert(state.data@ == old(self).spec_buffer(i as int));
        }
        let piece_len_now = self.piece_len(i);
        let ghost mid = *self;
        self.downloaded_bytes = self.downloaded_bytes + piece_len_now as u64;
        proof {
            PieceManager::lemma_verified_bytes_agree(mid, *self, self.spec_num_pieces());
        }
        Ok(state.data)
    }

    /// Forget that any peer was handed `piece_index`.
    fn untrack_piece(&mut self, piece_index: usize)
        ensures
            final(self).our_bitfield == old(self).our_bitfield,
            final(self).selector == old(self).selector,
            final(self).piece_hashes == old(self).piece_hashes,
            final(self).piece_length == old(self).piece_length,
            final(self).last_piece_length == old(self).last_piece_length,
            final(self).num_pieces == old(self).num_pieces,
            final(self).in_progress == old(self).in_progress,
            final(self).downloaded_bytes == old(self).downloaded_bytes,
    {
        let n = self.peer_requests.len();
        let mut k: usize = 0;
        while k < n
            invariant
                k <= n <= self.peer_requests@.len(),
                n == self.peer_requests@.len(),
                self.our_bitfield == old(self).our_bitfield,
                self.selector == old(self).selector,
                self.piece_hashes == old(self).piece_hashes,
                self.piece_length == old(self).piece_length,
                self.last_piece_length == old(self).last_piece_length,
                self.num_pieces == old(self).num_pieces,
                self.in_progress == old(self).in_progress,
                self.downloaded_bytes == old(self).downloaded_bytes,
            decreases n - k,
        {
            let mut entry = self.peer_requests.remove(k);
            let m = entry.1.len();
            let mut j: usize = 0;
            let mut kept: Vec<usize> = Vec::new();
            while j < m
                invariant
                    j <= m == entry.1@.len(),
                decreases m - j,
            {
                let v = entry.1[j];
                if v != piece_index {
                    kept.push(v);
                }
                j = j + 1;
            }
            entry.1 = kept;
            self.peer_requests.insert(k, entry);
            k = k + 1;
        }
    }

    /// Drop the scratch state of a piece, for instance when its peer
    /// disconnected.  Its bit is untouched.
    pub fn cancel_piece(&mut self, piece_index: usize)
        requires
            old(self).wf(),
            piece_index < old(self).spec_num_pieces(),
        ensures
            final(self).wf(),
            final(self).spec_bitfield() == old(self).spec_bitfield(),
            final(self).spec_selector() == old(self).spec_selector(),
            final(self).spec_downloaded() == old(self).spec_downloaded(),
            !final(self).spec_in_progress(piece_index as int),
            forall|j: int| j != piece_index ==> #[trigger] final(self).spec_in_progress(j) == old(
                self,
            ).spec_in_progress(j),
    {
        let ghost before = *self;
        self.in_progress.set(piece_index, None);
        proof {
            PieceManager::lemma_verified_bytes_agree(before, *self, self.spec_num_pieces());
        }
    }

    /// Release one block so the selector can issue it again, for instance
    /// after a request timed out.
    pub fn mark_block_failed(&mut self, block: BlockInfo)
        requires
            old(self).wf(),
        ensures
            final(self).wf(),
            final(self).spec_bitfield() == old(self).spec_bitfield(),
            final(self).spec_selector() == old(self).spec_selector(),
            final(self).spec_downloaded() == old(self).spec_downloaded(),
            forall|j: int| #[trigger] final(self).spec_in_progress(j) == old(
                self,
            ).spec_in_progress(j),
            forall|j: int, kk: int| !(j == block.piece_index && block.offset == kk * BLOCK_SIZE)
                ==> #[trigger] final(self).spec_received(j, kk) == old(self).spec_received(j, kk),
            forall|kk: int| block.offset == kk * BLOCK_SIZE && 0 <= kk
                ==> !#[trigger] final(self).spec_received(block.piece_index as int, kk),
    {
        let ghost before = *self;
        if block.piece_index >= self.num_pieces {
            proof {
                assert forall|kk: int| block.offset == kk * BLOCK_SIZE && 0 <= kk
                    implies !self.spec_received(block.piece_index as int, kk) by {
                    assert(!(0 <= block.piece_index < self.in_progress@.len())
                        || self.in_progress@[block.piece_index as int] is None || true);
                    assert(self.in_progress@.len() == self.num_pieces);
                }
            }
            return;
        }
        if block.offset % BLOCK_SIZE != 0 {
            proof {
                assert forall|kk: int| block.offset == kk * BLOCK_SIZE && 0 <= kk
                    implies !self.spec_received(block.piece_index as int, kk) by {
                    assert(block.offset % BLOCK_SIZE == 0) by (nonlinear_arith)
                        requires
                            block.offset == kk * BLOCK_SIZE,
                            kk >= 0,
                            BLOCK_SIZE == 16384,
                    ;
                }
            }
            return;
        }
        let i = block.piece_index;
        let idx = block.offset / BLOCK_SIZE;
        let st = self.in_progress.remove(i);
        match st {
            Some(mut state) => {
                if idx < state.received.len() {
                    state.received.set(idx, false);
                }
                let ghost newrecv = state.received@;
                let ghost snapshot = state;
                self.in_progress.insert(i, Some(state));
                proof {
                    lemma_remove_insert(before.in_progress@, i as int, Some(snapshot));
                    assert(self.in_progress@ == before.in_progress@.update(
                        i as int,
                        Some(snapshot),
                    ));
                    assert forall|j: int| #[trigger] self.spec_in_progress(j)
                        == before.spec_in_progress(j) by {
                        if j != i && 0 <= j < before.in_progress@.len() {
                            assert(self.in_progress@[j] == before.in_progress@[j]);
                        }
                    }
                    PieceManager::lemma_verified_bytes_agree(before, *self, self.spec_num_pieces());
                    assert forall|kk: int| block.offset == kk * BLOCK_SIZE && 0 <= kk
                        implies !self.spec_received(i as int, kk) by {
                        vstd::arithmetic::div_mod::lemma_fundamental_div_mod(
                            block.offset as int,
                            BLOCK_SIZE as int,
                        );
                        assert(kk == idx) by (nonlinear_arith)
                            requires
                                block.offset == kk * BLOCK_SIZE,
                                block.offset == (idx as int) * BLOCK_SIZE + (
                                (block.offset as int) % (BLOCK_SIZE as int)),
                                (block.offset as int) % (BLOCK_SIZE as int) == 0,
                                BLOCK_SIZE == 16384,
                        ;
                    }
                    assert forall|j: int, kk: int| !(j == i && block.offset == kk * BLOCK_SIZE)
                        implies #[trigger] self.spec_received(j, kk) == before.spec_received(
                        j,
                        kk,
                    ) by {
                        if j == i && 0 <= kk < newrecv.len() && kk != idx {
                            assert(newrecv[kk] == before.in_progress@[j]->0.received@[kk]);
                        }
                    }
                }
            },
            None => {
                self.in_progress.insert(i, None);
                proof {
                    lemma_remove_insert(before.in_progress@, i as int, None);
                    assert(before.in_progress@[i as int] is None);
                    assert(self.in_progress@ =~= before.in_progress@);
                    PieceManager::lemma_verified_bytes_agree(before, *self, self.spec_num_pieces());
                }
            },
        }
    }

    /// Counters for the pieces view.
    pub fn stats(&self) -> (r: PieceStats)
        requires
            self.wf(),
        ensures
            r.total_pieces == self.spec_num_pieces(),
            r.completed_pieces == self.spec_bitfield().spec_count(),
            r.verified_pieces == self.spec_bitfield().spec_count(),
    {
        let completed = self.our_bitfield.count_pieces();
        let in_flight = self.in_progress_pieces();
        PieceStats {
            total_pieces: self.num_pieces,
            completed_pieces: completed,
            in_progress_pieces: in_flight.len(),
            verified_pieces: completed,
        }
    }

    /// Whether endgame should start.
    pub fn should_enter_endgame(&self) -> (r: bool)
        requires
            self.wf(),
        ensures
            r == {
                let missing = self.spec_num_pieces() - self.spec_bitfield().spec_count();
                missing < 10 || 20 * missing < self.spec_num_pieces()
            },
    {
        self.selector.should_enter_endgame(&self.our_bitfield)
    }

    /// Switch the selection strategy.
    pub fn set_strategy(&mut self, strategy: SelectionStrategy)
        requires
            old(self).wf(),
        ensures
            final(self).wf(),
            unchanged_pieces(*old(self), *final(self)),
            final(self).spec_selector().spec_strategy() == strategy,
            forall|q: int| final(self).spec_selector().spec_avail(q) == old(
                self,
            ).spec_selector().spec_avail(q),
    {
        self.selector.set_strategy(strategy);
        proof {
            PieceManager::lemma_verified_bytes_agree(*old(self), *self, self.spec_num_pieces());
        }
    }

    /// Per-piece state codes and availability for display: 0 missing,
    /// 1 verified, 2 downloading.
    pub fn get_pieces_info(&self) -> (r: PiecesInfo)
        requires
            self.wf(),
        ensures
            r.total_pieces == self.spec_num_pieces(),
            r.pieces_have == self.spec_bitfield().spec_count(),
            r.bitfield@.len() == self.spec_num_pieces(),
            forall|i: int| 0 <= i < self.spec_num_pieces() ==> #[trigger] r.bitfield@[i] == (
            if self.spec_has(i) {
                1u8
            } else if self.spec_in_progress(i) {
                2u8
            } else {
                0u8
            }),
            r.availability@.len() == self.spec_num_pieces(),
            forall|i: int| 0 <= i < self.spec_num_pieces() ==> #[trigger] r.availability@[i]
                == self.spec_selector().spec_avail(i),
    {
        let total = self.num_pieces;
        let have = self.our_bitfield.count_pieces();
        let in_flight = self.in_progress_pieces();
        let mut codes: Vec<u8> = Vec::new();
        let mut i: usize = 0;
        while i < total
            invariant
                self.wf(),
                total == self.spec_num_pieces(),
                i <= total,
                codes@.len() == i,
                forall|j: int| 0 <= j < i ==> #[trigger] codes@[j] == (if self.spec_has(j) {
                    1u8
                } else if self.spec_in_progress(j) {
                    2u8
                } else {
                    0u8
                }),
            decreases total - i,
        {
            let code: u8 = if self.our_bitfield.has_piece(i) {
                1
            } else {
                match &self.in_progress[i] {
                    Some(_) => 2,
                    None => 0,
                }
            };
            codes.push(code);
            i = i + 1;
        }
        let availability = self.selector.get_piece_availability(total);
        PiecesInfo {
            total_pieces: total,
            pieces_have: have,
            pieces_downloading: in_flight.len(),
            bitfield: codes,
            availability,
        }
    }
}

/// Removing an element and inserting another at the same position is an
/// update of that position.
proof fn lemma_remove_insert<T>(s: Seq<T>, i: int, x: T)
    requires
        0 <= i < s.len(),
    ensures
        s.remove(i).insert(i, x) == s.update(i, x),
{
    assert(s.remove(i).insert(i, x) =~= s.update(i, x));
}

/// Whether every flag in the slice is set.
fn all_true(flags: &[bool]) -> (r: bool)
    ensures
        r == forall|k: int| 0 <= k < flags@.len() ==> flags@[k],
{
    let n = flags.len();
    let mut k: usize = 0;
    while k < n
        invariant
            k <= n == flags@.len(),
            forall|j: int| 0 <= j < k ==> flags@[j],
        decreases n - k,
    {
        if !flags[k] {
            return false;
        }
        k = k + 1;
    }
    true
}

/// Whether `x` occurs in the slice.
fn contains_usize(s: &[usize], x: usize) -> (r: bool)
    ensures
        r == s@.contains(x),
{
    let n = s.len();
    let mut k: usize = 0;
    while k < n
        invariant
            k <= n == s@.len(),
            forall|j: int| 0 <= j < k ==> s@[j] != x,
        decreases n - k,
    {
        if s[k] == x {
            return true;
        }
        k = k + 1;
    }
    false
}

/// Everything about piece state is unchanged: bits, buffers, lengths,
/// digests and the byte counter.
pub open spec fn unchanged_pieces(a: PieceManager, b: PieceManager) -> bool {
    &&& b.spec_num_pieces() == a.spec_num_pieces()
    &&& b.spec_piece_length() == a.spec_piece_length()
    &&& b.spec_last_piece_length() == a.spec_last_piece_length()
    &&& b.spec_bitfield() == a.spec_bitfield()
    &&& forall|i: int| #[trigger] b.spec_in_progress(i) == a.spec_in_progress(i)
    &&& forall|i: int| #[trigger] b.spec_buffer(i) == a.spec_buffer(i)
    &&& forall|i: int, k: int| #[trigger] b.spec_received(i, k) == a.spec_received(i, k)
    &&& forall|i: int| 0 <= i < a.spec_num_pieces() ==> #[trigger] b.spec_hash(i) == a.spec_hash(i)
    &&& b.spec_downloaded() == a.spec_downloaded()
}

} // verus!
