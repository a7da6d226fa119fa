//! Packed per-piece bit vector, most-significant bit first within each byte,
//! as the wire protocol's BITFIELD message lays it out.

use vstd::prelude::*;

verus! {

/// Whether bit `k` (counted from the least significant end) of `b` is set.
pub open spec fn nth_bit(b: u8, k: u8) -> bool {
    (b >> k) & 1 == 1
}

/// Tracks which pieces an endpoint has: bit `i` of the packed bytes is set
/// exactly when piece `i` is held.  Within a byte the most significant bit
/// comes first, so piece `i` lives at bit `7 - i % 8` of byte `i / 8`.
#[derive(Debug)]
pub struct Bitfield {
    bytes: Vec<u8>,
    num_pieces: usize,
}

impl Clone for Bitfield {
    /// An exact copy: same piece count, same packed bytes.
    fn clone(&self) -> (r: Self)
        ensures
            r.spec_bytes() == self.spec_bytes(),
            r.spec_num_pieces() == self.spec_num_pieces(),
            r.wf() == self.wf(),
            forall|i: int| #[trigger] r.spec_has(i) == self.spec_has(i),
            r.spec_count() == self.spec_count(),
    {
        let r = Bitfield { bytes: self.bytes.clone(), num_pieces: self.num_pieces };
        proof {
            assert(r.bytes@ =~= self.bytes@);
            lemma_count_agrees(*self, r, r.num_pieces as int);
        }
        r
    }
}

/// Two bitfields that agree bit for bit have equal counts.
proof fn lemma_count_agrees(a: Bitfield, b: Bitfield, n: int)
    requires
        forall|i: int| #[trigger] a.spec_has(i) == b.spec_has(i),
    ensures
        a.count_up_to(n) == b.count_up_to(n),
    decreases n,
{
    if n > 0 {
        lemma_count_agrees(a, b, n - 1);
    }
}

impl Bitfield {
    /// The packed bytes hold at least one bit per piece.
    pub closed spec fn wf(self) -> bool {
        self.bytes@.len() >= (self.num_pieces + 7) / 8
    }

    /// How many pieces the bitfield describes.
    pub closed spec fn spec_num_pieces(self) -> int {
        self.num_pieces as int
    }

    /// The packed byte representation.
    pub closed spec fn spec_bytes(self) -> Seq<u8> {
        self.bytes@
    }

    /// Whether piece `i` is held.  False outside `0..num_pieces`.
    pub closed spec fn spec_has(self, i: int) -> bool {
        0 <= i < self.num_pieces && nth_bit(self.bytes@[i / 8], (7 - i % 8) as u8)
    }

    /// How many pieces among the first `n` are held.
    pub closed spec fn count_up_to(self, n: int) -> int
        decreases n,
    {
        if n <= 0 {
            0
        } else {
            self.count_up_to(n - 1) + if self.spec_has(n - 1) {
                1int
            } else {
                0int
            }
        }
    }

    /// How many pieces are held.
    pub open spec fn spec_count(self) -> int {
        self.count_up_to(self.spec_num_pieces())
    }

    /// Bit `i` of the packed bytes, most significant bit first: this is the
    /// layout of the wire protocol's BITFIELD payload.
    pub proof fn lemma_msb_first(self, i: int)
        requires
            0 <= i < self.spec_num_pieces(),
            self.wf(),
        ensures
            self.spec_has(i) == nth_bit(self.spec_bytes()[i / 8], (7 - i % 8) as u8),
    {
    }

    /// The count never exceeds the range counted over.
    pub proof fn lemma_count_bounds(self, n: int)
        ensures
            0 <= self.count_up_to(n) <= if n >= 0 {
                n
            } else {
                0
            },
        decreases n,
    {
        if n > 0 {
            self.lemma_count_bounds(n - 1);
        }
    }

    /// A full count means every piece is held, an empty count means none is.
    pub proof fn lemma_count_extremes(self, n: int)
        ensures
            self.count_up_to(n) == n ==> forall|i: int| 0 <= i < n ==> self.spec_has(i),
            self.count_up_to(n) == 0 ==> forall|i: int| 0 <= i < n ==> !self.spec_has(i),
        decreases n,
    {
        if n > 0 {
            self.lemma_count_extremes(n - 1);
            self.lemma_count_bounds(n - 1);
        }
    }

    /// An empty bitfield for `num_pieces` pieces.
    pub fn new(num_pieces: usize) -> (r: Bitfield)
        requires
            num_pieces <= usize::MAX - 7,
        ensures
            r.wf(),
            r.spec_num_pieces() == num_pieces,
            forall|i: int| !r.spec_has(i),
    {
        let num_bytes = (num_pieces + 7) / 8;
        let mut bytes: Vec<u8> = Vec::new();
        let mut k: usize = 0;
        while k < num_bytes
            invariant
                bytes@.len() == k <= num_bytes,
                forall|j: int| 0 <= j < k ==> bytes@[j] == 0u8,
            decreases num_bytes - k,
        {
            bytes.push(0);
            k = k + 1;
        }
        let r = Bitfield { bytes, num_pieces };
        proof {
            assert forall|i: int| !r.spec_has(i) by {
                if 0 <= i < num_pieces {
                    assert(r.bytes@[i / 8] == 0u8);
                    assert(forall|kk: u8| !(#[trigger] nth_bit(0u8, kk))) by (bit_vector);
                }
            }
        }
        r
    }

    /// Wrap raw bytes received from a peer's BITFIELD message.  The caller
    /// must supply at least one bit per piece.
    pub fn from_bytes(bytes: Vec<u8>, num_pieces: usize) -> (r: Bitfield)
        requires
            num_pieces <= usize::MAX - 7,
            bytes@.len() >= (num_pieces + 7) / 8,
        ensures
            r.wf(),
            r.spec_num_pieces() == num_pieces,
            r.spec_bytes() == bytes@,
            forall|i: int| #[trigger] r.spec_has(i)
                <==> 0 <= i < num_pieces && nth_bit(bytes@[i / 8], (7 - i % 8) as u8),
    {
        Bitfield { bytes, num_pieces }
    }

    /// A bitfield with every piece held.
    pub fn complete(num_pieces: usize) -> (r: Bitfield)
        requires
            num_pieces <= usize::MAX - 7,
        ensures
            r.wf(),
            r.spec_num_pieces() == num_pieces,
            forall|i: int| #[trigger] r.spec_has(i) <==> 0 <= i < num_pieces,
    {
        let mut bf = Bitfield::new(num_pieces);
        let mut i: usize = 0;
        while i < num_pieces
            invariant
                bf.wf(),
                bf.spec_num_pieces() == num_pieces <= usize::MAX - 7,
                i <= num_pieces,
                forall|j: int| #[trigger] bf.spec_has(j) <==> 0 <= j < i,
            decreases num_pieces - i,
        {
            bf.set_piece(i);
            i = i + 1;
        }
        bf
    }

    /// Whether piece `index` is held.
    pub fn has_piece(&self, index: usize) -> (r: bool)
        requires
            self.wf(),
        ensures
            r == self.spec_has(index as int),
    {
        if index >= self.num_pieces {
            return false;
        }
        let byte_index = index / 8;
        let k: u8 = (7 - (index % 8)) as u8;
        (self.bytes[byte_index] >> k) & 1 == 1
    }

    /// Mark piece `index` as held.  An index outside the bitfield is ignored.
    pub fn set_piece(&mut self, index: usize)
        requires
            old(self).wf(),
        ensures
            final(self).wf(),
            final(self).spec_num_pieces() == old(self).spec_num_pieces(),
            forall|j: int| #[trigger] final(self).spec_has(j)
                <==> old(self).spec_has(j) || (j == index && index < old(self).spec_num_pieces()),
    {
        if index >= self.num_pieces {
            return;
        }
        let byte_index = index / 8;
        let k: u8 = (7 - (index % 8)) as u8;
        let b = self.bytes[byte_index];
        self.bytes.set(byte_index, b | (1u8 << k));
        proof {
            let nb = (b | (1u8 << k)) as u8;
            assert forall|kk: u8| kk < 8 implies
                #[trigger] nth_bit(nb, kk) == (nth_bit(b, kk) || kk == k) by {
                assert(k < 8 ==> kk < 8 ==> (((b | (1u8 << k)) >> kk) & 1 == 1)
                    == ((b >> kk) & 1 == 1 || kk == k)) by (bit_vector);
            }
            assert forall|j: int| #[trigger] self.spec_has(j)
                <==> old(self).spec_has(j) || (j == index && index < old(self).spec_num_pieces()) by {
                if 0 <= j < self.num_pieces {
                    vstd::arithmetic::div_mod::lemma_fundamental_div_mod(j, 8);
                    vstd::arithmetic::div_mod::lemma_fundamental_div_mod(index as int, 8);
                    if j / 8 == byte_index {
                        assert(nth_bit(nb, (7 - j % 8) as u8)
                            == (nth_bit(b, (7 - j % 8) as u8) || (7 - j % 8) as u8 == k));
                    }
                }
            }
        }
    }

    /// Mark piece `index` as not held.  An index outside the bitfield is
    /// ignored.
    pub fn clear_piece(&mut self, index: usize)
        requires
            old(self).wf(),
        ensures
            final(self).wf(),
            final(self).spec_num_pieces() == old(self).spec_num_pieces(),
            forall|j: int| #[trigger] final(self).spec_has(j)
                <==> old(self).spec_has(j) && j != index,
    {
        if index >= self.num_pieces {
            return;
        }
        let byte_index = index / 8;
        let k: u8 = (7 - (index % 8)) as u8;
        let b = self.bytes[byte_index];
        self.bytes.set(byte_index, b & !(1u8 << k));
        proof {
            let nb = (b & !(1u8 << k)) as u8;
            assert forall|kk: u8| kk < 8 implies
                #[trigger] nth_bit(nb, kk) == (nth_bit(b, kk) && kk != k) by {
                assert(k < 8 ==> kk < 8 ==> (((b & !(1u8 << k)) >> kk) & 1 == 1)
                    == ((b >> kk) & 1 == 1 && kk != k)) by (bit_vector);
            }
            assert forall|j: int| #[trigger] self.spec_has(j)
                <==> old(self).spec_has(j) && j != index by {
                if 0 <= j < self.num_pieces {
                    vstd::arithmetic::div_mod::lemma_fundamental_div_mod(j, 8);
                    vstd::arithmetic::div_mod::lemma_fundamental_div_mod(index as int, 8);
                    if j / 8 == byte_index {
                        assert(nth_bit(nb, (7 - j % 8) as u8)
                            == (nth_bit(b, (7 - j % 8) as u8) && (7 - j % 8) as u8 != k));
                    }
                }
            }
        }
    }

    /// How many pieces the bitfield describes.
    pub fn num_pieces(&self) -> (r: usize)
        ensures
            r == self.spec_num_pieces(),
    {
        self.num_pieces
    }

    /// How many pieces are held.
    pub fn count_pieces(&self) -> (r: usize)
        requires
            self.wf(),
        ensures
            r == self.spec_count(),
    {
        let mut count: usize = 0;
        let mut i: usize = 0;
        while i < self.num_pieces
            invariant
                self.wf(),
                i <= self.num_pieces,
                count == self.count_up_to(i as int),
                count <= i,
            decreases self.num_pieces - i,
        {
            proof {
                self.lemma_count_bounds(i as int);
            }
            if self.has_piece(i) {
                count = count + 1;
            }
            i = i + 1;
        }
        count
    }

    /// Whether every piece is held.
    pub fn is_complete(&self) -> (r: bool)
        requires
            self.wf(),
        ensures
            r == (self.spec_count() == self.spec_num_pieces()),
    {
        self.count_pieces() == self.num_pieces
    }

    /// Whether no piece is held.
    pub fn is_empty(&self) -> (r: bool)
        requires
            self.wf(),
        ensures
            r == (self.spec_count() == 0),
    {
        self.count_pieces() == 0
    }

    /// The packed bytes, as sent in a BITFIELD message.
    pub fn as_bytes(&self) -> (r: &Vec<u8>)
        ensures
            r@ == self.spec_bytes(),
    {
        &self.bytes
    }

    /// The indices in `0..n` that satisfy `has`, in ascending order.
    pub closed spec fn indices_where(self, other: Option<Bitfield>, mode: int, n: int) -> Seq<usize>
        decreases n,
    {
        if n <= 0 {
            Seq::empty()
        } else {
            self.indices_where(other, mode, n - 1) + if self.index_matches(other, mode, n - 1) {
                seq![(n - 1) as usize]
            } else {
                seq![]
            }
        }
    }

    /// Which pieces a filtering mode selects: 0 = held, 1 = missing,
    /// 2 = missing here but held by the other endpoint.
    pub open spec fn index_matches(self, other: Option<Bitfield>, mode: int, i: int) -> bool {
        if mode == 0 {
            self.spec_has(i)
        } else if mode == 1 {
            !self.spec_has(i)
        } else {
            !self.spec_has(i) && (other matches Some(o) && o.spec_has(i))
        }
    }

    /// The piece count fits the machine.
    pub proof fn lemma_num_pieces_bound(self)
        ensures
            0 <= self.spec_num_pieces() <= usize::MAX,
    {
    }

    /// Only real piece indices are ever held.
    pub proof fn lemma_has_in_range(self, i: int)
        ensures
            self.spec_has(i) ==> 0 <= i < self.spec_num_pieces(),
    {
    }

    /// `indices_where` lists exactly the matching indices, in ascending
    /// order.
    pub proof fn lemma_indices_where(self, other: Option<Bitfield>, mode: int, n: int)
        requires
            n <= usize::MAX,
        ensures
            forall|i: int| 0 <= i < n && self.index_matches(other, mode, i)
                ==> self.indices_where(other, mode, n).contains(i as usize),
            forall|k: int| 0 <= k < self.indices_where(other, mode, n).len()
                ==> {
                    let v = #[trigger] self.indices_where(other, mode, n)[k];
                    0 <= v < n && self.index_matches(other, mode, v as int)
                },
            forall|k1: int, k2: int| 0 <= k1 < k2 < self.indices_where(other, mode, n).len()
                ==> #[trigger] self.indices_where(other, mode, n)[k1] < #[trigger] self.indices_where(
                    other,
                    mode,
                    n,
                )[k2],
        decreases n,
    {
        if n > 0 {
            self.lemma_indices_where(other, mode, n - 1);
            let prev = self.indices_where(other, mode, n - 1);
            let cur = self.indices_where(other, mode, n);
            assert forall|i: int| 0 <= i < n && self.index_matches(other, mode, i)
                implies cur.contains(i as usize) by {
                if i < n - 1 {
                    let k = choose|k: int| 0 <= k < prev.len() && prev[k] == i as usize;
                    assert(cur[k] == i as usize);
                } else {
                    assert(self.index_matches(other, mode, n - 1));
                    assert(cur[cur.len() - 1] == (n - 1) as usize);
                }
            }
            assert forall|k: int| 0 <= k < cur.len() implies {
                let v = #[trigger] cur[k];
                0 <= v < n && self.index_matches(other, mode, v as int)
            } by {
                if k < prev.len() {
                    assert(cur[k] == prev[k]);
                } else {
                    assert(cur[k] == (n - 1) as usize);
                }
            }
            assert forall|k1: int, k2: int| 0 <= k1 < k2 < cur.len() implies #[trigger] cur[k1]
                < #[trigger] cur[k2] by {
                assert(cur[k1] == prev[k1]);
                if k2 < prev.len() {
                    assert(cur[k2] == prev[k2]);
                } else {
                    assert(cur[k2] == (n - 1) as usize);
                    assert(prev[k1] < n - 1);
                }
            }
        }
    }

    /// The pieces held, in ascending order.
    pub fn available_pieces(&self) -> (r: Vec<usize>)
        requires
            self.wf(),
        ensures
            r@ == self.indices_where(None, 0, self.spec_num_pieces()),
            forall|k: int| 0 <= k < r@.len() ==> self.spec_has(#[trigger] r@[k] as int),
    {
        let mut out: Vec<usize> = Vec::new();
        let mut i: usize = 0;
        while i < self.num_pieces
            invariant
                self.wf(),
                i <= self.num_pieces,
                out@ == self.indices_where(None, 0, i as int),
                forall|k: int| 0 <= k < out@.len() ==> self.spec_has(#[trigger] out@[k] as int),
            decreases self.num_pieces - i,
        {
            if self.has_piece(i) {
                out.push(i);
            }
            proof {
                assert(out@ =~= self.indices_where(None, 0, i + 1));
            }
            i = i + 1;
        }
        out
    }

    /// The pieces missing, in ascending order.
    pub fn missing_pieces(&self) -> (r: Vec<usize>)
        requires
            self.wf(),
        ensures
            r@ == self.indices_where(None, 1, self.spec_num_pieces()),
            forall|k: int| 0 <= k < r@.len() ==> !self.spec_has(#[trigger] r@[k] as int),
    {
        let mut out: Vec<usize> = Vec::new();
        let mut i: usize = 0;
        while i < self.num_pieces
            invariant
                self.wf(),
                i <= self.num_pieces,
                out@ == self.indices_where(None, 1, i as int),
                forall|k: int| 0 <= k < out@.len() ==> !self.spec_has(#[trigger] out@[k] as int),
            decreases self.num_pieces - i,
        {
            if !self.has_piece(i) {
                out.push(i);
            }
            proof {
                assert(out@ =~= self.indices_where(None, 1, i + 1));
            }
            i = i + 1;
        }
        out
    }

    /// The pieces the peer has and we lack, in ascending order: the
    /// candidates worth requesting from that peer.
    pub fn pieces_to_request(&self, peer: &Bitfield) -> (r: Vec<usize>)
        requires
            self.wf(),
            peer.wf(),
        ensures
            r@ == self.indices_where(Some(*peer), 2, self.spec_num_pieces()),
            forall|k: int| 0 <= k < r@.len()
                ==> !self.spec_has(#[trigger] r@[k] as int) && peer.spec_has(r@[k] as int),
    {
        let mut out: Vec<usize> = Vec::new();
        let mut i: usize = 0;
        while i < self.num_pieces
            invariant
                self.wf(),
                peer.wf(),
                i <= self.num_pieces,
                out@ == self.indices_where(Some(*peer), 2, i as int),
                forall|k: int| 0 <= k < out@.len()
                    ==> !self.spec_has(#[trigger] out@[k] as int) && peer.spec_has(out@[k] as int),
            decreases self.num_pieces - i,
        {
            if !self.has_piece(i) && peer.has_piece(i) {
                out.push(i);
            }
            proof {
                assert(out@ =~= self.indices_where(Some(*peer), 2, i + 1));
            }
            i = i + 1;
        }
        out
    }

    /// The union of two bitfields over the same piece count: a piece is held
    /// in the result when either endpoint holds it.
    pub fn union(&self, other: &Bitfield) -> (r: Bitfield)
        requires
            self.wf(),
            other.wf(),
            self.spec_num_pieces() == other.spec_num_pieces(),
        ensures
            r.wf(),
            r.spec_num_pieces() == self.spec_num_pieces(),
            forall|i: int| #[trigger] r.spec_has(i) == (self.spec_has(i) || other.spec_has(i)),
    {
        let n = if self.bytes.len() <= other.bytes.len() {
            self.bytes.len()
        } else {
            other.bytes.len()
        };
        let mut bytes: Vec<u8> = Vec::new();
        let mut k: usize = 0;
        while k < n
            invariant
                n <= self.bytes@.len(),
                n <= other.bytes@.len(),
                bytes@.len() == k <= n,
                forall|j: int| 0 <= j < k
                    ==> #[trigger] bytes@[j] == (self.bytes@[j] | other.bytes@[j]),
            decreases n - k,
        {
            bytes.push(self.bytes[k] | other.bytes[k]);
            k = k + 1;
        }
        let r = Bitfield { bytes, num_pieces: self.num_pieces };
        proof {
            assert forall|i: int| #[trigger] r.spec_has(i)
                == (self.spec_has(i) || other.spec_has(i)) by {
                if 0 <= i < r.num_pieces {
                    let a = self.bytes@[i / 8];
                    let b = other.bytes@[i / 8];
                    let kk = (7 - i % 8) as u8;
                    assert(kk < 8 ==> (((a | b) >> kk) & 1 == 1)
                        == (((a >> kk) & 1 == 1) || ((b >> kk) & 1 == 1))) by (bit_vector);
                }
            }
        }
        r
    }

    /// The intersection of two bitfields over the same piece count: a piece
    /// is held in the result when both endpoints hold it.
    pub fn intersection(&self, other: &Bitfield) -> (r: Bitfield)
        requires
            self.wf(),
            other.wf(),
            self.spec_num_pieces() == other.spec_num_pieces(),
        ensures
            r.wf(),
            r.spec_num_pieces() == self.spec_num_pieces(),
            forall|i: int| #[trigger] r.spec_has(i) == (self.spec_has(i) && other.spec_has(i)),
    {
        let n = if self.bytes.len() <= other.bytes.len() {
            self.bytes.len()
        } else {
            other.bytes.len()
        };
        let mut bytes: Vec<u8> = Vec::new();
        let mut k: usize = 0;
        while k < n
            invariant
                n <= self.bytes@.len(),
                n <= other.bytes@.len(),
                bytes@.len() == k <= n,
                forall|j: int| 0 <= j < k
                    ==> #[trigger] bytes@[j] == (self.bytes@[j] & other.bytes@[j]),
            decreases n - k,
        {
            bytes.push(self.bytes[k] & other.bytes[k]);
            k = k + 1;
        }
        let r = Bitfield { bytes, num_pieces: self.num_pieces };
        proof {
            assert forall|i: int| #[trigger] r.spec_has(i)
                == (self.spec_has(i) && other.spec_has(i)) by {
                if 0 <= i < r.num_pieces {
                    let a = self.bytes@[i / 8];
                    let b = other.bytes@[i / 8];
                    let kk = (7 - i % 8) as u8;
                    assert(kk < 8 ==> (((a & b) >> kk) & 1 == 1)
                        == (((a >> kk) & 1 == 1) && ((b >> kk) & 1 == 1))) by (bit_vector);
                }
            }
        }
        r
    }
}

} // verus!
