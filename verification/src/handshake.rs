//! The 68-byte handshake that opens every peer connection: a length byte
//! (19), the protocol name, eight reserved bytes, the 20-byte info hash and
//! the 20-byte peer id.

use vstd::prelude::*;

verus! {

use crate::bitfield::nth_bit;
use crate::error::Error;
use vstd::string::StringExecFns;

/// The bytes of the protocol name `BitTorrent protocol`.
pub open spec fn protocol_name() -> Seq<u8> {
    seq![
        66u8, 105, 116, 84, 111, 114, 114, 101, 110, 116, 32, 112, 114, 111, 116, 111, 99, 111,
        108,
    ]
}

/// The opening message of a peer connection.
#[derive(Debug, Clone, PartialEq, Eq)]
pub struct Handshake {
    /// Protocol name; `BitTorrent protocol` on every conforming wire.
    pub protocol: Vec<u8>,
    /// Extension bits; all zero for this engine.
    pub reserved: [u8; 8],
    /// The digest identifying the torrent.
    pub info_hash: [u8; 20],
    /// The sender's peer id.
    pub peer_id: [u8; 20],
}

/// The 68 wire bytes of a handshake whose protocol name is 19 bytes long.
pub open spec fn hs_wire(h: Handshake) -> Seq<u8> {
    seq![19u8] + h.protocol@ + h.reserved@ + h.info_hash@ + h.peer_id@
}

/// Whether 68 bytes form a well-formed handshake: length byte 19 and the
/// standard protocol name.
pub open spec fn hs_ok(data: Seq<u8>) -> bool {
    data.len() == 68 && data[0] == 19 && data.subrange(1, 20) == protocol_name()
}

impl Handshake {
    /// A handshake for `info_hash` signed with `peer_id`, with the standard
    /// protocol name and all reserved bits clear.
    pub fn new(info_hash: [u8; 20], peer_id: [u8; 20]) -> (r: Handshake)
        ensures
            r.protocol@ == protocol_name(),
            r.reserved@ =~= seq![0u8, 0, 0, 0, 0, 0, 0, 0],
            r.info_hash@ == info_hash@,
            r.peer_id@ == peer_id@,
    {
        let protocol: Vec<u8> = vec![
            66u8, 105, 116, 84, 111, 114, 114, 101, 110, 116, 32, 112, 114, 111, 116, 111, 99,
            111, 108,
        ];
        proof {
            assert(protocol@ =~= protocol_name());
        }
        Handshake { protocol, reserved: [0u8; 8], info_hash, peer_id }
    }

    /// Parse 68 wire bytes.  Succeeds exactly on well-formed handshakes and
    /// returns their fields verbatim.
    pub fn from_bytes(data: &[u8]) -> (r: Result<Handshake, Error>)
        ensures
            r is Ok <==> hs_ok(data@),
            r matches Ok(h) ==> h.protocol@ == data@.subrange(1, 20) && h.reserved@
                == data@.subrange(20, 28) && h.info_hash@ == data@.subrange(28, 48) && h.peer_id@
                == data@.subrange(48, 68),
            r matches Err(e) ==> e is InvalidData,
    {
        if data.len() != 68 {
            return Err(Error::InvalidData(String::from_str("handshake must be 68 bytes")));
        }
        if data[0] != 19 {
            return Err(Error::InvalidData(String::from_str("protocol name length must be 19")));
        }
        let expected: [u8; 19] = [
            66u8, 105, 116, 84, 111, 114, 114, 101, 110, 116, 32, 112, 114, 111, 116, 111, 99,
            111, 108,
        ];
        proof {
            assert(expected@ =~= protocol_name());
        }
        let protocol = vstd::slice::slice_to_vec(vstd::slice::slice_subrange(data, 1, 20));
        if !crate::bencode::slice_eq(protocol.as_slice(), expected.as_slice()) {
            return Err(Error::InvalidData(String::from_str(
                "protocol name must be 'BitTorrent protocol'",
            )));
        }
        let mut reserved: [u8; 8] = [0u8; 8];
        let mut i: usize = 0;
        while i < 8
            invariant
                i <= 8,
                data@.len() == 68,
                forall|j: int| 0 <= j < i ==> reserved@[j] == data@[20 + j],
            decreases 8 - i,
        {
            reserved[i] = data[20 + i];
            i = i + 1;
        }
        let mut info_hash: [u8; 20] = [0u8; 20];
        let mut k: usize = 0;
        while k < 20
            invariant
                k <= 20,
                data@.len() == 68,
                forall|j: int| 0 <= j < k ==> info_hash@[j] == data@[28 + j],
            decreases 20 - k,
        {
            info_hash[k] = data[28 + k];
            k = k + 1;
        }
        let mut peer_id: [u8; 20] = [0u8; 20];
        let mut t: usize = 0;
        while t < 20
            invariant
                t <= 20,
                data@.len() == 68,
                forall|j: int| 0 <= j < t ==> peer_id@[j] == data@[48 + j],
            decreases 20 - t,
        {
            peer_id[t] = data[48 + t];
            t = t + 1;
        }
        let r = Handshake { protocol, reserved, info_hash, peer_id };
        proof {
            assert(r.reserved@ =~= data@.subrange(20, 28));
            assert(r.info_hash@ =~= data@.subrange(28, 48));
            assert(r.peer_id@ =~= data@.subrange(48, 68));
        }
        Ok(r)
    }

    /// The 68 wire bytes of this handshake.
    pub fn to_bytes(&self) -> (r: Vec<u8>)
        requires
            self.protocol@.len() == 19,
        ensures
            r@ == hs_wire(*self),
    {
        let mut out: Vec<u8> = Vec::new();
        out.push(19);
        crate::text::push_all(self.protocol.as_slice(), &mut out);
        crate::text::push_all(self.reserved.as_slice(), &mut out);
        crate::text::push_all(self.info_hash.as_slice(), &mut out);
        crate::text::push_all(self.peer_id.as_slice(), &mut out);
        proof {
            assert(out@ =~= hs_wire(*self));
        }
        out
    }

    /// Whether the given reserved extension bit is set.  Bits beyond the
    /// eight reserved bytes read as clear.
    pub fn supports_extension(&self, bit: u8) -> (r: bool)
        ensures
            r == (bit < 64 && nth_bit(self.reserved@[bit as int / 8], bit % 8)),
    {
        let byte_idx = (bit / 8) as usize;
        let bit_idx = bit % 8;
        if byte_idx >= 8 {
            return false;
        }
        (self.reserved[byte_idx] >> bit_idx) & 1 == 1
    }

    /// Set the given reserved extension bit.  Bits beyond the eight
    /// reserved bytes are ignored.
    pub fn enable_extension(&mut self, bit: u8)
        ensures
            final(self).protocol == old(self).protocol,
            final(self).info_hash == old(self).info_hash,
            final(self).peer_id == old(self).peer_id,
            forall|b: u8| b < 64 ==> #[trigger] nth_bit(final(self).reserved@[b as int / 8], b % 8)
                == (nth_bit(old(self).reserved@[b as int / 8], b % 8) || b == bit),
            bit >= 64 ==> final(self).reserved == old(self).reserved,
    {
        let byte_idx = (bit / 8) as usize;
        let bit_idx = bit % 8;
        if byte_idx < 8 {
            let old_byte = self.reserved[byte_idx];
            self.reserved[byte_idx] = old_byte | (1u8 << bit_idx);
            proof {
                let nb = (old_byte | (1u8 << bit_idx)) as u8;
                assert forall|kk: u8| kk < 8 implies #[trigger] nth_bit(nb, kk) == (nth_bit(
                    old_byte,
                    kk,
                ) || kk == bit_idx) by {
                    assert(bit_idx < 8 ==> kk < 8 ==> (((old_byte | (1u8 << bit_idx)) >> kk) & 1
                        == 1) == ((old_byte >> kk) & 1 == 1 || kk == bit_idx)) by (bit_vector);
                }
                assert forall|b: u8| b < 64 implies #[trigger] nth_bit(
                    self.reserved@[b as int / 8],
                    b % 8,
                ) == (nth_bit(old(self).reserved@[b as int / 8], b % 8) || b == bit) by {
                    assert(b < 64 ==> b / 8 < 8) by (bit_vector);
                    assert(b % 8 < 8) by (bit_vector);
                    assert(b as int / 8 == (b / 8) as int);
                    if b as int / 8 == byte_idx as int {
                        assert(nth_bit(nb, b % 8) == (nth_bit(old_byte, b % 8) || b % 8
                            == bit_idx));
                        assert((b % 8 == bit % 8 && b / 8 == bit / 8) == (b == bit)) by (
                        bit_vector);
                    }
                }
            }
        }
    }
}

/// Validate a remote handshake against the torrent we serve: the 68 bytes
/// must parse and carry exactly our info hash.  On any failure the caller
/// closes the connection and opens no session.
pub fn accept_handshake(data: &[u8], expected_info_hash: &[u8; 20]) -> (r: Result<
    Handshake,
    Error,
>)
    ensures
        r is Ok <==> hs_ok(data@) && data@.subrange(28, 48) == expected_info_hash@,
        r matches Ok(h) ==> h.info_hash@ == expected_info_hash@ && h.peer_id@ == data@.subrange(
            48,
            68,
        ),
        r matches Err(e) ==> e is InvalidData || e is NetworkError,
{
    let h = match Handshake::from_bytes(data) {
        Ok(h) => h,
        Err(e) => {
            return Err(e);
        },
    };
    if !crate::bencode::slice_eq(h.info_hash.as_slice(), expected_info_hash.as_slice()) {
        return Err(Error::NetworkError(String::from_str("info hash mismatch")));
    }
    Ok(h)
}

} // verus!
