//! Wire protocol messages: a four-byte big-endian length prefix followed by
//! a one-byte id and its payload.  A zero length is a keep-alive.

use vstd::prelude::*;

verus! {

use crate::error::Error;
use vstd::string::StringExecFns;

/// The value of four big-endian bytes.
pub open spec fn be32(b0: u8, b1: u8, b2: u8, b3: u8) -> u32 {
    ((b0 as int) * 0x1000000 + (b1 as int) * 0x10000 + (b2 as int) * 0x100 + (b3 as int)) as u32
}

/// The four big-endian bytes of a 32-bit value.
pub open spec fn u32_bytes(x: u32) -> Seq<u8> {
    seq![
        (x / 0x1000000) as u8,
        ((x / 0x10000) % 0x100) as u8,
        ((x / 0x100) % 0x100) as u8,
        (x % 0x100) as u8,
    ]
}

/// Reading back the four bytes of a value gives the value.
pub proof fn lemma_be32_round_trip(x: u32)
    ensures
        be32(u32_bytes(x)[0], u32_bytes(x)[1], u32_bytes(x)[2], u32_bytes(x)[3]) == x,
{
    let b = u32_bytes(x);
    assert(b[0] == (x / 0x1000000) as u8);
    assert((x / 0x1000000) * 0x1000000 + ((x / 0x10000) % 0x100) * 0x10000 + ((x / 0x100) % 0x100)
        * 0x100 + (x % 0x100) == x) by (nonlinear_arith);
}

/// The value of four big-endian bytes, as an executable function.
pub fn read_u32_be(b0: u8, b1: u8, b2: u8, b3: u8) -> (r: u32)
    ensures
        r == be32(b0, b1, b2, b3),
{
    (b0 as u32) * 0x1000000 + (b1 as u32) * 0x10000 + (b2 as u32) * 0x100 + (b3 as u32)
}

/// Append the four big-endian bytes of `x` to `out`.
pub fn push_u32_be(x: u32, out: &mut Vec<u8>)
    ensures
        final(out)@ == old(out)@ + u32_bytes(x),
{
    out.push((x / 0x1000000) as u8);
    out.push(((x / 0x10000) % 0x100) as u8);
    out.push(((x / 0x100) % 0x100) as u8);
    out.push((x % 0x100) as u8);
    proof {
        assert(out@ =~= old(out)@ + u32_bytes(x));
    }
}

/// The id byte of each message kind.
#[derive(Debug, Clone, Copy, PartialEq, Eq)]
pub enum MessageId {
    /// We will not serve requests.
    Choke,
    /// We will serve requests.
    Unchoke,
    /// We want pieces the peer has.
    Interested,
    /// We want nothing the peer has.
    NotInterested,
    /// The sender now has the given piece.
    Have,
    /// The sender's packed piece bitfield.
    Bitfield,
    /// Ask for a block.
    Request,
    /// A block of data.
    Piece,
    /// Withdraw an earlier request.
    Cancel,
}

impl MessageId {
    /// The wire id of this kind.
    pub open spec fn spec_code(self) -> u8 {
        match self {
            MessageId::Choke => 0,
            MessageId::Unchoke => 1,
            MessageId::Interested => 2,
            MessageId::NotInterested => 3,
            MessageId::Have => 4,
            MessageId::Bitfield => 5,
            MessageId::Request => 6,
            MessageId::Piece => 7,
            MessageId::Cancel => 8,
        }
    }

    /// The wire id of this kind.
    pub fn code(&self) -> (r: u8)
        ensures
            r == self.spec_code(),
    {
        match self {
            MessageId::Choke => 0,
            MessageId::Unchoke => 1,
            MessageId::Interested => 2,
            MessageId::NotInterested => 3,
            MessageId::Have => 4,
            MessageId::Bitfield => 5,
            MessageId::Request => 6,
            MessageId::Piece => 7,
            MessageId::Cancel => 8,
        }
    }

    /// The kind named by a wire id; ids above 8 are unknown.
    pub fn from_u8(value: u8) -> (r: Result<MessageId, Error>)
        ensures
            r matches Ok(id) ==> id.spec_code() == value,
            r is Ok <==> value <= 8,
            r matches Err(e) ==> e is InvalidData,
    {
        match value {
            0 => Ok(MessageId::Choke),
            1 => Ok(MessageId::Unchoke),
            2 => Ok(MessageId::Interested),
            3 => Ok(MessageId::NotInterested),
            4 => Ok(MessageId::Have),
            5 => Ok(MessageId::Bitfield),
            6 => Ok(MessageId::Request),
            7 => Ok(MessageId::Piece),
            8 => Ok(MessageId::Cancel),
            _ => Err(Error::InvalidData(String::from_str("unknown message id"))),
        }
    }
}

/// A peer wire message.
#[derive(Debug, PartialEq, Eq)]
pub enum Message {
    /// Empty frame; resets the idle timer and nothing else.
    KeepAlive,
    /// We will not serve requests.
    Choke,
    /// We will serve requests.
    Unchoke,
    /// We want pieces the peer has.
    Interested,
    /// We want nothing the peer has.
    NotInterested,
    /// The sender now has this piece.
    Have { piece_index: u32 },
    /// The sender's packed piece bitfield.
    Bitfield { bitfield: Vec<u8> },
    /// Ask for `length` bytes at `begin` within piece `index`.
    Request { index: u32, begin: u32, length: u32 },
    /// The block at `begin` within piece `index`.
    Piece { index: u32, begin: u32, data: Vec<u8> },
    /// Withdraw the matching request.
    Cancel { index: u32, begin: u32, length: u32 },
}

/// The id byte and payload of a message, without the length prefix.  A
/// keep-alive has no bytes at all.
pub open spec fn msg_payload(m: Message) -> Seq<u8> {
    match m {
        Message::KeepAlive => Seq::empty(),
        Message::Choke => seq![0u8],
        Message::Unchoke => seq![1u8],
        Message::Interested => seq![2u8],
        Message::NotInterested => seq![3u8],
        Message::Have { piece_index } => seq![4u8] + u32_bytes(piece_index),
        Message::Bitfield { bitfield } => seq![5u8] + bitfield@,
        Message::Request { index, begin, length } => seq![6u8] + u32_bytes(index) + u32_bytes(
            begin,
        ) + u32_bytes(length),
        Message::Piece { index, begin, data } => seq![7u8] + u32_bytes(index) + u32_bytes(begin)
            + data@,
        Message::Cancel { index, begin, length } => seq![8u8] + u32_bytes(index) + u32_bytes(
            begin,
        ) + u32_bytes(length),
    }
}

/// The full frame of a message: length prefix, then id and payload.
pub open spec fn msg_wire(m: Message) -> Seq<u8> {
    u32_bytes(msg_payload(m).len() as u32) + msg_payload(m)
}

/// Whether a frame body (id byte and payload, no length prefix) is a
/// message this module can represent.
pub open spec fn payload_ok(p: Seq<u8>) -> bool {
    ||| p.len() == 0
    ||| (p[0] <= 3 && p.len() == 1)
    ||| (p[0] == 4 && p.len() == 5)
    ||| (p[0] == 5 && p.len() >= 1)
    ||| (p[0] == 6 && p.len() == 13)
    ||| (p[0] == 7 && p.len() >= 9)
    ||| (p[0] == 8 && p.len() == 13)
}

impl Message {
    /// Parse a frame body.  Succeeds exactly on the payloads of
    /// `payload_ok`, and the message returned re-encodes to the same bytes.
    pub fn from_bytes(data: &[u8]) -> (r: Result<Message, Error>)
        ensures
            r is Ok <==> payload_ok(data@),
            r matches Ok(m) ==> msg_payload(m) == data@,
            r matches Err(e) ==> e is InvalidData,
    {
        let n = data.len();
        if n == 0 {
            proof {
                assert(msg_payload(Message::KeepAlive) =~= data@);
            }
            return Ok(Message::KeepAlive);
        }
        let id = data[0];
        if id == 0 && n == 1 {
            proof {
                assert(msg_payload(Message::Choke) =~= data@);
            }
            Ok(Message::Choke)
        } else if id == 1 && n == 1 {
            proof {
                assert(msg_payload(Message::Unchoke) =~= data@);
            }
            Ok(Message::Unchoke)
        } else if id == 2 && n == 1 {
            proof {
                assert(msg_payload(Message::Interested) =~= data@);
            }
            Ok(Message::Interested)
        } else if id == 3 && n == 1 {
            proof {
                assert(msg_payload(Message::NotInterested) =~= data@);
            }
            Ok(Message::NotInterested)
        } else if id == 4 && n == 5 {
            let piece_index = read_u32_be(data[1], data[2], data[3], data[4]);
            let m = Message::Have { piece_index };
            proof {
                lemma_u32_bytes_of_be32(data@.subrange(1, 5));
                assert(data@.subrange(1, 5) =~= u32_bytes(piece_index));
                assert(msg_payload(m) =~= data@);
            }
            Ok(m)
        } else if id == 5 {
            let bitfield = vstd::slice::slice_to_vec(vstd::slice::slice_subrange(data, 1, n));
            let m = Message::Bitfield { bitfield };
            proof {
                assert(msg_payload(m) =~= data@);
            }
            Ok(m)
        } else if id == 6 && n == 13 {
            let index = read_u32_be(data[1], data[2], data[3], data[4]);
            let begin = read_u32_be(data[5], data[6], data[7], data[8]);
            let length = read_u32_be(data[9], data[10], data[11], data[12]);
            let m = Message::Request { index, begin, length };
            proof {
                lemma_u32_bytes_of_be32(data@.subrange(1, 5));
                lemma_u32_bytes_of_be32(data@.subrange(5, 9));
                lemma_u32_bytes_of_be32(data@.subrange(9, 13));
                assert(msg_payload(m) =~= data@);
            }
            Ok(m)
        } else if id == 7 && n >= 9 {
            let index = read_u32_be(data[1], data[2], data[3], data[4]);
            let begin = read_u32_be(data[5], data[6], data[7], data[8]);
            let block = vstd::slice::slice_to_vec(vstd::slice::slice_subrange(data, 9, n));
            let m = Message::Piece { index, begin, data: block };
            proof {
                lemma_u32_bytes_of_be32(data@.subrange(1, 5));
                lemma_u32_bytes_of_be32(data@.subrange(5, 9));
                assert(msg_payload(m) =~= data@);
            }
            Ok(m)
        } else if id == 8 && n == 13 {
            let index = read_u32_be(data[1], data[2], data[3], data[4]);
            let begin = read_u32_be(data[5], data[6], data[7], data[8]);
            let length = read_u32_be(data[9], data[10], data[11], data[12]);
            let m = Message::Cancel { index, begin, length };
            proof {
                lemma_u32_bytes_of_be32(data@.subrange(1, 5));
                lemma_u32_bytes_of_be32(data@.subrange(5, 9));
                lemma_u32_bytes_of_be32(data@.subrange(9, 13));
                assert(msg_payload(m) =~= data@);
            }
            Ok(m)
        } else {
            Err(Error::InvalidData(String::from_str("malformed message")))
        }
    }

    /// The full frame of this message, length prefix included.
    pub fn to_bytes(&self) -> (r: Vec<u8>)
        requires
            msg_payload(*self).len() <= u32::MAX,
        ensures
            r@ == msg_wire(*self),
    {
        let mut out: Vec<u8> = Vec::new();
        match self {
            Message::KeepAlive => {
                push_u32_be(0, &mut out);
            },
            Message::Choke => {
                push_u32_be(1, &mut out);
                out.push(0);
            },
            Message::Unchoke => {
                push_u32_be(1, &mut out);
                out.push(1);
            },
            Message::Interested => {
                push_u32_be(1, &mut out);
                out.push(2);
            },
            Message::NotInterested => {
                push_u32_be(1, &mut out);
                out.push(3);
            },
            Message::Have { piece_index } => {
                push_u32_be(5, &mut out);
                out.push(4);
                push_u32_be(*piece_index, &mut out);
            },
            Message::Bitfield { bitfield } => {
                push_u32_be(1 + bitfield.len() as u32, &mut out);
                out.push(5);
                crate::text::push_all(bitfield.as_slice(), &mut out);
            },
            Message::Request { index, begin, length } => {
                push_u32_be(13, &mut out);
                out.push(6);
                push_u32_be(*index, &mut out);
                push_u32_be(*begin, &mut out);
                push_u32_be(*length, &mut out);
            },
            Message::Piece { index, begin, data } => {
                push_u32_be(9 + data.len() as u32, &mut out);
                out.push(7);
                push_u32_be(*index, &mut out);
                push_u32_be(*begin, &mut out);
                crate::text::push_all(data.as_slice(), &mut out);
            },
            Message::Cancel { index, begin, length } => {
                push_u32_be(13, &mut out);
                out.push(8);
                push_u32_be(*index, &mut out);
                push_u32_be(*begin, &mut out);
                push_u32_be(*length, &mut out);
            },
        }
        proof {
            assert(out@ =~= msg_wire(*self));
        }
        out
    }

    /// The length that the frame's prefix carries: the byte count of the id
    /// and payload.
    pub fn length(&self) -> (r: u32)
        requires
            msg_payload(*self).len() <= u32::MAX,
        ensures
            r == msg_payload(*self).len(),
    {
        match self {
            Message::KeepAlive => 0,
            Message::Choke | Message::Unchoke | Message::Interested | Message::NotInterested => 1,
            Message::Have { .. } => 5,
            Message::Bitfield { bitfield } => 1 + bitfield.len() as u32,
            Message::Request { .. } | Message::Cancel { .. } => 13,
            Message::Piece { data, .. } => 9 + data.len() as u32,
        }
    }
}

/// Four bytes are the big-endian spelling of their own value.
proof fn lemma_u32_bytes_of_be32(b: Seq<u8>)
    requires
        b.len() == 4,
    ensures
        u32_bytes(be32(b[0], b[1], b[2], b[3])) == b,
{
    let x = be32(b[0], b[1], b[2], b[3]);
    assert((b[0] as int) * 0x1000000 + (b[1] as int) * 0x10000 + (b[2] as int) * 0x100 + (
    b[3] as int) < 0x100000000);
    assert(x == (b[0] as int) * 0x1000000 + (b[1] as int) * 0x10000 + (b[2] as int) * 0x100 + (
    b[3] as int));
    assert(x / 0x1000000 == b[0] && (x / 0x10000) % 0x100 == b[1] && (x / 0x100) % 0x100 == b[2]
        && x % 0x100 == b[3]) by (nonlinear_arith)
        requires
            x == (b[0] as int) * 0x1000000 + (b[1] as int) * 0x10000 + (b[2] as int) * 0x100 + (
            b[3] as int),
            b[0] < 0x100,
            b[1] < 0x100,
            b[2] < 0x100,
            b[3] < 0x100,
    ;
    assert(u32_bytes(x) =~= b);
}

} // verus!
