//! The messages of the peer wire protocol, read from and written to their frames.
use vstd::prelude::*;
use crate::wire::{be_bytes, be_u32, lemma_be_roundtrip, push_be_u32, read_be_u32};

verus! {

#[derive(Debug, PartialEq, Eq, Clone, Hash)]
pub enum TorrentTcpMessage {
    KeepAlive,
    Choke,
    Unchoke,
    Interested,
    NotInterested,
    Have(u32),
    Bitfield(Vec<u8>),
    Request { index: u32, begin: u32, length: u32 },
    Piece { index: u32, begin: u32, block: Vec<u8> },
    Cancel { index: u32, begin: u32, length: u32 },
}

/// A message as a mathematical value.
pub enum Message {
    KeepAlive,
    Choke,
    Unchoke,
    Interested,
    NotInterested,
    Have(u32),
    Bitfield(Seq<u8>),
    Request { index: u32, begin: u32, length: u32 },
    Piece { index: u32, begin: u32, block: Seq<u8> },
    Cancel { index: u32, begin: u32, length: u32 },
}

impl View for TorrentTcpMessage {
    type V = Message;

    open spec fn view(&self) -> Message {
        match self {
            TorrentTcpMessage::KeepAlive => Message::KeepAlive,
            TorrentTcpMessage::Choke => Message::Choke,
            TorrentTcpMessage::Unchoke => Message::Unchoke,
            TorrentTcpMessage::Interested => Message::Interested,
            TorrentTcpMessage::NotInterested => Message::NotInterested,
            TorrentTcpMessage::Have(i) => Message::Have(*i),
            TorrentTcpMessage::Bitfield(b) => Message::Bitfield(b@),
            TorrentTcpMessage::Request { index, begin, length } => Message::Request {
                index: *index,
                begin: *begin,
                length: *length,
            },
            TorrentTcpMessage::Piece { index, begin, block } => Message::Piece {
                index: *index,
                begin: *begin,
                block: block@,
            },
            TorrentTcpMessage::Cancel { index, begin, length } => Message::Cancel {
                index: *index,
                begin: *begin,
                length: *length,
            },
        }
    }
}

/// A frame whose message id is none the protocol knows.
#[derive(Debug, Clone, Copy, PartialEq, Eq)]
pub enum MessageError {
    UnknownId(u8),
}

/// The payload is long enough for what a message with this id reads of it:
/// 4 bytes for `have`, 12 for `request` and `cancel`, 8 for `piece`.
pub open spec fn payload_long_enough(id: u8, len: nat) -> bool {
    &&& id == 4 ==> len >= 4
    &&& (id == 6 || id == 8) ==> len >= 12
    &&& id == 7 ==> len >= 8
}

/// The message that a frame with id `id` and payload `p` carries; `None` for an unknown id.
/// Bytes past what the message reads are not looked at.
pub open spec fn spec_parse_message(id: u8, p: Seq<u8>) -> Option<Message> {
    if id == 0 {
        Some(Message::Choke)
    } else if id == 1 {
        Some(Message::Unchoke)
    } else if id == 2 {
        Some(Message::Interested)
    } else if id == 3 {
        Some(Message::NotInterested)
    } else if id == 4 {
        Some(Message::Have(be_u32(p, 0)))
    } else if id == 5 {
        Some(Message::Bitfield(p))
    } else if id == 6 {
        Some(Message::Request { index: be_u32(p, 0), begin: be_u32(p, 4), length: be_u32(p, 8) })
    } else if id == 7 {
        Some(Message::Piece { index: be_u32(p, 0), begin: be_u32(p, 4), block: p.skip(8) })
    } else if id == 8 {
        Some(Message::Cancel { index: be_u32(p, 0), begin: be_u32(p, 4), length: be_u32(p, 8) })
    } else {
        None
    }
}

/// The bytes a message is written as: the id and the payload, the frame's length being left
/// to the framing. `keep-alive` is four zero bytes.
pub open spec fn spec_serialize_message(m: Message) -> Seq<u8> {
    match m {
        Message::KeepAlive => seq![0u8, 0, 0, 0],
        Message::Choke => seq![0u8],
        Message::Unchoke => seq![1u8],
        Message::Interested => seq![2u8],
        Message::NotInterested => seq![3u8],
        Message::Have(i) => seq![4u8] + be_bytes(i),
        Message::Bitfield(b) => seq![5u8] + b,
        Message::Request { index, begin, length } => seq![6u8] + be_bytes(index) + be_bytes(begin)
            + be_bytes(length),
        Message::Piece { index, begin, block } => seq![7u8] + be_bytes(index) + be_bytes(begin)
            + block,
        Message::Cancel { index, begin, length } => seq![8u8] + be_bytes(index) + be_bytes(begin)
            + be_bytes(length),
    }
}

/// Appends the bytes of `b`.
fn push_slice(out: &mut Vec<u8>, b: &[u8])
    ensures
        final(out)@ == old(out)@ + b@,
{
    let mut i: usize = 0;
    while i < b.len()
        invariant
            0 <= i <= b@.len(),
            out@ == old(out)@ + b@.take(i as int),
        decreases b@.len() - i,
    {
        out.push(b[i]);
        i = i + 1;
        assert(out@ =~= old(out)@ + b@.take(i as int));
    }
    assert(b@.take(b@.len() as int) =~= b@);
}

impl TorrentTcpMessage {
    /// Reads the message of a frame from its id and payload; fails for an unknown id.
    pub fn parse(id: &u8, payload: &[u8]) -> (r: Result<Self, MessageError>)
        requires
            payload_long_enough(*id, payload@.len()),
        ensures
            match spec_parse_message(*id, payload@) {
                Some(m) => r matches Ok(x) && x@ == m,
                None => r == Err::<Self, MessageError>(MessageError::UnknownId(*id)),
            },
    {
        match *id {
            0 => Ok(TorrentTcpMessage::Choke),
            1 => Ok(TorrentTcpMessage::Unchoke),
            2 => Ok(TorrentTcpMessage::Interested),
            3 => Ok(TorrentTcpMessage::NotInterested),
            4 => {
                let index = read_be_u32(payload, 0);
                Ok(TorrentTcpMessage::Have(index))
            },
            5 => {
                let mut b: Vec<u8> = Vec::new();
                push_slice(&mut b, payload);
                assert(b@ =~= payload@);
                Ok(TorrentTcpMessage::Bitfield(b))
            },
            6 => {
                let index = read_be_u32(payload, 0);
                let begin = read_be_u32(payload, 4);
                let length = read_be_u32(payload, 8);
                Ok(TorrentTcpMessage::Request { index, begin, length })
            },
            7 => {
                let index = read_be_u32(payload, 0);
                let begin = read_be_u32(payload, 4);
                let rest = vstd::slice::slice_subrange(payload, 8, payload.len());
                let mut block: Vec<u8> = Vec::new();
                push_slice(&mut block, rest);
                assert(block@ =~= payload@.skip(8));
                Ok(TorrentTcpMessage::Piece { index, begin, block })
            },
            8 => {
                let index = read_be_u32(payload, 0);
                let begin = read_be_u32(payload, 4);
                let length = read_be_u32(payload, 8);
                Ok(TorrentTcpMessage::Cancel { index, begin, length })
            },
            _ => Err(MessageError::UnknownId(*id)),
        }
    }

    /// The bytes this message is written as.
    pub fn serialize(&self) -> (r: Vec<u8>)
        ensures
            r@ == spec_serialize_message(self@),
    {
        match self {
            TorrentTcpMessage::KeepAlive => {
                let r = vec![0u8, 0, 0, 0];
                assert(r@ =~= seq![0u8, 0, 0, 0]);
                r
            },
            TorrentTcpMessage::Choke => self.packet(0, &[]),
            TorrentTcpMessage::Unchoke => self.packet(1, &[]),
            TorrentTcpMessage::Interested => self.packet(2, &[]),
            TorrentTcpMessage::NotInterested => self.packet(3, &[]),
            TorrentTcpMessage::Have(index) => {
                let mut payload: Vec<u8> = Vec::new();
                push_be_u32(&mut payload, *index);
                self.packet(4, payload.as_slice())
            },
            TorrentTcpMessage::Bitfield(bitfield) => self.packet(5, bitfield.as_slice()),
            TorrentTcpMessage::Request { index, begin, length } => {
                let mut payload: Vec<u8> = Vec::new();
                push_be_u32(&mut payload, *index);
                push_be_u32(&mut payload, *begin);
                push_be_u32(&mut payload, *length);
                let r = self.packet(6, payload.as_slice());
                assert(r@ =~= spec_serialize_message(self@));
                r
            },
            TorrentTcpMessage::Piece { index, begin, block } => {
                let mut out: Vec<u8> = Vec::new();
                out.push(7);
                push_be_u32(&mut out, *index);
                push_be_u32(&mut out, *begin);
                push_slice(&mut out, block.as_slice());
                assert(out@ =~= spec_serialize_message(self@));
                out
            },
            TorrentTcpMessage::Cancel { index, begin, length } => {
                let mut payload: Vec<u8> = Vec::new();
                push_be_u32(&mut payload, *index);
                push_be_u32(&mut payload, *begin);
                push_be_u32(&mut payload, *length);
                let r = self.packet(8, payload.as_slice());
                assert(r@ =~= spec_serialize_message(self@));
                r
            },
        }
    }

    /// The message id followed by the payload.
    fn packet(&self, id: u8, payload: &[u8]) -> (r: Vec<u8>)
        ensures
            r@ == seq![id] + payload@,
    {
        let mut buf: Vec<u8> = Vec::new();
        buf.push(id);
        push_slice(&mut buf, payload);
        assert(buf@ =~= seq![id] + payload@);
        buf
    }
}

/// Reading back what a message is written as gives the message: the first byte is the id
/// and the rest the payload. `keep-alive` is left out: its four zero bytes read as `choke`.
pub proof fn lemma_message_roundtrip(m: Message)
    requires
        !(m is KeepAlive),
    ensures
        ({
            let b = spec_serialize_message(m);
            &&& b.len() > 0
            &&& payload_long_enough(b[0], b.skip(1).len())
            &&& spec_parse_message(b[0], b.skip(1)) == Some(m)
        }),
{
    let b = spec_serialize_message(m);
    match m {
        Message::Have(i) => {
            let p = b.skip(1);
            assert(p =~= seq![] + be_bytes(i) + seq![]);
            lemma_be_roundtrip(i, seq![], seq![]);
        },
        Message::Bitfield(bits) => {
            assert(b.skip(1) =~= bits);
        },
        Message::Request { index, begin, length } => {
            let p = b.skip(1);
            lemma_be_roundtrip(index, seq![], be_bytes(begin) + be_bytes(length));
            lemma_be_roundtrip(begin, be_bytes(index), be_bytes(length));
            lemma_be_roundtrip(length, be_bytes(index) + be_bytes(begin), seq![]);
            assert(p =~= seq![] + be_bytes(index) + (be_bytes(begin) + be_bytes(length)));
            assert(p =~= be_bytes(index) + be_bytes(begin) + (be_bytes(length)));
            assert(p =~= be_bytes(index) + be_bytes(begin) + be_bytes(length) + seq![]);
        },
        Message::Cancel { index, begin, length } => {
            let p = b.skip(1);
            lemma_be_roundtrip(index, seq![], be_bytes(begin) + be_bytes(length));
            lemma_be_roundtrip(begin, be_bytes(index), be_bytes(length));
            lemma_be_roundtrip(length, be_bytes(index) + be_bytes(begin), seq![]);
            assert(p =~= seq![] + be_bytes(index) + (be_bytes(begin) + be_bytes(length)));
            assert(p =~= be_bytes(index) + be_bytes(begin) + (be_bytes(length)));
            assert(p =~= be_bytes(index) + be_bytes(begin) + be_bytes(length) + seq![]);
        },
        Message::Piece { index, begin, block } => {
            let p = b.skip(1);
            lemma_be_roundtrip(index, seq![], be_bytes(begin) + block);
            lemma_be_roundtrip(begin, be_bytes(index), block);
            assert(p =~= seq![] + be_bytes(index) + (be_bytes(begin) + block));
            assert(p =~= be_bytes(index) + be_bytes(begin) + block);
            assert(b[0] == 7);
            assert(p.skip(8) =~= block);
        },
        _ => {},
    }
}

/// The number four bytes stand for, most significant first.
pub open spec fn big_endian(a: u8, b: u8, c: u8, d: u8) -> int {
    a * 16777216 + b * 65536 + c * 256 + d
}

proof fn lemma_be_bytes_value(x: u32)
    ensures
        be_bytes(x).len() == 4,
        big_endian(be_bytes(x)[0], be_bytes(x)[1], be_bytes(x)[2], be_bytes(x)[3]) == x,
{
    lemma_be_roundtrip(x, seq![], seq![]);
    assert(seq![] + be_bytes(x) + seq![] =~= be_bytes(x));
}

proof fn lemma_be_u32_value(p: Seq<u8>, i: int)
    requires
        0 <= i,
        i + 4 <= p.len(),
    ensures
        be_u32(p, i) == big_endian(p[i], p[i + 1], p[i + 2], p[i + 3]),
{
}

/// The wire layout of the messages with fields, as the protocol fixes it: the id, then each
/// number in four bytes, most significant first, in the order index, begin, length (the block
/// of a `piece` after index and begin); and reading a payload takes the index from its bytes
/// 0..4, the begin from 4..8 and the length from 8..12.
pub proof fn lemma_field_layout(index: u32, begin: u32, length: u32, block: Seq<u8>, p: Seq<u8>)
    ensures
        ({
            let b = spec_serialize_message(Message::Request { index, begin, length });
            &&& b.len() == 13 && b[0] == 6
            &&& big_endian(b[1], b[2], b[3], b[4]) == index
            &&& big_endian(b[5], b[6], b[7], b[8]) == begin
            &&& big_endian(b[9], b[10], b[11], b[12]) == length
        }),
        ({
            let b = spec_serialize_message(Message::Cancel { index, begin, length });
            &&& b.len() == 13 && b[0] == 8
            &&& big_endian(b[1], b[2], b[3], b[4]) == index
            &&& big_endian(b[5], b[6], b[7], b[8]) == begin
            &&& big_endian(b[9], b[10], b[11], b[12]) == length
        }),
        ({
            let b = spec_serialize_message(Message::Have(index));
            &&& b.len() == 5 && b[0] == 4
            &&& big_endian(b[1], b[2], b[3], b[4]) == index
        }),
        ({
            let b = spec_serialize_message(Message::Piece { index, begin, block });
            &&& b.len() == 9 + block.len() && b[0] == 7
            &&& big_endian(b[1], b[2], b[3], b[4]) == index
            &&& big_endian(b[5], b[6], b[7], b[8]) == begin
            &&& b.skip(9) == block
        }),
        p.len() >= 12 ==> (spec_parse_message(6, p) matches Some(
            Message::Request { index: i, begin: g, length: l },
        ) && i == big_endian(p[0], p[1], p[2], p[3]) && g == big_endian(p[4], p[5], p[6], p[7])
            && l == big_endian(p[8], p[9], p[10], p[11])),
        p.len() >= 12 ==> (spec_parse_message(8, p) matches Some(
            Message::Cancel { index: i, begin: g, length: l },
        ) && i == big_endian(p[0], p[1], p[2], p[3]) && g == big_endian(p[4], p[5], p[6], p[7])
            && l == big_endian(p[8], p[9], p[10], p[11])),
        p.len() >= 4 ==> (spec_parse_message(4, p) matches Some(Message::Have(i)) && i
            == big_endian(p[0], p[1], p[2], p[3])),
        p.len() >= 8 ==> (spec_parse_message(7, p) matches Some(
            Message::Piece { index: i, begin: g, block: bl },
        ) && i == big_endian(p[0], p[1], p[2], p[3]) && g == big_endian(p[4], p[5], p[6], p[7])
            && bl == p.skip(8)),
{
    lemma_be_bytes_value(index);
    lemma_be_bytes_value(begin);
    lemma_be_bytes_value(length);
    let bi = be_bytes(index);
    let bg = be_bytes(begin);
    let bl = be_bytes(length);
    let r = spec_serialize_message(Message::Request { index, begin, length });
    assert(r =~= seq![6u8, bi[0], bi[1], bi[2], bi[3], bg[0], bg[1], bg[2], bg[3], bl[0], bl[1], bl[2], bl[3]]);
    let c = spec_serialize_message(Message::Cancel { index, begin, length });
    assert(c =~= seq![8u8, bi[0], bi[1], bi[2], bi[3], bg[0], bg[1], bg[2], bg[3], bl[0], bl[1], bl[2], bl[3]]);
    let h = spec_serialize_message(Message::Have(index));
    assert(h =~= seq![4u8, bi[0], bi[1], bi[2], bi[3]]);
    let pc = spec_serialize_message(Message::Piece { index, begin, block });
    assert(pc =~= seq![7u8, bi[0], bi[1], bi[2], bi[3], bg[0], bg[1], bg[2], bg[3]] + block);
    assert(pc.skip(9) =~= block);
    if p.len() >= 12 {
        lemma_be_u32_value(p, 0);
        lemma_be_u32_value(p, 4);
        lemma_be_u32_value(p, 8);
    } else if p.len() >= 8 {
        lemma_be_u32_value(p, 0);
        lemma_be_u32_value(p, 4);
    } else if p.len() >= 4 {
        lemma_be_u32_value(p, 0);
    }
}

} // verus!
