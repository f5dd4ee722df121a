//! The peer wire protocol: length-prefixed messages.

use vstd::prelude::*;
use crate::bitfield::{max_bits, msb0_bit, msb0_bits, Bitfield};
use crate::block::{Block, BlockData, BlockInfo};

verus! {

/// Errors of a peer session.
#[derive(Debug)]
pub enum PeerError {
    Io(std::io::Error),
    /// The handshake named another protocol.
    IncorrectProtocol,
    /// The handshake named another info hash.
    IncorrectInfoHash,
    /// No handshake was received.
    NoHandshake,
    /// A message with an unknown id.
    InvalidMessageId(u8),
    /// A bitfield came after the introduction.
    UnexpectedBitfield,
    /// A message with an invalid payload.
    InvalidMessage,
    /// The connection timed out.
    Timeout,
}

/// A message of the peer wire protocol.
#[derive(Debug, Clone, PartialEq, Eq)]
pub enum Message {
    /// Keeps the connection open.
    KeepAlive,
    /// No further requests will be served.
    Choke,
    /// Requests will be served.
    Unchoke,
    /// The sender wants blocks.
    Interested,
    /// The sender no longer wants blocks.
    NotInterested,
    /// The sender has a piece.
    Have { idx: u32 },
    /// The pieces the sender has.
    Bitfield(Bitfield),
    /// A request for a block.
    Request(BlockInfo),
    /// The data of a block.
    Block(Block),
    /// Cancels a request.
    Cancel(BlockInfo),
    /// The port the sender listens on.
    Port { port: u16 },
}

/// The model of a message.
pub enum MessageView {
    KeepAlive,
    Choke,
    Unchoke,
    Interested,
    NotInterested,
    Have(u32),
    Bitfield(Seq<bool>),
    Request(BlockInfo),
    Block(usize, usize, Seq<u8>),
    Cancel(BlockInfo),
    Port(u16),
}

impl View for Message {
    type V = MessageView;

    open spec fn view(&self) -> MessageView {
        match self {
            Message::KeepAlive => MessageView::KeepAlive,
            Message::Choke => MessageView::Choke,
            Message::Unchoke => MessageView::Unchoke,
            Message::Interested => MessageView::Interested,
            Message::NotInterested => MessageView::NotInterested,
            Message::Have { idx } => MessageView::Have(*idx),
            Message::Bitfield(bf) => MessageView::Bitfield(bf@),
            Message::Request(b) => MessageView::Request(*b),
            Message::Block(b) => MessageView::Block(b.piece_idx, b.offset, b.data.bytes()),
            Message::Cancel(b) => MessageView::Cancel(*b),
            Message::Port { port } => MessageView::Port(*port),
        }
    }
}

/// The four bytes of `v`, most significant first.
pub open spec fn be32(v: u32) -> Seq<u8> {
    seq![(v >> 24u32) as u8, (v >> 16u32) as u8, (v >> 8u32) as u8, v as u8]
}

/// The two bytes of `v`, most significant first.
pub open spec fn be16(v: u16) -> Seq<u8> {
    seq![(v >> 8u16) as u8, v as u8]
}

/// The big-endian `u16` at position `i` of `s`.
pub open spec fn read_be16(s: Seq<u8>, i: int) -> u16 {
    ((s[i] as u16) << 8u16) | (s[i + 1] as u16)
}

/// The big-endian `u32` at position `i` of `s`.
pub open spec fn read_be32(s: Seq<u8>, i: int) -> u32 {
    ((s[i] as u32) << 24u32) | ((s[i + 1] as u32) << 16u32) | ((s[i + 2] as u32) << 8u32) | (s[i + 3] as u32)
}

/// A message with a length prefix, an id byte and a payload.
pub open spec fn framed(len: u32, id: u8, payload: Seq<u8>) -> Seq<u8> {
    be32(len) + seq![id] + payload
}

/// The bytes of a request or cancel: index, offset and length as `u32`.
pub open spec fn block_info_bytes(b: BlockInfo) -> Seq<u8> {
    be32(b.piece_idx as u32) + be32(b.offset as u32) + be32(b.len as u32)
}

/// Whether `bytes` is how a message is written. A bitfield's bytes past its
/// last bit are not fixed.
pub open spec fn message_bytes(m: MessageView, bytes: Seq<u8>) -> bool {
    match m {
        MessageView::KeepAlive => bytes == be32(0),
        MessageView::Choke => bytes == framed(1, 0, Seq::empty()),
        MessageView::Unchoke => bytes == framed(1, 1, Seq::empty()),
        MessageView::Interested => bytes == framed(1, 2, Seq::empty()),
        MessageView::NotInterested => bytes == framed(1, 3, Seq::empty()),
        MessageView::Have(idx) => bytes == framed(5, 4, be32(idx)),
        MessageView::Bitfield(bits) => {
            &&& bytes.len() == 5 + (bits.len() + 7) / 8
            &&& bytes.take(5) == framed((1 + (bits.len() + 7) / 8) as u32, 5, Seq::empty())
            &&& forall|i: int| 0 <= i < bits.len() ==> #[trigger] msb0_bit(bytes.skip(5), i) == bits[i]
        },
        MessageView::Request(b) => bytes == framed(13, 6, block_info_bytes(b)),
        MessageView::Block(idx, offset, data) => bytes == framed(
            (9 + data.len()) as u32,
            7,
            be32(idx as u32) + be32(offset as u32) + data,
        ),
        MessageView::Cancel(b) => bytes == framed(13, 8, block_info_bytes(b)),
        MessageView::Port(port) => bytes == framed(3, 9, be16(port)),
    }
}

/// What decoding finds at the front of a buffer.
pub enum Decoded {
    /// Not all of the next message has arrived.
    Incomplete,
    /// A message, and the number of bytes it took.
    Msg(MessageView, int),
    /// A message with an unknown id, and the number of bytes read.
    BadId(u8, int),
}

/// The block info in the twelve bytes at `i`.
pub open spec fn read_block_info(s: Seq<u8>, i: int) -> BlockInfo {
    BlockInfo {
        piece_idx: read_be32(s, i) as usize,
        offset: read_be32(s, i + 4) as usize,
        len: read_be32(s, i + 8) as usize,
    }
}

/// How a buffer decodes. The length prefix says whether the whole message
/// has arrived; the fields after the id byte are then read whatever the
/// prefix says.
pub open spec fn decode_message(s: Seq<u8>) -> Decoded {
    if s.len() < 4 {
        Decoded::Incomplete
    } else {
        let n = read_be32(s, 0) as int;
        if s.len() < 4 + n {
            Decoded::Incomplete
        } else if n == 0 {
            Decoded::Msg(MessageView::KeepAlive, 4)
        } else {
            let id = s[4];
            if id == 0 {
                Decoded::Msg(MessageView::Choke, 5)
            } else if id == 1 {
                Decoded::Msg(MessageView::Unchoke, 5)
            } else if id == 2 {
                Decoded::Msg(MessageView::Interested, 5)
            } else if id == 3 {
                Decoded::Msg(MessageView::NotInterested, 5)
            } else if id == 4 {
                Decoded::Msg(MessageView::Have(read_be32(s, 5)), 9)
            } else if id == 5 {
                Decoded::Msg(MessageView::Bitfield(msb0_bits(s.subrange(5, 4 + n))), 4 + n)
            } else if id == 6 {
                Decoded::Msg(MessageView::Request(read_block_info(s, 5)), 17)
            } else if id == 7 {
                Decoded::Msg(
                    MessageView::Block(
                        read_be32(s, 5) as usize,
                        read_be32(s, 9) as usize,
                        s.subrange(13, 4 + n),
                    ),
                    4 + n,
                )
            } else if id == 8 {
                Decoded::Msg(MessageView::Cancel(read_block_info(s, 5)), 17)
            } else if id == 9 {
                Decoded::Msg(MessageView::Port(read_be16(s, 5)), 7)
            } else {
                Decoded::BadId(id, 5)
            }
        }
    }
}

/// Whether decoding the buffer reads within it: the fields of a complete
/// message that follow its id byte are all there.
pub open spec fn decode_reads_within(s: Seq<u8>) -> bool {
    s.len() >= 4 && s.len() >= 4 + read_be32(s, 0) && read_be32(s, 0) > 0 ==> {
        let n = read_be32(s, 0) as int;
        let id = s[4];
        &&& id == 4 ==> s.len() >= 9
        &&& id == 9 ==> s.len() >= 7
        &&& (id == 6 || id == 8) ==> s.len() >= 17
        &&& id == 7 ==> n >= 9
        &&& id == 5 ==> (n - 1) * 8 <= max_bits()
    }
}

proof fn lemma_be32_roundtrip(v: u32)
    ensures
        read_be32(be32(v), 0) == v,
{
    let b0 = (v >> 24u32) as u8;
    let b1 = (v >> 16u32) as u8;
    let b2 = (v >> 8u32) as u8;
    let b3 = v as u8;
    assert(((b0 as u32) << 24u32) | ((b1 as u32) << 16u32) | ((b2 as u32) << 8u32) | (b3 as u32) == v)
        by (bit_vector)
        requires
            b0 == (v >> 24u32) as u8,
            b1 == (v >> 16u32) as u8,
            b2 == (v >> 8u32) as u8,
            b3 == v as u8,
    ;
}

/// Appends the four bytes of `v`, most significant first.
pub(crate) fn put_u32(dst: &mut Vec<u8>, v: u32)
    ensures
        final(dst)@ == old(dst)@ + be32(v),
{
    dst.push((v >> 24u32) as u8);
    dst.push((v >> 16u32) as u8);
    dst.push((v >> 8u32) as u8);
    dst.push(v as u8);
    proof {
        assert(final(dst)@ =~= old(dst)@ + be32(v));
    }
}

/// Reads the big-endian `u32` at `i`.
pub(crate) fn get_u32(s: &[u8], i: usize) -> (v: u32)
    requires
        i + 4 <= s@.len(),
    ensures
        v == read_be32(s@, i as int),
{
    ((s[i] as u32) << 24u32) | ((s[i + 1] as u32) << 16u32) | ((s[i + 2] as u32) << 8u32) | (s[i + 3] as u32)
}

/// Appends the two bytes of `v`, most significant first.
fn put_u16(dst: &mut Vec<u8>, v: u16)
    ensures
        final(dst)@ == old(dst)@ + be16(v),
{
    dst.push((v >> 8u16) as u8);
    dst.push(v as u8);
    proof {
        assert(final(dst)@ =~= old(dst)@ + be16(v));
    }
}

/// Reads the big-endian `u16` at `i`.
fn get_u16(s: &[u8], i: usize) -> (v: u16)
    requires
        i + 2 <= s@.len(),
    ensures
        v == read_be16(s@, i as int),
{
    ((s[i] as u16) << 8u16) | (s[i + 1] as u16)
}

pub(crate) fn put_slice(dst: &mut Vec<u8>, s: &[u8])
    ensures
        final(dst)@ == old(dst)@ + s@,
{
    let mut i: usize = 0;
    while i < s.len()
        invariant
            0 <= i <= s.len(),
            dst@ == old(dst)@ + s@.take(i as int),
        decreases s.len() - i,
    {
        dst.push(s[i]);
        proof {
            assert(s@.take(i + 1) =~= s@.take(i as int).push(s@[i as int]));
        }
        i = i + 1;
    }
    proof {
        assert(s@.take(i as int) =~= s@);
    }
}

fn put_block_info(dst: &mut Vec<u8>, b: &BlockInfo)
    ensures
        final(dst)@ == old(dst)@ + block_info_bytes(*b),
{
    put_u32(dst, b.piece_idx as u32);
    put_u32(dst, b.offset as u32);
    put_u32(dst, b.len as u32);
    proof {
        assert(final(dst)@ =~= old(dst)@ + block_info_bytes(*b));
    }
}

/// Whether decoding `src` reads within it (see `decode_reads_within`): a
/// buffer that fails this holds a message too short for its id, which is
/// not to be decoded.
pub fn decodable(src: &[u8]) -> (r: bool)
    ensures
        r == decode_reads_within(src@),
{
    if src.len() < 4 {
        return true;
    }
    let n = get_u32(src, 0) as usize;
    if src.len() - 4 < n || n == 0 {
        return true;
    }
    let id = src[4];
    if id == 4 && src.len() < 9 {
        return false;
    }
    if id == 9 && src.len() < 7 {
        return false;
    }
    if (id == 6 || id == 8) && src.len() < 17 {
        return false;
    }
    if id == 7 && n < 9 {
        return false;
    }
    if id == 5 && n - 1 > usize::MAX / 64 {
        return false;
    }
    proof {
        if id == 5 {
            assert((n - 1) * 8 <= usize::MAX / 8) by (nonlinear_arith)
                requires
                    n - 1 <= usize::MAX / 64,
            ;
        }
    }
    true
}

/// Writes and reads peer wire messages.
pub struct MessageCodec;

impl MessageCodec {
    /// Appends a message to `dst`.
    pub fn encode(&mut self, msg: Message, dst: &mut Vec<u8>) -> (r: Result<(), PeerError>)
        requires
            msg matches Message::Block(b) ==> b.data.bytes().len() + 9 <= u32::MAX,
            msg matches Message::Bitfield(bf) ==> 1 + (bf@.len() + 7) / 8 <= u32::MAX,
        ensures
            r is Ok,
            final(dst)@.len() >= old(dst)@.len(),
            final(dst)@.take(old(dst)@.len() as int) == old(dst)@,
            message_bytes(msg@, final(dst)@.skip(old(dst)@.len() as int)),
    {
        let ghost start = dst@;
        match msg {
            Message::KeepAlive => {
                put_u32(dst, 0);
                proof {
                    assert(dst@.skip(start.len() as int) =~= be32(0));
                }
            },
            Message::Choke => {
                put_u32(dst, 1);
                dst.push(0);
                proof {
                    assert(dst@.skip(start.len() as int) =~= framed(1, 0, Seq::empty()));
                }
            },
            Message::Unchoke => {
                put_u32(dst, 1);
                dst.push(1);
                proof {
                    assert(dst@.skip(start.len() as int) =~= framed(1, 1, Seq::empty()));
                }
            },
            Message::Interested => {
                put_u32(dst, 1);
                dst.push(2);
                proof {
                    assert(dst@.skip(start.len() as int) =~= framed(1, 2, Seq::empty()));
                }
            },
            Message::NotInterested => {
                put_u32(dst, 1);
                dst.push(3);
                proof {
                    assert(dst@.skip(start.len() as int) =~= framed(1, 3, Seq::empty()));
                }
            },
            Message::Have { idx } => {
                put_u32(dst, 5);
                dst.push(4);
                put_u32(dst, idx);
                proof {
                    assert(dst@.skip(start.len() as int) =~= framed(5, 4, be32(idx)));
                }
            },
            Message::Bitfield(bitfield) => {
                let raw = bitfield.to_raw_vec();
                put_u32(dst, (1 + raw.len()) as u32);
                dst.push(5);
                put_slice(dst, raw.as_slice());
                proof {
                    assert(dst@.skip(start.len() as int).skip(5) =~= raw@);
                    assert(dst@.skip(start.len() as int).take(5) =~= framed(
                        (1 + (bitfield@.len() + 7) / 8) as u32,
                        5,
                        Seq::empty(),
                    ));
                }
            },
            Message::Request(block) => {
                put_u32(dst, 13);
                dst.push(6);
                put_block_info(dst, &block);
                proof {
                    assert(dst@.skip(start.len() as int) =~= framed(13, 6, block_info_bytes(block)));
                }
            },
            Message::Block(block) => {
                let len = block.data.len();
                put_u32(dst, 9 + len as u32);
                dst.push(7);
                put_u32(dst, block.piece_idx as u32);
                put_u32(dst, block.offset as u32);
                put_slice(dst, block.data.as_slice());
                proof {
                    assert(dst@.skip(start.len() as int) =~= framed(
                        (9 + block.data.bytes().len()) as u32,
                        7,
                        be32(block.piece_idx as u32) + be32(block.offset as u32) + block.data.bytes(),
                    ));
                }
            },
            Message::Cancel(block) => {
                put_u32(dst, 13);
                dst.push(8);
                put_block_info(dst, &block);
                proof {
                    assert(dst@.skip(start.len() as int) =~= framed(13, 8, block_info_bytes(block)));
                }
            },
            Message::Port { port } => {
                put_u32(dst, 3);
                dst.push(9);
                put_u16(dst, port);
                proof {
                    assert(dst@.skip(start.len() as int) =~= framed(3, 9, be16(port)));
                }
            },
        }
        proof {
            assert(dst@.take(start.len() as int) =~= start);
        }
        Ok(())
    }

    /// Takes the next whole message off the front of `src`: `None` while the
    /// message has not all arrived, an error for an unknown id.
    pub fn decode(&mut self, src: &mut Vec<u8>) -> (r: Result<Option<Message>, PeerError>)
        requires
            decode_reads_within(old(src)@),
        ensures
            match decode_message(old(src)@) {
                Decoded::Incomplete => r matches Ok(None) && final(src)@ == old(src)@,
                Decoded::Msg(m, n) => r matches Ok(Some(msg)) && msg@ == m && final(src)@
                    == old(src)@.skip(n) && (msg matches Message::Block(b) ==> b.data is Owned),
                Decoded::BadId(id, n) => r matches Err(PeerError::InvalidMessageId(x)) && x == id
                    && final(src)@ == old(src)@.skip(n),
            },
    {
        if src.len() < 4 {
            return Ok(None);
        }
        let s = src.as_slice();
        let n = get_u32(s, 0) as usize;
        if s.len() - 4 < n {
            return Ok(None);
        }
        if n == 0 {
            let rest = vstd::slice::slice_to_vec(&s[4..s.len()]);
            *src = rest;
            return Ok(Some(Message::KeepAlive));
        }
        let id = s[4];
        let (msg, used): (Result<Message, PeerError>, usize) = if id == 0 {
            (Ok(Message::Choke), 5)
        } else if id == 1 {
            (Ok(Message::Unchoke), 5)
        } else if id == 2 {
            (Ok(Message::Interested), 5)
        } else if id == 3 {
            (Ok(Message::NotInterested), 5)
        } else if id == 4 {
            (Ok(Message::Have { idx: get_u32(s, 5) }), 9)
        } else if id == 5 {
            let bytes = vstd::slice::slice_to_vec(&s[5..4 + n]);
            (Ok(Message::Bitfield(Bitfield::from_vec(bytes))), 4 + n)
        } else if id == 6 {
            let piece_idx = get_u32(s, 5) as usize;
            let offset = get_u32(s, 9) as usize;
            let len = get_u32(s, 13) as usize;
            (Ok(Message::Request(BlockInfo { piece_idx, offset, len })), 17)
        } else if id == 7 {
            let piece_idx = get_u32(s, 5) as usize;
            let offset = get_u32(s, 9) as usize;
            let data = vstd::slice::slice_to_vec(&s[13..4 + n]);
            (Ok(Message::Block(Block { piece_idx, offset, data: BlockData::Owned(data) })), 4 + n)
        } else if id == 8 {
            let piece_idx = get_u32(s, 5) as usize;
            let offset = get_u32(s, 9) as usize;
            let len = get_u32(s, 13) as usize;
            (Ok(Message::Cancel(BlockInfo { piece_idx, offset, len })), 17)
        } else if id == 9 {
            (Ok(Message::Port { port: get_u16(s, 5) }), 7)
        } else {
            (Err(PeerError::InvalidMessageId(id)), 5)
        };
        let rest = vstd::slice::slice_to_vec(&s[used..s.len()]);
        *src = rest;
        match msg {
            Ok(m) => Ok(Some(m)),
            Err(e) => Err(e),
        }
    }
}

} // verus!

verus! {

/// Whether the fields of a message survive the wire format: numbers fit in
/// `u32`, and a bitfield fills whole bytes.
pub open spec fn fits_wire(m: MessageView) -> bool {
    match m {
        MessageView::Bitfield(bits) => bits.len() % 8 == 0 && bits.len() <= max_bits() && 1 + bits.len()
            / 8 <= u32::MAX,
        MessageView::Request(b) => b.piece_idx <= u32::MAX && b.offset <= u32::MAX && b.len <= u32::MAX,
        MessageView::Cancel(b) => b.piece_idx <= u32::MAX && b.offset <= u32::MAX && b.len <= u32::MAX,
        MessageView::Block(idx, offset, data) => idx <= u32::MAX && offset <= u32::MAX && data.len()
            + 9 <= u32::MAX,
        _ => true,
    }
}

proof fn lemma_be16_roundtrip(v: u16)
    ensures
        read_be16(be16(v), 0) == v,
{
    let b0 = (v >> 8u16) as u8;
    let b1 = v as u8;
    assert(((b0 as u16) << 8u16) | (b1 as u16) == v) by (bit_vector)
        requires
            b0 == (v >> 8u16) as u8,
            b1 == v as u8,
    ;
}

proof fn lemma_read_be32_at(s: Seq<u8>, i: int, v: u32)
    requires
        0 <= i,
        i + 4 <= s.len(),
        s.subrange(i, i + 4) == be32(v),
    ensures
        read_be32(s, i) == v,
{
    lemma_be32_roundtrip(v);
    let b = be32(v);
    assert(s[i] == b[0] && s[i + 1] == b[1] && s[i + 2] == b[2] && s[i + 3] == b[3]) by {
        assert(s.subrange(i, i + 4)[0] == s[i]);
        assert(s.subrange(i, i + 4)[1] == s[i + 1]);
        assert(s.subrange(i, i + 4)[2] == s[i + 2]);
        assert(s.subrange(i, i + 4)[3] == s[i + 3]);
    }
}

/// What `encode` writes, `decode` reads back as the same message, whatever
/// bytes follow it, and consumes exactly what was written.
pub proof fn law_decode_encoded_message(m: MessageView, bytes: Seq<u8>, rest: Seq<u8>)
    requires
        message_bytes(m, bytes),
        fits_wire(m),
    ensures
        decode_message(bytes + rest) == Decoded::Msg(m, bytes.len() as int),
        decode_reads_within(bytes + rest),
{
    let s = bytes + rest;
    assert(s.subrange(0, bytes.len() as int) =~= bytes);
    match m {
        MessageView::KeepAlive => {
            assert(bytes.len() == 4);
            assert(s.subrange(0, 4) =~= be32(0));
            lemma_read_be32_at(s, 0, 0);
            assert(read_be32(s, 0) == 0);
            assert(s.len() >= 4);
        },
        MessageView::Choke | MessageView::Unchoke | MessageView::Interested | MessageView::NotInterested => {
            assert(s.subrange(0, 4) =~= be32(1));
            lemma_read_be32_at(s, 0, 1);
        },
        MessageView::Have(idx) => {
            assert(s.subrange(0, 4) =~= be32(5));
            lemma_read_be32_at(s, 0, 5);
            assert(s.subrange(5, 9) =~= be32(idx));
            lemma_read_be32_at(s, 5, idx);
        },
        MessageView::Port(port) => {
            assert(s.subrange(0, 4) =~= be32(3));
            lemma_read_be32_at(s, 0, 3);
            assert(s[5] == be16(port)[0] && s[6] == be16(port)[1]);
            lemma_be16_roundtrip(port);
        },
        MessageView::Request(b) | MessageView::Cancel(b) => {
            assert(s.subrange(0, 4) =~= be32(13));
            lemma_read_be32_at(s, 0, 13);
            assert(s.subrange(5, 9) =~= be32(b.piece_idx as u32));
            assert(s.subrange(9, 13) =~= be32(b.offset as u32));
            assert(s.subrange(13, 17) =~= be32(b.len as u32));
            lemma_read_be32_at(s, 5, b.piece_idx as u32);
            lemma_read_be32_at(s, 9, b.offset as u32);
            lemma_read_be32_at(s, 13, b.len as u32);
            assert(read_block_info(s, 5) == b);
        },
        MessageView::Block(idx, offset, data) => {
            let n = (9 + data.len()) as u32;
            assert(s.subrange(0, 4) =~= be32(n));
            lemma_read_be32_at(s, 0, n);
            assert(s.subrange(5, 9) =~= be32(idx as u32));
            assert(s.subrange(9, 13) =~= be32(offset as u32));
            lemma_read_be32_at(s, 5, idx as u32);
            lemma_read_be32_at(s, 9, offset as u32);
            assert(s.subrange(13, 4 + n) =~= data);
        },
        MessageView::Bitfield(bits) => {
            let k = bits.len() / 8;
            let n = (1 + k) as u32;
            assert(bytes.take(5) =~= s.subrange(0, 5));
            assert(s.subrange(0, 4) =~= be32(n)) by {
                assert(framed(n, 5, Seq::empty()).subrange(0, 4) =~= be32(n));
                assert(s.subrange(0, 4) =~= bytes.take(5).subrange(0, 4));
            }
            lemma_read_be32_at(s, 0, n);
            assert(s[4] == bytes.take(5)[4]);
            assert(bytes.len() == 5 + k);
            let raw = s.subrange(5, 4 + n);
            assert(raw =~= bytes.skip(5));
            let decoded = msb0_bits(raw);
            assert(decoded.len() == bits.len());
            assert forall|i: int| 0 <= i < bits.len() implies decoded[i] == bits[i] by {
                assert(msb0_bit(bytes.skip(5), i) == bits[i]);
            }
            assert(decoded =~= bits);
        },
    }
}

} // verus!
