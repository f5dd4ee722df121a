use bittorrent::bitfield::Bitfield;
use bittorrent::block::{Block, BlockData, BlockInfo};
use bittorrent::message::{Message, MessageCodec, PeerError};

fn block_msg(piece_idx: usize, offset: usize, data: Vec<u8>) -> Message {
    Message::Block(Block { piece_idx, offset, data: BlockData::Owned(data) })
}

#[test]
fn test_msg_stream() {
    let mut out_buf: Vec<u8> = Vec::new();
    let mut buf: Vec<u8> = Vec::new();
    // Keep alive
    buf.extend_from_slice(&[0, 0, 0, 0]);
    // Choke
    buf.extend_from_slice(&[0, 0, 0, 1, 0]);
    // Unchoke
    buf.extend_from_slice(&[0, 0, 0, 1, 1]);
    // Interested
    buf.extend_from_slice(&[0, 0, 0, 1, 2]);
    // Not interested
    buf.extend_from_slice(&[0, 0, 0, 1, 3]);
    // Have
    buf.extend_from_slice(&[0, 0, 0, 5, 4, 0, 0, 0, 0xb]);
    // Bitfield
    buf.extend_from_slice(&[0, 0, 0, 4, 5, 0x1, 0x2, 0x3]);
    // Request
    buf.extend_from_slice(&[0, 0, 0, 0xd, 0x6, 0, 0, 0, 0xb, 0, 0x13, 0x40, 0, 0, 0, 0x40, 0]);
    // Piece
    buf.extend_from_slice(&[0, 0, 0, 12, 0x7, 0, 0, 0, 0xb, 0, 0x13, 0x40, 0, 0x1, 0x2, 0x3]);

    let expected = vec![
        Message::KeepAlive,
        Message::Choke,
        Message::Unchoke,
        Message::Interested,
        Message::NotInterested,
        Message::Have { idx: 0xb },
        Message::Bitfield(Bitfield::from_vec(vec![0x1, 0x2, 0x3])),
        Message::Request(BlockInfo { piece_idx: 0xb, offset: 0x134000, len: 0x4000 }),
        block_msg(0xb, 0x134000, vec![0x1, 0x2, 0x3]),
    ];
    let expected_buf = buf.clone();

    for msg in expected.into_iter() {
        MessageCodec.encode(msg.clone(), &mut out_buf).unwrap();
        let decoded = MessageCodec.decode(&mut buf).unwrap().unwrap();
        assert_eq!(decoded, msg, "decoded message does not match expected");
    }

    assert_eq!(out_buf, expected_buf, "encoded stream does not match expected");
}

#[test]
fn test_msg_decode_chunked() {
    let mut buf: Vec<u8> = Vec::new();

    // Add 1/2 of interested message
    buf.extend_from_slice(&[0, 0, 0]);
    let decoded = MessageCodec.decode(&mut buf).unwrap();
    assert_eq!(decoded, None);
    // Add other 1/2
    buf.extend_from_slice(&[1, 2]);
    let decoded = MessageCodec.decode(&mut buf).unwrap().unwrap();
    assert_eq!(decoded, Message::Interested);

    // Add 1/2 of piece message
    buf.extend_from_slice(&[0, 0, 0, 12, 0x7, 0, 0, 0, 0xb, 0, 0x13, 0x40, 0, 0x1]);
    let decoded = MessageCodec.decode(&mut buf).unwrap();
    assert_eq!(decoded, None);
    // Add other 1/2
    buf.extend_from_slice(&[0x2, 0x3]);
    let decoded = MessageCodec.decode(&mut buf).unwrap().unwrap();
    assert_eq!(decoded, block_msg(0xb, 0x134000, vec![0x1, 0x2, 0x3]));
}

#[test]
fn test_msg_decode_empty() {
    let mut src: Vec<u8> = Vec::new();
    let mut codec = MessageCodec;
    let message = codec.decode(&mut src).unwrap();
    assert_eq!(message, None);
}

#[test]
fn test_msg_decode_incomplete_message() {
    let mut src: Vec<u8> = vec![0u8, 1, 2]; // Not a complete message
    let mut codec = MessageCodec;
    let message = codec.decode(&mut src).unwrap();
    assert_eq!(message, None);
}

#[test]
fn test_msg_decode_invalid_id() {
    let mut src: Vec<u8> = vec![0u8, 0, 0, 1, 255]; // Message ID 255 is invalid
    let mut codec = MessageCodec;
    let result = codec.decode(&mut src);
    match result {
        Ok(_) => panic!("Expected an error, but got Ok(_)"),
        Err(e) => match e {
            PeerError::InvalidMessageId(id) => assert_eq!(id, 255),
            _ => panic!("Expected PeerError::InvalidMessageId, but got a different error"),
        },
    }
}

#[test]
fn decode_leaves_following_bytes() {
    let mut src: Vec<u8> = vec![0, 0, 0, 5, 4, 0, 0, 1, 2, 0, 0, 0, 1, 1, 9];
    let msg = MessageCodec.decode(&mut src).unwrap().unwrap();
    assert_eq!(msg, Message::Have { idx: 0x102 });
    assert_eq!(src, vec![0, 0, 0, 1, 1, 9]);
    let msg = MessageCodec.decode(&mut src).unwrap().unwrap();
    assert_eq!(msg, Message::Unchoke);
    assert_eq!(src, vec![9]);
}

#[test]
fn encode_port_cancel_and_roundtrip() {
    let mut out: Vec<u8> = vec![7];
    MessageCodec.encode(Message::Port { port: 6881 }, &mut out).unwrap();
    assert_eq!(out, vec![7, 0, 0, 0, 3, 9, 0x1a, 0xe1]);
    let cancel = Message::Cancel(BlockInfo { piece_idx: 1, offset: 0x4000, len: 0x4000 });
    let mut buf: Vec<u8> = Vec::new();
    MessageCodec.encode(cancel.clone(), &mut buf).unwrap();
    assert_eq!(buf, vec![0, 0, 0, 13, 8, 0, 0, 0, 1, 0, 0, 0x40, 0, 0, 0, 0x40, 0]);
    buf.push(0xff);
    let back = MessageCodec.decode(&mut buf).unwrap().unwrap();
    assert_eq!(back, cancel);
    assert_eq!(buf, vec![0xff]);
}

#[test]
fn encode_bitfield_prefix_counts_payload_bytes() {
    let mut bf = Bitfield::repeat(false, 10);
    bf.set(0, true);
    bf.set(8, true);
    bf.set(9, true);
    let mut dst: Vec<u8> = Vec::new();
    MessageCodec.encode(Message::Bitfield(bf), &mut dst).unwrap();
    assert_eq!(dst, vec![0, 0, 0, 3, 5, 0x80, 0xC0]);
}

#[test]
fn port_roundtrip_two_bytes() {
    let mut dst: Vec<u8> = Vec::new();
    MessageCodec.encode(Message::Port { port: 6881 }, &mut dst).unwrap();
    assert_eq!(dst, vec![0, 0, 0, 3, 9, 0x1A, 0xE1]);
    dst.push(4);
    let back = MessageCodec.decode(&mut dst).unwrap().unwrap();
    assert_eq!(back, Message::Port { port: 6881 });
    assert_eq!(dst, vec![4]);
}

#[test]
fn decoded_block_owns_its_data() {
    let mut src: Vec<u8> = vec![0, 0, 0, 11, 7, 0, 0, 0, 2, 0, 0, 0, 0, 0xaa, 0xbb];
    match MessageCodec.decode(&mut src).unwrap().unwrap() {
        Message::Block(b) => {
            assert!(matches!(b.data, BlockData::Owned(ref d) if d == &vec![0xaa, 0xbb]));
            assert_eq!(b.piece_idx, 2);
        }
        other => panic!("expected a block, got {:?}", other),
    }
}
