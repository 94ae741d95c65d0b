use torrent_reader::handshake::{Handshake, HandshakeError};
use torrent_reader::peer::{
    block_requests, decode_frame, frame_is_readable, frees_request_permit, TorrentTcpMessage,
    BLOCK_SIZE,
};
use torrent_reader::pieces::PieceReq;
use torrent_reader::torrent_tcp_message::MessageError;

#[test]
fn handshake_bytes_and_roundtrip() {
    let h = Handshake { info_hash: [0xab; 20], peer_id: *b"-GT0001-os9964142111" };
    let bytes = h.serialize();
    assert_eq!(bytes[0], 19);
    assert_eq!(&bytes[1..20], b"BitTorrent protocol");
    assert_eq!(&bytes[20..28], &[0u8; 8]);
    assert_eq!(&bytes[28..48], &[0xab; 20]);
    assert_eq!(&bytes[48..68], b"-GT0001-os9964142111");
    let back = Handshake::parse(bytes).unwrap();
    assert_eq!(back.info_hash, h.info_hash);
    assert_eq!(back.peer_id, h.peer_id);
}

#[test]
fn handshake_errors() {
    let h = Handshake { info_hash: [1; 20], peer_id: [2; 20] };
    let mut bytes = h.serialize();
    bytes[0] = 18;
    assert_eq!(Handshake::parse(bytes).err(), Some(HandshakeError::InvalidProtocolLength));
    let mut bytes = h.serialize();
    bytes[5] = b'x';
    assert_eq!(Handshake::parse(bytes).err(), Some(HandshakeError::InvalidProtocolString));
    // Reserved bytes are not looked at.
    let mut bytes = h.serialize();
    bytes[22] = 0xff;
    assert!(Handshake::parse(bytes).is_ok());
}

#[test]
fn handshake_reply_for_other_torrent_is_refused() {
    let h = Handshake { info_hash: [1; 20], peer_id: [2; 20] };
    let reply = Handshake::check_reply(h.serialize(), &[1; 20]).unwrap();
    assert_eq!(reply.peer_id, [2; 20]);
    assert_eq!(
        Handshake::check_reply(h.serialize(), &[9; 20]).err(),
        Some(HandshakeError::WrongInfoHash)
    );
    let mut bad = h.serialize();
    bad[0] = 0;
    assert_eq!(
        Handshake::check_reply(bad, &[1; 20]).err(),
        Some(HandshakeError::InvalidProtocolLength)
    );
}

#[test]
fn serializes_messages() {
    assert_eq!(TorrentTcpMessage::KeepAlive.serialize(), vec![0, 0, 0, 0]);
    assert_eq!(TorrentTcpMessage::Choke.serialize(), vec![0]);
    assert_eq!(TorrentTcpMessage::Unchoke.serialize(), vec![1]);
    assert_eq!(TorrentTcpMessage::Interested.serialize(), vec![2]);
    assert_eq!(TorrentTcpMessage::NotInterested.serialize(), vec![3]);
    assert_eq!(TorrentTcpMessage::Have(0x01020304).serialize(), vec![4, 1, 2, 3, 4]);
    assert_eq!(TorrentTcpMessage::Bitfield(vec![0xf0, 1]).serialize(), vec![5, 0xf0, 1]);
    assert_eq!(
        TorrentTcpMessage::Request { index: 1, begin: 16384, length: 16384 }.serialize(),
        vec![6, 0, 0, 0, 1, 0, 0, 0x40, 0, 0, 0, 0x40, 0]
    );
    assert_eq!(
        TorrentTcpMessage::Piece { index: 2, begin: 3, block: vec![9, 8] }.serialize(),
        vec![7, 0, 0, 0, 2, 0, 0, 0, 3, 9, 8]
    );
    assert_eq!(
        TorrentTcpMessage::Cancel { index: 5, begin: 6, length: 7 }.serialize(),
        vec![8, 0, 0, 0, 5, 0, 0, 0, 6, 0, 0, 0, 7]
    );
}

#[test]
fn parses_messages() {
    assert_eq!(TorrentTcpMessage::parse(&0, &[]), Ok(TorrentTcpMessage::Choke));
    assert_eq!(TorrentTcpMessage::parse(&3, &[1, 2]), Ok(TorrentTcpMessage::NotInterested));
    assert_eq!(TorrentTcpMessage::parse(&4, &[0, 0, 1, 0]), Ok(TorrentTcpMessage::Have(256)));
    assert_eq!(
        TorrentTcpMessage::parse(&5, &[1, 2, 3]),
        Ok(TorrentTcpMessage::Bitfield(vec![1, 2, 3]))
    );
    assert_eq!(
        TorrentTcpMessage::parse(&7, &[0, 0, 0, 1, 0, 0, 0, 2, 5, 6, 7]),
        Ok(TorrentTcpMessage::Piece { index: 1, begin: 2, block: vec![5, 6, 7] })
    );
    assert_eq!(
        TorrentTcpMessage::parse(&8, &[0, 0, 0, 1, 0, 0, 0, 2, 0, 0, 0, 3]),
        Ok(TorrentTcpMessage::Cancel { index: 1, begin: 2, length: 3 })
    );
    assert_eq!(TorrentTcpMessage::parse(&9, &[]), Err(MessageError::UnknownId(9)));
    assert_eq!(TorrentTcpMessage::parse(&200, &[1]), Err(MessageError::UnknownId(200)));
}

#[test]
fn message_roundtrip_on_values() {
    let messages = vec![
        TorrentTcpMessage::Choke,
        TorrentTcpMessage::Unchoke,
        TorrentTcpMessage::Interested,
        TorrentTcpMessage::NotInterested,
        TorrentTcpMessage::Have(77),
        TorrentTcpMessage::Bitfield(vec![1, 2, 3]),
        TorrentTcpMessage::Request { index: 1, begin: 2, length: 3 },
        TorrentTcpMessage::Cancel { index: 4, begin: 5, length: 6 },
        TorrentTcpMessage::Piece { index: 9, begin: 10, block: vec![1, 2, 3, 4] },
        TorrentTcpMessage::Piece { index: 1, begin: 2, block: vec![] },
    ];
    for m in messages {
        let b = m.serialize();
        assert_eq!(TorrentTcpMessage::parse(&b[0], &b[1..]), Ok(m.clone()));
        assert_eq!(decode_frame(&b), Ok(m));
    }
    assert_eq!(
        TorrentTcpMessage::Piece { index: 1, begin: 2, block: vec![9] }.serialize(),
        vec![7, 0, 0, 0, 1, 0, 0, 0, 2, 9]
    );
}

#[test]
fn frames() {
    assert_eq!(decode_frame(&[]), Ok(TorrentTcpMessage::KeepAlive));
    assert_eq!(decode_frame(&[1]), Ok(TorrentTcpMessage::Unchoke));
    assert_eq!(decode_frame(&[42, 0]), Err(MessageError::UnknownId(42)));
    assert!(frame_is_readable(&[]));
    assert!(frame_is_readable(&[2]));
    assert!(!frame_is_readable(&[4, 0, 0]));
    assert!(frame_is_readable(&[4, 0, 0, 0, 1]));
    assert!(!frame_is_readable(&[6, 0, 0, 0, 0, 0, 0, 0, 0, 0, 0, 0]));
    assert!(!frame_is_readable(&[7, 0, 0, 0, 0, 0, 0, 0]));
    assert!(frame_is_readable(&[7, 0, 0, 0, 0, 0, 0, 0, 0]));
    assert!(frame_is_readable(&[99]));
    assert!(frees_request_permit(&TorrentTcpMessage::Piece { index: 0, begin: 0, block: vec![] }));
    assert!(!frees_request_permit(&TorrentTcpMessage::Choke));
}

#[test]
fn message_names() {
    assert_eq!(TorrentTcpMessage::KeepAlive.to_string(), "KeepAlive");
    assert_eq!(TorrentTcpMessage::Have(3).to_string(), "Have");
    assert_eq!(
        TorrentTcpMessage::Piece { index: 0, begin: 0, block: vec![] }.to_string(),
        "Piece"
    );
    assert_eq!(TorrentTcpMessage::NotInterested.to_string(), "NotInterested");
    assert_eq!(TorrentTcpMessage::Cancel { index: 0, begin: 0, length: 0 }.to_string(), "Cancel");
}

#[test]
fn piece_is_asked_for_block_by_block() {
    let req = PieceReq { piece_hash: [0; 20], piece_index: 3, piece_length: 40000 };
    assert_eq!(
        block_requests(&req),
        vec![
            TorrentTcpMessage::Request { index: 3, begin: 0, length: 16384 },
            TorrentTcpMessage::Request { index: 3, begin: 16384, length: 16384 },
            TorrentTcpMessage::Request { index: 3, begin: 32768, length: 7232 },
        ]
    );
    let exact = PieceReq { piece_hash: [0; 20], piece_index: 0, piece_length: 2 * BLOCK_SIZE };
    assert_eq!(block_requests(&exact).len(), 2);
    let empty = PieceReq { piece_hash: [0; 20], piece_index: 0, piece_length: 0 };
    assert!(block_requests(&empty).is_empty());
    let small = PieceReq { piece_hash: [0; 20], piece_index: 1, piece_length: 5 };
    assert_eq!(
        block_requests(&small),
        vec![TorrentTcpMessage::Request { index: 1, begin: 0, length: 5 }]
    );
}
