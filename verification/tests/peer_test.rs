use torrent_reader::bundle::{bundle, BundleOutcome};
use torrent_reader::peer::{block_requests, on_message, unsent_haves, PeerState, TorrentTcpMessage, UnexpectedMessage};
use torrent_reader::pieces::{Bitfield, PieceDownloaded, PieceReq, PieceResponse, Task};

fn state(pieces: u64) -> PeerState {
    PeerState::new(pieces)
}

#[test]
fn fresh_state() {
    let s = state(10);
    assert_eq!(s.peer_bitfield.bytes, vec![0, 0]);
    assert_eq!(s.sent_have.bytes, vec![0, 0]);
    assert!(s.caught.is_empty());
    assert!(s.choked);
}

#[test]
fn bitfield_choke_and_unchoke() {
    let mut s = state(16);
    let own = Bitfield::new(16);
    let r = on_message(&mut s, &own, &vec![], TorrentTcpMessage::Bitfield(vec![0xf0, 0x0f]));
    assert_eq!(r, Ok(None));
    assert_eq!(s.peer_bitfield.bytes, vec![0xf0, 0x0f]);
    assert_eq!(s.sent_have.bytes, vec![0xf0, 0x0f]);
    assert_eq!(on_message(&mut s, &own, &vec![], TorrentTcpMessage::Unchoke), Ok(None));
    assert!(!s.choked);
    assert_eq!(on_message(&mut s, &own, &vec![], TorrentTcpMessage::Choke), Ok(None));
    assert!(s.choked);
    assert_eq!(on_message(&mut s, &own, &vec![], TorrentTcpMessage::KeepAlive), Ok(None));
}

#[test]
fn have_asks_for_interest_only_when_we_lack_the_piece() {
    let mut s = state(16);
    let mut own = Bitfield::new(16);
    own.set(3);
    assert_eq!(on_message(&mut s, &own, &vec![], TorrentTcpMessage::Have(3)), Ok(None));
    assert!(s.peer_bitfield.has(3));
    assert_eq!(
        on_message(&mut s, &own, &vec![], TorrentTcpMessage::Have(9)),
        Ok(Some(Task::Interested))
    );
    assert!(s.peer_bitfield.has(9));
}

#[test]
fn pieces_are_kept_once() {
    let mut s = state(8);
    let own = Bitfield::new(8);
    let m = TorrentTcpMessage::Piece { index: 1, begin: 0, block: vec![1, 2] };
    assert_eq!(on_message(&mut s, &own, &vec![], m.clone()), Ok(None));
    assert_eq!(on_message(&mut s, &own, &vec![], m), Ok(None));
    assert_eq!(s.caught, vec![PieceResponse { index: 1, begin: 0, block: vec![1, 2] }]);
    let other = TorrentTcpMessage::Piece { index: 1, begin: 0, block: vec![1, 3] };
    assert_eq!(on_message(&mut s, &own, &vec![], other), Ok(None));
    assert_eq!(s.caught.len(), 2);
}

#[test]
fn requests_are_answered_from_stored_pieces() {
    let mut s = state(8);
    let own = Bitfield::new(8);
    let req = PieceReq { piece_hash: [0; 20], piece_index: 0, piece_length: 6 };
    let stored = vec![PieceDownloaded { piece_data: vec![10, 11, 12, 13, 14, 15], piece_req: req }];
    assert_eq!(
        on_message(&mut s, &own, &stored, TorrentTcpMessage::Request { index: 0, begin: 2, length: 3 }),
        Ok(Some(Task::Response(PieceResponse { index: 0, begin: 2, block: vec![12, 13, 14] })))
    );
    assert_eq!(
        on_message(&mut s, &own, &stored, TorrentTcpMessage::Request { index: 0, begin: 4, length: 3 }),
        Ok(None)
    );
    assert_eq!(
        on_message(&mut s, &own, &stored, TorrentTcpMessage::Request { index: 1, begin: 0, length: 1 }),
        Ok(None)
    );
}

#[test]
fn unexpected_messages_fail() {
    let mut s = state(8);
    let own = Bitfield::new(8);
    assert_eq!(on_message(&mut s, &own, &vec![], TorrentTcpMessage::Interested), Err(UnexpectedMessage));
    assert_eq!(on_message(&mut s, &own, &vec![], TorrentTcpMessage::NotInterested), Err(UnexpectedMessage));
    assert_eq!(
        on_message(&mut s, &own, &vec![], TorrentTcpMessage::Cancel { index: 0, begin: 0, length: 1 }),
        Err(UnexpectedMessage)
    );
    assert!(s.choked);
}

#[test]
fn haves_are_sent_once() {
    let mut s = state(16);
    s.peer_bitfield.bytes = vec![0b1000_0000, 0];
    s.sent_have.bytes = vec![0b0100_0000, 0];
    let own = Bitfield { bytes: vec![0b1110_0000, 0b0000_0001] };
    assert_eq!(unsent_haves(&mut s, &own), vec![2, 15]);
    assert_eq!(s.sent_have.bytes, vec![0b0110_0000, 0b0000_0001]);
    assert_eq!(unsent_haves(&mut s, &own), Vec::<u32>::new());
}

const ABC_SHA1: [u8; 20] = [
    0xa9, 0x99, 0x3e, 0x36, 0x47, 0x06, 0x81, 0x6a, 0xba, 0x3e, 0x25, 0x71, 0x78, 0x50, 0xc2, 0x6c,
    0x9c, 0xd0, 0xd8, 0x9d,
];

fn block(index: u32, begin: u32, data: &[u8]) -> PieceResponse {
    PieceResponse { index, begin, block: data.to_vec() }
}

#[test]
fn bundles_a_complete_piece_in_order() {
    let mut s = state(8);
    s.caught = vec![block(4, 1, b"bc"), block(2, 0, b"zz"), block(4, 0, b"a")];
    let req = PieceReq { piece_hash: ABC_SHA1, piece_index: 4, piece_length: 3 };
    assert_eq!(bundle(&mut s, &req, false), BundleOutcome::Complete(b"abc".to_vec()));
    assert_eq!(s.caught, vec![block(2, 0, b"zz")]);
}

#[test]
fn bundle_waits_for_more_bytes() {
    let mut s = state(8);
    s.caught = vec![block(4, 1, b"bc")];
    let req = PieceReq { piece_hash: ABC_SHA1, piece_index: 4, piece_length: 3 };
    assert_eq!(bundle(&mut s, &req, false), BundleOutcome::Waiting);
    assert_eq!(s.caught, vec![block(4, 1, b"bc")]);
}

#[test]
fn bundle_drops_too_many_bytes_and_timeouts() {
    let mut s = state(8);
    s.caught = vec![block(4, 1, b"bc"), block(1, 0, b"q"), block(4, 0, b"ab")];
    let req = PieceReq { piece_hash: ABC_SHA1, piece_index: 4, piece_length: 3 };
    assert_eq!(bundle(&mut s, &req, false), BundleOutcome::TooLong);
    assert_eq!(s.caught, vec![block(1, 0, b"q")]);

    s.caught = vec![block(4, 1, b"bc"), block(1, 0, b"q")];
    s.peer_bitfield.bytes = vec![0b0000_1100];
    assert_eq!(bundle(&mut s, &req, true), BundleOutcome::TimedOut);
    assert_eq!(s.caught, vec![block(1, 0, b"q")]);
    assert_eq!(s.peer_bitfield.bytes, vec![0b0000_0100]);
}

#[test]
fn bundle_reports_a_wrong_digest() {
    let mut s = state(8);
    s.caught = vec![block(4, 0, b"abd")];
    let req = PieceReq { piece_hash: ABC_SHA1, piece_index: 4, piece_length: 3 };
    assert_eq!(bundle(&mut s, &req, false), BundleOutcome::WrongHash);
    assert_eq!(s.caught, vec![block(4, 0, b"abd")]);
    // The digest is checked, not the bytes handed back: "abc" in the wrong order fails too.
    s.caught = vec![block(4, 0, b"bc"), block(4, 2, b"a")];
    assert_eq!(bundle(&mut s, &req, false), BundleOutcome::WrongHash);
}

#[test]
fn a_piece_asked_for_and_answered_is_put_back_together() {
    let data: Vec<u8> = (0..40000u32).map(|i| (i * 7 % 251) as u8).collect();
    let digest: [u8; 20] = <sha1::Sha1 as sha1::Digest>::digest(&data).into();
    let req = PieceReq { piece_hash: digest, piece_index: 5, piece_length: 40000 };
    let own = Bitfield::new(8);
    let mut s = state(8);
    let mut answers = vec![];
    for r in block_requests(&req) {
        let TorrentTcpMessage::Request { index, begin, length } = r else { panic!("not a request") };
        let block = data[begin as usize..(begin + length) as usize].to_vec();
        answers.push(TorrentTcpMessage::Piece { index, begin, block });
    }
    answers.reverse();
    answers.push(TorrentTcpMessage::Piece { index: 6, begin: 0, block: vec![1] });
    for a in answers {
        assert_eq!(on_message(&mut s, &own, &vec![], a), Ok(None));
    }
    assert_eq!(bundle(&mut s, &req, false), BundleOutcome::Complete(data));
    assert_eq!(s.caught, vec![block(6, 0, &[1])]);
}
