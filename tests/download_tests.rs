use bittorrent::download::{Outcome, PeerSession};
use bittorrent::error::Error;
use bittorrent::hash::compute_hash;
use bittorrent::peer::{PeerChokedState, PeerInterestedState, PeerMessage, PeerMessageId, Piece};

fn piece_message(index: u32, begin: u32, block: &[u8]) -> PeerMessage {
    let mut payload = Vec::new();
    payload.extend(index.to_be_bytes());
    payload.extend(begin.to_be_bytes());
    payload.extend_from_slice(block);
    PeerMessage::new(PeerMessageId::Piece, payload)
}

fn payload_data(length: usize) -> Vec<u8> {
    (0..length).map(|i| (i % 251) as u8).collect()
}

#[test]
fn sha1_of_known_input() {
    let hash = compute_hash(b"abc");
    assert_eq!(
        bittorrent::text::format_as_hex_string(&hash),
        "a9993e364706816aba3e25717850c26c9cd0d89d"
    );
}

#[test]
fn session_downloads_and_verifies_a_piece() {
    let data = payload_data(20000);
    let mut pieces = vec![0u8; 20];
    pieces.extend(compute_hash(&data));
    let mut queue = vec![Piece { index: 0, piece_length: 16384 }, Piece { index: 1, piece_length: 20000 }];
    let mut session = PeerSession::new();

    assert!(!session.pick_piece(&mut queue));
    assert_eq!(session.receive(PeerMessage::new(PeerMessageId::Bitfield, vec![0b0100_0000]), &pieces), Ok(Outcome::Nothing));
    assert!(session.pick_piece(&mut queue));
    assert_eq!(queue, vec![Piece { index: 0, piece_length: 16384 }]);
    assert_eq!(session.current, Some(Piece { index: 1, piece_length: 20000 }));

    let first = session.send_tick();
    assert_eq!(first, vec![PeerMessage::with_id(PeerMessageId::Interested)]);
    assert_eq!(session.connection.interested, PeerInterestedState::Interested);
    assert!(session.send_tick().is_empty());

    assert_eq!(session.receive(PeerMessage::with_id(PeerMessageId::Unchoke), &pieces), Ok(Outcome::Nothing));
    assert_eq!(session.connection.choked, PeerChokedState::Unchoked);
    let requests = session.send_tick();
    assert_eq!(requests, vec![PeerMessage::new_request(1, 0, 16384), PeerMessage::new_request(1, 16384, 3616)]);
    assert_eq!(session.in_flight, 2);
    assert!(session.send_tick().is_empty());

    assert_eq!(session.receive(piece_message(1, 16384, &data[16384..]), &pieces), Ok(Outcome::Nothing));
    assert_eq!(session.remaining, 16384);
    let outcome = session.receive(piece_message(1, 0, &data[..16384]), &pieces).unwrap();
    assert_eq!(outcome, Outcome::Verified { index: 1, data: data.clone() });
    assert_eq!(session.current, None);
    assert!(!session.is_finished(&queue));
}

#[test]
fn session_restarts_a_piece_whose_hash_does_not_match() {
    let data = payload_data(100);
    let pieces = vec![7u8; 20];
    let mut queue = vec![Piece { index: 0, piece_length: 100 }];
    let mut session = PeerSession::new();
    session.receive(PeerMessage::new(PeerMessageId::Bitfield, vec![0x80]), &pieces).unwrap();
    assert!(session.pick_piece(&mut queue));
    assert!(queue.is_empty());
    let outcome = session.receive(piece_message(0, 0, &data), &pieces).unwrap();
    assert_eq!(outcome, Outcome::Mismatch { index: 0 });
    assert_eq!(session.remaining, 100);
    assert_eq!(session.buffer, vec![0u8; 100]);
    assert_eq!(session.blocks_to_request.len(), 1);
    session.release(&mut queue);
    assert_eq!(queue, vec![Piece { index: 0, piece_length: 100 }]);
    assert_eq!(session.current, None);
}

#[test]
fn session_rejects_blocks_outside_the_piece() {
    let pieces = vec![0u8; 20];
    let mut queue = vec![Piece { index: 0, piece_length: 10 }];
    let mut session = PeerSession::new();
    session.receive(PeerMessage::new(PeerMessageId::Bitfield, vec![0x80]), &pieces).unwrap();
    assert!(session.pick_piece(&mut queue));
    assert_eq!(session.receive(piece_message(0, 8, &[1, 2, 3]), &pieces), Err(Error::BlockOutOfRange));
    assert_eq!(session.receive(piece_message(5, 0, &[1]), &pieces), Ok(Outcome::Nothing));
    assert_eq!(session.receive(PeerMessage::new(PeerMessageId::Piece, vec![0, 0]), &pieces), Err(Error::Truncated));
}

#[test]
fn session_limits_requests_in_flight() {
    let pieces = vec![0u8; 20];
    let mut queue = vec![Piece { index: 0, piece_length: 16384 * 7 }];
    let mut session = PeerSession::new();
    session.receive(PeerMessage::new(PeerMessageId::Bitfield, vec![0x80]), &pieces).unwrap();
    assert!(session.pick_piece(&mut queue));
    session.send_tick();
    session.receive(PeerMessage::with_id(PeerMessageId::Unchoke), &pieces).unwrap();
    assert_eq!(session.send_tick().len(), 5);
    assert_eq!(session.blocks_to_request.len(), 2);
    session.receive(PeerMessage::with_id(PeerMessageId::Choke), &pieces).unwrap();
    assert!(session.send_tick().is_empty());
    assert!(session.is_finished(&Vec::new()) == false);
}

#[test]
fn finishing_a_piece_compares_with_its_expected_hash() {
    let mut pieces = vec![1u8; 20];
    pieces.extend(vec![2u8; 20]);
    let mut queue = vec![Piece { index: 1, piece_length: 3 }];
    let mut session = PeerSession::new();
    session.receive(PeerMessage::new(PeerMessageId::Bitfield, vec![0x40]), &pieces).unwrap();
    assert!(session.pick_piece(&mut queue));
    assert_eq!(session.finish_piece(&[1u8; 20], &pieces), Outcome::Mismatch { index: 1 });
    assert_eq!(session.current, Some(Piece { index: 1, piece_length: 3 }));
    assert_eq!(session.finish_piece(&[2u8; 20], &pieces), Outcome::Verified { index: 1, data: vec![0, 0, 0] });
    assert_eq!(session.current, None);
}

#[test]
fn completed_piece_without_a_hash_is_an_error() {
    let pieces = vec![0u8; 20];
    let mut queue = vec![Piece { index: 3, piece_length: 2 }];
    let mut session = PeerSession::new();
    session.receive(PeerMessage::new(PeerMessageId::Bitfield, vec![0x10]), &pieces).unwrap();
    assert!(session.pick_piece(&mut queue));
    assert_eq!(session.receive(piece_message(3, 0, &[9, 9]), &pieces), Err(Error::InvalidPieceIndex));
}

#[test]
fn errors_describe_themselves() {
    assert_eq!(Error::MalformedPeers.describe(), "peer list length is not a multiple of 6");
    assert_eq!(Error::Decode.describe(), "malformed bencode");
}
