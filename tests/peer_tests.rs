use bittorrent::error::Error;
use bittorrent::peer::{
    get_piece_indices, has_piece, random_peer_id, Peer, PeerHandshake, PeerMessage,
    PeerMessageId, Piece, PiecePeerMessage,
};

#[test]
fn should_read_bitfield_message_from_peer() {
    let stream: Vec<u8> = vec![
        0, 0, 0, 4, // message length prefix - 4
        5, // message id byte - 5 "bitfield"
        255, 248, 128,
    ];
    let message = Peer::read_message(&stream).unwrap();
    assert_eq!(message, Some(PeerMessage::new(PeerMessageId::Bitfield, vec![255, 248, 128])))
}

#[test]
fn should_read_unchoke_message_from_peer() {
    let stream: Vec<u8> = vec![
        0, 0, 0, 1, // message length prefix - 1
        1, // message id byte - 1 "unchoke"
    ];
    let message = Peer::read_message(&stream).unwrap();
    assert_eq!(message, Some(PeerMessage::new(PeerMessageId::Unchoke, Vec::new())))
}

#[test]
fn should_read_piece_message_from_peer() {
    let stream: Vec<u8> = vec![
        0, 0, 0, 21, // message length prefix
        7, // message id byte - 7 "piece"
        0, 0, 0, 1, // piece index - 1
        0, 2, 128, 0, // begin - 163840
        1, 2, 3, 4, 5, 6, 7, 8, 9, 10, 11, 12, // piece block content
    ];
    let message = Peer::read_message(&stream).unwrap().unwrap();
    let piece_message = message.parse_as_piece().unwrap();
    assert_eq!(
        piece_message,
        PiecePeerMessage {
            message_id: PeerMessageId::Piece,
            index: 1,
            begin: 163840,
            block: vec![1, 2, 3, 4, 5, 6, 7, 8, 9, 10, 11, 12]
        }
    )
}

#[test]
fn should_serialize_peer_handshake_message_correctly() {
    let peer_handshake = PeerHandshake { info_hash: vec![1, 2, 3, 4], peer: Peer { id: vec![5, 6, 7, 8] } };
    assert_eq!(
        peer_handshake.get_bytes(),
        vec![
            19, // length of the protocol string which follows - 19
            66, 105, 116, 84, 111, 114, 114, 101, 110, 116, 32, 112, 114, 111, 116, 111, 99, 111,
            108, // protocol string:"BitTorrent protocol"
            0, 0, 0, 0, 0, 0, 0, 0, // reserved 8 bytes
            1, 2, 3, 4, // info_hash bytes
            5, 6, 7, 8 // peer id bytes
        ]
    );
}

#[test]
fn should_serialize_request_message_correctly() {
    let request = PeerMessage::new_request(11, 163840, 16384);
    assert_eq!(
        request.get_bytes(),
        vec![
            0, 0, 0, 13, // message length prefix - 13
            6, // message id byte - 6 "request"
            0, 0, 0, 11, // piece index - 11
            0, 2, 128, 0, // begin - 163840
            0, 0, 64, 0 // length - 16384
        ]
    );
}

#[test]
fn bitfield_marks_first_thirteen_pieces() {
    let stream: Vec<u8> = vec![0, 0, 0, 4, 5, 0xFF, 0xF8, 0x80];
    let message = Peer::read_message(&stream).unwrap().unwrap();
    assert_eq!(message.message_id, PeerMessageId::Bitfield);
    for index in 0..13 {
        assert!(has_piece(&message.payload, index), "piece {}", index);
    }
    for index in 13..16 {
        assert!(!has_piece(&message.payload, index), "piece {}", index);
    }
    // The last byte's most significant bit stands for piece 16.
    assert!(has_piece(&message.payload, 16));
    assert!(!has_piece(&message.payload, 24));
    let mut expected: Vec<usize> = (0..13).collect();
    expected.push(16);
    assert_eq!(get_piece_indices(&message.payload), expected);
}

#[test]
fn bitfield_is_most_significant_bit_first() {
    let bitfield = vec![0b0100_0001, 0b1000_0000];
    assert_eq!(get_piece_indices(&bitfield), vec![1, 7, 8]);
    assert!(!has_piece(&bitfield, 0));
    assert!(has_piece(&bitfield, 8));
}

#[test]
fn frames_that_are_incomplete_or_unknown() {
    assert_eq!(Peer::read_message(&[0, 0, 0]), Ok(None));
    assert_eq!(Peer::read_message(&[0, 0, 0, 0]), Ok(None));
    assert_eq!(Peer::read_message(&[0, 0, 0, 5, 7, 1]), Err(Error::Truncated));
    assert_eq!(Peer::read_message(&[0, 0, 0, 1, 9]), Err(Error::UnknownMessageId(9)));
}

#[test]
fn message_ids_round_trip() {
    for code in 0u8..=8 {
        assert_eq!(PeerMessageId::lookup(code).unwrap().code(), code);
    }
    assert_eq!(PeerMessageId::lookup(9), Err(Error::UnknownMessageId(9)));
}

#[test]
fn short_piece_payload_is_an_error() {
    let message = PeerMessage::new(PeerMessageId::Piece, vec![0, 0, 0, 1, 0, 0, 0]);
    assert_eq!(message.parse_as_piece(), Err(Error::Truncated));
}

#[test]
fn interested_message_has_no_payload() {
    assert_eq!(PeerMessage::with_id(PeerMessageId::Interested).get_bytes(), vec![0, 0, 0, 1, 2]);
}

#[test]
fn blocks_partition_a_piece() {
    let piece = Piece { index: 0, piece_length: 40000 };
    let blocks = piece.get_blocks(40000);
    let begins: Vec<u32> = blocks.iter().map(|b| b.begin).collect();
    let lengths: Vec<u32> = blocks.iter().map(|b| b.length).collect();
    assert_eq!(begins, vec![0, 16384, 32768]);
    assert_eq!(lengths, vec![16384, 16384, 7232]);
    let exact = Piece { index: 1, piece_length: 32768 }.get_blocks(32768);
    assert_eq!(exact.len(), 2);
    assert_eq!(exact[1].length, 16384);
    assert!(Piece { index: 2, piece_length: 0 }.get_blocks(0).is_empty());
}

#[test]
fn handshake_answer_is_parsed() {
    let mut bytes = vec![19u8];
    bytes.extend_from_slice(b"BitTorrent protocol");
    bytes.extend_from_slice(&[0; 8]);
    bytes.extend((0..20).map(|i| i as u8));
    bytes.extend((100..120).map(|i| i as u8));
    let handshake = PeerHandshake::parse(&bytes).unwrap();
    assert_eq!(handshake.info_hash, (0..20).map(|i| i as u8).collect::<Vec<u8>>());
    assert_eq!(handshake.peer.id, (100..120).map(|i| i as u8).collect::<Vec<u8>>());
    assert_eq!(PeerHandshake::parse(&bytes[..67]), Err(Error::Truncated));
}

#[test]
fn random_peer_id_is_twenty_digits() {
    let id = random_peer_id();
    assert_eq!(id.len(), 20);
    assert!(id.chars().all(|c| c.is_ascii_digit()));
}

#[test]
fn peer_address_is_parsed() {
    let address = bittorrent::peer::PeerAddress::from_str("165.232.33.77:51467").unwrap();
    assert_eq!(address.ip, [165, 232, 33, 77]);
    assert_eq!(address.port, 51467);
    for bad in ["1.2.3:4", "1.2.3.256:80", "1.2.3.4:65536", "1.2.3.4", "a.b.c.d:1", "1.2.3.4:", "1..3.4:5"] {
        assert_eq!(
            bittorrent::peer::PeerAddress::from_str(bad).unwrap_err(),
            Error::InvalidAddress,
            "{}",
            bad
        );
    }
}

#[test]
fn digits_become_decimal_characters() {
    assert_eq!(bittorrent::peer::digits_string(&vec![0, 1, 9, 5]), "0195");
    assert_eq!(bittorrent::peer::digits_string(&vec![]), "");
}
