use bittorrent::error::Error;
use bittorrent::text::format_as_hex_string;
use bittorrent::bencode::Value;
use bittorrent::hash;
use bittorrent::torrent::{Torrent, TorrentInfo};

const SAMPLE: &str = "d8:announce55:http://bittorrent-test-tracker.codecrafters.io/announce10:created by13:mktorrent 1.14:infod6:lengthi92063e4:name10:sample.txt12:piece lengthi32768e6:pieces20:00000000000000000000ee";

#[test]
fn read_torrent_from_bytes() {
    let input = SAMPLE;
    let torrent = Torrent::from_bytes(&input.as_bytes().to_vec()).unwrap();
    assert_eq!(torrent.announce, "http://bittorrent-test-tracker.codecrafters.io/announce");
    assert_eq!(torrent.info.name, "sample.txt");
    assert_eq!(torrent.info.length, Some(92063));
    assert_eq!(torrent.info.piece_length, 32768);
    assert_eq!(torrent.info.files, None);
    assert_eq!(torrent.info.pieces, "00000000000000000000".as_bytes());
}

#[test]
fn bencode_torrent_info() {
    let input = SAMPLE;
    let torrent = Torrent::from_bytes(&input.as_bytes().to_vec()).unwrap();
    let expected_torrent_info = "d6:lengthi92063e4:name10:sample.txt12:piece lengthi32768e6:pieces20:00000000000000000000e";
    assert_eq!(String::from_utf8(torrent.info.bencode()).unwrap(), expected_torrent_info)
}

#[test]
fn compute_hash() {
    let input = SAMPLE;
    let torrent = Torrent::from_bytes(&input.as_bytes().to_vec()).unwrap();
    assert_eq!(
        format_as_hex_string(&torrent.info.compute_hash()),
        "e68d67c4b84274f741d7293fc0657102a36e7e3b"
    );
}

#[test]
fn sample_torrent_pieces() {
    let torrent = Torrent::from_bytes(&SAMPLE.as_bytes().to_vec()).unwrap();
    assert_eq!(torrent.info.total_piece_number(), 3);
    assert_eq!(torrent.info.piece_length_at_index(0), Ok(32768));
    assert_eq!(torrent.info.piece_length_at_index(1), Ok(32768));
    assert_eq!(torrent.info.piece_length_at_index(2), Ok(26527));
    assert_eq!(torrent.info.piece_length_at_index(3), Err(Error::InvalidPieceIndex));
    let pieces = torrent.info.get_all_pieces();
    assert_eq!(pieces.len(), 3);
    assert_eq!(pieces[2].index, 2);
    assert_eq!(pieces[2].piece_length, 26527);
    let hashes = torrent.info.piece_hashes();
    assert_eq!(hashes, vec![b"00000000000000000000".to_vec()]);
}

#[test]
fn exact_multiple_has_full_last_piece() {
    let info = TorrentInfo {
        name: "x".to_string(),
        pieces: vec![0; 40],
        piece_length: 10,
        length: Some(20),
        files: None,
        dictionary: Value::Object(vec![]),
    };
    assert_eq!(info.total_piece_number(), 2);
    assert_eq!(info.piece_length_at_index(1), Ok(10));
    let empty = TorrentInfo { length: None, ..info };
    assert_eq!(empty.total_piece_number(), 0);
    assert!(empty.get_all_pieces().is_empty());
    assert_eq!(empty.piece_length_at_index(0), Err(Error::InvalidPieceIndex));
}

#[test]
fn metainfo_errors() {
    assert_eq!(Torrent::from_bytes(&b"d8:announce3:urle".to_vec()), Err(Error::Metainfo));
    assert_eq!(Torrent::from_bytes(&b"l".to_vec()), Err(Error::Decode));
    let bad_pieces = "d8:announce1:u4:infod4:name1:n12:piece lengthi1e6:pieces3:abcee";
    assert_eq!(Torrent::from_bytes(&bad_pieces.as_bytes().to_vec()), Err(Error::Metainfo));
    let zero_length = "d8:announce1:u4:infod4:name1:n12:piece lengthi0e6:pieces0:ee";
    assert_eq!(Torrent::from_bytes(&zero_length.as_bytes().to_vec()), Err(Error::Metainfo));
}

#[test]
fn multi_file_torrent_is_parsed_and_reencoded() {
    let info = "d5:filesld6:lengthi5e4:pathl1:a1:beed6:lengthi7e4:pathl1:ceee4:name3:dir12:piece lengthi4e6:pieces0:e";
    let input = format!("d8:announce1:u4:info{}e", info);
    let torrent = Torrent::from_bytes(&input.as_bytes().to_vec()).unwrap();
    let files = torrent.info.files.as_ref().unwrap();
    assert_eq!(files.len(), 2);
    assert_eq!(files[0].length, 5);
    assert_eq!(files[0].path, vec!["a".to_string(), "b".to_string()]);
    assert_eq!(files[1].path, vec!["c".to_string()]);
    assert_eq!(torrent.info.length, None);
    assert_eq!(String::from_utf8(torrent.info.bencode()).unwrap(), info);
}

#[test]
fn infohash_covers_every_key_of_the_info_dictionary() {
    let info = "d6:lengthi5e4:name1:n12:piece lengthi4e6:pieces0:7:privatei1ee";
    let input = format!("d8:announce1:u4:info{}e", info);
    let torrent = Torrent::from_bytes(&input.as_bytes().to_vec()).unwrap();
    assert_eq!(torrent.info.compute_hash(), hash::compute_hash(info.as_bytes()));
    assert_ne!(hash::compute_hash(&torrent.info.bencode()), hash::compute_hash(info.as_bytes()));
}

#[test]
fn piece_offsets_are_index_times_piece_length() {
    let torrent = Torrent::from_bytes(&SAMPLE.as_bytes().to_vec()).unwrap();
    assert_eq!(torrent.info.piece_offset(0), 0);
    assert_eq!(torrent.info.piece_offset(2), 65536);
}
