use bittorrent::error::Error;
use bittorrent::text::{format_as_hex_string, url_encode_bytes};
use bittorrent::torrent::Torrent;
use bittorrent::tracker::messages::{Action, ConnectRequest, ConnectResponse};
use bittorrent::tracker::{Tracker, TrackerRequest, TrackerResponse, TrackerScheme};

#[test]
fn compact_peers_are_decoded() {
    let response = TrackerResponse {
        interval: 60,
        peers: vec![192, 168, 1, 2, 0x1A, 0xE1, 10, 0, 0, 1, 0, 80],
    };
    let addresses = response.get_peer_addresses().unwrap();
    assert_eq!(addresses.len(), 2);
    assert_eq!(addresses[0].ip, [192, 168, 1, 2]);
    assert_eq!(addresses[0].port, 6881);
    assert_eq!(addresses[1].ip, [10, 0, 0, 1]);
    assert_eq!(addresses[1].port, 80);
}

#[test]
fn compact_peers_must_be_multiple_of_six() {
    let response = TrackerResponse { interval: 60, peers: vec![1, 2, 3, 4, 5] };
    assert_eq!(response.get_peer_addresses().unwrap_err(), Error::MalformedPeers);
    let empty = TrackerResponse { interval: 60, peers: vec![] };
    assert!(empty.get_peer_addresses().unwrap().is_empty());
}

#[test]
fn tracker_response_body_is_read() {
    let body = b"d8:intervali1800e5:peers6:\x7f\x00\x00\x01\x1a\xe1e".to_vec();
    let response = TrackerResponse::from_bencoded(&body).unwrap();
    assert_eq!(response.interval, 1800);
    assert_eq!(response.peers, vec![127, 0, 0, 1, 0x1a, 0xe1]);
    let missing = b"d8:intervali1800ee".to_vec();
    assert_eq!(TrackerResponse::from_bencoded(&missing).err(), Some(Error::MalformedResponse));
    let negative = b"d8:intervali-1e5:peers0:e".to_vec();
    assert_eq!(TrackerResponse::from_bencoded(&negative).err(), Some(Error::MalformedResponse));
    assert_eq!(TrackerResponse::from_bencoded(&b"d".to_vec()).err(), Some(Error::Decode));
}

#[test]
fn info_hash_is_percent_encoded_in_upper_case() {
    assert_eq!(url_encode_bytes(&[0x00, 0xab, 0x7f, 0xff]), "%00%AB%7F%FF");
    assert_eq!(url_encode_bytes(&[]), "");
}

#[test]
fn hex_is_lower_case() {
    assert_eq!(format_as_hex_string(&[0x00, 0xab, 0x7f, 0xff]), "00ab7fff");
}

#[test]
fn scheme_is_read_from_url() {
    let http = Tracker { url: "http://example.com/announce".to_string() };
    assert_eq!(http.scheme(), Ok(TrackerScheme::Http));
    let udp = Tracker { url: "udp://93.158.213.92:1337".to_string() };
    assert_eq!(udp.scheme(), Ok(TrackerScheme::Udp));
    let other = Tracker { url: "ftp://example.com".to_string() };
    assert_eq!(other.scheme(), Err(Error::UnsupportedScheme));
}

#[test]
fn announce_url_carries_all_parameters() {
    let request = TrackerRequest {
        peer_id: "00112233445566778899".to_string(),
        info_hash: "%AB%CD".to_string(),
        port: 6881,
        uploaded: 0,
        downloaded: 0,
        left: 92063,
        compact: true,
    };
    let url = Tracker::announce_url("http://tracker/announce", &request);
    assert_eq!(
        url,
        "http://tracker/announce?peer_id=00112233445566778899&port=6881&uploaded=0&downloaded=0&left=92063&compact=1&info_hash=%AB%CD"
    );
}

#[test]
fn announce_request_for_sample_torrent() {
    let input = "d8:announce55:http://bittorrent-test-tracker.codecrafters.io/announce10:created by13:mktorrent 1.14:infod6:lengthi92063e4:name10:sample.txt12:piece lengthi32768e6:pieces20:00000000000000000000ee";
    let torrent = Torrent::from_bytes(&input.as_bytes().to_vec()).unwrap();
    let request = Tracker::announce_request("00000000000000000001", 6881, &torrent);
    assert_eq!(request.left, 92063);
    assert_eq!(request.port, 6881);
    assert!(request.compact);
    assert_eq!(request.info_hash, "%E6%8D%67%C4%B8%42%74%F7%41%D7%29%3F%C0%65%71%02%A3%6E%7E%3B");
}

#[test]
fn connect_request_bytes() {
    let request = ConnectRequest::new(0x01020304);
    assert_eq!(
        request.get_bytes(),
        vec![0x00, 0x00, 0x04, 0x17, 0x27, 0x10, 0x19, 0x80, 0, 0, 0, 0, 1, 2, 3, 4]
    );
}

#[test]
fn connect_response_is_parsed() {
    let bytes = [0, 0, 0, 0, 1, 2, 3, 4, 0, 0, 0, 0, 0, 0, 1, 0];
    let response = ConnectResponse::parse(&bytes).unwrap();
    assert_eq!(response.action, Action::Connect);
    assert_eq!(response.transaction_id, 0x01020304);
    assert_eq!(response.connection_id, 256);
    let announce = [0, 0, 0, 1, 1, 2, 3, 4, 0, 0, 0, 0, 0, 0, 1, 0];
    assert_eq!(ConnectResponse::parse(&announce).unwrap_err(), Error::UnexpectedAction);
    let unknown = [0, 0, 0, 9, 1, 2, 3, 4, 0, 0, 0, 0, 0, 0, 1, 0];
    assert_eq!(ConnectResponse::parse(&unknown).unwrap_err(), Error::UnknownAction(9));
    assert_eq!(ConnectResponse::parse(&bytes[..15]).unwrap_err(), Error::Truncated);
}

#[test]
fn actions_by_number() {
    assert_eq!(Action::from(2), Ok(Action::Scrape));
    assert_eq!(Action::from(4), Err(Error::UnknownAction(4)));
}

#[test]
fn url_is_joined_with_its_query() {
    assert_eq!(
        Tracker::url_with_query("http://t/a", "x=1&y=2", "%01%02"),
        "http://t/a?x=1&y=2&info_hash=%01%02"
    );
}

#[test]
fn query_values_are_form_encoded() {
    let request = TrackerRequest {
        peer_id: "a b*~&=é".to_string(),
        info_hash: "%00".to_string(),
        port: 1,
        uploaded: 2,
        downloaded: 3,
        left: 4,
        compact: false,
    };
    assert_eq!(
        Tracker::announce_url("http://t", &request),
        "http://t?peer_id=a+b*%7E%26%3D%C3%A9&port=1&uploaded=2&downloaded=3&left=4&compact=0&info_hash=%00"
    );
}

#[test]
fn udp_authority_is_host_and_port() {
    let udp = Tracker { url: "udp://tracker.example:1337/announce".to_string() };
    assert_eq!(udp.udp_authority(), Some(b"tracker.example:1337".to_vec()));
    let bare = Tracker { url: "udp://93.158.213.92:1337".to_string() };
    assert_eq!(bare.udp_authority(), Some(b"93.158.213.92:1337".to_vec()));
    let http = Tracker { url: "http://t/a".to_string() };
    assert_eq!(http.udp_authority(), None);
}
