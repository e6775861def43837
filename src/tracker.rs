use vstd::prelude::*;
use vstd::string::StringSliceAdditionalSpecFns;
use vstd::utf8::encode_utf8;
use crate::bencode::{Bencode, decode_bencoded, decode_spec, dict_get, find_byte, scan_to};
use crate::peer::copy_range;
use crate::error::Error;
use crate::peer::PeerAddress;
use crate::text::{decimal_chars, decimal_string, join, percent_encoding, url_encode_bytes};
use crate::torrent::{Torrent, total_length};
use crate::encode::encode_spec;
use crate::hash::sha1_of;
use crate::query::{form_encode, form_urlencoded, pairs_view};

pub mod messages;

verus! {

/// Byte that ends the authority of a URL.
pub const SLASH: u8 = 47;

/// What a tracker answered: how long to wait before asking again, and the compact peer list.
pub struct TrackerResponse {
    pub interval: u32,
    pub peers: Vec<u8>,
}

/// A tracker, known by its announce URL.
pub struct Tracker {
    pub url: String,
}

/// The parameters of an announce.
pub struct TrackerRequest {
    pub peer_id: String,
    pub info_hash: String,
    pub port: usize,
    pub uploaded: u64,
    pub downloaded: u64,
    pub left: u64,
    pub compact: bool,
}

/// How a tracker is reached.
#[derive(Debug, Clone, Copy, PartialEq, Eq, Structural)]
pub enum TrackerScheme {
    Http,
    Udp,
}

/// Peer `i` of a compact peer list: four address bytes, then the port, big-endian.
pub open spec fn compact_peer(peers: Seq<u8>, i: int) -> (Seq<u8>, int) {
    (peers.subrange(6 * i, 6 * i + 4), peers[6 * i + 4] * 256 + peers[6 * i + 5])
}

impl TrackerResponse {
    /// The peers of the compact list: one for each six bytes.
    pub fn get_peer_addresses(&self) -> (r: Result<Vec<PeerAddress>, Error>)
        ensures
            self.peers@.len() % 6 != 0 ==> r == Err::<Vec<PeerAddress>, Error>(
                Error::MalformedPeers,
            ),
            self.peers@.len() % 6 == 0 ==> (r matches Ok(addresses) && addresses@.len()
                == self.peers@.len() / 6 && forall|i: int|
                0 <= i < addresses@.len() ==> (#[trigger] addresses@[i].ip@,
                addresses@[i].port as int) == compact_peer(self.peers@, i)),
    {
        let n = self.peers.len();
        if n % 6 != 0 {
            return Err(Error::MalformedPeers);
        }
        let count = n / 6;
        let mut addresses: Vec<PeerAddress> = Vec::new();
        let mut k: usize = 0;
        while k < count
            invariant
                n == self.peers@.len(),
                n % 6 == 0,
                count == n / 6,
                0 <= k <= count,
                addresses@.len() == k,
                forall|i: int|
                    0 <= i < k ==> (#[trigger] addresses@[i].ip@, addresses@[i].port as int)
                        == compact_peer(self.peers@, i),
            decreases count - k,
        {
            assert(6 * k + 6 <= n) by (nonlinear_arith)
                requires
                    k < count,
                    count == n / 6,
            ;
            let at = 6 * k;
            let p = self.peers.as_slice();
            let ip: [u8; 4] = [p[at], p[at + 1], p[at + 2], p[at + 3]];
            let port: u16 = (p[at + 4] as u16) * 256 + (p[at + 5] as u16);
            assert(ip@ =~= self.peers@.subrange(6 * k, 6 * k + 4));
            addresses.push(PeerAddress { ip, port });
            k = k + 1;
        }
        Ok(addresses)
    }

    /// Reads the bencoded body of a tracker's answer: an `interval` that fits a `u32` and the
    /// `peers` bytes.
    pub fn from_bencoded(body: &Vec<u8>) -> (r: Result<TrackerResponse, Error>)
        ensures
            match decode_spec(body@) {
                None => r == Err::<TrackerResponse, Error>(Error::Decode),
                Some(v) => match (
                    dict_get(v, "interval".spec_bytes()),
                    dict_get(v, "peers".spec_bytes()),
                ) {
                    (Some(Bencode::Int(i)), Some(Bencode::Bytes(p))) => if 0 <= i <= u32::MAX {
                        r matches Ok(t) && t.interval == i && t.peers@ == p
                    } else {
                        r == Err::<TrackerResponse, Error>(Error::MalformedResponse)
                    },
                    _ => r == Err::<TrackerResponse, Error>(Error::MalformedResponse),
                },
            },
    {
        let decoded = decode_bencoded(body)?;
        let interval = match decoded.get_by_key("interval") {
            Some(v) => match v.as_number() {
                Some(i) => i,
                None => {
                    return Err(Error::MalformedResponse);
                },
            },
            None => {
                return Err(Error::MalformedResponse);
            },
        };
        let peers = match decoded.get_by_key("peers") {
            Some(v) => match v.as_bytes() {
                Some(p) => p,
                None => {
                    return Err(Error::MalformedResponse);
                },
            },
            None => {
                return Err(Error::MalformedResponse);
            },
        };
        if interval < 0 || interval > u32::MAX as i64 {
            return Err(Error::MalformedResponse);
        }
        Ok(TrackerResponse { interval: interval as u32, peers })
    }
}

/// Whether `s` starts with `prefix`.
pub open spec fn starts_with(s: Seq<u8>, prefix: Seq<u8>) -> bool {
    prefix.len() <= s.len() && s.subrange(0, prefix.len() as int) == prefix
}

fn bytes_start_with(s: &[u8], prefix: &[u8]) -> (r: bool)
    ensures
        r == starts_with(s@, prefix@),
{
    if prefix.len() > s.len() {
        return false;
    }
    let mut k: usize = 0;
    while k < prefix.len()
        invariant
            prefix@.len() <= s@.len(),
            0 <= k <= prefix@.len(),
            forall|j: int| 0 <= j < k ==> s@[j] == prefix@[j],
        decreases prefix@.len() - k,
    {
        if s[k] != prefix[k] {
            assert(s@.subrange(0, prefix@.len() as int)[k as int] != prefix@[k as int]);
            return false;
        }
        k = k + 1;
    }
    assert(s@.subrange(0, prefix@.len() as int) =~= prefix@);
    true
}

/// The name/value pairs of an announce query, `info_hash` aside.
pub open spec fn query_pairs(
    peer_id: Seq<char>,
    port: nat,
    uploaded: nat,
    downloaded: nat,
    left: nat,
    compact: bool,
) -> Seq<(Seq<char>, Seq<char>)> {
    seq![
        ("peer_id"@, peer_id),
        ("port"@, decimal_chars(port)),
        ("uploaded"@, decimal_chars(uploaded)),
        ("downloaded"@, decimal_chars(downloaded)),
        ("left"@, decimal_chars(left)),
        ("compact"@, if compact { "1"@ } else { "0"@ }),
    ]
}

impl TrackerRequest {
    /// The pairs of the query, `info_hash` aside.
    pub open spec fn pairs(&self) -> Seq<(Seq<char>, Seq<char>)> {
        query_pairs(
            self.peer_id@,
            self.port as nat,
            self.uploaded as nat,
            self.downloaded as nat,
            self.left as nat,
            self.compact,
        )
    }
}

impl Tracker {
    /// How the tracker is reached: by HTTP where its URL starts with `http`, by UDP where it
    /// starts with `udp`; any other scheme is an error.
    pub fn scheme(&self) -> (r: Result<TrackerScheme, Error>)
        ensures
            starts_with(encode_utf8(self.url@), "http".spec_bytes()) ==> r == Ok::<
                TrackerScheme,
                Error,
            >(TrackerScheme::Http),
            !starts_with(encode_utf8(self.url@), "http".spec_bytes()) && starts_with(
                encode_utf8(self.url@),
                "udp".spec_bytes(),
            ) ==> r == Ok::<TrackerScheme, Error>(TrackerScheme::Udp),
            !starts_with(encode_utf8(self.url@), "http".spec_bytes()) && !starts_with(
                encode_utf8(self.url@),
                "udp".spec_bytes(),
            ) ==> r == Err::<TrackerScheme, Error>(Error::UnsupportedScheme),
    {
        let url = self.url.as_str().as_bytes();
        if bytes_start_with(url, "http".as_bytes()) {
            Ok(TrackerScheme::Http)
        } else if bytes_start_with(url, "udp".as_bytes()) {
            Ok(TrackerScheme::Udp)
        } else {
            Err(Error::UnsupportedScheme)
        }
    }

    /// The `host:port` part of a `udp://` URL: the bytes after the scheme up to the first `/`.
    pub fn udp_authority(&self) -> (r: Option<Vec<u8>>)
        ensures
            !starts_with(encode_utf8(self.url@), "udp://".spec_bytes()) ==> r is None,
            starts_with(encode_utf8(self.url@), "udp://".spec_bytes()) ==> (r matches Some(a)
                && a@ == encode_utf8(self.url@).subrange(
                "udp://".spec_bytes().len() as int,
                scan_to(encode_utf8(self.url@), "udp://".spec_bytes().len() as int, SLASH),
            )),
    {
        let url = self.url.as_str().as_bytes();
        let scheme = "udp://".as_bytes();
        if !bytes_start_with(url, scheme) {
            return None;
        }
        let end = find_byte(url, scheme.len(), SLASH);
        Some(copy_range(url, scheme.len(), end))
    }

    /// The parameters of an announce for a torrent: our peer id and port, nothing uploaded or
    /// downloaded yet, the whole payload left, a compact peer list, and the percent-encoded
    /// infohash.
    pub fn announce_request(current_peer_id: &str, port: usize, torrent: &Torrent) -> (r:
        TrackerRequest)
        ensures
            r.peer_id@ == current_peer_id@,
            r.port == port,
            r.uploaded == 0,
            r.downloaded == 0,
            r.left == total_length(torrent.info@),
            r.compact,
            r.info_hash@ == percent_encoding(sha1_of(encode_spec(torrent.info.dictionary@))),
    {
        let torrent_hash = torrent.info.compute_hash();
        TrackerRequest {
            peer_id: current_peer_id.to_owned(),
            info_hash: url_encode_bytes(torrent_hash.as_slice()),
            port,
            uploaded: 0,
            downloaded: 0,
            left: match torrent.info.length {
                Some(n) => n as u64,
                None => 0,
            },
            compact: true,
        }
    }

    /// The announce URL: `url`, `?`, the form-encoded pairs, then `&info_hash=` and the
    /// infohash as given, which is percent-encoded already.
    pub fn announce_url(url: &str, request: &TrackerRequest) -> (r: String)
        ensures
            r@ == url@ + "?"@ + form_urlencoded(request.pairs()) + "&info_hash="@
                + request.info_hash@,
    {
        let mut pairs: Vec<(String, String)> = Vec::new();
        pairs.push(("peer_id".to_owned(), request.peer_id.clone()));
        pairs.push(("port".to_owned(), decimal_string(request.port as u64)));
        pairs.push(("uploaded".to_owned(), decimal_string(request.uploaded)));
        pairs.push(("downloaded".to_owned(), decimal_string(request.downloaded)));
        pairs.push(("left".to_owned(), decimal_string(request.left)));
        pairs.push(("compact".to_owned(), if request.compact {
            "1".to_owned()
        } else {
            "0".to_owned()
        }));
        assert(pairs_view(pairs@) =~= request.pairs());
        match form_encode(&pairs) {
            Ok(query) => Tracker::url_with_query(url, query.as_str(), request.info_hash.as_str()),
            Err(_) => {
                proof {
                    assert(false);
                }
                String::new()
            },
        }
    }

    /// `url`, `?`, the encoded query, then `&info_hash=` and the percent-encoded infohash.
    pub fn url_with_query(url: &str, query: &str, info_hash: &str) -> (r: String)
        ensures
            r@ == url@ + "?"@ + query@ + "&info_hash="@ + info_hash@,
    {
        let with_mark = join(url, "?");
        let with_query = join(with_mark.as_str(), query);
        let with_key = join(with_query.as_str(), "&info_hash=");
        join(with_key.as_str(), info_hash)
    }
}

} // verus!
