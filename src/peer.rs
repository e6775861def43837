use vstd::prelude::*;
use crate::error::Error;
use crate::bencode::{all_digits, digits_value, find_byte, read_digits, scan_to, COLON};
use crate::text::ascii_string;
use rand::Rng;
use vstd::string::StringSliceAdditionalSpecFns;

verus! {

/// Largest block that one request asks for.
pub const BLOCK_SIZE: u32 = 16384;

/// Length of the protocol string of a handshake.
pub const PROTOCOL_LENGTH: u8 = 19;

/// Length of a whole handshake: 1 + 19 + 8 + 20 + 20 bytes.
pub const HANDSHAKE_LENGTH: usize = 68;

/// The id byte of a peer message.
#[derive(Debug, Clone, Copy, PartialEq, Eq, Structural)]
pub enum PeerMessageId {
    Choke,
    Unchoke,
    Interested,
    NotInterested,
    Have,
    Bitfield,
    Request,
    Piece,
    Cancel,
}

/// The byte that stands for a message id on the wire.
pub open spec fn id_code(id: PeerMessageId) -> u8 {
    match id {
        PeerMessageId::Choke => 0,
        PeerMessageId::Unchoke => 1,
        PeerMessageId::Interested => 2,
        PeerMessageId::NotInterested => 3,
        PeerMessageId::Have => 4,
        PeerMessageId::Bitfield => 5,
        PeerMessageId::Request => 6,
        PeerMessageId::Piece => 7,
        PeerMessageId::Cancel => 8,
    }
}

impl PeerMessageId {
    /// The message id that a byte stands for; an error for a byte past 8.
    pub fn lookup(value: u8) -> (r: Result<PeerMessageId, Error>)
        ensures
            value <= 8 ==> (r matches Ok(id) && id_code(id) == value),
            value > 8 ==> r == Err::<PeerMessageId, Error>(Error::UnknownMessageId(value)),
    {
        match value {
            0 => Ok(PeerMessageId::Choke),
            1 => Ok(PeerMessageId::Unchoke),
            2 => Ok(PeerMessageId::Interested),
            3 => Ok(PeerMessageId::NotInterested),
            4 => Ok(PeerMessageId::Have),
            5 => Ok(PeerMessageId::Bitfield),
            6 => Ok(PeerMessageId::Request),
            7 => Ok(PeerMessageId::Piece),
            8 => Ok(PeerMessageId::Cancel),
            _ => Err(Error::UnknownMessageId(value)),
        }
    }

    /// The byte that stands for this id on the wire.
    pub fn code(&self) -> (r: u8)
        ensures
            r == id_code(*self),
    {
        match self {
            PeerMessageId::Choke => 0,
            PeerMessageId::Unchoke => 1,
            PeerMessageId::Interested => 2,
            PeerMessageId::NotInterested => 3,
            PeerMessageId::Have => 4,
            PeerMessageId::Bitfield => 5,
            PeerMessageId::Request => 6,
            PeerMessageId::Piece => 7,
            PeerMessageId::Cancel => 8,
        }
    }
}

/// Big-endian bytes of a 32-bit number.
pub open spec fn be32(n: u32) -> Seq<u8> {
    seq![
        (n / 16777216) as u8,
        ((n / 65536) % 256) as u8,
        ((n / 256) % 256) as u8,
        (n % 256) as u8,
    ]
}

/// The number that four big-endian bytes write.
pub open spec fn be32_value(b: Seq<u8>) -> nat {
    (b[0] * 16777216 + b[1] * 65536 + b[2] * 256 + b[3]) as nat
}

/// Appends the big-endian bytes of `n`.
pub fn push_be32(out: &mut Vec<u8>, n: u32)
    ensures
        final(out)@ == old(out)@ + be32(n),
{
    out.push((n / 16777216) as u8);
    out.push(((n / 65536) % 256) as u8);
    out.push(((n / 256) % 256) as u8);
    out.push((n % 256) as u8);
    assert(final(out)@ =~= old(out)@ + be32(n));
}

/// The number that the four big-endian bytes at `at` write.
pub fn read_be32(bytes: &[u8], at: usize) -> (r: u32)
    requires
        at + 4 <= bytes@.len(),
    ensures
        r as nat == be32_value(bytes@.subrange(at as int, at + 4)),
{
    let r = (bytes[at] as u32) * 16777216 + (bytes[at + 1] as u32) * 65536 + (bytes[at + 2] as u32)
        * 256 + (bytes[at + 3] as u32);
    assert(bytes@.subrange(at as int, at + 4)[0] == bytes@[at as int]);
    assert(bytes@.subrange(at as int, at + 4)[1] == bytes@[at + 1]);
    assert(bytes@.subrange(at as int, at + 4)[2] == bytes@[at + 2]);
    assert(bytes@.subrange(at as int, at + 4)[3] == bytes@[at + 3]);
    r
}

/// The number that four big-endian bytes write.
pub fn as_usize(bytes: &[u8; 4]) -> (r: usize)
    ensures
        r as nat == be32_value(bytes@),
{
    let s = bytes.as_slice();
    assert(s@.subrange(0, 4) =~= bytes@);
    read_be32(s, 0) as usize
}

/// Copies `bytes[from..to]`.
pub fn copy_range(bytes: &[u8], from: usize, to: usize) -> (r: Vec<u8>)
    requires
        from <= to <= bytes@.len(),
    ensures
        r@ == bytes@.subrange(from as int, to as int),
{
    let mut out: Vec<u8> = Vec::new();
    let mut k: usize = from;
    while k < to
        invariant
            from <= k <= to <= bytes@.len(),
            out@ == bytes@.subrange(from as int, k as int),
        decreases to - k,
    {
        out.push(bytes[k]);
        k = k + 1;
        assert(out@ =~= bytes@.subrange(from as int, k as int));
    }
    out
}

/// Appends all of `bytes`.
pub fn push_all(out: &mut Vec<u8>, bytes: &[u8])
    ensures
        final(out)@ == old(out)@ + bytes@,
{
    let ghost start = out@;
    let mut k: usize = 0;
    while k < bytes.len()
        invariant
            0 <= k <= bytes@.len(),
            out@ == start + bytes@.subrange(0, k as int),
        decreases bytes@.len() - k,
    {
        out.push(bytes[k]);
        k = k + 1;
        assert(out@ =~= start + bytes@.subrange(0, k as int));
    }
    assert(bytes@.subrange(0, k as int) =~= bytes@);
}

/// A message of the peer wire protocol: its id and its payload.
#[derive(Debug, PartialEq, Eq)]
pub struct PeerMessage {
    pub message_id: PeerMessageId,
    pub payload: Vec<u8>,
}

/// A `piece` message taken apart.
#[derive(Debug, PartialEq, Eq)]
pub struct PiecePeerMessage {
    pub message_id: PeerMessageId,
    pub index: usize,
    pub begin: usize,
    pub block: Vec<u8>,
}

/// A framed message: the length prefix counts the id byte and the payload.
pub open spec fn frame_bytes(code: u8, payload: Seq<u8>) -> Seq<u8> {
    be32((payload.len() + 1) as u32) + seq![code] + payload
}

impl PeerMessage {
    /// A message without payload.
    pub fn with_id(message_id: PeerMessageId) -> (r: PeerMessage)
        ensures
            r.message_id == message_id,
            r.payload@.len() == 0,
    {
        PeerMessage { message_id, payload: Vec::new() }
    }

    /// A message with the given payload.
    pub fn new(message_id: PeerMessageId, payload: Vec<u8>) -> (r: PeerMessage)
        ensures
            r.message_id == message_id,
            r.payload@ == payload@,
    {
        PeerMessage { message_id, payload }
    }

    /// The framed bytes of the message.
    pub fn get_bytes(self) -> (r: Vec<u8>)
        requires
            self.payload@.len() < u32::MAX,
        ensures
            r@ == frame_bytes(id_code(self.message_id), self.payload@),
    {
        let mut result: Vec<u8> = Vec::new();
        push_be32(&mut result, (self.payload.len() + 1) as u32);
        result.push(self.message_id.code());
        push_all(&mut result, self.payload.as_slice());
        assert(result@ =~= frame_bytes(id_code(self.message_id), self.payload@));
        result
    }

    /// A request for `length` bytes at `begin` of piece `index`.
    pub fn new_request(index: u32, begin: u32, length: u32) -> (r: PeerMessage)
        ensures
            r.message_id == PeerMessageId::Request,
            r.payload@ == be32(index) + be32(begin) + be32(length),
    {
        let mut payload: Vec<u8> = Vec::new();
        push_be32(&mut payload, index);
        push_be32(&mut payload, begin);
        push_be32(&mut payload, length);
        PeerMessage { message_id: PeerMessageId::Request, payload }
    }

    /// Reads the payload as that of a `piece` message: index, begin and the block.
    pub fn parse_as_piece(&self) -> (r: Result<PiecePeerMessage, Error>)
        ensures
            self.payload@.len() < 8 ==> r == Err::<PiecePeerMessage, Error>(Error::Truncated),
            self.payload@.len() >= 8 ==> (r matches Ok(p) && p.message_id == PeerMessageId::Piece
                && p.index as nat == be32_value(self.payload@.subrange(0, 4)) && p.begin as nat
                == be32_value(self.payload@.subrange(4, 8)) && p.block@ == self.payload@.subrange(
                8,
                self.payload@.len() as int,
            )),
    {
        if self.payload.len() < 8 {
            Err(Error::Truncated)
        } else {
            let p = self.payload.as_slice();
            let index = read_be32(p, 0) as usize;
            let begin = read_be32(p, 4) as usize;
            let block = copy_range(p, 8, p.len());
            Ok(PiecePeerMessage { message_id: PeerMessageId::Piece, index, begin, block })
        }
    }
}

/// Whether the remote peer lets us request blocks.
#[derive(Debug, Clone, Copy, PartialEq, Eq, Structural)]
pub enum PeerChokedState {
    Choked,
    Unchoked,
}

/// Whether we told the remote peer that we want its pieces.
#[derive(Debug, Clone, Copy, PartialEq, Eq, Structural)]
pub enum PeerInterestedState {
    Interested,
    NotInterested,
}

/// The choke and interest state of one connection.
#[derive(Debug, Clone, Copy, PartialEq, Eq, Structural)]
pub struct PeerConnectionState {
    pub choked: PeerChokedState,
    pub interested: PeerInterestedState,
}

impl PeerConnectionState {
    pub open spec fn update_choked_spec(self, choked: PeerChokedState) -> PeerConnectionState {
        PeerConnectionState { choked, interested: self.interested }
    }

    /// A new connection: choked and not interested.
    pub fn initial() -> (r: PeerConnectionState)
        ensures
            r.choked == PeerChokedState::Choked,
            r.interested == PeerInterestedState::NotInterested,
    {
        PeerConnectionState {
            choked: PeerChokedState::Choked,
            interested: PeerInterestedState::NotInterested,
        }
    }

    /// The same state with another choke state.
    pub fn update_choked(&self, choked: PeerChokedState) -> (r: PeerConnectionState)
        ensures
            r == self.update_choked_spec(choked),
            r.choked == choked,
            r.interested == self.interested,
    {
        PeerConnectionState { choked, interested: self.interested }
    }

    /// The same state with another interest state.
    pub fn update_interested(&self, interested: PeerInterestedState) -> (r: PeerConnectionState)
        ensures
            r.choked == self.choked,
            r.interested == interested,
    {
        PeerConnectionState { choked: self.choked, interested }
    }
}

/// A piece of the payload to download.
#[derive(Debug, Clone, Copy, PartialEq, Eq, Structural)]
pub struct Piece {
    pub index: u32,
    pub piece_length: u32,
}

/// A block of a piece: the unit of a request.
#[derive(Debug, Clone, Copy, PartialEq, Eq, Structural)]
pub struct PieceBlock {
    pub begin: u32,
    pub length: u32,
}

/// Sum of the lengths of blocks.
pub open spec fn blocks_total(bs: Seq<PieceBlock>) -> int
    decreases bs.len(),
{
    if bs.len() == 0 {
        0
    } else {
        blocks_total(bs.drop_last()) + bs.last().length
    }
}

/// Block `i` of a piece of length `piece_length`: at `16384 * i`, as long as the block size or
/// what is left of the piece, whichever is less.
pub open spec fn is_block(b: PieceBlock, i: int, piece_length: int) -> bool {
    &&& b.begin == BLOCK_SIZE * i
    &&& b.length == if piece_length - BLOCK_SIZE * i < BLOCK_SIZE {
        piece_length - BLOCK_SIZE * i
    } else {
        BLOCK_SIZE as int
    }
    &&& 0 < b.length <= BLOCK_SIZE
}

impl Piece {
    /// The blocks of a piece of length `piece_length`, in order: they start at 0, 16384,
    /// 32768, ..., none is longer than 16384 bytes, and their lengths add up to
    /// `piece_length`.
    pub fn get_blocks(&self, piece_length: u32) -> (r: Vec<PieceBlock>)
        ensures
            forall|i: int| 0 <= i < r@.len() ==> is_block(#[trigger] r@[i], i, piece_length as int),
            blocks_total(r@) == piece_length,
    {
        let mut current_begin_in_piece: u32 = 0;
        let mut piece_blocks: Vec<PieceBlock> = Vec::new();
        while current_begin_in_piece < piece_length
            invariant
                current_begin_in_piece <= piece_length,
                current_begin_in_piece == piece_length || current_begin_in_piece == BLOCK_SIZE
                    * piece_blocks@.len(),
                blocks_total(piece_blocks@) == current_begin_in_piece,
                forall|i: int|
                    0 <= i < piece_blocks@.len() ==> is_block(
                        #[trigger] piece_blocks@[i],
                        i,
                        piece_length as int,
                    ),
            decreases piece_length - current_begin_in_piece,
        {
            let left = piece_length - current_begin_in_piece;
            let current_block_length = if left < BLOCK_SIZE {
                left
            } else {
                BLOCK_SIZE
            };
            let block = PieceBlock { begin: current_begin_in_piece, length: current_block_length };
            let ghost before = piece_blocks@;
            piece_blocks.push(block);
            assert(piece_blocks@.drop_last() =~= before);
            if current_block_length < BLOCK_SIZE {
                current_begin_in_piece = piece_length;
            } else {
                current_begin_in_piece = current_begin_in_piece + current_block_length;
            }
        }
        piece_blocks
    }
}

/// Whether the bitfield marks piece `index`: bit `7 - index % 8` of byte `index / 8`, the most
/// significant bit first.
pub open spec fn bit_set(bitfield: Seq<u8>, index: int) -> bool {
    &&& 0 <= index
    &&& index / 8 < bitfield.len()
    &&& (bitfield[index / 8] >> (7 - index % 8) as u8) & 1u8 == 1u8
}

/// Whether a peer's bitfield marks piece `index` as available.
pub fn has_piece(bitfield: &[u8], index: usize) -> (r: bool)
    ensures
        r == bit_set(bitfield@, index as int),
{
    let byte = index / 8;
    if byte >= bitfield.len() {
        return false;
    }
    let shift: u8 = (7 - index % 8) as u8;
    (bitfield[byte] >> shift) & 1u8 == 1u8
}

/// Every piece index below `8 * bitfield.len()` that a bitfield marks, in increasing order.
pub fn get_piece_indices(bitfield: &[u8]) -> (r: Vec<usize>)
    requires
        bitfield@.len() * 8 <= usize::MAX,
    ensures
        forall|i: int| 0 <= i < r@.len() ==> bit_set(bitfield@, #[trigger] r@[i] as int),
        forall|i: int, j: int| 0 <= i < j < r@.len() ==> r@[i] < r@[j],
        forall|n: int|
            0 <= n < bitfield@.len() * 8 && bit_set(bitfield@, n) ==> r@.contains(n as usize),
{
    let limit = bitfield.len() * 8;
    let mut indices: Vec<usize> = Vec::new();
    let mut k: usize = 0;
    while k < limit
        invariant
            limit == bitfield@.len() * 8,
            0 <= k <= limit,
            forall|i: int| 0 <= i < indices@.len() ==> bit_set(bitfield@, #[trigger] indices@[i] as int),
            forall|i: int| 0 <= i < indices@.len() ==> #[trigger] indices@[i] < k,
            forall|i: int, j: int| 0 <= i < j < indices@.len() ==> indices@[i] < indices@[j],
            forall|n: int| 0 <= n < k && bit_set(bitfield@, n) ==> indices@.contains(n as usize),
        decreases limit - k,
    {
        let ghost before = indices@;
        if has_piece(bitfield, k) {
            indices.push(k);
            assert(indices@[indices@.len() - 1] == k);
        }
        proof {
            assert forall|n: int| 0 <= n < k + 1 && bit_set(bitfield@, n) implies indices@.contains(
                n as usize,
            ) by {
                if n == k {
                    assert(indices@[indices@.len() - 1] == k);
                } else {
                    assert(before.contains(n as usize));
                    let idx = choose|idx: int| 0 <= idx < before.len() && before[idx] == n as usize;
                    assert(indices@[idx] == n as usize);
                }
            }
        }
        k = k + 1;
    }
    indices
}

/// The IPv4 address and port of a peer.
#[derive(Debug, Clone, Copy)]
pub struct PeerAddress {
    pub ip: [u8; 4],
    pub port: u16,
}

/// Byte between the numbers of an IPv4 address.
pub const DOT: u8 = 46;

/// A decimal number of at least one digit, at most `limit`, in `s[a..b]`.
pub open spec fn number_in(s: Seq<u8>, a: int, b: int, limit: nat) -> Option<nat> {
    let d = s.subrange(a, b);
    if a < b && all_digits(d) && digits_value(d) <= limit {
        Some(digits_value(d))
    } else {
        None
    }
}

/// The address that `a.b.c.d:port` writes: four numbers up to 255 split by dots, a colon, and a
/// port up to 65535.
pub open spec fn address_spec(s: Seq<u8>) -> Option<(Seq<u8>, nat)> {
    let d1 = scan_to(s, 0, DOT);
    let d2 = scan_to(s, d1 + 1, DOT);
    let d3 = scan_to(s, d2 + 1, DOT);
    let c = scan_to(s, d3 + 1, COLON);
    if c >= s.len() {
        None
    } else {
        match (
            number_in(s, 0, d1, 255),
            number_in(s, d1 + 1, d2, 255),
            number_in(s, d2 + 1, d3, 255),
            number_in(s, d3 + 1, c, 255),
            number_in(s, c + 1, s.len() as int, 65535),
        ) {
            (Some(a), Some(b), Some(x), Some(y), Some(p)) => Some(
                (seq![a as u8, b as u8, x as u8, y as u8], p),
            ),
            _ => None,
        }
    }
}

fn number_at(s: &[u8], a: usize, b: usize, limit: u64) -> (r: Option<u64>)
    requires
        a <= b <= s@.len(),
    ensures
        match number_in(s@, a as int, b as int, limit as nat) {
            Some(n) => r == Some(n as u64),
            None => r is None,
        },
{
    if a >= b {
        return None;
    }
    read_digits(s, a, b, limit)
}

impl PeerAddress {
    /// Reads an address written `a.b.c.d:port`.
    pub fn from_str(input: &str) -> (r: Result<PeerAddress, Error>)
        ensures
            match address_spec(input.spec_bytes()) {
                Some((ip, port)) => r matches Ok(p) && p.ip@ == ip && p.port == port,
                None => r == Err::<PeerAddress, Error>(Error::InvalidAddress),
            },
    {
        let s = input.as_bytes();
        let n = s.len();
        let d1 = find_byte(s, 0, DOT);
        if d1 >= n {
            return Err(Error::InvalidAddress);
        }
        let d2 = find_byte(s, d1 + 1, DOT);
        if d2 >= n {
            return Err(Error::InvalidAddress);
        }
        let d3 = find_byte(s, d2 + 1, DOT);
        if d3 >= n {
            return Err(Error::InvalidAddress);
        }
        let c = find_byte(s, d3 + 1, COLON);
        if c >= n {
            return Err(Error::InvalidAddress);
        }
        let a = number_at(s, 0, d1, 255);
        let b = number_at(s, d1 + 1, d2, 255);
        let x = number_at(s, d2 + 1, d3, 255);
        let y = number_at(s, d3 + 1, c, 255);
        let p = number_at(s, c + 1, n, 65535);
        match (a, b, x, y, p) {
            (Some(a), Some(b), Some(x), Some(y), Some(p)) => {
                let ip: [u8; 4] = [a as u8, b as u8, x as u8, y as u8];
                assert(ip@ =~= seq![a as u8, b as u8, x as u8, y as u8]);
                Ok(PeerAddress { ip, port: p as u16 })
            },
            _ => Err(Error::InvalidAddress),
        }
    }
}

/// A remote peer, known by its id.
#[derive(Debug, Clone, PartialEq, Eq, Hash)]
pub struct Peer {
    pub id: Vec<u8>,
}

/// The handshake that opens a connection.
#[derive(Debug, PartialEq, Eq)]
pub struct PeerHandshake {
    pub info_hash: Vec<u8>,
    pub peer: Peer,
}

/// The protocol string of a handshake, `BitTorrent protocol`.
pub open spec fn protocol_bytes() -> Seq<u8> {
    "BitTorrent protocol".spec_bytes()
}

/// The bytes of a handshake: the length of the protocol string, the string, eight zero bytes,
/// the infohash and the peer id.
pub open spec fn handshake_bytes(info_hash: Seq<u8>, peer_id: Seq<u8>) -> Seq<u8> {
    seq![PROTOCOL_LENGTH] + protocol_bytes() + Seq::new(8, |i: int| 0u8) + info_hash + peer_id
}

/// What a frame at the start of `b` holds: nothing yet where fewer than four bytes are there or
/// the length prefix is zero (a keep-alive); an error where fewer bytes follow the prefix than it
/// announces, or the id is unknown; else the id byte and the payload.
pub open spec fn frame_spec(b: Seq<u8>) -> Result<Option<(u8, Seq<u8>)>, Error> {
    if b.len() < 4 {
        Ok(None)
    } else {
        let n = be32_value(b.subrange(0, 4));
        if n == 0 {
            Ok(None)
        } else if b.len() < 4 + n {
            Err(Error::Truncated)
        } else if b[4] > 8 {
            Err(Error::UnknownMessageId(b[4]))
        } else {
            Ok(Some((b[4], b.subrange(5, 4 + n as int))))
        }
    }
}

impl PeerHandshake {
    /// The bytes of the handshake.
    pub fn get_bytes(&self) -> (r: Vec<u8>)
        ensures
            r@ == handshake_bytes(self.info_hash@, self.peer.id@),
    {
        let mut message: Vec<u8> = Vec::new();
        message.push(PROTOCOL_LENGTH);
        push_all(&mut message, "BitTorrent protocol".as_bytes());
        let mut k: usize = 0;
        let ghost start = message@;
        while k < 8
            invariant
                0 <= k <= 8,
                message@ == start + Seq::new(k as nat, |i: int| 0u8),
            decreases 8 - k,
        {
            message.push(0);
            k = k + 1;
            assert(message@ =~= start + Seq::new(k as nat, |i: int| 0u8));
        }
        push_all(&mut message, self.info_hash.as_slice());
        push_all(&mut message, self.peer.id.as_slice());
        assert(message@ =~= handshake_bytes(self.info_hash@, self.peer.id@));
        message
    }

    /// Reads the handshake that a peer answered with: the infohash at bytes 28..48 and the peer
    /// id at bytes 48..68.
    pub fn parse(bytes: &[u8]) -> (r: Result<PeerHandshake, Error>)
        ensures
            bytes@.len() < 68 ==> r == Err::<PeerHandshake, Error>(Error::Truncated),
            bytes@.len() >= 68 ==> (r matches Ok(h) && h.info_hash@ == bytes@.subrange(28, 48)
                && h.peer.id@ == bytes@.subrange(48, 68)),
    {
        if bytes.len() < HANDSHAKE_LENGTH {
            return Err(Error::Truncated);
        }
        let info_hash = copy_range(bytes, 28, 48);
        let id = copy_range(bytes, 48, 68);
        Ok(PeerHandshake { info_hash, peer: Peer { id } })
    }
}

impl Peer {
    /// Reads the frame at the start of `bytes`: `None` for a keep-alive or where the four bytes
    /// of the length prefix are not all there.
    pub fn read_message(bytes: &[u8]) -> (r: Result<Option<PeerMessage>, Error>)
        ensures
            match frame_spec(bytes@) {
                Ok(None) => r matches Ok(None),
                Ok(Some((code, payload))) => r matches Ok(Some(m)) && id_code(m.message_id)
                    == code && m.payload@ == payload,
                Err(e) => r == Err::<Option<PeerMessage>, Error>(e),
            },
    {
        if bytes.len() < 4 {
            return Ok(None);
        }
        let message_length = read_be32(bytes, 0) as usize;
        if message_length == 0 {
            return Ok(None);
        }
        if bytes.len() - 4 < message_length {
            return Err(Error::Truncated);
        }
        let message_id = PeerMessageId::lookup(bytes[4])?;
        let payload = copy_range(bytes, 5, 4 + message_length);
        Ok(Some(PeerMessage { message_id, payload }))
    }
}

/// Relies on `rand::thread_rng` and `Rng::gen_range`: a number drawn from `0..10`.
#[verifier::external_body]
fn random_digit() -> (r: u8)
    ensures
        r < 10,
{
    rand::thread_rng().gen_range(0..10u8)
}

/// Whether every character is a decimal digit.
pub open spec fn all_decimal(s: Seq<char>) -> bool {
    forall|i: int| 0 <= i < s.len() ==> '0' <= #[trigger] s[i] <= '9'
}

/// The decimal digit characters of numbers below 10.
pub fn digits_string(digits: &Vec<u8>) -> (r: String)
    requires
        forall|i: int| 0 <= i < digits@.len() ==> #[trigger] digits@[i] < 10,
    ensures
        r@ == Seq::new(digits@.len(), |i: int| (48 + digits@[i]) as u8 as char),
{
    let mut bytes: Vec<u8> = Vec::new();
    let ghost chars = Seq::new(digits@.len(), |i: int| (48 + digits@[i]) as u8 as char);
    let mut k: usize = 0;
    while k < digits.len()
        invariant
            0 <= k <= digits@.len(),
            forall|i: int| 0 <= i < digits@.len() ==> #[trigger] digits@[i] < 10,
            chars == Seq::new(digits@.len(), |i: int| (48 + digits@[i]) as u8 as char),
            bytes@ == Seq::new(k as nat, |i: int| chars[i] as u8),
        decreases digits@.len() - k,
    {
        bytes.push(48 + digits[k]);
        k = k + 1;
        assert(bytes@ =~= Seq::new(k as nat, |i: int| chars[i] as u8));
    }
    assert(bytes@ =~= Seq::new(chars.len(), |i: int| chars[i] as u8));
    assert(vstd::utf8::is_ascii_chars(chars));
    ascii_string(bytes, Ghost(chars))
}

/// A string of `length` random decimal digits.
pub fn generate_random_number_string(length: usize) -> (r: String)
    ensures
        r@.len() == length,
        all_decimal(r@),
{
    let mut digits: Vec<u8> = Vec::new();
    let mut k: usize = 0;
    while k < length
        invariant
            0 <= k <= length,
            digits@.len() == k,
            forall|i: int| 0 <= i < digits@.len() ==> #[trigger] digits@[i] < 10,
        decreases length - k,
    {
        digits.push(random_digit());
        k = k + 1;
    }
    digits_string(&digits)
}

/// A fresh local peer id: 20 random decimal digits.
pub fn random_peer_id() -> (r: String)
    ensures
        r@.len() == 20,
        all_decimal(r@),
{
    generate_random_number_string(20)
}

} // verus!
