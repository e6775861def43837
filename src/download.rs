use vstd::prelude::*;
use crate::error::Error;
use crate::bencode::bytes_equal;
use crate::hash::{compute_hash, sha1_of};
use crate::peer::{
    PeerChokedState, PeerConnectionState, PeerInterestedState, PeerMessage, PeerMessageId,
    Piece, PieceBlock, be32, be32_value, bit_set, blocks_total, copy_range, has_piece, is_block,
};

verus! {

/// Most requests that may wait for an answer from one peer.
pub const MAX_IN_FLIGHT: usize = 5;

/// What handling a received message led to.
#[derive(Debug, PartialEq, Eq)]
pub enum Outcome {
    /// Nothing to do outside the session.
    Nothing,
    /// The piece is complete and its SHA-1 matches: its bytes may be written.
    Verified { index: u32, data: Vec<u8> },
    /// The piece is complete but its SHA-1 does not match: it is downloaded again.
    Mismatch { index: u32 },
}

/// The state of the download from one peer.
pub struct PeerSession {
    pub connection: PeerConnectionState,
    pub bitfield: Option<Vec<u8>>,
    pub current: Option<Piece>,
    pub blocks_to_request: Vec<PieceBlock>,
    pub in_flight: usize,
    pub remaining: u32,
    pub buffer: Vec<u8>,
}

/// `buf` with `block` written at `begin`.
pub open spec fn splice(buf: Seq<u8>, begin: int, block: Seq<u8>) -> Seq<u8> {
    buf.subrange(0, begin) + block + buf.subrange(begin + block.len(), buf.len() as int)
}

/// The expected hash of piece `index`.
pub open spec fn expected_hash(pieces: Seq<u8>, index: int) -> Seq<u8> {
    pieces.subrange(20 * index, 20 * index + 20)
}

/// Index of the first piece in `queue` that the bitfield marks; the length where there is none.
pub open spec fn first_available(queue: Seq<Piece>, bitfield: Seq<u8>, from: int) -> int
    decreases queue.len() - from,
{
    if from < 0 || from >= queue.len() {
        queue.len() as int
    } else if bit_set(bitfield, queue[from].index as int) {
        from
    } else {
        first_available(queue, bitfield, from + 1)
    }
}

fn zeros(n: usize) -> (r: Vec<u8>)
    ensures
        r@ == Seq::new(n as nat, |i: int| 0u8),
{
    let mut out: Vec<u8> = Vec::new();
    let mut k: usize = 0;
    while k < n
        invariant
            0 <= k <= n,
            out@ == Seq::new(k as nat, |i: int| 0u8),
        decreases n - k,
    {
        out.push(0);
        k = k + 1;
        assert(out@ =~= Seq::new(k as nat, |i: int| 0u8));
    }
    out
}

impl PeerSession {
    /// A session that has just shaken hands: choked, not interested, no piece.
    pub fn new() -> (r: PeerSession)
        ensures
            r.connection.choked == PeerChokedState::Choked,
            r.connection.interested == PeerInterestedState::NotInterested,
            r.bitfield is None,
            r.current is None,
            r.in_flight == 0,
            r.blocks_to_request@.len() == 0,
            r.remaining == 0,
            r.buffer@.len() == 0,
    {
        PeerSession {
            connection: PeerConnectionState::initial(),
            bitfield: None,
            current: None,
            blocks_to_request: Vec::new(),
            in_flight: 0,
            remaining: 0,
            buffer: Vec::new(),
        }
    }

    /// Whether the session has nothing left to do: no piece of its own and none waiting.
    pub fn is_finished(&self, queue: &Vec<Piece>) -> (r: bool)
        ensures
            r == (self.current is None && queue@.len() == 0),
    {
        self.current.is_none() && queue.len() == 0
    }

    /// When idle, takes from the queue the first piece that the peer's bitfield marks, and
    /// starts it: all its blocks to request, a zeroed buffer of its length.
    pub fn pick_piece(&mut self, queue: &mut Vec<Piece>) -> (r: bool)
        ensures
            old(self).current is Some || old(self).bitfield is None ==> !r && *final(queue)
                == *old(queue) && final(self).current == old(self).current,
            old(self).current is None && old(self).bitfield is Some ==> ({
                let b = old(self).bitfield->Some_0;
                let at = first_available(old(queue)@, b@, 0);
                &&& r == (at < old(queue)@.len())
                &&& r ==> forall|i: int|
                    0 <= i < final(self).blocks_to_request@.len() ==> is_block(
                        #[trigger] final(self).blocks_to_request@[i],
                        i,
                        old(queue)@[at].piece_length as int,
                    )
                &&& r ==> blocks_total(final(self).blocks_to_request@) == old(queue)@[at].piece_length
                &&& r ==> final(queue)@ == old(queue)@.remove(at) && final(self).current == Some(
                    old(queue)@[at],
                ) && final(self).remaining == old(queue)@[at].piece_length
                    && final(self).buffer@ == Seq::new(
                    old(queue)@[at].piece_length as nat,
                    |i: int| 0u8,
                )
                &&& !r ==> *final(queue) == *old(queue) && final(self).current is None
            }),
            final(self).connection == old(self).connection,
            final(self).bitfield == old(self).bitfield,
            final(self).in_flight == old(self).in_flight,
            !r ==> *final(self) == *old(self),
    {
        if self.current.is_some() {
            return false;
        }
        let found = match &self.bitfield {
            None => {
                return false;
            },
            Some(bitfield) => {
                let ghost b = bitfield@;
                let mut k: usize = 0;
                while k < queue.len()
                    invariant
                        0 <= k <= queue@.len(),
                        b == bitfield@,
                        first_available(queue@, b, 0) == first_available(queue@, b, k as int),
                    ensures
                        0 <= k <= queue@.len(),
                        first_available(queue@, b, 0) == first_available(queue@, b, k as int),
                        k < queue@.len() ==> bit_set(b, queue@[k as int].index as int),
                    decreases queue@.len() - k,
                {
                    if has_piece(bitfield.as_slice(), queue[k].index as usize) {
                        break;
                    }
                    k = k + 1;
                }
                k
            },
        };
        if found >= queue.len() {
            return false;
        }
        let piece = queue.remove(found);
        self.blocks_to_request = piece.get_blocks(piece.piece_length);
        self.remaining = piece.piece_length;
        self.buffer = zeros(piece.piece_length as usize);
        self.current = Some(piece);
        true
    }

    /// What to send now: `interested` where we have a piece and have not said so yet; once
    /// unchoked, requests for the next blocks, as many as keep at most `MAX_IN_FLIGHT` waiting.
    pub fn send_tick(&mut self) -> (r: Vec<PeerMessage>)
        ensures
            old(self).current is None ==> r@.len() == 0 && *final(self) == *old(self),
            old(self).current is Some && old(self).connection.interested
                == PeerInterestedState::NotInterested ==> r@.len() == 1 && r@[0].message_id
                == PeerMessageId::Interested && r@[0].payload@.len() == 0
                && final(self).connection.interested == PeerInterestedState::Interested
                && final(self).connection.choked == old(self).connection.choked
                && final(self).blocks_to_request == old(self).blocks_to_request
                && final(self).in_flight == old(self).in_flight,
            old(self).current is Some && old(self).connection.interested
                == PeerInterestedState::Interested && old(self).connection.choked
                == PeerChokedState::Unchoked ==> ({
                let p = old(self).current->Some_0;
                let free = if old(self).in_flight < MAX_IN_FLIGHT {
                    MAX_IN_FLIGHT - old(self).in_flight
                } else {
                    0
                };
                let n = if free < old(self).blocks_to_request@.len() {
                    free
                } else {
                    old(self).blocks_to_request@.len() as int
                };
                &&& r@.len() == n
                &&& forall|i: int|
                    0 <= i < n ==> (#[trigger] r@[i]).message_id == PeerMessageId::Request
                        && r@[i].payload@ == be32(p.index) + be32(
                        old(self).blocks_to_request@[i].begin,
                    ) + be32(old(self).blocks_to_request@[i].length)
                &&& final(self).blocks_to_request@ == old(self).blocks_to_request@.subrange(
                    n,
                    old(self).blocks_to_request@.len() as int,
                )
                &&& final(self).in_flight == old(self).in_flight + n
                &&& final(self).connection == old(self).connection
            }),
            old(self).connection.interested == PeerInterestedState::Interested && old(self).connection.choked == PeerChokedState::Choked ==> r@.len() == 0 && *final(self)
                == *old(self),
            final(self).current == old(self).current,
            final(self).bitfield == old(self).bitfield,
            final(self).buffer == old(self).buffer,
            final(self).remaining == old(self).remaining,
    {
        let mut messages: Vec<PeerMessage> = Vec::new();
        let index = match self.current {
            None => {
                return messages;
            },
            Some(p) => p.index,
        };
        if self.connection.interested == PeerInterestedState::NotInterested {
            messages.push(PeerMessage::with_id(PeerMessageId::Interested));
            self.connection = self.connection.update_interested(PeerInterestedState::Interested);
            return messages;
        }
        if self.connection.choked == PeerChokedState::Choked {
            return messages;
        }
        let free = if self.in_flight < MAX_IN_FLIGHT {
            MAX_IN_FLIGHT - self.in_flight
        } else {
            0
        };
        let n = if free < self.blocks_to_request.len() {
            free
        } else {
            self.blocks_to_request.len()
        };
        let ghost blocks = self.blocks_to_request@;
        let mut k: usize = 0;
        while k < n
            invariant
                0 <= k <= n,
                n <= blocks.len(),
                n <= MAX_IN_FLIGHT,
                blocks == self.blocks_to_request@,
                messages@.len() == k,
                forall|i: int|
                    0 <= i < k ==> (#[trigger] messages@[i]).message_id == PeerMessageId::Request
                        && messages@[i].payload@ == be32(index) + be32(blocks[i].begin) + be32(
                        blocks[i].length,
                    ),
            decreases n - k,
        {
            let block = self.blocks_to_request[k];
            messages.push(PeerMessage::new_request(index, block.begin, block.length));
            k = k + 1;
        }
        let mut rest: Vec<PieceBlock> = Vec::new();
        let mut j: usize = n;
        while j < self.blocks_to_request.len()
            invariant
                n <= j <= blocks.len(),
                blocks == self.blocks_to_request@,
                rest@ == blocks.subrange(n as int, j as int),
            decreases blocks.len() - j,
        {
            rest.push(self.blocks_to_request[j]);
            j = j + 1;
            assert(rest@ =~= blocks.subrange(n as int, j as int));
        }
        self.blocks_to_request = rest;
        self.in_flight = self.in_flight + n;
        messages
    }

    /// Handles a message from the peer: records its bitfield, follows its choke state, and
    /// writes each block of the current piece into the buffer. When the last block is in, the
    /// piece is checked against its SHA-1 in `pieces`: a match hands its bytes out, a mismatch
    /// starts the piece over.
    #[verifier::rlimit(60)]
    pub fn receive(&mut self, message: PeerMessage, pieces: &[u8]) -> (r: Result<Outcome, Error>)
        ensures
            message.message_id == PeerMessageId::Bitfield ==> (r matches Ok(Outcome::Nothing))
                && final(self).bitfield == Some(message.payload) && final(self).current == old(self).current && final(self).connection == old(self).connection,
            message.message_id == PeerMessageId::Unchoke ==> (r matches Ok(Outcome::Nothing))
                && final(self).connection == old(self).connection.update_choked_spec(
                PeerChokedState::Unchoked,
            ) && final(self).current == old(self).current,
            message.message_id == PeerMessageId::Choke ==> (r matches Ok(Outcome::Nothing))
                && final(self).connection == old(self).connection.update_choked_spec(
                PeerChokedState::Choked,
            ) && final(self).current == old(self).current,
            message.message_id == PeerMessageId::Piece && old(self).current is None ==> (r matches Ok(
                Outcome::Nothing,
            )) && *final(self) == *old(self),
            message.message_id == PeerMessageId::Piece && old(self).current is Some
                && message.payload@.len() < 8 ==> r == Err::<Outcome, Error>(Error::Truncated),
            message.message_id == PeerMessageId::Piece && old(self).current is Some
                && message.payload@.len() >= 8 ==> ({
                let p = old(self).current->Some_0;
                let index = be32_value(message.payload@.subrange(0, 4));
                let begin = be32_value(message.payload@.subrange(4, 8));
                let block = message.payload@.subrange(8, message.payload@.len() as int);
                let buf = splice(old(self).buffer@, begin as int, block);
                &&& index != p.index ==> (r matches Ok(Outcome::Nothing)) && final(self).buffer
                    == old(self).buffer && final(self).current == old(self).current
                &&& index == p.index && (begin + block.len() > old(self).buffer@.len()
                    || block.len() > old(self).remaining) ==> r == Err::<Outcome, Error>(
                    Error::BlockOutOfRange,
                )
                &&& index == p.index && begin + block.len() <= old(self).buffer@.len()
                    && block.len() < old(self).remaining ==> (r matches Ok(Outcome::Nothing))
                    && final(self).buffer@ == buf && final(self).remaining == old(self).remaining
                    - block.len() && final(self).current == old(self).current
                &&& index == p.index && begin + block.len() <= old(self).buffer@.len()
                    && block.len() == old(self).remaining && 20 * index + 20 <= pieces@.len() ==> (
                if sha1_of(buf) == expected_hash(pieces@, index as int) {
                    (r matches Ok(Outcome::Verified { index: i, data }) && i == p.index && data@
                        == buf) && final(self).current is None
                } else {
                    (r matches Ok(Outcome::Mismatch { index: i }) && i == p.index) && final(self).current == old(self).current && final(self).remaining == p.piece_length
                        && final(self).buffer@ == Seq::new(p.piece_length as nat, |i: int| 0u8)
                })
            }),
            message.message_id != PeerMessageId::Bitfield && message.message_id
                != PeerMessageId::Unchoke && message.message_id != PeerMessageId::Choke
                && message.message_id != PeerMessageId::Piece ==> (r matches Ok(Outcome::Nothing))
                && *final(self) == *old(self),
            r matches Ok(Outcome::Verified { index, data }) ==> sha1_of(data@) == expected_hash(
                pieces@,
                index as int,
            ),
            final(self).bitfield == old(self).bitfield || message.message_id
                == PeerMessageId::Bitfield,
            message.message_id != PeerMessageId::Piece ==> final(self).in_flight == old(
                self).in_flight && final(self).blocks_to_request == old(self).blocks_to_request
                && final(self).remaining == old(self).remaining && final(self).buffer == old(
                self).buffer,
            message.message_id == PeerMessageId::Piece ==> final(self).connection == old(
                self).connection,
            message.message_id == PeerMessageId::Piece && !(r matches Ok(Outcome::Mismatch { .. }))
                ==> final(self).blocks_to_request == old(self).blocks_to_request,
            message.message_id == PeerMessageId::Piece && old(self).current is Some
                && message.payload@.len() >= 8 ==> final(self).in_flight == if old(self).in_flight
                > 0 {
                old(self).in_flight - 1
            } else {
                0
            },
            message.message_id == PeerMessageId::Piece && message.payload@.len() < 8 ==> *final(
                self) == *old(self),
            r is Err ==> final(self).current == old(self).current,
    {
        match message.message_id {
            PeerMessageId::Bitfield => {
                self.bitfield = Some(message.payload);
                Ok(Outcome::Nothing)
            },
            PeerMessageId::Unchoke => {
                self.connection = self.connection.update_choked(PeerChokedState::Unchoked);
                Ok(Outcome::Nothing)
            },
            PeerMessageId::Choke => {
                self.connection = self.connection.update_choked(PeerChokedState::Choked);
                Ok(Outcome::Nothing)
            },
            PeerMessageId::Piece => {
                let p = match self.current {
                    None => {
                        return Ok(Outcome::Nothing);
                    },
                    Some(p) => p,
                };
                let payload = message.payload.as_slice();
                if payload.len() < 8 {
                    return Err(Error::Truncated);
                }
                self.in_flight = if self.in_flight > 0 {
                    self.in_flight - 1
                } else {
                    0
                };
                let index = crate::peer::read_be32(payload, 0);
                let begin = crate::peer::read_be32(payload, 4) as usize;
                let length = payload.len() - 8;
                if index != p.index {
                    return Ok(Outcome::Nothing);
                }
                if begin > self.buffer.len() || length > self.buffer.len() - begin || length
                    > self.remaining as usize {
                    return Err(Error::BlockOutOfRange);
                }
                let ghost old_buf = self.buffer@;
                let ghost pre = *self;
                let ghost block = payload@.subrange(8, payload@.len() as int);
                let total = payload.len();
                let buffer_length = self.buffer.len();
                let mut j: usize = 0;
                while j < length
                    invariant
                        0 <= j <= length,
                        total == payload@.len(),
                        buffer_length == old_buf.len(),
                        length <= self.remaining,
                        self.remaining == pre.remaining,
                        self.current == pre.current,
                        self.bitfield == pre.bitfield,
                        self.connection == pre.connection,
                        self.in_flight == pre.in_flight,
                        self.blocks_to_request == pre.blocks_to_request,
                        length == payload@.len() - 8,
                        begin + length <= old_buf.len(),
                        block == payload@.subrange(8, payload@.len() as int),
                        self.buffer@.len() == old_buf.len(),
                        forall|x: int|
                            0 <= x < old_buf.len() ==> #[trigger] self.buffer@[x] == if begin <= x
                                < begin + j {
                                block[x - begin]
                            } else {
                                old_buf[x]
                            },
                    decreases length - j,
                {
                    self.buffer.set(begin + j, payload[8 + j]);
                    j = j + 1;
                }
                assert(self.buffer@ =~= splice(old_buf, begin as int, block));
                self.remaining = self.remaining - length as u32;
                if self.remaining > 0 {
                    return Ok(Outcome::Nothing);
                }
                let hash_count = pieces.len() / 20;
                if index as usize >= hash_count {
                    assert(20 * index + 20 > pieces@.len()) by (nonlinear_arith)
                        requires
                            index >= hash_count,
                            hash_count == pieces@.len() / 20,
                    ;
                    return Err(Error::InvalidPieceIndex);
                }
                assert(20 * index + 20 <= pieces@.len()) by (nonlinear_arith)
                    requires
                        index < hash_count,
                        hash_count == pieces@.len() / 20,
                ;
                let computed = compute_hash(self.buffer.as_slice());
                Ok(self.finish_piece(computed.as_slice(), pieces))
            },
            _ => Ok(Outcome::Nothing),
        }
    }

    /// Ends the current piece, whose buffer is full, given the SHA-1 that was computed of it:
    /// where it equals the piece's hash in `pieces`, the bytes are handed out and the session
    /// goes idle; otherwise the piece starts over.
    pub fn finish_piece(&mut self, computed: &[u8], pieces: &[u8]) -> (r: Outcome)
        requires
            old(self).current is Some,
            20 * old(self).current->Some_0.index + 20 <= pieces@.len(),
        ensures
            ({
                let p = old(self).current->Some_0;
                if computed@ == expected_hash(pieces@, p.index as int) {
                    &&& r matches Outcome::Verified { index, data }
                    &&& r->Verified_index == p.index
                    &&& r->Verified_data@ == old(self).buffer@
                    &&& final(self).current is None
                } else {
                    &&& r == (Outcome::Mismatch { index: p.index })
                    &&& final(self).current == old(self).current
                    &&& final(self).remaining == p.piece_length
                    &&& final(self).buffer@ == Seq::new(p.piece_length as nat, |i: int| 0u8)
                    &&& forall|i: int|
                        0 <= i < final(self).blocks_to_request@.len() ==> is_block(
                            #[trigger] final(self).blocks_to_request@[i],
                            i,
                            p.piece_length as int,
                        )
                    &&& blocks_total(final(self).blocks_to_request@) == p.piece_length
                }
            }),
            final(self).connection == old(self).connection,
            final(self).bitfield == old(self).bitfield,
            final(self).in_flight == old(self).in_flight,
            !(r matches Outcome::Mismatch { .. }) ==> final(self).blocks_to_request == old(
                self).blocks_to_request,
    {
        let p = match self.current {
            Some(p) => p,
            None => {
                return Outcome::Nothing;
            },
        };
        let total = pieces.len();
        assert(20 * p.index + 20 <= total);
        let start = (p.index as usize) * 20;
        let expected = copy_range(pieces, start, start + 20);
        if bytes_equal(computed, expected.as_slice()) {
            let data = copy_range(self.buffer.as_slice(), 0, self.buffer.len());
            assert(data@ =~= self.buffer@);
            self.buffer = Vec::new();
            self.current = None;
            Outcome::Verified { index: p.index, data }
        } else {
            self.blocks_to_request = p.get_blocks(p.piece_length);
            self.remaining = p.piece_length;
            self.buffer = zeros(p.piece_length as usize);
            Outcome::Mismatch { index: p.index }
        }
    }

    /// Gives the piece back to the queue where the session holds one, as when the peer is lost.
    pub fn release(&mut self, queue: &mut Vec<Piece>)
        ensures
            old(self).current matches Some(p) ==> final(queue)@ == old(queue)@.push(p),
            old(self).current is None ==> *final(queue) == *old(queue),
            final(self).current is None,
            final(self).connection == old(self).connection,
            final(self).bitfield == old(self).bitfield,
    {
        match self.current {
            Some(p) => {
                queue.push(p);
                self.current = None;
            },
            None => {},
        }
    }
}

} // verus!
