use vstd::prelude::*;
use crate::error::Error;
use crate::peer::{be32, be32_value, push_be32, read_be32};

verus! {

/// Magic number that opens a UDP tracker `connect` request.
pub const PROTOCOL_ID: u64 = 0x41727101980;

/// The action of a UDP tracker message.
#[derive(Debug, Clone, Copy, PartialEq, Eq, Structural)]
pub enum Action {
    Connect,
    Announce,
    Scrape,
    Error,
}

/// The number that stands for an action on the wire.
pub open spec fn action_code(a: Action) -> u32 {
    match a {
        Action::Connect => 0,
        Action::Announce => 1,
        Action::Scrape => 2,
        Action::Error => 3,
    }
}

/// Big-endian bytes of a 64-bit number.
pub open spec fn be64(n: u64) -> Seq<u8> {
    be32((n / 0x1_0000_0000) as u32) + be32((n % 0x1_0000_0000) as u32)
}

/// The number that eight big-endian bytes write.
pub open spec fn be64_value(b: Seq<u8>) -> nat {
    be32_value(b.subrange(0, 4)) * 0x1_0000_0000 + be32_value(b.subrange(4, 8))
}

impl Action {
    /// The action that a number stands for; an error for a number past 3.
    pub fn from(action_id: u32) -> (r: Result<Action, Error>)
        ensures
            action_id <= 3 ==> (r matches Ok(a) && action_code(a) == action_id),
            action_id > 3 ==> r == Err::<Action, Error>(Error::UnknownAction(action_id)),
    {
        match action_id {
            0 => Ok(Action::Connect),
            1 => Ok(Action::Announce),
            2 => Ok(Action::Scrape),
            3 => Ok(Action::Error),
            _ => Err(Error::UnknownAction(action_id)),
        }
    }

    /// The number that stands for this action on the wire.
    pub fn code(&self) -> (r: u32)
        ensures
            r == action_code(*self),
    {
        match self {
            Action::Connect => 0,
            Action::Announce => 1,
            Action::Scrape => 2,
            Action::Error => 3,
        }
    }
}

/// The `connect` request of the UDP tracker protocol.
#[derive(Debug, Clone, Copy)]
pub struct ConnectRequest {
    pub protocol_id: u64,
    pub action: Action,
    pub transaction_id: u32,
}

impl ConnectRequest {
    /// A `connect` request with the given transaction id.
    pub fn new(transaction_id: u32) -> (r: ConnectRequest)
        ensures
            r.protocol_id == PROTOCOL_ID,
            r.action == Action::Connect,
            r.transaction_id == transaction_id,
    {
        ConnectRequest { protocol_id: PROTOCOL_ID, action: Action::Connect, transaction_id }
    }

    /// The 16 bytes of the request: protocol id, action and transaction id, big-endian.
    pub fn get_bytes(&self) -> (r: Vec<u8>)
        ensures
            r@ == be64(self.protocol_id) + be32(action_code(self.action)) + be32(self.transaction_id),
    {
        let mut bytes: Vec<u8> = Vec::new();
        push_be32(&mut bytes, (self.protocol_id / 0x1_0000_0000) as u32);
        push_be32(&mut bytes, (self.protocol_id % 0x1_0000_0000) as u32);
        push_be32(&mut bytes, self.action.code());
        push_be32(&mut bytes, self.transaction_id);
        assert(bytes@ =~= be64(self.protocol_id) + be32(action_code(self.action)) + be32(
            self.transaction_id,
        ));
        bytes
    }
}

/// The answer of a UDP tracker to a `connect` request.
#[derive(Debug, Clone, Copy)]
pub struct ConnectResponse {
    pub action: Action,
    pub transaction_id: u32,
    pub connection_id: u64,
}

impl ConnectResponse {
    /// Reads a `connect` response: action, transaction id and connection id, big-endian.
    pub fn parse(bytes: &[u8]) -> (r: Result<ConnectResponse, Error>)
        ensures
            bytes@.len() < 16 ==> r == Err::<ConnectResponse, Error>(Error::Truncated),
            bytes@.len() >= 16 && be32_value(bytes@.subrange(0, 4)) > 3 ==> r == Err::<
                ConnectResponse,
                Error,
            >(Error::UnknownAction(be32_value(bytes@.subrange(0, 4)) as u32)),
            bytes@.len() >= 16 && 0 < be32_value(bytes@.subrange(0, 4)) <= 3 ==> r == Err::<
                ConnectResponse,
                Error,
            >(Error::UnexpectedAction),
            bytes@.len() >= 16 && be32_value(bytes@.subrange(0, 4)) == 0 ==> (r matches Ok(c)
                && c.action == Action::Connect && c.transaction_id as nat == be32_value(
                bytes@.subrange(4, 8),
            ) && c.connection_id as nat == be64_value(bytes@.subrange(8, 16))),
    {
        if bytes.len() < 16 {
            return Err(Error::Truncated);
        }
        let action = Action::from(read_be32(bytes, 0))?;
        if action != Action::Connect {
            return Err(Error::UnexpectedAction);
        }
        let transaction_id = read_be32(bytes, 4);
        let high = read_be32(bytes, 8);
        let low = read_be32(bytes, 12);
        let connection_id = (high as u64) * 0x1_0000_0000 + (low as u64);
        assert(bytes@.subrange(8, 16).subrange(0, 4) =~= bytes@.subrange(8, 12));
        assert(bytes@.subrange(8, 16).subrange(4, 8) =~= bytes@.subrange(12, 16));
        Ok(ConnectResponse { action, transaction_id, connection_id })
    }
}

} // verus!
