use vstd::prelude::*;

verus! {

/// What can go wrong in the library.
#[derive(Debug, Clone, Copy, PartialEq, Eq, Structural)]
pub enum Error {
    /// Malformed or truncated bencode.
    Decode,
    /// A required field of a metainfo file is missing or has the wrong type.
    Metainfo,
    /// A piece index at or past the number of pieces.
    InvalidPieceIndex,
    /// A peer message whose id is not one of the nine known ones.
    UnknownMessageId(u8),
    /// A peer message or handshake that is shorter than its fixed part.
    Truncated,
    /// A compact peer list whose length is not a multiple of six.
    MalformedPeers,
    /// A tracker response without an `interval` that fits a `u32` or without `peers` bytes.
    MalformedResponse,
    /// A tracker URL that is neither HTTP nor UDP.
    UnsupportedScheme,
    /// A UDP tracker action id that is not one of the four known ones.
    UnknownAction(u32),
    /// A UDP tracker response with another action than the one expected.
    UnexpectedAction,
    /// A block that does not fit in the piece that is being downloaded.
    BlockOutOfRange,
    /// A peer address that is not `a.b.c.d:port`.
    InvalidAddress,
}

/// The description of each error.
pub open spec fn error_text(e: Error) -> Seq<char> {
    match e {
        Error::Decode => "malformed bencode"@,
        Error::Metainfo => "missing or mistyped metainfo field"@,
        Error::InvalidPieceIndex => "invalid piece index"@,
        Error::UnknownMessageId(_) => "unknown peer message id"@,
        Error::Truncated => "message too short"@,
        Error::MalformedPeers => "peer list length is not a multiple of 6"@,
        Error::MalformedResponse => "malformed tracker response"@,
        Error::UnsupportedScheme => "unsupported tracker URL scheme"@,
        Error::UnknownAction(_) => "unknown tracker action"@,
        Error::UnexpectedAction => "unexpected tracker action"@,
        Error::BlockOutOfRange => "block outside of the piece"@,
        Error::InvalidAddress => "invalid peer address"@,
    }
}

impl Error {
    /// A one-line description of the error.
    pub fn describe(&self) -> (r: String)
        ensures
            r@ == error_text(*self),
    {
        match self {
            Error::Decode => String::from_str("malformed bencode"),
            Error::Metainfo => String::from_str("missing or mistyped metainfo field"),
            Error::InvalidPieceIndex => String::from_str("invalid piece index"),
            Error::UnknownMessageId(_) => String::from_str("unknown peer message id"),
            Error::Truncated => String::from_str("message too short"),
            Error::MalformedPeers => String::from_str("peer list length is not a multiple of 6"),
            Error::MalformedResponse => String::from_str("malformed tracker response"),
            Error::UnsupportedScheme => String::from_str("unsupported tracker URL scheme"),
            Error::UnknownAction(_) => String::from_str("unknown tracker action"),
            Error::UnexpectedAction => String::from_str("unexpected tracker action"),
            Error::BlockOutOfRange => String::from_str("block outside of the piece"),
            Error::InvalidAddress => String::from_str("invalid peer address"),
        }
    }
}

} // verus!
