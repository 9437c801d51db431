use vstd::prelude::*;

use crate::float_bits::F64Bits;

verus! {

/// A message that does not follow the feed's protocol.
#[derive(Debug, Clone, Copy, PartialEq, Eq, Structural)]
pub enum ProtocolError {
    UnknownSide(u8),
    UnknownOrderType(u8),
    UnknownLimitOrderStatus(u8),
    /// Not one of the accepted tick sizes.
    TickSize(F64Bits),
    /// A book side lists a different number of buckets and sizes.
    SideLengths { ia: usize, sz: usize },
}

/// What can go wrong in a feed.
#[derive(Debug, Clone, PartialEq, Eq)]
pub enum FeedError {
    /// The peer closed the connection.
    WsClosed,
    /// No pong came in time.
    PongTimeout,
    /// Nobody takes the events any more.
    BusSend,
    /// The transport failed.
    Transport,
    Protocol(ProtocolError),
    /// A raw fixed-point value that is no number; holds the text.
    FixedX18(String),
}

} // verus!
