//! Types shared by the layers of a node.
use vstd::prelude::*;
use crate::bytes::PublicKey;

verus! {

/// Address of a node: its public key.
#[derive(Clone, Copy, Debug)]
pub struct Addr(pub PublicKey);

/// What can go wrong on a connection or in a call.
#[derive(Clone, Copy, Debug, PartialEq, Eq, Structural)]
pub enum Error {
    /// The node was closed.
    Closed,
    /// The key is not acceptable.
    BadKey,
    /// A message could not be encoded.
    Encode,
    /// A message could not be decoded.
    Decode,
    /// A message was not valid.
    BadMessage,
    /// A message is longer than allowed.
    OversizedMessage,
    /// The peer did not answer in time.
    Timeout,
    /// Reading or writing failed.
    Io,
}

/// A second in nanoseconds.
pub const SECOND_NS: i128 = 1_000_000_000;

/// A point in time on the wall clock: seconds since the epoch, and the nanoseconds after them.
#[derive(Clone, Copy, Debug, PartialEq, Eq, Structural)]
pub struct Moment {
    pub secs: i64,
    pub nanos: u32,
}

impl Moment {
    /// The nanoseconds since the epoch.
    pub open spec fn total(&self) -> int {
        self.secs * SECOND_NS + self.nanos
    }

    /// The nanoseconds since the epoch.
    pub fn since_epoch(&self) -> (r: i128)
        ensures
            r == self.total(),
            -10_000_000_000_000_000_000_000_000_000 <= r <= 10_000_000_000_000_000_000_000_000_000,
    {
        self.secs as i128 * SECOND_NS + self.nanos as i128
    }
}

} // verus!
