use vstd::prelude::*;

verus! {

/// The largest chain timestamp, in seconds, whose value in milliseconds
/// still fits in an `i64`.
pub const MAX_SECONDS: u64 = 9223372036854775;

/// One block's height and the instant it was produced, in milliseconds
/// since the epoch.
#[derive(Clone, Copy, Debug, PartialEq, Eq, Structural)]
pub struct BlockTimestamp {
    pub number: i64,
    pub timestamp: i64,
}

/// Errors that end a backfill run.
#[derive(Clone, Copy, Debug, PartialEq, Eq, Structural)]
pub enum BackfillError {
    /// The chain node could not be reached or answered with an error.
    ChainUnavailable,
    /// The chain node has no block of the requested number.
    BlockNotFound,
    /// The store could not be reached, or refused a record for a reason
    /// other than a duplicate number.
    PersistenceError,
}

/// Converts a chain timestamp in seconds to milliseconds.
pub fn s_to_ms(s: u64) -> (r: i64)
    requires
        s <= MAX_SECONDS,
    ensures
        r == s * 1000,
{
    (s * 1000) as i64
}

impl BlockTimestamp {
    /// The record of block `number`, whose chain timestamp is `seconds`.
    pub fn from_chain(number: i64, seconds: u64) -> (r: BlockTimestamp)
        requires
            seconds <= MAX_SECONDS,
        ensures
            r.number == number,
            r.timestamp == seconds * 1000,
    {
        BlockTimestamp { number, timestamp: s_to_ms(seconds) }
    }
}

} // verus!
