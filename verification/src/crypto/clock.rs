//! The clock.

use vstd::prelude::*;

verus! {

/// `SystemTime::now` of `web-time`, which is the standard library's clock wherever there is
/// one: the seconds since 1970 by the system's clock, or `None` when that is set to an
/// earlier time. Nothing else is known of the result.
#[verifier::external_body]
pub(crate) fn since_epoch() -> (r: Option<u64>) {
    web_time::SystemTime::now().duration_since(web_time::UNIX_EPOCH).ok().map(|d| d.as_secs())
}

/// Whether a reading is one that the clock gave. Only a call of the clock shows that: of no
/// reading of one's own choice can it be said.
pub closed spec fn clock_reads(since: Option<u64>) -> bool {
    call_ensures(since_epoch, (), since)
}

/// The seconds that a reading of the clock stands for: those since 1970, or 0 before.
pub fn unix_secs(since: Option<u64>) -> (r: u64)
    ensures
        r == (match since {
            Some(secs) => secs,
            None => 0,
        }),
{
    match since {
        Some(secs) => secs,
        None => 0,
    }
}

/// The seconds since 1970 by the clock, or 0 before. Every number can come back, but none
/// that the clock did not give in this call.
pub fn now_unix_secs() -> (r: u64)
    ensures
        exists|since: Option<u64>| #[trigger]
            clock_reads(since) && r == (match since {
                Some(secs) => secs,
                None => 0,
            }),
{
    let since: Option<u64> = since_epoch();
    assert(clock_reads(since));
    unix_secs(since)
}

/// A reading is one of the clock only when a call to it gave that reading.
pub(crate) proof fn lemma_clock_reads(since: Option<u64>)
    requires
        clock_reads(since),
    ensures
        call_ensures(since_epoch, (), since),
{
}

} // verus!
