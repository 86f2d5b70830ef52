//! Clock helpers: seconds since the Unix epoch, and the week number a
//! given epoch second falls in.
use vstd::prelude::*;

verus! {

/// Relies on std::time::SystemTime: the seconds elapsed since the Unix
/// epoch, non-negative in every outcome that returns; which instant comes
/// back depends on the system clock.
#[verifier::external_body]
pub fn epoch() -> (r: i64)
    ensures
        r >= 0,
{
    std::time::SystemTime::now()
        .duration_since(std::time::UNIX_EPOCH)
        .expect("system clock reads before the Unix epoch")
        .as_secs()
        .try_into()
        .unwrap()
}

/// The week number of an epoch second.  Weeks run Sunday to Saturday;
/// 1 January 1970 was a Thursday, 345600 seconds into its week, so week 2
/// begins on Sunday 4 January 1970.  Negative times fall in week 0.
pub open spec fn spec_weeknum_utc(epochin: i64) -> int {
    if epochin < 0 {
        0
    } else {
        1 + ((epochin + 345600) / 604800)
    }
}

/// Week number since the epoch; see `spec_weeknum_utc`.
pub fn weeknum_utc(epochin: i64) -> (r: i64)
    requires
        epochin + 345600 <= i64::MAX,
    ensures
        r == spec_weeknum_utc(epochin),
{
    if epochin < 0 {
        return 0;
    }
    1 + ((epochin + 345600) / 604800)
}

} // verus!
