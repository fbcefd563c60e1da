//! Wall-clock access and time bucketing.
//!
//! The clock itself can promise nothing about the value it returns, so the
//! function that reads it is separated from the verified bucketing
//! arithmetic that consumes the reading.

use vstd::prelude::*;

verus! {

/// The RFC 3339 rendering of the UTC instant `secs` seconds after the Unix
/// epoch. The rendering depends on the seconds value alone.
pub uninterp spec fn rfc3339_of(secs: int) -> Seq<char>;

/// Relies on chrono's `Utc::now`, read out as whole seconds since the Unix
/// epoch through `DateTime::timestamp`. Nothing is promised of a clock
/// reading.
#[verifier::external_body]
pub fn now_epoch_secs() -> (r: i64) {
    chrono::Utc::now().timestamp()
}

/// Relies on chrono's `DateTime::<Utc>::from_timestamp`, which converts an
/// in-range seconds value into an instant and returns `None` only out of
/// range (every second of the years 1970 through 9999 is in range), and on
/// `DateTime::to_rfc3339`, whose output is a function of the instant alone.
#[verifier::external_body]
pub fn format_rfc3339(secs: i64) -> (r: Option<String>)
    ensures
        r is Some ==> r.unwrap()@ == rfc3339_of(secs as int),
        0 <= secs <= 253402300799 ==> r is Some,
{
    match chrono::DateTime::<chrono::Utc>::from_timestamp(secs, 0) {
        Some(t) => Some(t.to_rfc3339()),
        None => None,
    }
}

/// The start of the `bucket`-second bucket that `secs` falls in.
pub open spec fn bucket_floor(secs: int, bucket: int) -> int {
    secs - secs % bucket
}

/// Floors a timestamp to its bucket boundary.
pub fn floor_to_bucket(secs: i64, bucket: i64) -> (r: i64)
    requires
        0 <= secs,
        1 <= bucket,
    ensures
        r == bucket_floor(secs as int, bucket as int),
        r <= secs < r + bucket,
        r % bucket == 0,
{
    proof {
        vstd::arithmetic::div_mod::lemma_fundamental_div_mod(secs as int, bucket as int);
        vstd::arithmetic::div_mod::lemma_mod_multiples_basic(
            (secs as int) / (bucket as int),
            bucket as int,
        );
        vstd::arithmetic::mul::lemma_mul_is_commutative(
            bucket as int,
            (secs as int) / (bucket as int),
        );
    }
    secs - secs % bucket
}

} // verus!
