//! Chance and the wall clock, from the `rand` and `chrono` crates.

use chrono::Timelike;
use chrono::Utc;
use rand::Rng;
use vstd::prelude::*;

verus! {

/// `rand::thread_rng().gen::<u32>()`: a random number from the thread's
/// generator. Nothing is said of which number comes back.
#[verifier::external_body]
pub(crate) fn random_u32() -> u32 {
    rand::thread_rng().gen::<u32>()
}

/// `Timelike::second` of `chrono::Utc::now()`: the second of the current UTC
/// minute, from 0 to 59 as the crate documents.
#[verifier::external_body]
pub(crate) fn utc_second() -> (s: u32)
    ensures
        s < 60,
{
    Utc::now().second()
}

/// `Timelike::minute` of `chrono::Utc::now()`: the minute of the current UTC
/// hour, from 0 to 59 as the crate documents.
#[verifier::external_body]
pub(crate) fn utc_minute() -> (m: u32)
    ensures
        m < 60,
{
    Utc::now().minute()
}

} // verus!
