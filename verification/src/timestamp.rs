//! Points in time, counted in nanoseconds from the Unix epoch.

use vstd::prelude::*;

verus! {

#[verifier::external_type_specification]
#[verifier::external_body]
pub struct ExComponentRange(time::error::ComponentRange);

/// Whether `time::OffsetDateTime::from_unix_timestamp_nanos` accepts a count of
/// nanoseconds: whether it lies within the years that `time` can hold.
pub uninterp spec fn timestamp_accepted(nanos: i128) -> bool;

/// A point in time that `time` can hold, as nanoseconds from the Unix epoch.
#[derive(Debug, Clone, Copy, PartialEq, Eq)]
pub struct Timestamp {
    nanos: i128,
}

/// Whether a count of nanoseconds lies from the Unix epoch to the end of
/// the year 9999, which `time` holds however it is built.
pub open spec fn within_common_era(nanos: i128) -> bool {
    0 <= nanos <= 253_402_300_799_999_999_999
}

/// `time::OffsetDateTime::from_unix_timestamp_nanos`, its result dropped. The
/// contract reports success exactly where the name holds. The bounds of what
/// `time` accepts depend on how it is built (with or without large dates),
/// so they are not written out; the contract adds that a count from the Unix
/// epoch to the end of the year 9999 is accepted either way.
#[verifier::external_body]
fn check_range(nanos: i128) -> (r: Result<(), time::error::ComponentRange>)
    ensures
        r is Ok == timestamp_accepted(nanos),
        within_common_era(nanos) ==> r is Ok,
{
    time::OffsetDateTime::from_unix_timestamp_nanos(nanos).map(|_| ())
}

/// `time::OffsetDateTime::now_utc`, read through `unix_timestamp_nanos`. The
/// contract claims one thing of every reading: it is a time in UTC that
/// `time` holds, so `from_unix_timestamp_nanos` accepts its count.
#[verifier::external_body]
fn read_clock() -> (r: i128)
    ensures
        timestamp_accepted(r),
{
    time::OffsetDateTime::now_utc().unix_timestamp_nanos()
}

impl Timestamp {
    #[verifier::type_invariant]
    spec fn inv(&self) -> bool {
        timestamp_accepted(self.nanos)
    }

    /// The count of nanoseconds from the Unix epoch.
    pub closed spec fn view(&self) -> i128 {
        self.nanos
    }

    /// The time at `nanos` nanoseconds from the Unix epoch, where `time` can hold it.
    pub fn from_unix_nanos(nanos: i128) -> (r: Option<Timestamp>)
        ensures
            r is Some == timestamp_accepted(nanos),
            r is Some ==> r->0@ == nanos,
            within_common_era(nanos) ==> r is Some,
    {
        match check_range(nanos) {
            Ok(_) => Some(Timestamp { nanos }),
            Err(_) => None,
        }
    }

    /// The time that the clock shows.
    pub fn now() -> (r: Timestamp)
        ensures
            timestamp_accepted(r@),
    {
        Timestamp { nanos: read_clock() }
    }

    /// The count of nanoseconds from the Unix epoch.
    pub fn unix_nanos(&self) -> (r: i128)
        ensures
            r == self@,
            timestamp_accepted(r),
    {
        proof {
            use_type_invariant(self);
        }
        self.nanos
    }
}

} // verus!
