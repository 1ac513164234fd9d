//! Verified core of a TLE-to-trajectory pipeline: parsing of two-line
//! element text blocks, orchestration of per-object analytic propagation
//! over a configurable time window, and aggregation of the resulting
//! position histories.

pub mod cli;
pub mod fetcher;
pub mod propagator;
pub mod tle;

use vstd::prelude::*;

use crate::propagator::outcome_matches;
use crate::propagator::SkippedObject;
use crate::propagator::Trajectory;
use crate::tle::cleaned_lines;
use crate::tle::parse_records;
use crate::tle::ParseError;
use crate::tle::RecordModel;

verus! {

/// Number of propagated samples per hour (one sample each minute).
pub const MINUTES_PER_HOUR: u32 = 60;

/// Propagation window in minutes when no duration is configured.
pub const DEFAULT_DURATION_MINUTES: u32 = 240;

/// The propagation window in minutes selected by an optional
/// duration-in-hours configuration value; four hours when absent.
pub open spec fn spec_duration_minutes(duration_hours: Option<u32>) -> int {
    match duration_hours {
        Some(h) => h * MINUTES_PER_HOUR,
        None => DEFAULT_DURATION_MINUTES as int,
    }
}

/// Turns the optional configured duration in hours into a sample count
/// (one sample per minute), applying the four-hour default.
pub fn duration_minutes(duration_hours: Option<u32>) -> (m: u32)
    requires
        duration_hours matches Some(h) ==> h * MINUTES_PER_HOUR <= u32::MAX,
    ensures
        m == spec_duration_minutes(duration_hours),
{
    match duration_hours {
        Some(h) => h * MINUTES_PER_HOUR,
        None => DEFAULT_DURATION_MINUTES,
    }
}

/// Law: the configured duration alone fixes every produced trajectory's
/// sample count (see [`propagator::trajectory_matches`]): a two-hour
/// window yields 120 samples per object, the default window 240.
pub proof fn lemma_duration_sample_counts()
    ensures
        spec_duration_minutes(Some(2u32)) == 120,
        spec_duration_minutes(None) == 240,
{
}

/// The whole pipeline: parses the raw element text into records, then
/// resolves and propagates each record at one-minute cadence across the
/// configured window.  A structural parse failure is fatal and is
/// returned as is; records that the external model rejects or fails on
/// are reported in the second collection instead of a trajectory, so a
/// well-formed input yields a (possibly empty) trajectory collection in
/// record order.  In particular, an empty input yields an empty
/// collection without error.
pub fn compute_trajectories(tle_text: &str, optional_time: Option<u32>) -> (r: Result<
    (Vec<Trajectory>, Vec<SkippedObject>),
    ParseError,
>)
    requires
        optional_time matches Some(h) ==> h * MINUTES_PER_HOUR <= u32::MAX,
    ensures
        match r {
            Ok(out) => {
                &&& parse_records(cleaned_lines(tle_text@)) matches Ok(records)
                &&& outcome_matches(records, spec_duration_minutes(optional_time), out.0@, out.1@)
            },
            Err(e) => parse_records(cleaned_lines(tle_text@)) == Err::<
                Seq<RecordModel>,
                ParseError,
            >(e),
        },
{
    let tles = match tle::parse_tles(tle_text) {
        Ok(tles) => tles,
        Err(e) => {
            return Err(e);
        },
    };
    Ok(propagator::propagate_tles(tles, optional_time))
}

} // verus!
