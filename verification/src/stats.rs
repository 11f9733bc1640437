//! Per-question typing statistics: key counts and the times the question was started and
//! finished.
use vstd::prelude::*;

use std::time::{Duration, Instant};

verus! {

/// A point in time (`std::time::Instant`), carried through opaquely.
#[verifier::external_type_specification]
#[verifier::external_body]
pub struct ExInstant(std::time::Instant);

/// The current time (`Instant::now`). Nothing is stated of the value: it is the clock's.
#[verifier::external_body]
pub(crate) fn instant_now() -> Instant {
    Instant::now()
}

/// The time from `earlier` to `later`, as `Instant::duration_since` gives it (zero when
/// `later` is the earlier one).
pub uninterp spec fn instant_gap(later: Instant, earlier: Instant) -> Duration;

/// The time from `earlier` to `later` (`Instant::duration_since`): the value named by
/// [`instant_gap`].
#[verifier::external_body]
pub(crate) fn duration_since(later: Instant, earlier: Instant) -> (r: Duration)
    ensures
        r == instant_gap(later, earlier),
{
    later.duration_since(earlier)
}

/// The typing statistics of one question.
#[derive(Debug, Clone)]
pub struct Stats {
    pub correct_count: usize,
    pub incorrect_count: usize,
    pub start_time: Option<Instant>,
    pub end_time: Option<Instant>,
}

impl Stats {
    /// No keys counted, not started, not finished.
    pub fn new() -> (s: Stats)
        ensures
            s.correct_count == 0,
            s.incorrect_count == 0,
            s.start_time is None,
            s.end_time is None,
    {
        Stats { correct_count: 0, incorrect_count: 0, start_time: None, end_time: None }
    }

    /// Records the current time as the start; the counts and the end stay.
    pub fn start(&mut self)
        ensures
            final(self).start_time is Some,
            final(self).end_time == old(self).end_time,
            final(self).correct_count == old(self).correct_count,
            final(self).incorrect_count == old(self).incorrect_count,
    {
        self.start_time = Some(instant_now());
    }

    /// Records the current time as the end; the counts and the start stay.
    pub fn end(&mut self)
        ensures
            final(self).end_time is Some,
            final(self).start_time == old(self).start_time,
            final(self).correct_count == old(self).correct_count,
            final(self).incorrect_count == old(self).incorrect_count,
    {
        self.end_time = Some(instant_now());
    }

    /// The time from the start to the end, or to now when there is no end yet; none before the
    /// start.
    pub fn elapsed_time(&self) -> (r: Option<Duration>)
        ensures
            r is Some <==> self.start_time is Some,
            self.start_time is Some && self.end_time is Some ==> r == Some(
                instant_gap(self.end_time->Some_0, self.start_time->Some_0),
            ),
            self.start_time is Some && self.end_time is None ==> exists|now: Instant|
                r == Some(instant_gap(now, self.start_time->Some_0)),
    {
        match (self.start_time, self.end_time) {
            (Some(s), Some(e)) => Some(duration_since(e, s)),
            (Some(s), None) => Some(duration_since(instant_now(), s)),
            _ => None,
        }
    }
}

} // verus!
