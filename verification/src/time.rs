//! Points in time and lengths of time, in whole nanoseconds.

use vstd::prelude::*;

verus! {

/// A point in time: nanoseconds after the Unix epoch, negative before it.
#[derive(Clone, Copy, Debug, PartialEq, Eq, Structural)]
pub struct Timestamp {
    pub nanos: i128,
}

/// A length of time in nanoseconds.
#[derive(Clone, Copy, Debug, PartialEq, Eq, Structural)]
pub struct Duration {
    pub nanos: u128,
}

/// `later` is at most `span` after `start`. A point before `start` is, too.
pub open spec fn at_most_after(later: Timestamp, start: Timestamp, span: Duration) -> bool {
    later.nanos <= start.nanos + span.nanos
}

impl Duration {
    /// No time at all.
    pub fn zero() -> (span: Duration)
        ensures
            span.nanos == 0,
    {
        Duration { nanos: 0 }
    }

    /// A length of whole seconds.
    pub fn from_secs(secs: u64) -> (span: Duration)
        ensures
            span.nanos == secs * 1_000_000_000,
    {
        Duration { nanos: secs as u128 * 1_000_000_000 }
    }

    /// A length of whole milliseconds.
    pub fn from_millis(millis: u64) -> (span: Duration)
        ensures
            span.nanos == millis * 1_000_000,
    {
        Duration { nanos: millis as u128 * 1_000_000 }
    }

    /// The whole seconds in this length; a started second does not count.
    pub fn as_secs(&self) -> (secs: u128)
        ensures
            secs == self.nanos / 1_000_000_000,
    {
        self.nanos / 1_000_000_000
    }

    /// The nanoseconds beyond the whole seconds.
    pub fn subsec_nanos(&self) -> (nanos: u32)
        ensures
            nanos == self.nanos % 1_000_000_000,
    {
        (self.nanos % 1_000_000_000) as u32
    }
}

impl Timestamp {
    /// The time from `earlier` to this point; `None` if `earlier` comes later.
    pub fn duration_since(&self, earlier: Timestamp) -> (span: Option<Duration>)
        ensures
            span is Some <==> earlier.nanos <= self.nanos,
            span matches Some(d) ==> d.nanos == self.nanos - earlier.nanos,
    {
        if self.nanos < earlier.nanos {
            None
        } else if earlier.nanos >= 0 || self.nanos < 0 {
            Some(Duration { nanos: (self.nanos - earlier.nanos) as u128 })
        } else {
            let before_epoch: u128 = (-(earlier.nanos + 1)) as u128 + 1;
            Some(Duration { nanos: self.nanos as u128 + before_epoch })
        }
    }

    /// Whether this point is at most `span` after `start`.
    pub fn is_at_most_after(&self, start: Timestamp, span: Duration) -> (within: bool)
        ensures
            within == at_most_after(*self, start, span),
            within <==> self.nanos <= start.nanos + span.nanos,
    {
        match self.duration_since(start) {
            Some(elapsed) => elapsed.nanos <= span.nanos,
            None => true,
        }
    }

    /// The time since the Unix epoch; none at all for a point before it.
    pub fn since_epoch(&self) -> (span: Duration)
        ensures
            span.nanos == if self.nanos > 0 { self.nanos as int } else { 0 },
    {
        match self.duration_since(Timestamp { nanos: 0 }) {
            Some(elapsed) => elapsed,
            None => Duration::zero(),
        }
    }

    /// The point that a clock reading names: nanoseconds after the Unix epoch
    /// (`Ok`) or before it (`Err`). A reading beyond the range of `Timestamp` gives
    /// the end of the range.
    pub fn from_clock(reading: Result<u128, u128>) -> (point: Timestamp)
        ensures
            match reading {
                Ok(after) => point.nanos == if after <= i128::MAX { after as int } else {
                    i128::MAX as int
                },
                Err(before) => point.nanos == if before <= i128::MAX { -(before as int) } else {
                    i128::MIN as int
                },
            },
    {
        let nanos: i128 = match reading {
            Ok(after) => if after <= i128::MAX as u128 {
                after as i128
            } else {
                i128::MAX
            },
            Err(before) => if before <= i128::MAX as u128 {
                -(before as i128)
            } else {
                i128::MIN
            },
        };
        Timestamp { nanos }
    }

    /// The current time of the system clock. Nothing is promised of it: clocks are set,
    /// also backwards.
    pub(crate) fn now() -> Timestamp {
        Timestamp::from_clock(read_clock())
    }
}

/// Calls `std::time::SystemTime::now` and hands the reading back as nanoseconds after
/// the Unix epoch (`Ok`) or before it (`Err`). It claims nothing of the reading, which
/// depends on the machine.
#[verifier::external_body]
fn read_clock() -> Result<u128, u128> {
    match std::time::SystemTime::now().duration_since(std::time::SystemTime::UNIX_EPOCH) {
        Ok(after) => Ok(after.as_nanos()),
        Err(before) => Err(before.duration().as_nanos()),
    }
}

// Laws of time.

/// A span after a point takes in its end and nothing behind it, whatever that point is; what
/// comes before a point that is taken in is taken in, too.
pub proof fn law_span_ends_exactly(later: Timestamp, start: Timestamp, span: Duration)
    ensures
        later.nanos == start.nanos + span.nanos ==> at_most_after(later, start, span),
        later.nanos > start.nanos + span.nanos ==> !at_most_after(later, start, span),
        forall|earlier: Timestamp|
            earlier.nanos <= later.nanos && at_most_after(later, start, span)
                ==> #[trigger] at_most_after(earlier, start, span),
        later.nanos <= start.nanos ==> at_most_after(later, start, span),
        later.nanos - start.nanos <= span.nanos ==> at_most_after(later, start, span),
{
}

} // verus!
