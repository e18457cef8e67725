//! The signal of one network over time: averages, time bins, plot points.

use vstd::math::abs;
use vstd::prelude::*;

use crate::time::{at_most_after, Duration, Timestamp};

verus! {

/// The signal of a network at one point in time.
#[derive(Clone, Copy, Debug, PartialEq, Eq, Structural)]
pub struct Observation {
    /// When the signal was observed.
    pub timestamp: Timestamp,
    /// RSSI signal level in dBm.
    pub signal_level: i32,
}

/// A point of a signal plot.
#[derive(Clone, Copy, Debug, PartialEq, Eq, Structural)]
pub struct PlotPoint {
    /// How long ago the signal was observed.
    pub elapsed: Duration,
    /// RSSI signal level in dBm.
    pub signal_level: i32,
}

/// The observations of one network, in the order in which they were made.
#[derive(Debug)]
pub struct NetworkHistory {
    observations: Vec<Observation>,
}

impl View for NetworkHistory {
    type V = Seq<Observation>;

    closed spec fn view(&self) -> Seq<Observation> {
        self.observations@
    }
}

// Averages.

/// The sum of signal levels.
pub open spec fn signal_sum(signals: Seq<i32>) -> int
    decreases signals.len(),
{
    if signals.len() == 0 {
        0
    } else {
        signal_sum(signals.drop_last()) + signals.last()
    }
}

/// A sum of two runs of signal levels is the sum over the first and the sum over the second;
/// that of a single level is the level itself, and that of none is zero.
pub proof fn law_signal_sum_adds_up(first: Seq<i32>, second: Seq<i32>, level: i32)
    ensures
        signal_sum(first + second) == signal_sum(first) + signal_sum(second),
        signal_sum(seq![level]) == level,
        signal_sum(Seq::empty()) == 0,
    decreases second.len(),
{
    assert(seq![level].drop_last() =~= Seq::empty());
    assert(signal_sum(Seq::empty()) == 0);
    if second.len() == 0 {
        assert(first + second =~= first);
    } else {
        law_signal_sum_adds_up(first, second.drop_last(), level);
        assert((first + second).drop_last() =~= first + second.drop_last());
        assert((first + second).last() == second.last());
    }
}

/// `total / count`, rounded to the nearest integer, halves away from zero.
pub open spec fn round_quotient(total: int, count: int) -> int {
    if total >= 0 {
        (2 * total + count) / (2 * count)
    } else {
        -((2 * -total + count) / (2 * count))
    }
}

/// The average of signal levels, rounded to the nearest integer, halves away from zero.
pub open spec fn rounded_average(signals: Seq<i32>) -> int {
    round_quotient(signal_sum(signals), signals.len() as int)
}

pub(crate) proof fn lemma_signal_sum_bounds(signals: Seq<i32>, low: int, high: int)
    requires
        forall|k: int| 0 <= k < signals.len() ==> low <= #[trigger] signals[k] <= high,
    ensures
        low * signals.len() <= signal_sum(signals) <= high * signals.len(),
    decreases signals.len(),
{
    if signals.len() > 0 {
        let earlier = signals.drop_last();
        assert forall|k: int| 0 <= k < earlier.len() implies low <= #[trigger] earlier[k] <= high by {
            assert(earlier[k] == signals[k]);
        }
        lemma_signal_sum_bounds(earlier, low, high);
        assert(low <= signals[signals.len() - 1] <= high);
        assert(low * signals.len() == low * earlier.len() + low) by (nonlinear_arith)
            requires
                signals.len() == earlier.len() + 1,
        ;
        assert(high * signals.len() == high * earlier.len() + high) by (nonlinear_arith)
            requires
                signals.len() == earlier.len() + 1,
        ;
    }
}

proof fn lemma_round_magnitude(total: int, count: int, bound: int)
    requires
        count > 0,
        total >= 0,
    ensures
        total <= bound * count ==> (2 * total + count) / (2 * count) <= bound,
        total >= bound * count ==> (2 * total + count) / (2 * count) >= bound,
{
    let q = (2 * total + count) / (2 * count);
    let r = (2 * total + count) % (2 * count);
    assert(2 * total + count == 2 * count * q + r && 0 <= r < 2 * count) by {
        vstd::arithmetic::div_mod::lemma_fundamental_div_mod(2 * total + count, 2 * count);
        vstd::arithmetic::div_mod::lemma_mod_bound(2 * total + count, 2 * count);
    }
    assert(total <= bound * count ==> q <= bound) by (nonlinear_arith)
        requires
            2 * total + count == 2 * count * q + r,
            0 <= r < 2 * count,
            count > 0,
    ;
    assert(total >= bound * count ==> q >= bound) by (nonlinear_arith)
        requires
            2 * total + count == 2 * count * q + r,
            0 <= r < 2 * count,
            count > 0,
    ;
}

/// An average lies between the bounds of what it averages.
pub proof fn law_average_within_bounds(signals: Seq<i32>, low: int, high: int)
    requires
        signals.len() > 0,
        forall|k: int| 0 <= k < signals.len() ==> low <= #[trigger] signals[k] <= high,
    ensures
        low <= rounded_average(signals) <= high,
{
    let total = signal_sum(signals);
    let count = signals.len() as int;
    lemma_signal_sum_bounds(signals, low, high);
    if total >= 0 {
        lemma_round_magnitude(total, count, low);
        lemma_round_magnitude(total, count, high);
    } else {
        assert((-low) * count == -(low * count)) by (nonlinear_arith);
        assert((-high) * count == -(high * count)) by (nonlinear_arith);
        lemma_round_magnitude(-total, count, -low);
        lemma_round_magnitude(-total, count, -high);
    }
}

/// An average is at most half a unit away from the exact quotient; where it is exactly half
/// a unit away, it is the farther one from zero.
pub proof fn law_average_is_nearest(signals: Seq<i32>)
    requires
        signals.len() > 0,
    ensures
        2 * abs(rounded_average(signals) * signals.len() - signal_sum(signals)) <= signals.len(),
        2 * abs(rounded_average(signals) * signals.len() - signal_sum(signals)) == signals.len()
            ==> abs(rounded_average(signals) * signals.len()) > abs(signal_sum(signals)),
{
    let total = signal_sum(signals);
    let count = signals.len() as int;
    let size = if total >= 0 { total } else { -total };
    let q = (2 * size + count) / (2 * count);
    let r = (2 * size + count) % (2 * count);
    assert(2 * size + count == 2 * count * q + r && 0 <= r < 2 * count) by {
        vstd::arithmetic::div_mod::lemma_fundamental_div_mod(2 * size + count, 2 * count);
        vstd::arithmetic::div_mod::lemma_mod_bound(2 * size + count, 2 * count);
    }
    assert(2 * count * q == 2 * (q * count)) by (nonlinear_arith);
    assert((-q) * count == -(q * count)) by (nonlinear_arith);
}

/// The sum of signal levels.
pub fn signal_total(signals: &[i32]) -> (total: i128)
    ensures
        total == signal_sum(signals@),
{
    let mut total: i128 = 0;
    let mut i: usize = 0;
    while i < signals.len()
        invariant
            i <= signals@.len(),
            total == signal_sum(signals@.take(i as int)),
            -0x8000_0000 * i <= total <= 0x7fff_ffff * i,
        decreases signals@.len() - i,
    {
        assert(signals@.take(i + 1).drop_last() =~= signals@.take(i as int));
        total = total + signals[i] as i128;
        i += 1;
    }
    assert(signals@.take(i as int) =~= signals@);
    total
}

/// The average of signal levels, rounded to the nearest integer, halves away from zero.
pub fn average_signal(signals: &[i32]) -> (average: i32)
    requires
        signals@.len() > 0,
    ensures
        average == rounded_average(signals@),
{
    let total: i128 = signal_total(signals);
    let count: u128 = signals.len() as u128;
    proof {
        law_average_within_bounds(signals@, i32::MIN as int, i32::MAX as int);
        lemma_signal_sum_bounds(signals@, i32::MIN as int, i32::MAX as int);
    }
    if total >= 0 {
        ((2 * total as u128 + count) / (2 * count)) as i32
    } else {
        let quotient: u128 = (2 * (-total) as u128 + count) / (2 * count);
        (-(quotient as i128)) as i32
    }
}

// Time bins.

/// The signal levels of observations.
pub open spec fn signals_of(observations: Seq<Observation>) -> Seq<i32> {
    observations.map_values(|observation: Observation| observation.signal_level)
}

/// The position, from `from` on, of the first observation that is more than `size` after
/// the first one of all.
pub open spec fn bin_end(observations: Seq<Observation>, size: Duration, from: int) -> int
    decreases observations.len() - from,
{
    if from < observations.len() && at_most_after(
        observations[from].timestamp,
        observations[0].timestamp,
        size,
    ) {
        bin_end(observations, size, from + 1)
    } else {
        from
    }
}

proof fn lemma_bin_end(observations: Seq<Observation>, size: Duration, from: int)
    requires
        0 <= from <= observations.len(),
    ensures
        from <= bin_end(observations, size, from) <= observations.len(),
        observations.len() > 0 && from == 0 ==> bin_end(observations, size, from) > 0,
        forall|k: int|
            from <= k < bin_end(observations, size, from) ==> at_most_after(
                (#[trigger] observations[k]).timestamp,
                observations[0].timestamp,
                size,
            ),
        bin_end(observations, size, from) < observations.len() ==> !at_most_after(
            observations[bin_end(observations, size, from)].timestamp,
            observations[0].timestamp,
            size,
        ),
    decreases observations.len() - from,
{
    if from < observations.len() && at_most_after(
        observations[from].timestamp,
        observations[0].timestamp,
        size,
    ) {
        lemma_bin_end(observations, size, from + 1);
    }
}

proof fn lemma_bin_end_is(observations: Seq<Observation>, size: Duration, from: int, end: int)
    requires
        0 <= from <= end <= observations.len(),
        forall|k: int|
            from <= k < end ==> at_most_after(
                (#[trigger] observations[k]).timestamp,
                observations[0].timestamp,
                size,
            ),
        end < observations.len() ==> !at_most_after(
            observations[end].timestamp,
            observations[0].timestamp,
            size,
        ),
    ensures
        bin_end(observations, size, from) == end,
    decreases end - from,
{
    if from < end {
        lemma_bin_end_is(observations, size, from + 1, end);
    }
}

/// The observations in bins of time: each bin starts with the first observation that is
/// not in the bin before, takes in all that directly follow and are at most `size` after
/// it, and becomes one observation of their average signal.
pub open spec fn binned(observations: Seq<Observation>, size: Duration) -> Seq<Observation>
    decreases observations.len(),
    via binned_terminates
{
    if observations.len() == 0 {
        Seq::empty()
    } else {
        let end = bin_end(observations, size, 0);
        seq![bin_average(observations.take(end))] + binned(observations.skip(end), size)
    }
}

#[via_fn]
proof fn binned_terminates(observations: Seq<Observation>, size: Duration) {
    lemma_bin_end(observations, size, 0);
}

/// One observation for a bin of them: when the first was made, and their average signal.
pub open spec fn bin_average(bin: Seq<Observation>) -> Observation {
    Observation {
        timestamp: bin[0].timestamp,
        signal_level: rounded_average(signals_of(bin)) as i32,
    }
}

/// Append a bin of signals as one observation of their average. No signals, no bin.
pub fn append_average_bin(history: &mut NetworkHistory, timestamp: Timestamp, signals: &[i32])
    ensures
        final(history)@ == if signals@.len() == 0 {
            old(history)@
        } else {
            old(history)@.push(
                (Observation { timestamp, signal_level: rounded_average(signals@) as i32 }),
            )
        },
{
    if signals.len() > 0 {
        history.append(timestamp, average_signal(signals));
    }
}

impl NetworkHistory {
    /// A history without observations.
    pub fn new() -> (history: NetworkHistory)
        ensures
            history@ == Seq::<Observation>::empty(),
    {
        NetworkHistory { observations: Vec::new() }
    }

    /// The number of observations.
    pub fn len(&self) -> (len: usize)
        ensures
            len == self@.len(),
    {
        self.observations.len()
    }

    /// Add the latest observation.
    pub fn append(&mut self, timestamp: Timestamp, signal_level: i32)
        ensures
            final(self)@ == old(self)@.push((Observation { timestamp, signal_level })),
    {
        self.observations.push(Observation { timestamp, signal_level });
    }

    /// Average the observations in bins of time.
    pub fn bin_by_time(&self, bin_size: Duration) -> (bins: NetworkHistory)
        ensures
            bins@ == binned(self@, bin_size),
    {
        let mut bins: NetworkHistory = NetworkHistory::new();
        if self.observations.len() == 0 {
            return bins;
        }
        let ghost all = self@;
        let mut bin_start: Timestamp = self.observations[0].timestamp;
        let mut bin_signals: Vec<i32> = Vec::new();
        let ghost mut start: int = 0;
        let mut i: usize = 0;
        proof {
            assert(all.skip(0) =~= all);
            assert(signals_of(all.subrange(0, 0)) =~= bin_signals@);
            assert(bins@ + binned(all.skip(0), bin_size) =~= binned(all, bin_size));
        }
        while i < self.observations.len()
            invariant
                all == self.observations@,
                all.len() > 0,
                0 <= start <= i <= all.len(),
                start < all.len(),
                start < i || i == 0,
                bin_start == all[start].timestamp,
                forall|k: int|
                    start <= k < i ==> at_most_after(
                        (#[trigger] all[k]).timestamp,
                        bin_start,
                        bin_size,
                    ),
                bin_signals@ == signals_of(all.subrange(start, i as int)),
                bins@ + binned(all.skip(start), bin_size) == binned(all, bin_size),
            decreases all.len() - i,
        {
            let observation: Observation = self.observations[i];
            let ghost signals_before = bin_signals@;
            if observation.timestamp.is_at_most_after(bin_start, bin_size) {
                bin_signals.push(observation.signal_level);
                assert(bin_signals@ =~= signals_of(all.subrange(start, i + 1)));
            } else {
                let ghost bins_before = bins@;
                append_average_bin(&mut bins, bin_start, bin_signals.as_slice());
                bin_start = observation.timestamp;
                bin_signals.clear();
                bin_signals.push(observation.signal_level);
                proof {
                    lemma_close_bin(all, bin_size, start, i as int);
                    assert(bins@ + binned(all.skip(i as int), bin_size) =~= bins_before + binned(
                        all.skip(start),
                        bin_size,
                    ));
                    start = i as int;
                    assert(bin_signals@ =~= signals_of(all.subrange(start, i + 1)));
                }
            }
            i += 1;
        }
        let ghost bins_before = bins@;
        append_average_bin(&mut bins, bin_start, bin_signals.as_slice());
        proof {
            lemma_close_bin(all, bin_size, start, i as int);
            assert(all.skip(i as int) =~= Seq::empty());
            assert(bins@ =~= bins_before + binned(all.skip(start), bin_size));
        }
        bins
    }

    /// The points to plot at `now`: all observations but those dated later.
    pub fn to_plot_points(&self, now: Timestamp) -> (points: Vec<PlotPoint>)
        ensures
            points@ == plot_points(self@, now),
    {
        let mut points: Vec<PlotPoint> = Vec::new();
        let mut i: usize = 0;
        while i < self.observations.len()
            invariant
                i <= self.observations@.len(),
                points@ == plot_points(self.observations@.take(i as int), now),
            decreases self.observations@.len() - i,
        {
            let observation: Observation = self.observations[i];
            assert(self.observations@.take(i + 1).drop_last() =~= self.observations@.take(
                i as int,
            ));
            match now.duration_since(observation.timestamp) {
                Some(elapsed) => {
                    points.push(PlotPoint { elapsed, signal_level: observation.signal_level });
                },
                None => {},
            }
            i += 1;
        }
        assert(self.observations@.take(i as int) =~= self.observations@);
        points
    }
}

/// The bin of the observations from `start` up to `end` closes there.
proof fn lemma_close_bin(all: Seq<Observation>, size: Duration, start: int, end: int)
    requires
        0 <= start < end <= all.len(),
        forall|k: int|
            start <= k < end ==> at_most_after(
                (#[trigger] all[k]).timestamp,
                all[start].timestamp,
                size,
            ),
        end < all.len() ==> !at_most_after(all[end].timestamp, all[start].timestamp, size),
    ensures
        binned(all.skip(start), size) == seq![bin_average(all.subrange(start, end))] + binned(
            all.skip(end),
            size,
        ),
{
    let rest = all.skip(start);
    assert forall|k: int| 0 <= k < end - start implies at_most_after(
        (#[trigger] rest[k]).timestamp,
        rest[0].timestamp,
        size,
    ) by {
        assert(rest[k] == all[start + k]);
    }
    lemma_bin_end_is(rest, size, 0, end - start);
    assert(rest.take(end - start) =~= all.subrange(start, end));
    assert(rest.skip(end - start) =~= all.skip(end));
}

// Plot points.

/// The plot points of observations at `now`: how long ago each was made. Observations
/// dated later than `now` have none.
pub open spec fn plot_points(observations: Seq<Observation>, now: Timestamp) -> Seq<PlotPoint>
    decreases observations.len(),
{
    if observations.len() == 0 {
        Seq::empty()
    } else {
        let earlier = plot_points(observations.drop_last(), now);
        let last = observations.last();
        if last.timestamp.nanos <= now.nanos {
            earlier.push(
                PlotPoint {
                    elapsed: Duration { nanos: (now.nanos - last.timestamp.nanos) as u128 },
                    signal_level: last.signal_level,
                },
            )
        } else {
            earlier
        }
    }
}

// Laws of binning.

/// Bins thin out: there are no more of them than observations, each starts more than a
/// bin size after the one before, and each signal lies between the bounds of the
/// observed ones.
pub proof fn law_bins(observations: Seq<Observation>, size: Duration, low: int, high: int)
    requires
        forall|k: int|
            0 <= k < observations.len() ==> low <= (#[trigger] observations[k]).signal_level
                <= high,
    ensures
        binned(observations, size).len() <= observations.len(),
        observations.len() > 0 ==> binned(observations, size).len() > 0
            && binned(observations, size)[0].timestamp == observations[0].timestamp,
        forall|b: int|
            1 <= b < binned(observations, size).len() ==> !at_most_after(
                (#[trigger] binned(observations, size)[b]).timestamp,
                binned(observations, size)[b - 1].timestamp,
                size,
            ),
        forall|b: int|
            0 <= b < binned(observations, size).len() ==> low <= (#[trigger] binned(
                observations,
                size,
            )[b]).signal_level <= high,
    decreases observations.len(),
{
    if observations.len() > 0 {
        let end = bin_end(observations, size, 0);
        let bin = observations.take(end);
        let rest = observations.skip(end);
        let tail = binned(rest, size);
        let bins = binned(observations, size);
        lemma_bin_end(observations, size, 0);
        assert forall|k: int| 0 <= k < rest.len() implies low <= (#[trigger] rest[k]).signal_level
            <= high by {
            assert(rest[k] == observations[end + k]);
        }
        law_bins(rest, size, low, high);
        let signals = signals_of(bin);
        assert forall|k: int| 0 <= k < signals.len() implies low <= #[trigger] signals[k] <= high by {
            assert(signals[k] == observations[k].signal_level);
        }
        assert forall|k: int| 0 <= k < signals.len() implies i32::MIN <= #[trigger] signals[k]
            <= i32::MAX by {}
        law_average_within_bounds(signals, low, high);
        law_average_within_bounds(signals, i32::MIN as int, i32::MAX as int);
        assert forall|b: int| 1 <= b < bins.len() implies !at_most_after(
            (#[trigger] bins[b]).timestamp,
            bins[b - 1].timestamp,
            size,
        ) by {
            assert(bins[b] == tail[b - 1]);
            if b == 1 {
                assert(rest[0] == observations[end]);
            } else {
                assert(bins[b - 1] == tail[b - 2]);
            }
        }
        assert forall|b: int| 0 <= b < bins.len() implies low <= (#[trigger] bins[b]).signal_level
            <= high by {
            if b > 0 {
                assert(bins[b] == tail[b - 1]);
            }
        }
    }
}

/// The bins cut the observations up without leaving one out: bin `b` holds those from
/// `cuts[b]` up to `cuts[b + 1]`. It is dated as the first of them, none of them is dated
/// more than a bin size after that one, the observation that follows them is, and the
/// signal of the bin is the integer nearest to the sum of all their signals over their
/// number, away from zero where two are equally near.
pub proof fn law_bins_partition(observations: Seq<Observation>, size: Duration) -> (cuts: Seq<int>)
    ensures
        cuts.len() == binned(observations, size).len() + 1,
        cuts[0] == 0,
        cuts[cuts.len() - 1] == observations.len(),
        forall|b: int|
            0 <= b < binned(observations, size).len() ==> 0 <= #[trigger] cuts[b] < cuts[b + 1]
                <= observations.len(),
        forall|b: int|
            0 <= b < binned(observations, size).len() ==> (#[trigger] binned(
                observations,
                size,
            )[b]).timestamp == observations[cuts[b]].timestamp,
        forall|b: int, k: int|
            0 <= b < binned(observations, size).len() && cuts[b] <= k < cuts[b + 1] ==> (
            #[trigger] observations[k]).timestamp.nanos <= observations[#[trigger] cuts[b]].timestamp.nanos
                + size.nanos,
        forall|b: int|
            0 <= b < binned(observations, size).len() && cuts[b + 1] < observations.len()
                ==> observations[cuts[b + 1]].timestamp.nanos > observations[#[trigger] cuts[b]].timestamp.nanos
                + size.nanos,
        forall|b: int|
            0 <= b < binned(observations, size).len() ==> {
                let count = cuts[b + 1] - cuts[b];
                let total = signal_sum(
                    observations.subrange(cuts[b], cuts[b + 1]).map_values(
                        |observation: Observation| observation.signal_level,
                    ),
                );
                let level = (#[trigger] binned(observations, size)[b]).signal_level;
                &&& 2 * abs(level * count - total) <= count
                &&& 2 * abs(level * count - total) == count ==> abs(level * count) > abs(total)
            },
    decreases observations.len(),
{
    if observations.len() == 0 {
        seq![0]
    } else {
        let end = bin_end(observations, size, 0);
        lemma_bin_end(observations, size, 0);
        let rest = observations.skip(end);
        let bins = binned(observations, size);
        let tail = binned(rest, size);
        let later = law_bins_partition(rest, size);
        let cuts = seq![0int] + later.map_values(|cut: int| cut + end);
        assert forall|b: int| 0 <= b < bins.len() implies 0 <= #[trigger] cuts[b] < cuts[b + 1]
            <= observations.len() by {
            if b > 0 {
                assert(0 <= later[b - 1] < later[b]);
            }
        }
        assert forall|b: int| 0 <= b < bins.len() implies (#[trigger] bins[b]).timestamp
            == observations[cuts[b]].timestamp by {
            if b > 0 {
                assert(bins[b] == tail[b - 1]);
                assert(0 <= later[b - 1] < later[b]);
            }
        }
        assert forall|b: int, k: int|
            0 <= b < bins.len() && cuts[b] <= k < cuts[b + 1] implies (
        #[trigger] observations[k]).timestamp.nanos <= observations[#[trigger] cuts[b]].timestamp.nanos
            + size.nanos by {
            if b > 0 {
                assert(rest[k - end] == observations[k]);
                assert(0 <= later[b - 1] < later[b]);
                assert(rest[later[b - 1]] == observations[cuts[b]]);
            }
        }
        assert forall|b: int|
            0 <= b < bins.len() && cuts[b + 1] < observations.len() implies observations[cuts[b
            + 1]].timestamp.nanos > observations[#[trigger] cuts[b]].timestamp.nanos + size.nanos by {
            if b > 0 {
                assert(0 <= later[b - 1] < later[b]);
                assert(rest[later[b - 1]] == observations[cuts[b]]);
                assert(rest[later[b]] == observations[cuts[b + 1]]);
            }
        }
        assert forall|b: int| 0 <= b < bins.len() implies {
            let count = cuts[b + 1] - cuts[b];
            let total = signal_sum(
                observations.subrange(cuts[b], cuts[b + 1]).map_values(
                    |observation: Observation| observation.signal_level,
                ),
            );
            let level = (#[trigger] bins[b]).signal_level;
            &&& 2 * abs(level * count - total) <= count
            &&& 2 * abs(level * count - total) == count ==> abs(level * count) > abs(total)
        } by {
            if b == 0 {
                let signals = signals_of(observations.take(end));
                assert(observations.subrange(cuts[0], cuts[1]) =~= observations.take(end));
                law_average_within_bounds(signals, i32::MIN as int, i32::MAX as int);
                law_average_is_nearest(signals);
            } else {
                assert(bins[b] == tail[b - 1]);
                assert(0 <= later[b - 1] < later[b]);
                assert(rest.subrange(later[b - 1], later[b]) =~= observations.subrange(
                    cuts[b],
                    cuts[b + 1],
                ));
            }
        }
        cuts
    }
}

/// Observations of which none is dated more than a bin size after the first make one bin. It
/// is dated as the first, and its signal is the integer nearest to the sum of all signals
/// over their number.
pub proof fn law_close_observations_make_one_bin(observations: Seq<Observation>, size: Duration)
    requires
        observations.len() > 0,
        forall|k: int|
            0 <= k < observations.len() ==> (#[trigger] observations[k]).timestamp.nanos
                <= observations[0].timestamp.nanos + size.nanos,
    ensures
        binned(observations, size).len() == 1,
        binned(observations, size)[0].timestamp == observations[0].timestamp,
        2 * abs(
            binned(observations, size)[0].signal_level * observations.len() - signal_sum(
                observations.map_values(|observation: Observation| observation.signal_level),
            ),
        ) <= observations.len(),
{
    let bins = binned(observations, size);
    let cuts = law_bins_partition(observations, size);
    assert(bins.len() > 0);
    assert(cuts[0] < cuts[1]);
    if bins.len() > 1 {
        assert(cuts[1] < cuts[2]);
        assert(observations[cuts[1]].timestamp.nanos > observations[cuts[0]].timestamp.nanos
            + size.nanos);
    }
    assert(bins[0].timestamp == observations[0].timestamp);
    assert(observations.subrange(0, observations.len() as int) =~= observations);
}

// Laws of plot points.

/// The plot points are, in order, those of the observations that are not dated later than
/// `now`, one for each: how long ago it was made, and its signal.
pub proof fn law_plot_points_are_observations(observations: Seq<Observation>, now: Timestamp)
    ensures
        plot_points(observations, now) == observations.filter(
            |observation: Observation| observation.timestamp.nanos <= now.nanos,
        ).map_values(
            |observation: Observation|
                PlotPoint {
                    elapsed: Duration { nanos: (now.nanos - observation.timestamp.nanos) as u128 },
                    signal_level: observation.signal_level,
                },
        ),
    decreases observations.len(),
{
    reveal(Seq::filter);
    if observations.len() > 0 {
        law_plot_points_are_observations(observations.drop_last(), now);
    }
}

/// Where no observation is dated later than `now`, there are as many plot points as
/// observations, and each carries the signal of the observation at its place and the time
/// since that observation.
pub proof fn law_past_observations_are_all_plotted(observations: Seq<Observation>, now: Timestamp)
    requires
        forall|k: int|
            0 <= k < observations.len() ==> (#[trigger] observations[k]).timestamp.nanos
                <= now.nanos,
    ensures
        plot_points(observations, now).len() == observations.len(),
        forall|k: int|
            0 <= k < observations.len() ==> {
                &&& (#[trigger] plot_points(observations, now)[k]).elapsed.nanos == now.nanos
                    - observations[k].timestamp.nanos
                &&& plot_points(observations, now)[k].signal_level == observations[k].signal_level
            },
    decreases observations.len(),
{
    if observations.len() > 0 {
        let earlier = observations.drop_last();
        assert forall|k: int| 0 <= k < earlier.len() implies (
        #[trigger] earlier[k]).timestamp.nanos <= now.nanos by {
            assert(earlier[k] == observations[k]);
        }
        law_past_observations_are_all_plotted(earlier, now);
        assert(observations[observations.len() - 1].timestamp.nanos <= now.nanos);
        assert forall|k: int| 0 <= k < observations.len() implies {
            &&& (#[trigger] plot_points(observations, now)[k]).elapsed.nanos == now.nanos
                - observations[k].timestamp.nanos
            &&& plot_points(observations, now)[k].signal_level == observations[k].signal_level
        } by {
            if k < earlier.len() {
                assert(plot_points(earlier, now)[k] == plot_points(observations, now)[k]);
            }
        }
    }
}

} // verus!
