//! Samples regrouped by channel.

use vstd::prelude::*;

use crate::history::{lemma_signal_sum_bounds, signal_sum};
use crate::sample::{sample_views, SampleView, WifiSample};

verus! {

/// Average signal level for one channel in the latest live snapshot.
///
/// The average is `signal_total / samples`; it is left to the reader to divide.
#[derive(Clone, Copy, Debug, PartialEq, Eq, Structural)]
pub struct ChannelAverage {
    /// Wi-Fi channel number.
    pub channel: u32,
    /// Sum of the RSSI levels in dBm.
    pub signal_total: i128,
    /// Number of samples on the channel; never zero.
    pub samples: usize,
}

/// The signal levels of the samples on a channel.
pub open spec fn channel_signals(data: Seq<SampleView>, channel: u32) -> Seq<i32>
    decreases data.len(),
{
    if data.len() == 0 {
        Seq::empty()
    } else {
        let earlier = channel_signals(data.drop_last(), channel);
        if data.last().channel == channel {
            earlier.push(data.last().signal_level)
        } else {
            earlier
        }
    }
}

/// One average for each channel that occurs, in the order of the channel numbers.
pub open spec fn are_channel_averages(
    averages: Seq<ChannelAverage>,
    data: Seq<SampleView>,
) -> bool {
    &&& forall|a: int, b: int|
        0 <= a < b < averages.len() ==> (#[trigger] averages[a]).channel < (
        #[trigger] averages[b]).channel
    &&& forall|a: int|
        0 <= a < averages.len() ==> {
            let signals = channel_signals(data, (#[trigger] averages[a]).channel);
            &&& averages[a].samples == signals.len()
            &&& averages[a].samples > 0
            &&& averages[a].signal_total == signal_sum(signals)
        }
    &&& forall|channel: u32| #[trigger]
        channel_signals(data, channel).len() > 0 ==> exists|a: int|
            0 <= a < averages.len() && (#[trigger] averages[a]).channel == channel
}

proof fn lemma_channel_signals_len(data: Seq<SampleView>, channel: u32)
    ensures
        channel_signals(data, channel).len() <= data.len(),
    decreases data.len(),
{
    if data.len() > 0 {
        lemma_channel_signals_len(data.drop_last(), channel);
    }
}

/// The first position whose channel is not below `channel`.
fn position_of(averages: &Vec<ChannelAverage>, channel: u32) -> (position: usize)
    ensures
        position <= averages@.len(),
        forall|a: int| 0 <= a < position ==> (#[trigger] averages@[a]).channel < channel,
        position < averages@.len() ==> averages@[position as int].channel >= channel,
{
    let mut i: usize = 0;
    while i < averages.len()
        invariant
            i <= averages@.len(),
            forall|a: int| 0 <= a < i ==> (#[trigger] averages@[a]).channel < channel,
        decreases averages@.len() - i,
    {
        if averages[i].channel >= channel {
            return i;
        }
        i += 1;
    }
    i
}

/// Average RSSI by channel, in the order of the channel numbers.
pub fn average_by_channel(data: &Vec<WifiSample>) -> (averages: Vec<ChannelAverage>)
    ensures
        are_channel_averages(averages@, sample_views(data@)),
{
    let ghost views = sample_views(data@);
    let mut averages: Vec<ChannelAverage> = Vec::new();
    let mut i: usize = 0;
    while i < data.len()
        invariant
            i <= data@.len(),
            views == sample_views(data@),
            are_channel_averages(averages@, views.take(i as int)),
        decreases data@.len() - i,
    {
        let channel: u32 = data[i].channel;
        let signal_level: i32 = data[i].signal_level;
        let ghost seen = views.take(i as int);
        let ghost now = views.take(i + 1);
        let ghost before = averages@;
        let position: usize = position_of(&averages, channel);
        proof {
            assert(views[i as int] == data@[i as int]@);
            assert(now.drop_last() =~= seen);
            lemma_channel_signals_len(seen, channel);
            lemma_signal_sum_bounds(
                channel_signals(seen, channel),
                i32::MIN as int,
                i32::MAX as int,
            );
            assert(channel_signals(now, channel).drop_last() =~= channel_signals(seen, channel));
        }
        if position < averages.len() && averages[position].channel == channel {
            let current: ChannelAverage = averages[position];
            averages.set(
                position,
                ChannelAverage {
                    channel,
                    signal_total: current.signal_total + signal_level as i128,
                    samples: current.samples + 1,
                },
            );
            proof {
                assert forall|other: u32| #[trigger]
                    channel_signals(now, other).len() > 0 implies exists|a: int|
                    0 <= a < averages@.len() && (#[trigger] averages@[a]).channel == other by {
                    if other == channel {
                        assert(averages@[position as int].channel == channel);
                    } else {
                        assert(channel_signals(seen, other).len() > 0);
                        let a = choose|a: int|
                            0 <= a < before.len() && (#[trigger] before[a]).channel == other;
                        assert(averages@[a].channel == other);
                    }
                }
            }
        } else {
            averages.insert(
                position,
                ChannelAverage { channel, signal_total: signal_level as i128, samples: 1 },
            );
            proof {
                assert forall|a: int| 0 <= a < before.len() implies (#[trigger] before[a]).channel
                    != channel by {
                    if a > position {
                        assert(before[position as int].channel < before[a].channel);
                    }
                }
                assert(channel_signals(seen, channel).len() == 0) by {
                    if channel_signals(seen, channel).len() > 0 {
                        let a = choose|a: int|
                            0 <= a < before.len() && (#[trigger] before[a]).channel == channel;
                    }
                }
                assert(averages@ =~= before.insert(position as int, averages@[position as int]));
                assert forall|a: int| 0 <= a < averages@.len() implies {
                    let signals = channel_signals(now, (#[trigger] averages@[a]).channel);
                    &&& averages@[a].samples == signals.len()
                    &&& averages@[a].samples > 0
                    &&& averages@[a].signal_total == signal_sum(signals)
                } by {
                    if a < position {
                        assert(averages@[a] == before[a]);
                    } else if a > position {
                        assert(averages@[a] == before[a - 1]);
                    } else {
                        assert(channel_signals(now, channel) =~= seq![signal_level]);
                        assert(signal_sum(seq![signal_level].drop_last()) == 0);
                    }
                }
                assert forall|other: u32| #[trigger]
                    channel_signals(now, other).len() > 0 implies exists|a: int|
                    0 <= a < averages@.len() && (#[trigger] averages@[a]).channel == other by {
                    if other == channel {
                        assert(averages@[position as int].channel == channel);
                    } else {
                        assert(channel_signals(seen, other).len() > 0);
                        let a = choose|a: int|
                            0 <= a < before.len() && (#[trigger] before[a]).channel == other;
                        let moved = if a < position { a } else { a + 1 };
                        assert(averages@[moved] == before[a]);
                    }
                }
                assert forall|a: int, b: int| 0 <= a < b < averages@.len() implies (
                #[trigger] averages@[a]).channel < (#[trigger] averages@[b]).channel by {
                    let old_a = if a < position { a } else { a - 1 };
                    let old_b = if b < position { b } else { b - 1 };
                    if a != position {
                        assert(averages@[a] == before[old_a]);
                    }
                    if b != position {
                        assert(averages@[b] == before[old_b]);
                        if a == position && old_b > position {
                            assert(before[position as int].channel < before[old_b].channel);
                        }
                    }
                }
            }
        }
        i += 1;
    }
    assert(views.take(i as int) =~= views);
    averages
}

pub(crate) proof fn lemma_averages_empty(averages: Seq<ChannelAverage>, data: Seq<SampleView>)
    requires
        are_channel_averages(averages, data),
    ensures
        averages.len() == 0 <==> data.len() == 0,
{
    if data.len() > 0 {
        let last = data.last();
        assert(channel_signals(data, last.channel).len() > 0);
    }
    if averages.len() > 0 {
        assert(channel_signals(data, averages[0].channel).len() > 0);
        lemma_channel_signals_len(data, averages[0].channel);
    }
}

/// The samples determine the averages.
pub proof fn law_channel_averages_are_determined(
    first: Seq<ChannelAverage>,
    second: Seq<ChannelAverage>,
    data: Seq<SampleView>,
)
    requires
        are_channel_averages(first, data),
        are_channel_averages(second, data),
    ensures
        first == second,
{
    lemma_same_prefix(first, second, data, first.len() as int);
    lemma_same_prefix(second, first, data, second.len() as int);
    assert(first =~= second);
}

proof fn lemma_same_prefix(
    first: Seq<ChannelAverage>,
    second: Seq<ChannelAverage>,
    data: Seq<SampleView>,
    count: int,
)
    requires
        are_channel_averages(first, data),
        are_channel_averages(second, data),
        0 <= count <= first.len(),
    ensures
        count <= second.len(),
        forall|k: int| 0 <= k < count ==> #[trigger] first[k] == second[k],
    decreases count,
{
    if count > 0 {
        let k = count - 1;
        lemma_same_prefix(first, second, data, k);
        assert(channel_signals(data, first[k].channel).len() > 0);
        let b = choose|b: int|
            0 <= b < second.len() && (#[trigger] second[b]).channel == first[k].channel;
        if b < k {
            assert(first[b] == second[b]);
            assert(first[b].channel < first[k].channel);
        }
        if b > k {
            assert(second[k].channel < second[b].channel);
            assert(channel_signals(data, second[k].channel).len() > 0);
            let a = choose|a: int|
                0 <= a < first.len() && (#[trigger] first[a]).channel == second[k].channel;
            if a < k {
                assert(first[a] == second[a]);
                assert(second[a].channel < second[k].channel);
            } else if a > k {
                assert(first[k].channel < first[a].channel);
            }
        }
        assert(b == k);
    }
}

proof fn lemma_channel_signals_within(data: Seq<SampleView>, channel: u32, low: int, high: int)
    requires
        forall|k: int| 0 <= k < data.len() ==> low <= (#[trigger] data[k]).signal_level <= high,
    ensures
        forall|k: int|
            0 <= k < channel_signals(data, channel).len() ==> low <= #[trigger] channel_signals(
                data,
                channel,
            )[k] <= high,
    decreases data.len(),
{
    if data.len() > 0 {
        let earlier = data.drop_last();
        assert forall|k: int| 0 <= k < earlier.len() implies low <= (
        #[trigger] earlier[k]).signal_level <= high by {
            assert(earlier[k] == data[k]);
        }
        lemma_channel_signals_within(earlier, channel, low, high);
        let before = channel_signals(earlier, channel);
        let after = channel_signals(data, channel);
        assert(low <= data[data.len() - 1].signal_level <= high);
        assert forall|k: int| 0 <= k < after.len() implies low <= #[trigger] after[k] <= high by {
            if k < before.len() {
                assert(after[k] == before[k]);
            }
        }
    }
}

/// The average of a channel lies between the bounds of the signals in the snapshot.
pub proof fn law_channel_average_within_bounds(
    averages: Seq<ChannelAverage>,
    data: Seq<SampleView>,
    a: int,
    low: int,
    high: int,
)
    requires
        are_channel_averages(averages, data),
        0 <= a < averages.len(),
        forall|k: int| 0 <= k < data.len() ==> low <= (#[trigger] data[k]).signal_level <= high,
    ensures
        low * averages[a].samples <= averages[a].signal_total <= high * averages[a].samples,
{
    lemma_channel_signals_within(data, averages[a].channel, low, high);
    lemma_signal_sum_bounds(channel_signals(data, averages[a].channel), low, high);
}

/// The number of samples that the averages take in.
pub open spec fn averaged_total(averages: Seq<ChannelAverage>) -> nat
    decreases averages.len(),
{
    if averages.len() == 0 {
        0
    } else {
        averaged_total(averages.drop_last()) + averages.last().samples as nat
    }
}

/// How many samples are on the given channels, all together.
spec fn on_channels(channels: Seq<u32>, data: Seq<SampleView>) -> nat
    decreases channels.len(),
{
    if channels.len() == 0 {
        0
    } else {
        on_channels(channels.drop_last(), data) + channel_signals(data, channels.last()).len()
    }
}

/// The sum of the signal levels of the samples on the given channels.
spec fn signals_on(channels: Seq<u32>, data: Seq<SampleView>) -> int
    decreases channels.len(),
{
    if channels.len() == 0 {
        0
    } else {
        signals_on(channels.drop_last(), data) + signal_sum(
            channel_signals(data, channels.last()),
        )
    }
}

proof fn lemma_on_channels_step(channels: Seq<u32>, data: Seq<SampleView>)
    requires
        channels.no_duplicates(),
    ensures
        data.len() == 0 ==> on_channels(channels, data) == 0 && signals_on(channels, data) == 0,
        data.len() > 0 ==> on_channels(channels, data) == on_channels(channels, data.drop_last())
            + if channels.contains(data.last().channel) {
            1nat
        } else {
            0nat
        },
        data.len() > 0 ==> signals_on(channels, data) == signals_on(channels, data.drop_last())
            + if channels.contains(data.last().channel) {
            data.last().signal_level as int
        } else {
            0
        },
    decreases channels.len(),
{
    if channels.len() > 0 {
        if data.len() > 0 && data.last().channel == channels.last() {
            assert(channel_signals(data, channels.last()).drop_last() =~= channel_signals(
                data.drop_last(),
                channels.last(),
            ));
        }
        let earlier = channels.drop_last();
        let channel = data.last().channel;
        lemma_on_channels_step(earlier, data);
        if channels.last() == channel {
            assert(channels[channels.len() - 1] == channel);
            if earlier.contains(channel) {
                let k = choose|k: int| 0 <= k < earlier.len() && earlier[k] == channel;
                assert(channels[k] == channels[channels.len() - 1]);
            }
        } else if channels.contains(channel) {
            let k = choose|k: int| 0 <= k < channels.len() && channels[k] == channel;
            assert(earlier[k] == channel);
        } else if earlier.contains(channel) {
            let k = choose|k: int| 0 <= k < earlier.len() && earlier[k] == channel;
            assert(channels[k] == channel);
        }
    }
}

proof fn lemma_on_channels(channels: Seq<u32>, data: Seq<SampleView>)
    requires
        channels.no_duplicates(),
        forall|j: int| 0 <= j < data.len() ==> channels.contains((#[trigger] data[j]).channel),
    ensures
        on_channels(channels, data) == data.len(),
        signals_on(channels, data) == signal_sum(
            data.map_values(|sample: SampleView| sample.signal_level),
        ),
    decreases data.len(),
{
    lemma_on_channels_step(channels, data);
    if data.len() > 0 {
        let earlier = data.drop_last();
        assert forall|j: int| 0 <= j < earlier.len() implies channels.contains(
            (#[trigger] earlier[j]).channel,
        ) by {
            assert(earlier[j] == data[j]);
        }
        lemma_on_channels(channels, earlier);
        assert(channels.contains(data[data.len() - 1].channel));
        assert(data.map_values(|sample: SampleView| sample.signal_level).drop_last()
            =~= earlier.map_values(|sample: SampleView| sample.signal_level));
    }
}

proof fn lemma_averaged_total(
    averages: Seq<ChannelAverage>,
    channels: Seq<u32>,
    data: Seq<SampleView>,
)
    requires
        channels.len() == averages.len(),
        forall|a: int|
            0 <= a < averages.len() ==> (#[trigger] averages[a]).samples == channel_signals(
                data,
                channels[a],
            ).len(),
        forall|a: int|
            0 <= a < averages.len() ==> (#[trigger] averages[a]).signal_total == signal_sum(
                channel_signals(data, channels[a]),
            ),
    ensures
        averaged_total(averages) == on_channels(channels, data),
        averages.fold_left(0int, |count: int, average: ChannelAverage| count + average.samples)
            == on_channels(channels, data),
        averages.fold_left(0int, |sum: int, average: ChannelAverage| sum + average.signal_total)
            == signals_on(channels, data),
    decreases averages.len(),
{
    if averages.len() > 0 {
        lemma_averaged_total(averages.drop_last(), channels.drop_last(), data);
    }
}

proof fn lemma_has_channel(data: Seq<SampleView>, j: int)
    requires
        0 <= j < data.len(),
    ensures
        channel_signals(data, data[j].channel).len() > 0,
    decreases data.len(),
{
    if j < data.len() - 1 {
        lemma_has_channel(data.drop_last(), j);
    }
}

/// Every sample counts in the average of exactly one channel, and with its own signal: over
/// all channels the numbers of samples add up to the number of samples in the snapshot, and
/// the sums of signals to the sum of all signals in it.
pub proof fn law_every_sample_is_averaged_once(
    averages: Seq<ChannelAverage>,
    data: Seq<SampleView>,
)
    requires
        are_channel_averages(averages, data),
    ensures
        averaged_total(averages) == data.len(),
        averages.fold_left(0int, |count: int, average: ChannelAverage| count + average.samples)
            == data.len(),
        averages.fold_left(0int, |sum: int, average: ChannelAverage| sum + average.signal_total)
            == signal_sum(data.map_values(|sample: SampleView| sample.signal_level)),
{
    let channels = averages.map_values(|average: ChannelAverage| average.channel);
    assert forall|a: int, b: int| 0 <= a < channels.len() && 0 <= b < channels.len() && a
        != b implies channels[a] != channels[b] by {
        let low = if a < b { a } else { b };
        let high = if a < b { b } else { a };
        assert(averages[low].channel < averages[high].channel);
    }
    assert forall|j: int| 0 <= j < data.len() implies channels.contains(
        (#[trigger] data[j]).channel,
    ) by {
        lemma_has_channel(data, j);
        let a = choose|a: int|
            0 <= a < averages.len() && (#[trigger] averages[a]).channel == data[j].channel;
        assert(channels[a] == data[j].channel);
    }
    lemma_averaged_total(averages, channels, data);
    lemma_on_channels(channels, data);
}

/// The signals of a channel are, in order, those of the samples on it, one for each.
pub proof fn law_channel_signals_are_samples(data: Seq<SampleView>, channel: u32)
    ensures
        channel_signals(data, channel) == data.filter(
            |sample: SampleView| sample.channel == channel,
        ).map_values(|sample: SampleView| sample.signal_level),
    decreases data.len(),
{
    reveal(Seq::filter);
    if data.len() > 0 {
        law_channel_signals_are_samples(data.drop_last(), channel);
    }
}

/// The averages stand in the order of the channel numbers. That of a channel counts the
/// samples on it and sums up their signals.
pub proof fn law_channel_averages_count_samples(
    averages: Seq<ChannelAverage>,
    data: Seq<SampleView>,
)
    requires
        are_channel_averages(averages, data),
    ensures
        forall|a: int, b: int|
            0 <= a < b < averages.len() ==> (#[trigger] averages[a]).channel < (
            #[trigger] averages[b]).channel,
        forall|a: int|
            0 <= a < averages.len() ==> {
                let average = #[trigger] averages[a];
                let on_it = data.filter(|sample: SampleView| sample.channel == average.channel);
                &&& average.samples == on_it.len()
                &&& average.samples > 0
                &&& average.signal_total == signal_sum(
                    on_it.map_values(|sample: SampleView| sample.signal_level),
                )
            },
{
    assert forall|a: int| 0 <= a < averages.len() implies {
        let average = #[trigger] averages[a];
        let on_it = data.filter(|sample: SampleView| sample.channel == average.channel);
        &&& average.samples == on_it.len()
        &&& average.samples > 0
        &&& average.signal_total == signal_sum(
            on_it.map_values(|sample: SampleView| sample.signal_level),
        )
    } by {
        law_channel_signals_are_samples(data, averages[a].channel);
    }
}

/// The channel of each sample has an average.
pub proof fn law_every_channel_is_averaged(
    averages: Seq<ChannelAverage>,
    data: Seq<SampleView>,
    j: int,
)
    requires
        are_channel_averages(averages, data),
        0 <= j < data.len(),
    ensures
        exists|a: int|
            0 <= a < averages.len() && (#[trigger] averages[a]).channel == data[j].channel,
{
    lemma_has_channel(data, j);
}

} // verus!
