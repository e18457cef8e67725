//! Snapshots regrouped by network: one history per SSID, one plot series per SSID.

use vstd::prelude::*;
#[allow(unused_imports)]
use vstd::string::*;

use crate::history::{binned, plot_points, NetworkHistory, Observation, PlotPoint};
use crate::sample::{
    sample_views, snapshot_views, SampleView, ScanSnapshot, SnapshotView, WifiSample,
};
use crate::text::{comes_before, law_text_order_total, law_text_order_transitive, text_before};
use crate::time::{Duration, Timestamp};

verus! {

/// Maximum number of point samples drawn before per-network binning is applied.
pub const MAX_RAW_PLOT_POINTS: usize = 500;

/// Size of the time buckets used when plot data grows large, in seconds.
pub const PLOT_BIN_SECS: u64 = 1;

/// The history of the network with this SSID.
#[derive(Debug)]
pub struct SsidHistory {
    pub ssid: String,
    pub history: NetworkHistory,
}

/// Plot-ready time series for one SSID.
#[derive(Debug)]
pub struct PlotSeries {
    /// SSID represented by this line.
    pub ssid: String,
    /// The points, in the order in which the signals were observed.
    pub points: Vec<PlotPoint>,
}

/// A [`PlotSeries`] with its texts and points as sequences.
pub struct SeriesView {
    pub ssid: Seq<char>,
    pub points: Seq<PlotPoint>,
}

impl View for PlotSeries {
    type V = SeriesView;

    open spec fn view(&self) -> SeriesView {
        SeriesView { ssid: self.ssid@, points: self.points@ }
    }
}

/// The views of a sequence of series.
pub open spec fn series_views(series: Seq<PlotSeries>) -> Seq<SeriesView> {
    series.map_values(|item: PlotSeries| item@)
}

// Observations of a network.

/// What samples taken at `timestamp` say of the network named `ssid`.
pub open spec fn observed_in(
    data: Seq<SampleView>,
    timestamp: Timestamp,
    ssid: Seq<char>,
) -> Seq<Observation>
    decreases data.len(),
{
    if data.len() == 0 {
        Seq::empty()
    } else {
        let earlier = observed_in(data.drop_last(), timestamp, ssid);
        if data.last().ssid == ssid {
            earlier.push(Observation { timestamp, signal_level: data.last().signal_level })
        } else {
            earlier
        }
    }
}

/// All observations of the network named `ssid`, in the order of the snapshots and of
/// the samples in them.
pub open spec fn network_observations(
    snapshots: Seq<SnapshotView>,
    ssid: Seq<char>,
) -> Seq<Observation>
    decreases snapshots.len(),
{
    if snapshots.len() == 0 {
        Seq::empty()
    } else {
        network_observations(snapshots.drop_last(), ssid) + observed_in(
            snapshots.last().data,
            snapshots.last().timestamp,
            ssid,
        )
    }
}

/// The SSIDs that occur in the snapshots.
pub open spec fn ssids_of(snapshots: Seq<SnapshotView>) -> Set<Seq<char>>
    decreases snapshots.len(),
{
    if snapshots.len() == 0 {
        Set::empty()
    } else {
        ssids_of(snapshots.drop_last()).union(ssids_in(snapshots.last().data))
    }
}

/// The SSIDs that occur in the samples.
pub open spec fn ssids_in(data: Seq<SampleView>) -> Set<Seq<char>>
    decreases data.len(),
{
    if data.len() == 0 {
        Set::empty()
    } else {
        ssids_in(data.drop_last()).insert(data.last().ssid)
    }
}

proof fn lemma_ssids_in(data: Seq<SampleView>, timestamp: Timestamp, ssid: Seq<char>)
    ensures
        ssids_in(data).contains(ssid) <==> observed_in(data, timestamp, ssid).len() > 0,
        ssids_in(data).contains(ssid) <==> exists|j: int|
            0 <= j < data.len() && (#[trigger] data[j]).ssid == ssid,
    decreases data.len(),
{
    if data.len() > 0 {
        let earlier = data.drop_last();
        lemma_ssids_in(earlier, timestamp, ssid);
        if exists|j: int| 0 <= j < data.len() && (#[trigger] data[j]).ssid == ssid {
            let j = choose|j: int| 0 <= j < data.len() && (#[trigger] data[j]).ssid == ssid;
            if j < earlier.len() {
                assert(earlier[j].ssid == ssid);
            }
        }
        if ssids_in(data).contains(ssid) {
            if data.last().ssid == ssid {
                assert(data[data.len() - 1].ssid == ssid);
            } else {
                let j = choose|j: int| 0 <= j < earlier.len() && (#[trigger] earlier[j]).ssid == ssid;
                assert(data[j].ssid == ssid);
            }
        }
    }
}

/// An SSID occurs in the snapshots exactly if its network has been observed, which is so
/// exactly if some sample of some snapshot carries it.
pub proof fn law_ssids_are_observed(snapshots: Seq<SnapshotView>, ssid: Seq<char>)
    ensures
        ssids_of(snapshots).contains(ssid) <==> network_observations(snapshots, ssid).len() > 0,
        ssids_of(snapshots).contains(ssid) <==> exists|i: int, j: int|
            0 <= i < snapshots.len() && 0 <= j < snapshots[i].data.len() && (
            #[trigger] snapshots[i].data[j]).ssid == ssid,
    decreases snapshots.len(),
{
    if snapshots.len() > 0 {
        let earlier = snapshots.drop_last();
        let last = snapshots.last();
        law_ssids_are_observed(earlier, ssid);
        lemma_ssids_in(last.data, last.timestamp, ssid);
        if ssids_of(snapshots).contains(ssid) {
            if ssids_in(last.data).contains(ssid) {
                let j = choose|j: int|
                    0 <= j < last.data.len() && (#[trigger] last.data[j]).ssid == ssid;
                assert(snapshots[snapshots.len() - 1].data[j].ssid == ssid);
            } else {
                let (i, j) = choose|i: int, j: int|
                    0 <= i < earlier.len() && 0 <= j < earlier[i].data.len() && (
                    #[trigger] earlier[i].data[j]).ssid == ssid;
                assert(snapshots[i].data[j].ssid == ssid);
            }
        }
        if exists|i: int, j: int|
            0 <= i < snapshots.len() && 0 <= j < snapshots[i].data.len() && (
            #[trigger] snapshots[i].data[j]).ssid == ssid {
            let (i, j) = choose|i: int, j: int|
                0 <= i < snapshots.len() && 0 <= j < snapshots[i].data.len() && (
                #[trigger] snapshots[i].data[j]).ssid == ssid;
            if i < earlier.len() {
                assert(earlier[i].data[j].ssid == ssid);
            } else {
                assert(last.data[j].ssid == ssid);
            }
        }
    }
}

proof fn lemma_observed_in_is(data: Seq<SampleView>, timestamp: Timestamp, ssid: Seq<char>)
    ensures
        observed_in(data, timestamp, ssid) == data.filter(
            |sample: SampleView| sample.ssid == ssid,
        ).map_values(
            |sample: SampleView| Observation { timestamp, signal_level: sample.signal_level },
        ),
    decreases data.len(),
{
    reveal(Seq::filter);
    if data.len() > 0 {
        lemma_observed_in_is(data.drop_last(), timestamp, ssid);
    }
}

/// What later snapshots say of a network follows what earlier ones say of it. One snapshot
/// says of it what its samples with that SSID say, in their order, one observation each,
/// dated as the snapshot.
pub proof fn law_observations_follow_snapshots(
    earlier: Seq<SnapshotView>,
    later: Seq<SnapshotView>,
    snapshot: SnapshotView,
    ssid: Seq<char>,
)
    ensures
        network_observations(earlier + later, ssid) == network_observations(earlier, ssid)
            + network_observations(later, ssid),
        network_observations(seq![snapshot], ssid) == snapshot.data.filter(
            |sample: SampleView| sample.ssid == ssid,
        ).map_values(
            |sample: SampleView|
                Observation { timestamp: snapshot.timestamp, signal_level: sample.signal_level },
        ),
        network_observations(Seq::empty(), ssid) == Seq::<Observation>::empty(),
    decreases later.len(),
{
    let timestamp = snapshot.timestamp;
    lemma_observed_in_is(snapshot.data, timestamp, ssid);
    assert(seq![snapshot].drop_last() =~= Seq::empty());
    assert(network_observations(Seq::empty(), ssid) =~= Seq::empty());
    assert(network_observations(seq![snapshot], ssid) =~= observed_in(
        snapshot.data,
        timestamp,
        ssid,
    ));
    if later.len() == 0 {
        assert(earlier + later =~= earlier);
    } else {
        law_observations_follow_snapshots(earlier, later.drop_last(), snapshot, ssid);
        assert((earlier + later).drop_last() =~= earlier + later.drop_last());
        assert((earlier + later).last() == later.last());
    }
}

// Tables of histories.

/// The entries stand in the order of their SSIDs, no SSID twice, none without an
/// observation.
pub open spec fn is_table(table: Seq<SsidHistory>) -> bool {
    &&& forall|a: int, b: int|
        0 <= a < b < table.len() ==> text_before(
            (#[trigger] table[a]).ssid@,
            (#[trigger] table[b]).ssid@,
        )
    &&& forall|a: int| 0 <= a < table.len() ==> (#[trigger] table[a]).history@.len() > 0
}

/// The observations under an SSID; none if the table has no such entry.
pub open spec fn lookup(table: Seq<SsidHistory>, ssid: Seq<char>) -> Seq<Observation> {
    if exists|a: int| 0 <= a < table.len() && (#[trigger] table[a]).ssid@ == ssid {
        table[choose|a: int| 0 <= a < table.len() && (#[trigger] table[a]).ssid@ == ssid].history@
    } else {
        Seq::empty()
    }
}

proof fn lemma_lookup_at(table: Seq<SsidHistory>, at: int)
    requires
        is_table(table),
        0 <= at < table.len(),
    ensures
        lookup(table, table[at].ssid@) == table[at].history@,
{
    let ssid = table[at].ssid@;
    let a = choose|a: int| 0 <= a < table.len() && (#[trigger] table[a]).ssid@ == ssid;
    assert(table[a].ssid@ == ssid);
    law_text_order_total(ssid, ssid);
    if a < at {
        assert(text_before(table[a].ssid@, table[at].ssid@));
    } else if at < a {
        assert(text_before(table[at].ssid@, table[a].ssid@));
    }
}

proof fn lemma_names_distinct(table: Seq<SsidHistory>)
    requires
        is_table(table),
    ensures
        table.map_values(|entry: SsidHistory| entry.ssid@).no_duplicates(),
{
    let names = table.map_values(|entry: SsidHistory| entry.ssid@);
    assert forall|a: int, b: int| 0 <= a < names.len() && 0 <= b < names.len() && a
        != b implies names[a] != names[b] by {
        let low = if a < b { a } else { b };
        let high = if a < b { b } else { a };
        assert(text_before(table[low].ssid@, table[high].ssid@));
        law_text_order_total(names[a], names[b]);
    }
}

/// The first position whose SSID does not come before `ssid`.
fn position_of(table: &Vec<SsidHistory>, ssid: &String) -> (position: usize)
    requires
        is_table(table@),
    ensures
        position <= table@.len(),
        forall|a: int|
            0 <= a < position ==> text_before((#[trigger] table@[a]).ssid@, ssid@),
        position < table@.len() ==> !text_before(table@[position as int].ssid@, ssid@),
{
    let mut i: usize = 0;
    while i < table.len()
        invariant
            i <= table@.len(),
            forall|a: int| 0 <= a < i ==> text_before((#[trigger] table@[a]).ssid@, ssid@),
        decreases table@.len() - i,
    {
        if !comes_before(table[i].ssid.as_str(), ssid.as_str()) {
            return i;
        }
        i += 1;
    }
    i
}

/// Add an observation of the network named `ssid`.
fn record(table: &mut Vec<SsidHistory>, ssid: &String, timestamp: Timestamp, signal_level: i32)
    requires
        is_table(old(table)@),
    ensures
        is_table(final(table)@),
        forall|other: Seq<char>| #[trigger]
            lookup(final(table)@, other) == if other == ssid@ {
                lookup(old(table)@, other).push((Observation { timestamp, signal_level }))
            } else {
                lookup(old(table)@, other)
            },
{
    let ghost before = table@;
    let ghost added = Observation { timestamp, signal_level };
    let position: usize = position_of(table, ssid);
    if position < table.len() && table[position].ssid == *ssid {
        table[position].history.append(timestamp, signal_level);
        proof {
            assert(table@.len() == before.len());
            assert forall|a: int| 0 <= a < before.len() implies #[trigger] table@[a].ssid@
                == before[a].ssid@ by {}
            assert(is_table(table@));
            assert forall|other: Seq<char>| #[trigger]
                lookup(table@, other) == if other == ssid@ {
                    lookup(before, other).push(added)
                } else {
                    lookup(before, other)
                } by {
                lemma_lookup_updated(before, table@, position as int, other);
            }
        }
    } else {
        let mut history: NetworkHistory = NetworkHistory::new();
        history.append(timestamp, signal_level);
        let entry = SsidHistory { ssid: ssid.clone(), history };
        table.insert(position, entry);
        proof {
            assert(history@ =~= seq![added]);
            lemma_inserted_is_table(before, table@, position as int, ssid@);
            assert forall|other: Seq<char>| #[trigger]
                lookup(table@, other) == if other == ssid@ {
                    lookup(before, other).push(added)
                } else {
                    lookup(before, other)
                } by {
                lemma_lookup_inserted(before, table@, position as int, other);
            }
        }
    }
}

/// A changed history shows under its own SSID only.
proof fn lemma_lookup_updated(
    before: Seq<SsidHistory>,
    after: Seq<SsidHistory>,
    position: int,
    other: Seq<char>,
)
    requires
        is_table(before),
        is_table(after),
        before.len() == after.len(),
        0 <= position < before.len(),
        forall|a: int| 0 <= a < before.len() ==> (#[trigger] after[a]).ssid@ == before[a].ssid@,
        forall|a: int| 0 <= a < before.len() && a != position ==> #[trigger] after[a] == before[a],
    ensures
        lookup(after, other) == if other == before[position].ssid@ {
            after[position].history@
        } else {
            lookup(before, other)
        },
        lookup(before, before[position].ssid@) == before[position].history@,
{
    lemma_lookup_at(before, position);
    lemma_lookup_at(after, position);
    if other != before[position].ssid@ {
        if exists|a: int| 0 <= a < before.len() && (#[trigger] before[a]).ssid@ == other {
            let a = choose|a: int| 0 <= a < before.len() && (#[trigger] before[a]).ssid@ == other;
            assert(after[a].ssid@ == other);
            lemma_lookup_at(before, a);
            lemma_lookup_at(after, a);
        } else {
            assert forall|a: int| 0 <= a < after.len() implies (#[trigger] after[a]).ssid@
                != other by {
                assert(before[a].ssid@ != other);
            }
        }
    }
}

/// A new entry at the place that the order gives it makes a table again.
proof fn lemma_inserted_is_table(
    before: Seq<SsidHistory>,
    after: Seq<SsidHistory>,
    position: int,
    ssid: Seq<char>,
)
    requires
        is_table(before),
        0 <= position <= before.len(),
        after.len() == before.len() + 1,
        after == before.insert(position, after[position]),
        after[position].ssid@ == ssid,
        after[position].history@.len() > 0,
        forall|a: int| 0 <= a < position ==> text_before((#[trigger] before[a]).ssid@, ssid),
        position < before.len() ==> !text_before(before[position].ssid@, ssid)
            && before[position].ssid@ != ssid,
    ensures
        is_table(after),
        forall|a: int| 0 <= a < before.len() ==> (#[trigger] before[a]).ssid@ != ssid,
{
    assert forall|a: int| 0 <= a < before.len() implies if a < position {
        text_before((#[trigger] before[a]).ssid@, ssid)
    } else {
        text_before(ssid, before[a].ssid@)
    } by {
        if a >= position {
            law_text_order_total(before[position].ssid@, ssid);
            if a > position {
                assert(text_before(before[position].ssid@, before[a].ssid@));
                law_text_order_transitive(ssid, before[position].ssid@, before[a].ssid@);
            }
        }
    }
    assert forall|a: int| 0 <= a < before.len() implies (#[trigger] before[a]).ssid@ != ssid by {
        law_text_order_total(ssid, ssid);
    }
    assert forall|a: int, b: int| 0 <= a < b < after.len() implies text_before(
        (#[trigger] after[a]).ssid@,
        (#[trigger] after[b]).ssid@,
    ) by {
        let old_a = if a < position { a } else { a - 1 };
        let old_b = if b < position { b } else { b - 1 };
        if a != position {
            assert(after[a] == before[old_a]);
        }
        if b != position {
            assert(after[b] == before[old_b]);
        }
    }
    assert forall|a: int| 0 <= a < after.len() implies (#[trigger] after[a]).history@.len()
        > 0 by {
        if a < position {
            assert(after[a] == before[a]);
        } else if a > position {
            assert(after[a] == before[a - 1]);
        }
    }
}

/// A new entry shows under its own SSID only.
proof fn lemma_lookup_inserted(
    before: Seq<SsidHistory>,
    after: Seq<SsidHistory>,
    position: int,
    other: Seq<char>,
)
    requires
        is_table(before),
        is_table(after),
        0 <= position <= before.len(),
        after == before.insert(position, after[position]),
        forall|a: int|
            0 <= a < before.len() ==> (#[trigger] before[a]).ssid@ != after[position].ssid@,
    ensures
        lookup(after, other) == if other == after[position].ssid@ {
            after[position].history@
        } else {
            lookup(before, other)
        },
        lookup(before, after[position].ssid@) == Seq::<Observation>::empty(),
{
    lemma_lookup_at(after, position);
    if other != after[position].ssid@ {
        if exists|a: int| 0 <= a < before.len() && (#[trigger] before[a]).ssid@ == other {
            let a = choose|a: int| 0 <= a < before.len() && (#[trigger] before[a]).ssid@ == other;
            let moved = if a < position { a } else { a + 1 };
            assert(after[moved] == before[a]);
            lemma_lookup_at(before, a);
            lemma_lookup_at(after, moved);
        } else {
            assert forall|a: int| 0 <= a < after.len() implies (#[trigger] after[a]).ssid@
                != other by {
                if a < position {
                    assert(after[a] == before[a]);
                } else if a > position {
                    assert(after[a] == before[a - 1]);
                }
            }
        }
    }
}

/// The table holds, under each SSID, all observations of that network.
pub open spec fn is_history_table(
    table: Seq<SsidHistory>,
    snapshots: Seq<SnapshotView>,
) -> bool {
    &&& is_table(table)
    &&& forall|ssid: Seq<char>| #[trigger]
        lookup(table, ssid) == network_observations(snapshots, ssid)
}

/// Regroup snapshots by SSID.
pub fn network_histories_from_snapshots(snapshots: &Vec<ScanSnapshot>) -> (table: Vec<
    SsidHistory,
>)
    ensures
        is_history_table(table@, snapshot_views(snapshots@)),
{
    let ghost views = snapshot_views(snapshots@);
    let mut table: Vec<SsidHistory> = Vec::new();
    let mut i: usize = 0;
    while i < snapshots.len()
        invariant
            i <= snapshots@.len(),
            views == snapshot_views(snapshots@),
            is_history_table(table@, views.take(i as int)),
        decreases snapshots@.len() - i,
    {
        let data: &Vec<WifiSample> = &snapshots[i].data;
        let timestamp: Timestamp = snapshots[i].timestamp;
        let ghost seen = views.take(i as int);
        let ghost samples = sample_views(data@);
        let mut j: usize = 0;
        assert(samples.take(0) =~= Seq::empty());
        while j < data.len()
            invariant
                j <= data@.len(),
                samples == sample_views(data@),
                is_table(table@),
                forall|ssid: Seq<char>| #[trigger]
                    lookup(table@, ssid) == network_observations(seen, ssid) + observed_in(
                        samples.take(j as int),
                        timestamp,
                        ssid,
                    ),
            decreases data@.len() - j,
        {
            let ghost before = table@;
            record(&mut table, &data[j].ssid, timestamp, data[j].signal_level);
            proof {
                assert(samples.take(j + 1).drop_last() =~= samples.take(j as int));
                assert(samples[j as int] == data@[j as int]@);
                assert forall|ssid: Seq<char>| #[trigger]
                    lookup(table@, ssid) == network_observations(seen, ssid) + observed_in(
                        samples.take(j + 1),
                        timestamp,
                        ssid,
                    ) by {
                    let _ = lookup(before, ssid);
                }
            }
            j += 1;
        }
        proof {
            assert(samples.take(j as int) =~= samples);
            assert(views[i as int] == snapshots@[i as int]@);
            assert(views.take(i + 1).drop_last() =~= seen);
        }
        i += 1;
    }
    assert(views.take(i as int) =~= views);
    table
}

/// Number of distinct SSIDs in the snapshots.
pub fn count_networks(snapshots: &Vec<ScanSnapshot>) -> (count: usize)
    ensures
        count == ssids_of(snapshot_views(snapshots@)).len(),
{
    let table: Vec<SsidHistory> = network_histories_from_snapshots(snapshots);
    proof {
        let views = snapshot_views(snapshots@);
        let names = table@.map_values(|entry: SsidHistory| entry.ssid@);
        lemma_names_distinct(table@);
        assert forall|ssid: Seq<char>| ssids_of(views).contains(ssid) <==> #[trigger]
            names.to_set().contains(ssid) by {
            law_ssids_are_observed(views, ssid);
            let _ = lookup(table@, ssid);
            if names.contains(ssid) {
                let a = choose|a: int| 0 <= a < names.len() && names[a] == ssid;
                lemma_lookup_at(table@, a);
            }
            if ssids_of(views).contains(ssid) {
                let a = choose|a: int| 0 <= a < table@.len() && (#[trigger] table@[a]).ssid@ == ssid;
                assert(names[a] == ssid);
            }
        }
        assert(names.to_set() =~= ssids_of(views));
        names.unique_seq_to_set();
    }
    table.len()
}

// Plot series.

/// The number of samples in the snapshots.
pub open spec fn sample_total(snapshots: Seq<SnapshotView>) -> nat
    decreases snapshots.len(),
{
    if snapshots.len() == 0 {
        0
    } else {
        sample_total(snapshots.drop_last()) + snapshots.last().data.len()
    }
}

/// The observations of a network that are drawn: all of them, or their averages in time
/// buckets once the snapshots hold more than [`MAX_RAW_PLOT_POINTS`] samples.
pub open spec fn drawn_observations(
    snapshots: Seq<SnapshotView>,
    ssid: Seq<char>,
) -> Seq<Observation> {
    if sample_total(snapshots) > MAX_RAW_PLOT_POINTS {
        binned(
            network_observations(snapshots, ssid),
            Duration { nanos: (PLOT_BIN_SECS * 1_000_000_000) as u128 },
        )
    } else {
        network_observations(snapshots, ssid)
    }
}

/// One series for each SSID in the snapshots, in the order of the SSIDs, each with the
/// points of its network at `now`.
pub open spec fn is_plot(
    series: Seq<SeriesView>,
    snapshots: Seq<SnapshotView>,
    now: Timestamp,
) -> bool {
    &&& forall|a: int, b: int|
        0 <= a < b < series.len() ==> text_before(
            (#[trigger] series[a]).ssid,
            (#[trigger] series[b]).ssid,
        )
    &&& forall|a: int|
        0 <= a < series.len() ==> ssids_of(snapshots).contains((#[trigger] series[a]).ssid)
            && series[a].points == plot_points(drawn_observations(snapshots, series[a].ssid), now)
    &&& forall|ssid: Seq<char>| #[trigger]
        ssids_of(snapshots).contains(ssid) ==> exists|a: int|
            0 <= a < series.len() && (#[trigger] series[a]).ssid == ssid
}

pub(crate) proof fn lemma_sample_total_grows(snapshots: Seq<SnapshotView>, upto: int)
    requires
        0 <= upto <= snapshots.len(),
    ensures
        sample_total(snapshots.take(upto)) <= sample_total(snapshots),
    decreases snapshots.len(),
{
    if upto == snapshots.len() {
        assert(snapshots.take(upto) =~= snapshots);
    } else {
        lemma_sample_total_grows(snapshots.drop_last(), upto);
        assert(snapshots.drop_last().take(upto) =~= snapshots.take(upto));
    }
}

/// Whether the snapshots hold too many samples to draw them all.
fn exceeds_plot_limit(snapshots: &Vec<ScanSnapshot>) -> (exceeds: bool)
    ensures
        exceeds == (sample_total(snapshot_views(snapshots@)) > MAX_RAW_PLOT_POINTS),
{
    let ghost views = snapshot_views(snapshots@);
    let mut total: usize = 0;
    let mut i: usize = 0;
    while i < snapshots.len()
        invariant
            i <= snapshots@.len(),
            views == snapshot_views(snapshots@),
            total == sample_total(views.take(i as int)),
            total <= MAX_RAW_PLOT_POINTS,
        decreases snapshots@.len() - i,
    {
        let count: usize = snapshots[i].data.len();
        proof {
            assert(views[i as int] == snapshots@[i as int]@);
            assert(views.take(i + 1).drop_last() =~= views.take(i as int));
            lemma_sample_total_grows(views, i + 1);
        }
        if count > MAX_RAW_PLOT_POINTS - total {
            return true;
        }
        total += count;
        i += 1;
    }
    assert(views.take(i as int) =~= views);
    false
}

/// Build plot series from snapshots, as of `now`.
pub fn plot_series_from_snapshots(snapshots: &Vec<ScanSnapshot>, now: Timestamp) -> (series: Vec<
    PlotSeries,
>)
    ensures
        is_plot(series_views(series@), snapshot_views(snapshots@), now),
{
    let ghost views = snapshot_views(snapshots@);
    let table: Vec<SsidHistory> = network_histories_from_snapshots(snapshots);
    let bin: bool = exceeds_plot_limit(snapshots);
    let mut series: Vec<PlotSeries> = Vec::new();
    let mut i: usize = 0;
    while i < table.len()
        invariant
            i <= table@.len(),
            is_history_table(table@, views),
            bin == (sample_total(views) > MAX_RAW_PLOT_POINTS),
            series@.len() == i,
            forall|a: int|
                0 <= a < i ==> (#[trigger] series@[a]).ssid@ == table@[a].ssid@
                    && series@[a].points@ == plot_points(
                    drawn_observations(views, table@[a].ssid@),
                    now,
                ),
        decreases table@.len() - i,
    {
        let entry: &SsidHistory = &table[i];
        let points: Vec<PlotPoint> = if bin {
            entry.history.bin_by_time(Duration::from_secs(PLOT_BIN_SECS)).to_plot_points(now)
        } else {
            entry.history.to_plot_points(now)
        };
        proof {
            lemma_lookup_at(table@, i as int);
        }
        series.push(PlotSeries { ssid: entry.ssid.clone(), points });
        i += 1;
    }
    proof {
        let shown = series_views(series@);
        assert forall|a: int| 0 <= a < shown.len() implies (#[trigger] shown[a]).ssid
            == table@[a].ssid@ && shown[a].points == plot_points(
            drawn_observations(views, shown[a].ssid),
            now,
        ) && ssids_of(views).contains(shown[a].ssid) by {
            assert(shown[a] == series@[a]@);
            lemma_lookup_at(table@, a);
            law_ssids_are_observed(views, table@[a].ssid@);
        }
        assert forall|ssid: Seq<char>| #[trigger] ssids_of(views).contains(ssid) implies exists|
            a: int,
        |
            0 <= a < shown.len() && (#[trigger] shown[a]).ssid == ssid by {
            law_ssids_are_observed(views, ssid);
            let _ = lookup(table@, ssid);
            let a = choose|a: int| 0 <= a < table@.len() && (#[trigger] table@[a]).ssid@ == ssid;
            assert(shown[a].ssid == ssid);
        }
    }
    series
}

// Laws of plot series.

/// The SSIDs ascend strictly.
spec fn ascending(ssids: Seq<Seq<char>>) -> bool {
    forall|a: int, b: int|
        0 <= a < b < ssids.len() ==> text_before(#[trigger] ssids[a], #[trigger] ssids[b])
}

proof fn lemma_last_is_greatest(left: Seq<Seq<char>>, right: Seq<Seq<char>>)
    requires
        ascending(left),
        left.len() > 0,
        right.len() > 0,
        right.contains(left.last()),
    ensures
        left.last() == right.last() || (ascending(right) ==> text_before(
            left.last(),
            right.last(),
        )),
{
    let k = choose|k: int| 0 <= k < right.len() && right[k] == left.last();
    if k < right.len() - 1 && ascending(right) {
        assert(text_before(right[k], right[right.len() - 1]));
    }
}

proof fn lemma_ascending_unique(left: Seq<Seq<char>>, right: Seq<Seq<char>>)
    requires
        ascending(left),
        ascending(right),
        forall|ssid: Seq<char>| #[trigger] left.contains(ssid) <==> right.contains(ssid),
    ensures
        left == right,
    decreases left.len(),
{
    if left.len() == 0 {
        if right.len() > 0 {
            assert(right.contains(right[0]));
            assert(left.contains(right[0]));
        }
        assert(left =~= right);
    } else {
        assert(left.contains(left.last()));
        assert(right.contains(left.last()));
        assert(right.contains(right.last()));
        assert(left.contains(right.last()));
        lemma_last_is_greatest(left, right);
        lemma_last_is_greatest(right, left);
        law_text_order_total(left.last(), right.last());
        let last = left.last();
        let l = left.drop_last();
        let r = right.drop_last();
        assert forall|a: int, b: int| 0 <= a < b < l.len() implies text_before(
            #[trigger] l[a],
            #[trigger] l[b],
        ) by {
            assert(text_before(left[a], left[b]));
        }
        assert forall|a: int, b: int| 0 <= a < b < r.len() implies text_before(
            #[trigger] r[a],
            #[trigger] r[b],
        ) by {
            assert(text_before(right[a], right[b]));
        }
        law_text_order_total(last, last);
        assert forall|ssid: Seq<char>| #[trigger] l.contains(ssid) <==> r.contains(ssid) by {
            if l.contains(ssid) {
                let k = choose|k: int| 0 <= k < l.len() && l[k] == ssid;
                assert(left[k] == ssid);
                assert(left.contains(ssid));
                assert(text_before(left[k], left[left.len() - 1]));
                let m = choose|m: int| 0 <= m < right.len() && right[m] == ssid;
                assert(r[m] == ssid);
            }
            if r.contains(ssid) {
                let k = choose|k: int| 0 <= k < r.len() && r[k] == ssid;
                assert(right[k] == ssid);
                assert(right.contains(ssid));
                assert(left.contains(ssid));
                assert(text_before(right[k], right[right.len() - 1]));
                let m = choose|m: int| 0 <= m < left.len() && left[m] == ssid;
                assert(l[m] == ssid);
            }
        }
        lemma_ascending_unique(l, r);
        assert(left =~= l.push(last));
        assert(right =~= r.push(last));
    }
}

/// The snapshots and the time determine the plot.
pub proof fn law_plot_is_determined(
    first: Seq<SeriesView>,
    second: Seq<SeriesView>,
    snapshots: Seq<SnapshotView>,
    now: Timestamp,
)
    requires
        is_plot(first, snapshots, now),
        is_plot(second, snapshots, now),
    ensures
        first == second,
{
    let left = first.map_values(|item: SeriesView| item.ssid);
    let right = second.map_values(|item: SeriesView| item.ssid);
    assert forall|ssid: Seq<char>| #[trigger] left.contains(ssid) <==> right.contains(ssid) by {
        if left.contains(ssid) {
            let a = choose|a: int| 0 <= a < left.len() && left[a] == ssid;
            assert(ssids_of(snapshots).contains(first[a].ssid));
            let b = choose|b: int| 0 <= b < second.len() && (#[trigger] second[b]).ssid == ssid;
            assert(right[b] == ssid);
        }
        if right.contains(ssid) {
            let a = choose|a: int| 0 <= a < right.len() && right[a] == ssid;
            assert(ssids_of(snapshots).contains(second[a].ssid));
            let b = choose|b: int| 0 <= b < first.len() && (#[trigger] first[b]).ssid == ssid;
            assert(left[b] == ssid);
        }
    }
    lemma_ascending_unique(left, right);
    assert forall|a: int| 0 <= a < first.len() implies first[a] == second[a] by {
        assert(left[a] == first[a].ssid);
        assert(right[a] == second[a].ssid);
    }
    assert(first =~= second);
}

proof fn lemma_observed_in_contains(data: Seq<SampleView>, timestamp: Timestamp, j: int)
    requires
        0 <= j < data.len(),
    ensures
        observed_in(data, timestamp, data[j].ssid).contains(
            (Observation { timestamp, signal_level: data[j].signal_level }),
        ),
    decreases data.len(),
{
    let ssid = data[j].ssid;
    let sought = Observation { timestamp, signal_level: data[j].signal_level };
    let earlier = observed_in(data.drop_last(), timestamp, ssid);
    let all = observed_in(data, timestamp, ssid);
    if j == data.len() - 1 {
        assert(all[all.len() - 1] == sought);
    } else {
        lemma_observed_in_contains(data.drop_last(), timestamp, j);
        let k = choose|k: int| 0 <= k < earlier.len() && earlier[k] == sought;
        assert(all[k] == sought);
    }
}

proof fn lemma_observations_contain(snapshots: Seq<SnapshotView>, i: int, j: int)
    requires
        0 <= i < snapshots.len(),
        0 <= j < snapshots[i].data.len(),
    ensures
        network_observations(snapshots, snapshots[i].data[j].ssid).contains(
            (Observation {
                timestamp: snapshots[i].timestamp,
                signal_level: snapshots[i].data[j].signal_level,
            }),
        ),
    decreases snapshots.len(),
{
    let ssid = snapshots[i].data[j].ssid;
    let sought = Observation {
        timestamp: snapshots[i].timestamp,
        signal_level: snapshots[i].data[j].signal_level,
    };
    let last = snapshots.last();
    let earlier = network_observations(snapshots.drop_last(), ssid);
    let added = observed_in(last.data, last.timestamp, ssid);
    let all = network_observations(snapshots, ssid);
    if i == snapshots.len() - 1 {
        lemma_observed_in_contains(last.data, last.timestamp, j);
        let k = choose|k: int| 0 <= k < added.len() && added[k] == sought;
        assert(all[earlier.len() + k] == sought);
    } else {
        lemma_observations_contain(snapshots.drop_last(), i, j);
        let k = choose|k: int| 0 <= k < earlier.len() && earlier[k] == sought;
        assert(all[k] == sought);
    }
}

proof fn lemma_plot_points_contain(observations: Seq<Observation>, now: Timestamp, k: int)
    requires
        0 <= k < observations.len(),
        observations[k].timestamp.nanos <= now.nanos,
    ensures
        plot_points(observations, now).contains(
            (PlotPoint {
                elapsed: Duration {
                    nanos: (now.nanos - observations[k].timestamp.nanos) as u128,
                },
                signal_level: observations[k].signal_level,
            }),
        ),
    decreases observations.len(),
{
    let sought = PlotPoint {
        elapsed: Duration { nanos: (now.nanos - observations[k].timestamp.nanos) as u128 },
        signal_level: observations[k].signal_level,
    };
    let earlier = plot_points(observations.drop_last(), now);
    let all = plot_points(observations, now);
    if k == observations.len() - 1 {
        assert(all[all.len() - 1] == sought);
    } else {
        lemma_plot_points_contain(observations.drop_last(), now, k);
        let m = choose|m: int| 0 <= m < earlier.len() && earlier[m] == sought;
        assert(all[m] == sought);
    }
}

/// As long as there are few enough samples to draw them all, each one that is not dated
/// later than `now` is a point of the series of its SSID.
pub proof fn law_every_sample_is_drawn(
    snapshots: Seq<SnapshotView>,
    now: Timestamp,
    i: int,
    j: int,
)
    requires
        sample_total(snapshots) <= MAX_RAW_PLOT_POINTS,
        0 <= i < snapshots.len(),
        0 <= j < snapshots[i].data.len(),
        snapshots[i].timestamp.nanos <= now.nanos,
    ensures
        plot_points(drawn_observations(snapshots, snapshots[i].data[j].ssid), now).contains(
            (PlotPoint {
                elapsed: Duration {
                    nanos: (now.nanos - snapshots[i].timestamp.nanos) as u128,
                },
                signal_level: snapshots[i].data[j].signal_level,
            }),
        ),
{
    let all = network_observations(snapshots, snapshots[i].data[j].ssid);
    lemma_observations_contain(snapshots, i, j);
    let k = choose|k: int|
        0 <= k < all.len() && all[k] == (Observation {
            timestamp: snapshots[i].timestamp,
            signal_level: snapshots[i].data[j].signal_level,
        });
    lemma_plot_points_contain(all, now, k);
}

/// How often samples are observed under the given SSIDs, all together.
spec fn data_total(names: Seq<Seq<char>>, data: Seq<SampleView>, timestamp: Timestamp) -> nat
    decreases names.len(),
{
    if names.len() == 0 {
        0
    } else {
        data_total(names.drop_last(), data, timestamp) + observed_in(
            data,
            timestamp,
            names.last(),
        ).len()
    }
}

/// How many observations there are under the given SSIDs, all together.
spec fn observed_total(names: Seq<Seq<char>>, snapshots: Seq<SnapshotView>) -> nat
    decreases names.len(),
{
    if names.len() == 0 {
        0
    } else {
        observed_total(names.drop_last(), snapshots) + network_observations(
            snapshots,
            names.last(),
        ).len()
    }
}

proof fn lemma_data_total_step(
    names: Seq<Seq<char>>,
    data: Seq<SampleView>,
    timestamp: Timestamp,
)
    requires
        names.no_duplicates(),
        data.len() > 0,
    ensures
        data_total(names, data, timestamp) == data_total(names, data.drop_last(), timestamp) + if names.contains(
            data.last().ssid,
        ) {
            1nat
        } else {
            0nat
        },
    decreases names.len(),
{
    if names.len() > 0 {
        let earlier = names.drop_last();
        let ssid = data.last().ssid;
        lemma_data_total_step(earlier, data, timestamp);
        if names.last() == ssid {
            assert(names[names.len() - 1] == ssid);
            if earlier.contains(ssid) {
                let k = choose|k: int| 0 <= k < earlier.len() && earlier[k] == ssid;
                assert(names[k] == names[names.len() - 1]);
            }
        } else if names.contains(ssid) {
            let k = choose|k: int| 0 <= k < names.len() && names[k] == ssid;
            assert(earlier[k] == ssid);
        } else if earlier.contains(ssid) {
            let k = choose|k: int| 0 <= k < earlier.len() && earlier[k] == ssid;
            assert(names[k] == ssid);
        }
    }
}

proof fn lemma_data_total(names: Seq<Seq<char>>, data: Seq<SampleView>, timestamp: Timestamp)
    requires
        names.no_duplicates(),
        forall|j: int| 0 <= j < data.len() ==> names.contains((#[trigger] data[j]).ssid),
    ensures
        data_total(names, data, timestamp) == data.len(),
    decreases data.len(),
{
    if data.len() > 0 {
        let earlier = data.drop_last();
        assert forall|j: int| 0 <= j < earlier.len() implies names.contains(
            (#[trigger] earlier[j]).ssid,
        ) by {
            assert(earlier[j] == data[j]);
        }
        lemma_data_total(names, earlier, timestamp);
        lemma_data_total_step(names, data, timestamp);
        assert(names.contains(data[data.len() - 1].ssid));
    } else {
        lemma_data_total_of_nothing(names, data, timestamp);
    }
}

proof fn lemma_data_total_of_nothing(
    names: Seq<Seq<char>>,
    data: Seq<SampleView>,
    timestamp: Timestamp,
)
    requires
        data.len() == 0,
    ensures
        data_total(names, data, timestamp) == 0,
    decreases names.len(),
{
    if names.len() > 0 {
        lemma_data_total_of_nothing(names.drop_last(), data, timestamp);
    }
}

proof fn lemma_observed_total_step(names: Seq<Seq<char>>, snapshots: Seq<SnapshotView>)
    ensures
        snapshots.len() == 0 ==> observed_total(names, snapshots) == 0,
        snapshots.len() > 0 ==> observed_total(names, snapshots) == observed_total(
            names,
            snapshots.drop_last(),
        ) + data_total(names, snapshots.last().data, snapshots.last().timestamp),
    decreases names.len(),
{
    if names.len() > 0 {
        lemma_observed_total_step(names.drop_last(), snapshots);
    }
}

proof fn lemma_observed_total(names: Seq<Seq<char>>, snapshots: Seq<SnapshotView>)
    requires
        names.no_duplicates(),
        forall|i: int, j: int|
            0 <= i < snapshots.len() && 0 <= j < snapshots[i].data.len() ==> names.contains(
                (#[trigger] snapshots[i].data[j]).ssid,
            ),
    ensures
        observed_total(names, snapshots) == sample_total(snapshots),
    decreases snapshots.len(),
{
    lemma_observed_total_step(names, snapshots);
    if snapshots.len() > 0 {
        let earlier = snapshots.drop_last();
        let last = snapshots.last();
        assert forall|i: int, j: int|
            0 <= i < earlier.len() && 0 <= j < earlier[i].data.len() implies names.contains(
            (#[trigger] earlier[i].data[j]).ssid,
        ) by {
            assert(earlier[i].data[j] == snapshots[i].data[j]);
        }
        assert forall|j: int| 0 <= j < last.data.len() implies names.contains(
            (#[trigger] last.data[j]).ssid,
        ) by {
            assert(last.data[j] == snapshots[snapshots.len() - 1].data[j]);
        }
        lemma_observed_total(names, earlier);
        lemma_data_total(names, last.data, last.timestamp);
    }
}

/// The number of observations in a table of histories.
pub open spec fn history_total(table: Seq<SsidHistory>) -> nat
    decreases table.len(),
{
    if table.len() == 0 {
        0
    } else {
        history_total(table.drop_last()) + table.last().history@.len()
    }
}

proof fn lemma_history_total(
    table: Seq<SsidHistory>,
    snapshots: Seq<SnapshotView>,
    names: Seq<Seq<char>>,
)
    requires
        names.len() == table.len(),
        forall|a: int|
            0 <= a < table.len() ==> (#[trigger] table[a]).history@ == network_observations(
                snapshots,
                names[a],
            ),
    ensures
        history_total(table) == observed_total(names, snapshots),
    decreases table.len(),
{
    if table.len() > 0 {
        lemma_history_total(table.drop_last(), snapshots, names.drop_last());
    }
}

/// Regrouping loses no sample and counts none twice: the histories hold as many
/// observations as the snapshots hold samples.
pub proof fn law_histories_hold_every_sample(
    table: Seq<SsidHistory>,
    snapshots: Seq<SnapshotView>,
)
    requires
        is_history_table(table, snapshots),
    ensures
        history_total(table) == sample_total(snapshots),
{
    let names = table.map_values(|entry: SsidHistory| entry.ssid@);
    lemma_names_distinct(table);
    assert forall|a: int| 0 <= a < table.len() implies (#[trigger] table[a]).history@
        == network_observations(snapshots, names[a]) by {
        lemma_lookup_at(table, a);
    }
    assert forall|i: int, j: int|
        0 <= i < snapshots.len() && 0 <= j < snapshots[i].data.len() implies names.contains(
        (#[trigger] snapshots[i].data[j]).ssid,
    ) by {
        let ssid = snapshots[i].data[j].ssid;
        law_ssids_are_observed(snapshots, ssid);
        assert(lookup(table, ssid).len() > 0);
        let a = choose|a: int| 0 <= a < table.len() && (#[trigger] table[a]).ssid@ == ssid;
        assert(names[a] == ssid);
    }
    lemma_history_total(table, snapshots, names);
    lemma_observed_total(names, snapshots);
}

/// A series is seen with its SSID and its points, and a sequence of series with all of them
/// in order.
pub proof fn law_series_views_hold_every_field(item: PlotSeries, series: Seq<PlotSeries>)
    ensures
        item@.ssid == item.ssid@,
        item@.points == item.points@,
        series_views(series).len() == series.len(),
        forall|k: int| 0 <= k < series.len() ==> #[trigger] series_views(series)[k] == series[k]@,
{
}

/// The number of samples in two runs of snapshots is that in the first and that in the
/// second together; that in one snapshot is the number of its samples.
pub proof fn law_sample_total_adds_up(
    earlier: Seq<SnapshotView>,
    later: Seq<SnapshotView>,
    snapshot: SnapshotView,
)
    ensures
        sample_total(earlier + later) == sample_total(earlier) + sample_total(later),
        sample_total(seq![snapshot]) == snapshot.data.len(),
        sample_total(Seq::empty()) == 0,
    decreases later.len(),
{
    assert(seq![snapshot].drop_last() =~= Seq::empty());
    assert(sample_total(Seq::empty()) == 0);
    if later.len() == 0 {
        assert(earlier + later =~= earlier);
    } else {
        law_sample_total_adds_up(earlier, later.drop_last(), snapshot);
        assert((earlier + later).drop_last() =~= earlier + later.drop_last());
        assert((earlier + later).last() == later.last());
    }
}

/// A table of histories stands in the order of the SSIDs. An entry holds all observations of
/// its network, at least one; all entries together hold as many as there are samples.
pub proof fn law_history_table_holds_networks(
    table: Seq<SsidHistory>,
    snapshots: Seq<SnapshotView>,
)
    requires
        is_history_table(table, snapshots),
    ensures
        forall|a: int, b: int|
            0 <= a < b < table.len() ==> text_before(
                (#[trigger] table[a]).ssid@,
                (#[trigger] table[b]).ssid@,
            ),
        forall|a: int|
            0 <= a < table.len() ==> (#[trigger] table[a]).history@ == network_observations(
                snapshots,
                table[a].ssid@,
            ) && table[a].history@.len() > 0,
        table.fold_left(0int, |count: int, entry: SsidHistory| count + entry.history@.len())
            == sample_total(snapshots),
{
    assert forall|a: int| 0 <= a < table.len() implies (#[trigger] table[a]).history@
        == network_observations(snapshots, table[a].ssid@) && table[a].history@.len() > 0 by {
        lemma_lookup_at(table, a);
    }
    law_histories_hold_every_sample(table, snapshots);
    lemma_history_total_folds(table);
}

/// The SSID of each sample has an entry in the table.
pub proof fn law_every_network_has_a_history(
    table: Seq<SsidHistory>,
    snapshots: Seq<SnapshotView>,
    i: int,
    j: int,
)
    requires
        is_history_table(table, snapshots),
        0 <= i < snapshots.len(),
        0 <= j < snapshots[i].data.len(),
    ensures
        exists|a: int|
            0 <= a < table.len() && (#[trigger] table[a]).ssid@ == snapshots[i].data[j].ssid,
{
    let ssid = snapshots[i].data[j].ssid;
    law_ssids_are_observed(snapshots, ssid);
    assert(lookup(table, ssid).len() > 0);
}

proof fn lemma_history_total_folds(table: Seq<SsidHistory>)
    ensures
        table.fold_left(0int, |count: int, entry: SsidHistory| count + entry.history@.len())
            == history_total(table),
    decreases table.len(),
{
    if table.len() > 0 {
        lemma_history_total_folds(table.drop_last());
    }
}

/// A plot stands in the order of the SSIDs. A series holds the points of all observations of
/// its network or, where there are more than 500 samples, of their bins of one second.
pub proof fn law_plot_shows_observations(
    series: Seq<SeriesView>,
    snapshots: Seq<SnapshotView>,
    now: Timestamp,
)
    requires
        is_plot(series, snapshots, now),
    ensures
        forall|a: int, b: int|
            0 <= a < b < series.len() ==> text_before(
                (#[trigger] series[a]).ssid,
                (#[trigger] series[b]).ssid,
            ),
        sample_total(snapshots) <= 500 ==> forall|a: int|
            0 <= a < series.len() ==> (#[trigger] series[a]).points == plot_points(
                network_observations(snapshots, series[a].ssid),
                now,
            ),
        sample_total(snapshots) > 500 ==> forall|a: int|
            0 <= a < series.len() ==> (#[trigger] series[a]).points == plot_points(
                binned(
                    network_observations(snapshots, series[a].ssid),
                    Duration { nanos: 1_000_000_000 },
                ),
                now,
            ),
{
}

/// The SSID of each series in a plot is that of some sample.
pub proof fn law_plotted_networks_were_seen(
    series: Seq<SeriesView>,
    snapshots: Seq<SnapshotView>,
    now: Timestamp,
    a: int,
)
    requires
        is_plot(series, snapshots, now),
        0 <= a < series.len(),
    ensures
        exists|i: int, j: int|
            0 <= i < snapshots.len() && 0 <= j < snapshots[i].data.len() && (
            #[trigger] snapshots[i].data[j]).ssid == series[a].ssid,
{
    law_ssids_are_observed(snapshots, series[a].ssid);
}

/// The SSID of each sample has a series in the plot.
pub proof fn law_seen_networks_are_plotted(
    series: Seq<SeriesView>,
    snapshots: Seq<SnapshotView>,
    now: Timestamp,
    i: int,
    j: int,
)
    requires
        is_plot(series, snapshots, now),
        0 <= i < snapshots.len(),
        0 <= j < snapshots[i].data.len(),
    ensures
        exists|a: int|
            0 <= a < series.len() && (#[trigger] series[a]).ssid == snapshots[i].data[j].ssid,
{
    law_ssids_are_observed(snapshots, snapshots[i].data[j].ssid);
}

} // verus!
