//! The live window of snapshots and what can be read from it.

use vstd::prelude::*;
#[allow(unused_imports)]
use vstd::string::*;

use crate::channel::{are_channel_averages, average_by_channel, ChannelAverage};
use crate::csv::{csv_document, document, string_views};
use crate::sample::{
    deduplicate_samples, deduplicated, keys_distinct, sample_views, snapshot_views, SampleView,
    ScanSnapshot, SnapshotView, WifiSample,
};
use crate::series::{
    count_networks, is_plot, lemma_sample_total_grows, plot_series_from_snapshots, sample_total,
    series_views, ssids_of, PlotSeries,
};
use crate::time::{at_most_after, Duration, Timestamp};

verus! {

/// How long live scan samples are retained, in seconds.
pub const DEFAULT_MAX_HISTORY_SECS: u64 = 300;

/// Default delay between worker scan attempts, in milliseconds.
pub const DEFAULT_SCAN_INTERVAL_MILLIS: u64 = 100;

/// Accumulates Wi-Fi snapshots and provides analysis-friendly projections.
#[derive(Debug)]
pub struct Scanner {
    max_history_age: Duration,
    snapshots: Vec<ScanSnapshot>,
}

/// Best candidate in the latest live snapshot.
#[derive(Debug)]
pub struct BestSignal {
    /// SSID with the strongest RSSI.
    pub ssid: String,
    /// Strongest RSSI in dBm.
    pub signal_level: i32,
}

/// A [`Scanner`] with its snapshots as [`SnapshotView`]s.
pub struct ScannerView {
    pub max_history_age: Duration,
    pub snapshots: Seq<SnapshotView>,
}

impl View for Scanner {
    type V = ScannerView;

    closed spec fn view(&self) -> ScannerView {
        ScannerView {
            max_history_age: self.max_history_age,
            snapshots: snapshot_views(self.snapshots@),
        }
    }
}

impl ScannerView {
    /// No snapshot holds two samples of the same access point.
    pub open spec fn well_formed(self) -> bool {
        forall|i: int|
            0 <= i < self.snapshots.len() ==> keys_distinct((#[trigger] self.snapshots[i]).data)
    }

    /// The samples of the latest snapshot; none if there is no snapshot.
    pub open spec fn latest_data(self) -> Seq<SampleView> {
        if self.snapshots.len() == 0 {
            Seq::empty()
        } else {
            self.snapshots.last().data
        }
    }
}

// Retention.

/// The snapshot is at most `age` old at `now`.
pub open spec fn is_live(snapshot: SnapshotView, now: Timestamp, age: Duration) -> bool {
    at_most_after(now, snapshot.timestamp, age)
}

/// The snapshots that are live at `now`, in their order.
pub open spec fn retained(
    snapshots: Seq<SnapshotView>,
    now: Timestamp,
    age: Duration,
) -> Seq<SnapshotView>
    decreases snapshots.len(),
{
    if snapshots.len() == 0 {
        Seq::empty()
    } else {
        let earlier = retained(snapshots.drop_last(), now, age);
        if is_live(snapshots.last(), now, age) {
            earlier.push(snapshots.last())
        } else {
            earlier
        }
    }
}

/// A snapshot with its duplicates removed.
pub open spec fn without_duplicates(snapshot: SnapshotView) -> SnapshotView {
    SnapshotView { timestamp: snapshot.timestamp, data: deduplicated(snapshot.data) }
}

/// The scanner after it took in a snapshot at `now`.
pub open spec fn ingested(
    scanner: ScannerView,
    snapshot: SnapshotView,
    now: Timestamp,
) -> ScannerView {
    let added = without_duplicates(snapshot);
    ScannerView {
        max_history_age: scanner.max_history_age,
        snapshots: retained(scanner.snapshots.push(added), now, scanner.max_history_age),
    }
}

/// The scanner after it dropped the snapshots that have expired at `now`.
pub open spec fn cut_off(scanner: ScannerView, now: Timestamp) -> ScannerView {
    ScannerView {
        max_history_age: scanner.max_history_age,
        snapshots: retained(scanner.snapshots, now, scanner.max_history_age),
    }
}

/// A scanner that has taken in nothing yet.
pub open spec fn default_scanner() -> ScannerView {
    ScannerView {
        max_history_age: Duration { nanos: (DEFAULT_MAX_HISTORY_SECS * 1_000_000_000) as u128 },
        snapshots: Seq::empty(),
    }
}

impl Default for Scanner {
    fn default() -> (scanner: Scanner)
        ensures
            scanner@ == default_scanner(),
            scanner@.well_formed(),
    {
        let scanner = Scanner {
            max_history_age: Duration::from_secs(DEFAULT_MAX_HISTORY_SECS),
            snapshots: Vec::new(),
        };
        assert(scanner@.snapshots =~= Seq::<SnapshotView>::empty());
        scanner
    }
}

impl Scanner {
    /// Insert a snapshot, deduplicating AP observations by BSSID first.
    ///
    /// When the backend reports duplicate AP records, only the strongest sample for each
    /// BSSID is kept. If a platform does not expose BSSID, SSID is used as a fallback key.
    pub fn ingest_snapshot(&mut self, snapshot: ScanSnapshot)
        ensures
            exists|now: Timestamp| final(self)@ == #[trigger] ingested(old(self)@, snapshot@, now),
            old(self)@.well_formed() ==> final(self)@.well_formed(),
    {
        let now: Timestamp = Timestamp::now();
        self.ingest_snapshot_at(snapshot, now);
    }

    /// Insert a snapshot at `now`; see [`Scanner::ingest_snapshot`].
    pub fn ingest_snapshot_at(&mut self, snapshot: ScanSnapshot, now: Timestamp)
        ensures
            final(self)@ == ingested(old(self)@, snapshot@, now),
            old(self)@.well_formed() ==> final(self)@.well_formed(),
    {
        let ghost before = self@;
        let ghost given = snapshot@;
        let data: Vec<WifiSample> = deduplicate_samples(snapshot.data);
        let added = ScanSnapshot { timestamp: snapshot.timestamp, data };
        let ghost old_snapshots = self.snapshots@;
        self.snapshots.push(added);
        assert(snapshot_views(self.snapshots@) =~= snapshot_views(old_snapshots).push(added@));
        self.cutoff_expired_snapshots_at(now);
        proof {
            if before.well_formed() {
                law_ingestion_keeps_well_formed(before, given, now);
            }
        }
    }

    /// Drop the snapshots that are older than the retention window.
    pub fn cutoff_expired_snapshots(&mut self)
        ensures
            exists|now: Timestamp| final(self)@ == #[trigger] cut_off(old(self)@, now),
            old(self)@.well_formed() ==> final(self)@.well_formed(),
    {
        let now: Timestamp = Timestamp::now();
        self.cutoff_expired_snapshots_at(now);
    }

    /// Drop the snapshots that at `now` are older than the retention window.
    pub fn cutoff_expired_snapshots_at(&mut self, now: Timestamp)
        ensures
            final(self)@ == cut_off(old(self)@, now),
            old(self)@.well_formed() ==> final(self)@.well_formed(),
    {
        let ghost before = self@;
        let age: Duration = self.max_history_age;
        let mut all: Vec<ScanSnapshot> = Vec::new();
        std::mem::swap(&mut all, &mut self.snapshots);
        let ghost given = all@;
        let ghost views = snapshot_views(given);
        let mut kept: Vec<ScanSnapshot> = Vec::new();
        assert(snapshot_views(kept@) =~= retained(views.take(0), now, age));
        for snapshot in it: all
            invariant
                it.seq() == given,
                views == snapshot_views(given),
                snapshot_views(kept@) == retained(views.take(it.index() as int), now, age),
        {
            let ghost i = it.index() as int;
            let ghost before = kept@;
            assert(snapshot@ == views[i]);
            assert(views.take(i + 1).drop_last() =~= views.take(i));
            if now.is_at_most_after(snapshot.timestamp, age) {
                kept.push(snapshot);
                assert(snapshot_views(kept@) =~= snapshot_views(before).push(views[i]));
            }
        }
        assert(views.take(given.len() as int) =~= views);
        self.snapshots = kept;
        proof {
            if before.well_formed() {
                lemma_cut_off_keeps_well_formed(before, now);
            }
        }
    }

    /// Build plot series from the live scan window, as of the current time.
    pub fn plot_series(&self) -> (series: Vec<PlotSeries>)
        ensures
            exists|now: Timestamp| #[trigger]
                is_plot(series_views(series@), self@.snapshots, now),
    {
        let now: Timestamp = Timestamp::now();
        self.plot_series_at(now)
    }

    /// Build plot series from the live scan window, as of `now`.
    pub fn plot_series_at(&self, now: Timestamp) -> (series: Vec<PlotSeries>)
        ensures
            is_plot(series_views(series@), self@.snapshots, now),
    {
        plot_series_from_snapshots(&self.snapshots, now)
    }

    /// Average RSSI by channel for the latest live snapshot.
    pub fn channel_averages(&self) -> (averages: Vec<ChannelAverage>)
        ensures
            are_channel_averages(averages@, self@.latest_data()),
    {
        let count: usize = self.snapshots.len();
        if count == 0 {
            return Vec::new();
        }
        average_by_channel(&self.snapshots[count - 1].data)
    }

    /// Strongest network observed in the latest live snapshot; of equally strong ones the
    /// last.
    pub fn best_signal(&self) -> (best: Option<BestSignal>)
        ensures
            best is None <==> self@.latest_data().len() == 0,
            best matches Some(found) ==> exists|i: int| #[trigger]
                is_last_strongest(self@.latest_data(), i) && found.ssid@
                    == self@.latest_data()[i].ssid && found.signal_level
                    == self@.latest_data()[i].signal_level,
            best matches Some(found) ==> exists|i: int|
                {
                    let data = self@.latest_data();
                    &&& 0 <= i < data.len()
                    &&& (#[trigger] self@.latest_data()[i]).ssid == found.ssid@
                    &&& data[i].signal_level == found.signal_level
                    &&& forall|k: int|
                        0 <= k < data.len() ==> (#[trigger] data[k]).signal_level
                            <= found.signal_level
                    &&& forall|k: int|
                        i < k < data.len() ==> (#[trigger] data[k]).signal_level
                            < found.signal_level
                },
    {
        let count: usize = self.snapshots.len();
        if count == 0 {
            return None;
        }
        let data: &Vec<WifiSample> = &self.snapshots[count - 1].data;
        let ghost views = self@.latest_data();
        assert(views == sample_views(data@));
        if data.len() == 0 {
            return None;
        }
        let mut best: usize = 0;
        let mut i: usize = 1;
        while i < data.len()
            invariant
                best < i <= data@.len(),
                forall|k: int|
                    0 <= k < i ==> (#[trigger] data@[k]).signal_level
                        <= data@[best as int].signal_level,
                forall|k: int|
                    best < k < i ==> (#[trigger] data@[k]).signal_level
                        < data@[best as int].signal_level,
            decreases data@.len() - i,
        {
            if data[i].signal_level >= data[best].signal_level {
                best = i;
            }
            i += 1;
        }
        proof {
            assert forall|k: int| 0 <= k < views.len() implies #[trigger] views[k] == data@[k]@ by {}
            assert(is_last_strongest(views, best as int));
            assert(views[best as int].signal_level == data@[best as int].signal_level);
        }
        let found = BestSignal {
            ssid: data[best].ssid.clone(),
            signal_level: data[best].signal_level,
        };
        assert(self@.latest_data()[best as int].ssid == found.ssid@);
        Some(found)
    }

    /// Approximate retained live sample storage.
    pub fn estimated_memory_kb(&self) -> (kb: usize)
        requires
            memory_is_countable(self@),
        ensures
            kb == memory_bytes(self@) / 1024,
            kb == (sample_total(self@.snapshots) * vstd::layout::size_of::<WifiSample>()) / 1024,
    {
        sample_count(&self.snapshots) * core::mem::size_of::<WifiSample>() / 1024
    }

    /// Approximate retained live sample storage; `None` if it is too large to count in
    /// bytes.
    pub fn checked_memory_kb(&self) -> (kb: Option<usize>)
        ensures
            kb is Some <==> memory_is_countable(self@),
            kb is Some <==> sample_total(self@.snapshots) <= usize::MAX && sample_total(
                self@.snapshots,
            ) * vstd::layout::size_of::<WifiSample>() <= usize::MAX,
            kb matches Some(count) ==> count == memory_bytes(self@) / 1024,
            kb matches Some(count) ==> count == (sample_total(self@.snapshots)
                * vstd::layout::size_of::<WifiSample>()) / 1024,
    {
        let ghost views = self@.snapshots;
        let mut total: usize = 0;
        let mut i: usize = 0;
        while i < self.snapshots.len()
            invariant
                i <= self.snapshots@.len(),
                views == snapshot_views(self.snapshots@),
                views == self@.snapshots,
                total == sample_total(views.take(i as int)),
            decreases self.snapshots@.len() - i,
        {
            proof {
                assert(views[i as int] == self.snapshots@[i as int]@);
                assert(views.take(i + 1).drop_last() =~= views.take(i as int));
                lemma_sample_total_grows(views, i + 1);
            }
            match total.checked_add(self.snapshots[i].data.len()) {
                Some(sum) => {
                    total = sum;
                },
                None => {
                    return None;
                },
            }
            i += 1;
        }
        assert(views.take(i as int) =~= views);
        if total.checked_mul(core::mem::size_of::<WifiSample>()).is_none() {
            return None;
        }
        Some(self.estimated_memory_kb())
    }

    /// Number of distinct SSIDs in the live history window.
    pub fn networks_count(&self) -> (count: usize)
        ensures
            count == ssids_of(self@.snapshots).len(),
    {
        count_networks(&self.snapshots)
    }

    /// The time from the Unix epoch to each live snapshot; none at all for a snapshot
    /// dated before it.
    pub fn export_times(&self) -> (times: Vec<Duration>)
        ensures
            times@.len() == self@.snapshots.len(),
            forall|i: int|
                0 <= i < times@.len() ==> (#[trigger] times@[i]).nanos == if self@.snapshots[i].timestamp.nanos
                    > 0 {
                    self@.snapshots[i].timestamp.nanos as int
                } else {
                    0
                },
    {
        let mut times: Vec<Duration> = Vec::new();
        let mut i: usize = 0;
        while i < self.snapshots.len()
            invariant
                i <= self.snapshots@.len(),
                times@.len() == i,
                forall|k: int|
                    0 <= k < i ==> (#[trigger] times@[k]).nanos == if self.snapshots@[k].timestamp.nanos
                        > 0 {
                        self.snapshots@[k].timestamp.nanos as int
                    } else {
                        0
                    },
            decreases self.snapshots@.len() - i,
        {
            times.push(self.snapshots[i].timestamp.since_epoch());
            i += 1;
        }
        times
    }

    /// Export live snapshots as CSV. `stamps` holds, for each snapshot, the text of its
    /// timestamp.
    pub fn export_to_csv(&self, stamps: &Vec<String>) -> (text: String)
        requires
            stamps@.len() == self@.snapshots.len(),
        ensures
            text@ == document(string_views(stamps@), self@.snapshots),
    {
        csv_document(stamps, &self.snapshots)
    }

    /// Number of live snapshots currently retained.
    pub fn snapshots_count(&self) -> (count: usize)
        ensures
            count == self@.snapshots.len(),
    {
        self.snapshots.len()
    }

    /// Current live retention window.
    pub fn max_history_age(&self) -> (age: Duration)
        ensures
            age == self@.max_history_age,
    {
        self.max_history_age
    }
}

// Readings.

/// The sample at `position` is the strongest, and the last of the equally strong ones.
pub open spec fn is_last_strongest(data: Seq<SampleView>, position: int) -> bool {
    &&& 0 <= position < data.len()
    &&& forall|k: int|
        0 <= k < data.len() ==> (#[trigger] data[k]).signal_level <= data[position].signal_level
    &&& forall|k: int|
        position < k < data.len() ==> (#[trigger] data[k]).signal_level
            < data[position].signal_level
}

/// The size in bytes of the retained samples, without the texts that they point to.
pub open spec fn memory_bytes(scanner: ScannerView) -> nat {
    sample_total(scanner.snapshots) * vstd::layout::size_of::<WifiSample>()
}

/// The number of samples and their size in bytes fit in `usize`.
pub open spec fn memory_is_countable(scanner: ScannerView) -> bool {
    sample_total(scanner.snapshots) <= usize::MAX && memory_bytes(scanner) <= usize::MAX
}

/// The number of samples in the snapshots.
pub fn sample_count(snapshots: &Vec<ScanSnapshot>) -> (count: usize)
    requires
        sample_total(snapshot_views(snapshots@)) <= usize::MAX,
    ensures
        count == sample_total(snapshot_views(snapshots@)),
{
    let ghost views = snapshot_views(snapshots@);
    let mut total: usize = 0;
    let mut i: usize = 0;
    while i < snapshots.len()
        invariant
            i <= snapshots@.len(),
            views == snapshot_views(snapshots@),
            sample_total(views) <= usize::MAX,
            total == sample_total(views.take(i as int)),
        decreases snapshots@.len() - i,
    {
        proof {
            assert(views[i as int] == snapshots@[i as int]@);
            assert(views.take(i + 1).drop_last() =~= views.take(i as int));
            lemma_sample_total_grows(views, i + 1);
        }
        total += snapshots[i].data.len();
        i += 1;
    }
    assert(views.take(i as int) =~= views);
    total
}

// Laws of retention.

proof fn lemma_retained(snapshots: Seq<SnapshotView>, now: Timestamp, age: Duration)
    ensures
        forall|s: SnapshotView| #[trigger]
            retained(snapshots, now, age).contains(s) <==> snapshots.contains(s) && is_live(
                s,
                now,
                age,
            ),
    decreases snapshots.len(),
{
    if snapshots.len() > 0 {
        let earlier = snapshots.drop_last();
        let kept = retained(earlier, now, age);
        let all = retained(snapshots, now, age);
        lemma_retained(earlier, now, age);
        assert forall|s: SnapshotView| #[trigger]
            all.contains(s) <==> snapshots.contains(s) && is_live(s, now, age) by {
            if snapshots.contains(s) && is_live(s, now, age) {
                let i = choose|i: int| 0 <= i < snapshots.len() && snapshots[i] == s;
                if i < earlier.len() {
                    assert(earlier[i] == s);
                    assert(kept.contains(s));
                    let k = choose|k: int| 0 <= k < kept.len() && kept[k] == s;
                    assert(all[k] == s);
                } else {
                    assert(all[all.len() - 1] == s);
                }
            }
            if all.contains(s) {
                let k = choose|k: int| 0 <= k < all.len() && all[k] == s;
                if k < kept.len() {
                    assert(kept[k] == s);
                    assert(kept.contains(s));
                    let i = choose|i: int| 0 <= i < earlier.len() && earlier[i] == s;
                    assert(snapshots[i] == s);
                } else {
                    assert(snapshots[snapshots.len() - 1] == s);
                }
            }
        }
    }
}

/// Retention keeps exactly the live snapshots.
pub proof fn law_retained_exactly_live(
    snapshots: Seq<SnapshotView>,
    now: Timestamp,
    age: Duration,
    snapshot: SnapshotView,
)
    ensures
        retained(snapshots, now, age).contains(snapshot) <==> snapshots.contains(snapshot)
            && is_live(snapshot, now, age),
{
    lemma_retained(snapshots, now, age);
}

/// What has expired stays expired: cutting off at one time and again at a later one is
/// the same as cutting off at the later one alone.
pub proof fn law_retention_monotone(
    snapshots: Seq<SnapshotView>,
    first: Timestamp,
    second: Timestamp,
    age: Duration,
)
    requires
        first.nanos <= second.nanos,
    ensures
        retained(retained(snapshots, first, age), second, age) == retained(snapshots, second, age),
    decreases snapshots.len(),
{
    if snapshots.len() > 0 {
        let earlier = snapshots.drop_last();
        law_retention_monotone(earlier, first, second, age);
        if is_live(snapshots.last(), first, age) {
            assert(retained(snapshots, first, age).drop_last() =~= retained(earlier, first, age));
        }
    }
}

proof fn lemma_cut_off_keeps_well_formed(scanner: ScannerView, now: Timestamp)
    requires
        scanner.well_formed(),
    ensures
        cut_off(scanner, now).well_formed(),
{
    let cut = cut_off(scanner, now);
    lemma_retained(scanner.snapshots, now, scanner.max_history_age);
    assert forall|i: int| 0 <= i < cut.snapshots.len() implies keys_distinct(
        (#[trigger] cut.snapshots[i]).data,
    ) by {
        assert(cut.snapshots.contains(cut.snapshots[i]));
        let k = choose|k: int|
            0 <= k < scanner.snapshots.len() && scanner.snapshots[k] == cut.snapshots[i];
        assert(keys_distinct(scanner.snapshots[k].data));
    }
}

/// Ingestion and expiry never break the rule that a snapshot holds each access point
/// once.
pub proof fn law_ingestion_keeps_well_formed(
    scanner: ScannerView,
    snapshot: SnapshotView,
    now: Timestamp,
)
    requires
        scanner.well_formed(),
    ensures
        ingested(scanner, snapshot, now).well_formed(),
        cut_off(scanner, now).well_formed(),
{
    let added = without_duplicates(snapshot);
    let extended = ScannerView {
        max_history_age: scanner.max_history_age,
        snapshots: scanner.snapshots.push(added),
    };
    crate::sample::law_deduplication_idempotent(snapshot.data);
    assert forall|i: int| 0 <= i < extended.snapshots.len() implies keys_distinct(
        (#[trigger] extended.snapshots[i]).data,
    ) by {
        if i < scanner.snapshots.len() {
            assert(keys_distinct(scanner.snapshots[i].data));
        }
    }
    lemma_cut_off_keeps_well_formed(extended, now);
    lemma_cut_off_keeps_well_formed(scanner, now);
}

/// After ingestion the window holds exactly the live ones among the snapshots that were
/// there and the one that came in.
pub proof fn law_window_after_ingestion(
    scanner: ScannerView,
    snapshot: SnapshotView,
    now: Timestamp,
    held: SnapshotView,
)
    ensures
        ingested(scanner, snapshot, now).snapshots.contains(held) <==> is_live(
            held,
            now,
            scanner.max_history_age,
        ) && (scanner.snapshots.contains(held) || held == without_duplicates(snapshot)),
{
    let added = without_duplicates(snapshot);
    let all = scanner.snapshots.push(added);
    lemma_retained(all, now, scanner.max_history_age);
    assert(all.contains(held) <==> scanner.snapshots.contains(held) || held == added) by {
        assert(all[all.len() - 1] == added);
        if scanner.snapshots.contains(held) {
            let k = choose|k: int| 0 <= k < scanner.snapshots.len() && scanner.snapshots[k] == held;
            assert(all[k] == held);
        }
    }
}

/// A snapshot that is live when it comes in is the latest one from then on, with its
/// duplicates removed; one that has expired already leaves no trace.
pub proof fn law_ingested_is_latest(scanner: ScannerView, snapshot: SnapshotView, now: Timestamp)
    ensures
        is_live(snapshot, now, scanner.max_history_age) ==> ingested(
            scanner,
            snapshot,
            now,
        ).latest_data() == deduplicated(snapshot.data),
        !is_live(snapshot, now, scanner.max_history_age) ==> ingested(scanner, snapshot, now)
            == cut_off(scanner, now),
{
    let added = without_duplicates(snapshot);
    assert(scanner.snapshots.push(added).drop_last() =~= scanner.snapshots);
}

/// The scanner after it took in snapshots one after the other, each at its own clock.
pub open spec fn ingested_all(
    scanner: ScannerView,
    arrivals: Seq<(SnapshotView, Timestamp)>,
) -> ScannerView
    decreases arrivals.len(),
{
    if arrivals.len() == 0 {
        scanner
    } else {
        ingested(
            ingested_all(scanner, arrivals.drop_last()),
            arrivals.last().0,
            arrivals.last().1,
        )
    }
}

/// What arrivals leave behind if none of them expires.
pub open spec fn arrived(arrivals: Seq<(SnapshotView, Timestamp)>) -> Seq<SnapshotView> {
    arrivals.map_values(|arrival: (SnapshotView, Timestamp)| without_duplicates(arrival.0))
}

proof fn lemma_retained_all(snapshots: Seq<SnapshotView>, now: Timestamp, age: Duration)
    requires
        forall|i: int| 0 <= i < snapshots.len() ==> is_live(#[trigger] snapshots[i], now, age),
    ensures
        retained(snapshots, now, age) == snapshots,
    decreases snapshots.len(),
{
    if snapshots.len() > 0 {
        let earlier = snapshots.drop_last();
        assert forall|i: int| 0 <= i < earlier.len() implies is_live(
            #[trigger] earlier[i],
            now,
            age,
        ) by {
            assert(earlier[i] == snapshots[i]);
        }
        lemma_retained_all(earlier, now, age);
        assert(is_live(snapshots[snapshots.len() - 1], now, age));
        assert(snapshots =~= earlier.push(snapshots.last()));
    } else {
        assert(retained(snapshots, now, age) =~= snapshots);
    }
}

/// Snapshots are never merged or skipped: as long as each one is live at its own clock and
/// at every later one, the window holds all that came in, in order, each with its
/// duplicates removed, whether or not they are alike. So there are as many of them.
pub proof fn law_ingestions_are_all_kept(
    scanner: ScannerView,
    arrivals: Seq<(SnapshotView, Timestamp)>,
)
    requires
        scanner.snapshots.len() == 0,
        forall|i: int, j: int|
            0 <= i <= j < arrivals.len() ==> is_live(
                (#[trigger] arrivals[i]).0,
                (#[trigger] arrivals[j]).1,
                scanner.max_history_age,
            ),
    ensures
        ingested_all(scanner, arrivals).snapshots == arrived(arrivals),
        ingested_all(scanner, arrivals).snapshots.len() == arrivals.len(),
        ingested_all(scanner, arrivals).max_history_age == scanner.max_history_age,
    decreases arrivals.len(),
{
    if arrivals.len() > 0 {
        let earlier = arrivals.drop_last();
        let last = arrivals.len() - 1;
        let age = scanner.max_history_age;
        assert forall|i: int, j: int| 0 <= i <= j < earlier.len() implies is_live(
            (#[trigger] earlier[i]).0,
            (#[trigger] earlier[j]).1,
            age,
        ) by {
            assert(earlier[i] == arrivals[i] && earlier[j] == arrivals[j]);
        }
        law_ingestions_are_all_kept(scanner, earlier);
        let all = arrived(earlier).push(without_duplicates(arrivals[last].0));
        assert forall|i: int| 0 <= i < all.len() implies is_live(
            #[trigger] all[i],
            arrivals[last].1,
            age,
        ) by {
            assert(is_live(arrivals[i].0, arrivals[last].1, age));
        }
        lemma_retained_all(all, arrivals[last].1, age);
        assert(all =~= arrived(arrivals));
    } else {
        assert(arrived(arrivals) =~= scanner.snapshots);
    }
}

/// While the clock is not set back and none of the snapshots given to a new scanner has
/// expired at the last clock, every one of them is retained and counted.
pub proof fn law_live_ingestions_are_counted(arrivals: Seq<(SnapshotView, Timestamp)>)
    requires
        forall|i: int, j: int|
            0 <= i <= j < arrivals.len() ==> (#[trigger] arrivals[i]).1.nanos <= (
            #[trigger] arrivals[j]).1.nanos,
        forall|i: int|
            0 <= i < arrivals.len() ==> is_live(
                (#[trigger] arrivals[i]).0,
                arrivals.last().1,
                default_scanner().max_history_age,
            ),
    ensures
        ingested_all(default_scanner(), arrivals).snapshots == arrived(arrivals),
        ingested_all(default_scanner(), arrivals).snapshots.len() == arrivals.len(),
{
    assert forall|i: int, j: int| 0 <= i <= j < arrivals.len() implies is_live(
        (#[trigger] arrivals[i]).0,
        (#[trigger] arrivals[j]).1,
        default_scanner().max_history_age,
    ) by {
        assert(arrivals[j].1.nanos <= arrivals[arrivals.len() - 1].1.nanos);
    }
    law_ingestions_are_all_kept(default_scanner(), arrivals);
}

/// A window holds, in order, the snapshots that are not older than the retention window at
/// `now`, and leaves out no other; those dated after `now` stay.
pub proof fn law_expiry_is_by_age(snapshots: Seq<SnapshotView>, now: Timestamp, age: Duration)
    ensures
        retained(snapshots, now, age) == snapshots.filter(
            |snapshot: SnapshotView| now.nanos <= snapshot.timestamp.nanos + age.nanos,
        ),
    decreases snapshots.len(),
{
    reveal(Seq::filter);
    if snapshots.len() > 0 {
        law_expiry_is_by_age(snapshots.drop_last(), now, age);
    }
}

/// Ingestion appends the snapshot, with its own date and its samples deduplicated, and then
/// lets go what is older than the retention window; expiry does the latter alone. Neither
/// changes the retention window.
pub proof fn law_ingestion_appends_and_expires(
    scanner: ScannerView,
    snapshot: SnapshotView,
    now: Timestamp,
)
    ensures
        ingested(scanner, snapshot, now).max_history_age == scanner.max_history_age,
        ingested(scanner, snapshot, now).snapshots == scanner.snapshots.push(
            (SnapshotView { timestamp: snapshot.timestamp, data: deduplicated(snapshot.data) }),
        ).filter(
            |held: SnapshotView| now.nanos <= held.timestamp.nanos + scanner.max_history_age.nanos,
        ),
        cut_off(scanner, now).max_history_age == scanner.max_history_age,
        cut_off(scanner, now).snapshots == scanner.snapshots.filter(
            |held: SnapshotView| now.nanos <= held.timestamp.nanos + scanner.max_history_age.nanos,
        ),
{
    let age = scanner.max_history_age;
    let added = SnapshotView { timestamp: snapshot.timestamp, data: deduplicated(snapshot.data) };
    law_expiry_is_by_age(scanner.snapshots, now, age);
    law_expiry_is_by_age(scanner.snapshots.push(added), now, age);
    assert((|held: SnapshotView| now.nanos <= held.timestamp.nanos + age.nanos) =~= (
    |held: SnapshotView| now.nanos <= held.timestamp.nanos + scanner.max_history_age.nanos));
    assert((|held: SnapshotView| now.nanos <= held.timestamp.nanos + age.nanos) =~= (
    |snapshot: SnapshotView| now.nanos <= snapshot.timestamp.nanos + age.nanos));
}

/// A new scanner holds no snapshot and keeps snapshots for 300 seconds; the delay between scan
/// attempts is a tenth of a second.
pub proof fn law_new_scanner_is_empty()
    ensures
        default_scanner().snapshots.len() == 0,
        default_scanner().max_history_age.nanos == 300_000_000_000,
        DEFAULT_SCAN_INTERVAL_MILLIS * 10 == 1000,
{
}

/// What is read from the latest snapshot is read from the last one in the window, and from
/// nothing where the window is empty. A scanner is well-formed exactly if each snapshot in
/// it holds each access point once.
pub proof fn law_latest_snapshot_is_read(scanner: ScannerView)
    ensures
        scanner.snapshots.len() > 0 ==> scanner.latest_data()
            == scanner.snapshots[scanner.snapshots.len() - 1].data,
        scanner.snapshots.len() == 0 ==> scanner.latest_data().len() == 0,
        scanner.well_formed() <==> forall|i: int|
            0 <= i < scanner.snapshots.len() ==> keys_distinct(
                (#[trigger] scanner.snapshots[i]).data,
            ),
{
}

/// A sample is the last of the strongest ones exactly if none is stronger and each one after
/// it is weaker; so there is one such place at most.
pub proof fn law_strongest_has_one_place(data: Seq<SampleView>, position: int, other: int)
    ensures
        is_last_strongest(data, position) <==> 0 <= position < data.len() && forall|k: int|
            0 <= k < data.len() ==> if position < k {
                (#[trigger] data[k]).signal_level < data[position].signal_level
            } else {
                data[k].signal_level <= data[position].signal_level
            },
        is_last_strongest(data, position) && is_last_strongest(data, other) ==> position == other,
{
    if is_last_strongest(data, position) && is_last_strongest(data, other) {
        assert(data[position].signal_level <= data[other].signal_level);
        assert(data[other].signal_level <= data[position].signal_level);
    }
}

} // verus!
