//! Access point observations, snapshots of them, and their deduplication.

use vstd::prelude::*;
#[allow(unused_imports)]
use vstd::string::*;

use crate::time::Timestamp;

verus! {

/// One network observation returned by the scan backend.
#[derive(Debug)]
pub struct WifiSample {
    /// User-facing network name. Hidden networks are filtered before ingestion.
    pub ssid: String,
    /// RSSI signal level in dBm.
    pub signal_level: i32,
    /// Access point MAC address. Empty where the platform does not expose it.
    pub bssid: String,
    /// Wi-Fi channel number. `0` means unknown.
    pub channel: u32,
    /// Derived center frequency in MHz. `0` means unknown.
    pub frequency: u32,
}

/// A point-in-time scan result.
#[derive(Debug)]
pub struct ScanSnapshot {
    /// Wall-clock timestamp when the scan completed.
    pub timestamp: Timestamp,
    /// Samples observed in this scan.
    pub data: Vec<WifiSample>,
}

/// What the scan backend reports of one network.
#[derive(Debug)]
pub struct ScannedNetwork {
    /// MAC address of the access point; may be empty.
    pub mac: String,
    /// Network name; empty for a hidden network.
    pub ssid: String,
    /// Channel number; `0` means unknown.
    pub channel: u32,
    /// RSSI signal level in dBm.
    pub signal_level: i32,
}

/// A [`WifiSample`] with its texts as character sequences.
pub struct SampleView {
    pub ssid: Seq<char>,
    pub signal_level: i32,
    pub bssid: Seq<char>,
    pub channel: u32,
    pub frequency: u32,
}

/// A [`ScanSnapshot`] with its samples as [`SampleView`]s.
pub struct SnapshotView {
    pub timestamp: Timestamp,
    pub data: Seq<SampleView>,
}

/// A [`ScannedNetwork`] with its texts as character sequences.
pub struct NetworkView {
    pub mac: Seq<char>,
    pub ssid: Seq<char>,
    pub channel: u32,
    pub signal_level: i32,
}

impl View for WifiSample {
    type V = SampleView;

    open spec fn view(&self) -> SampleView {
        SampleView {
            ssid: self.ssid@,
            signal_level: self.signal_level,
            bssid: self.bssid@,
            channel: self.channel,
            frequency: self.frequency,
        }
    }
}

impl View for ScanSnapshot {
    type V = SnapshotView;

    open spec fn view(&self) -> SnapshotView {
        SnapshotView { timestamp: self.timestamp, data: sample_views(self.data@) }
    }
}

impl View for ScannedNetwork {
    type V = NetworkView;

    open spec fn view(&self) -> NetworkView {
        NetworkView {
            mac: self.mac@,
            ssid: self.ssid@,
            channel: self.channel,
            signal_level: self.signal_level,
        }
    }
}

/// The views of a sequence of samples.
pub open spec fn sample_views(samples: Seq<WifiSample>) -> Seq<SampleView> {
    samples.map_values(|sample: WifiSample| sample@)
}

/// The views of a sequence of snapshots.
pub open spec fn snapshot_views(snapshots: Seq<ScanSnapshot>) -> Seq<SnapshotView> {
    snapshots.map_values(|snapshot: ScanSnapshot| snapshot@)
}

/// The views of a sequence of scanned networks.
pub open spec fn network_views(networks: Seq<ScannedNetwork>) -> Seq<NetworkView> {
    networks.map_values(|network: ScannedNetwork| network@)
}

/// A sample, a snapshot and a scanned network are seen with all their fields, and sequences
/// of them with all their items in order.
pub proof fn law_views_hold_every_field(
    sample: WifiSample,
    snapshot: ScanSnapshot,
    network: ScannedNetwork,
    snapshots: Seq<ScanSnapshot>,
    networks: Seq<ScannedNetwork>,
)
    ensures
        sample@.ssid == sample.ssid@,
        sample@.signal_level == sample.signal_level,
        sample@.bssid == sample.bssid@,
        sample@.channel == sample.channel,
        sample@.frequency == sample.frequency,
        snapshot@.timestamp == snapshot.timestamp,
        snapshot@.data.len() == snapshot.data@.len(),
        forall|k: int|
            0 <= k < snapshot.data@.len() ==> #[trigger] snapshot@.data[k] == snapshot.data@[k]@,
        snapshot@.data == sample_views(snapshot.data@),
        network@.mac == network.mac@,
        network@.ssid == network.ssid@,
        network@.channel == network.channel,
        network@.signal_level == network.signal_level,
        snapshot_views(snapshots).len() == snapshots.len(),
        forall|k: int|
            0 <= k < snapshots.len() ==> #[trigger] snapshot_views(snapshots)[k] == snapshots[k]@,
        network_views(networks).len() == networks.len(),
        forall|k: int|
            0 <= k < networks.len() ==> #[trigger] network_views(networks)[k] == networks[k]@,
{
}

impl Clone for WifiSample {
    fn clone(&self) -> (copy: WifiSample)
        ensures
            copy@ == self@,
    {
        WifiSample {
            ssid: self.ssid.clone(),
            signal_level: self.signal_level,
            bssid: self.bssid.clone(),
            channel: self.channel,
            frequency: self.frequency,
        }
    }
}

impl Clone for ScanSnapshot {
    fn clone(&self) -> (copy: ScanSnapshot)
        ensures
            copy@ == self@,
    {
        let mut data: Vec<WifiSample> = Vec::new();
        let mut i: usize = 0;
        while i < self.data.len()
            invariant
                i <= self.data@.len(),
                sample_views(data@) == sample_views(self.data@).take(i as int),
            decreases self.data@.len() - i,
        {
            let ghost before = data@;
            let copy: WifiSample = self.data[i].clone();
            data.push(copy);
            proof {
                assert(sample_views(data@) =~= sample_views(before).push(self.data@[i as int]@));
                assert(sample_views(self.data@).take(i + 1) =~= sample_views(self.data@).take(
                    i as int,
                ).push(self.data@[i as int]@));
            }
            i += 1;
        }
        assert(sample_views(self.data@).take(i as int) =~= sample_views(self.data@));
        ScanSnapshot { timestamp: self.timestamp, data }
    }
}

// Scan results.

/// Center frequency in MHz of a Wi-Fi channel: 2.4 GHz band, 5 GHz band, 6 GHz band,
/// and `0` for any other number.
pub open spec fn frequency_mhz(channel: u32) -> u32 {
    if 1 <= channel <= 13 {
        (2407 + channel * 5) as u32
    } else if channel == 14 {
        2484
    } else if 36 <= channel <= 165 {
        (5000 + channel * 5) as u32
    } else if 167 <= channel <= 233 {
        (5950 + (channel - 1) * 5) as u32
    } else {
        0
    }
}

/// Calls `wifi_scan::Wifi::get_frequency` on a network on `channel`. It claims that the
/// result is the center frequency of the channel, as [`frequency_mhz`] gives it.
#[verifier::external_body]
fn channel_frequency(channel: u32) -> (mhz: u32)
    ensures
        mhz == frequency_mhz(channel),
{
    let wifi = wifi_scan::Wifi { channel, ..Default::default() };
    wifi.get_frequency()
}

/// Calls `wifi_scan::Wifi::is_hidden` on a network named `ssid`. It claims that a
/// network is hidden exactly if its name is empty.
#[verifier::external_body]
fn is_hidden_name(ssid: &str) -> (hidden: bool)
    ensures
        hidden == (ssid@.len() == 0),
{
    let wifi = wifi_scan::Wifi { ssid: ssid.to_owned(), ..Default::default() };
    wifi.is_hidden()
}

/// The sample of a scanned network.
pub open spec fn sample_of(network: NetworkView) -> SampleView {
    SampleView {
        ssid: network.ssid,
        signal_level: network.signal_level,
        bssid: network.mac,
        channel: network.channel,
        frequency: frequency_mhz(network.channel),
    }
}

/// The samples of the networks that are not hidden, in the order of the scan.
pub open spec fn visible_samples(networks: Seq<NetworkView>) -> Seq<SampleView>
    decreases networks.len(),
{
    if networks.len() == 0 {
        Seq::empty()
    } else {
        let earlier = visible_samples(networks.drop_last());
        if networks.last().ssid.len() == 0 {
            earlier
        } else {
            earlier.push(sample_of(networks.last()))
        }
    }
}

/// Channels of one band lie 5 MHz apart: channel 1 is at 2412 MHz, channel 36 at 5180 MHz,
/// channel 167 at 6780 MHz. Channel 14 is at 2484 MHz, and a number outside the bands has no
/// frequency.
pub proof fn law_channels_are_five_megahertz_apart(channel: u32, steps: u32)
    ensures
        channel == 1 && steps <= 12 ==> frequency_mhz((channel + steps) as u32) == 2412 + 5 * steps,
        channel == 36 && steps <= 129 ==> frequency_mhz((channel + steps) as u32) == 5180 + 5
            * steps,
        channel == 167 && steps <= 66 ==> frequency_mhz((channel + steps) as u32) == 6780 + 5
            * steps,
        frequency_mhz(14) == 2484,
        channel == 0 || 15 <= channel <= 35 || channel == 166 || channel >= 234 ==> frequency_mhz(
            channel,
        ) == 0,
{
}

/// The samples of a scan are, in order, those of the networks that have a name, one for each.
pub proof fn law_visible_samples_are_networks(networks: Seq<NetworkView>)
    ensures
        visible_samples(networks) == networks.filter(
            |network: NetworkView| network.ssid.len() > 0,
        ).map_values(
            |network: NetworkView|
                SampleView {
                    ssid: network.ssid,
                    signal_level: network.signal_level,
                    bssid: network.mac,
                    channel: network.channel,
                    frequency: frequency_mhz(network.channel),
                },
        ),
        visible_samples(networks).len() == networks.filter(
            |network: NetworkView| network.ssid.len() > 0,
        ).len(),
    decreases networks.len(),
{
    reveal(Seq::filter);
    if networks.len() > 0 {
        law_visible_samples_are_networks(networks.drop_last());
    }
}

/// Where no network is hidden, there are as many samples as networks, and each carries the
/// name, the MAC address, the channel and the signal of the network at its place.
pub proof fn law_named_networks_are_all_sampled(networks: Seq<NetworkView>)
    requires
        forall|k: int| 0 <= k < networks.len() ==> (#[trigger] networks[k]).ssid.len() > 0,
    ensures
        visible_samples(networks).len() == networks.len(),
        forall|k: int|
            0 <= k < networks.len() ==> {
                let sample = #[trigger] visible_samples(networks)[k];
                &&& sample.ssid == networks[k].ssid
                &&& sample.bssid == networks[k].mac
                &&& sample.channel == networks[k].channel
                &&& sample.signal_level == networks[k].signal_level
                &&& sample.frequency == frequency_mhz(networks[k].channel)
            },
    decreases networks.len(),
{
    if networks.len() > 0 {
        let earlier = networks.drop_last();
        assert forall|k: int| 0 <= k < earlier.len() implies (#[trigger] earlier[k]).ssid.len()
            > 0 by {
            assert(earlier[k] == networks[k]);
        }
        law_named_networks_are_all_sampled(earlier);
        assert(networks[networks.len() - 1].ssid.len() > 0);
        assert forall|k: int| 0 <= k < networks.len() implies {
            let sample = #[trigger] visible_samples(networks)[k];
            &&& sample.ssid == networks[k].ssid
            &&& sample.bssid == networks[k].mac
            &&& sample.channel == networks[k].channel
            &&& sample.signal_level == networks[k].signal_level
            &&& sample.frequency == frequency_mhz(networks[k].channel)
        } by {
            if k < earlier.len() {
                assert(visible_samples(earlier)[k] == visible_samples(networks)[k]);
            }
        }
    }
}

/// The snapshot of a scan that completed at `timestamp`. Hidden networks are left out.
pub fn snapshot_at(networks: Vec<ScannedNetwork>, timestamp: Timestamp) -> (snapshot:
    ScanSnapshot)
    ensures
        snapshot@.timestamp == timestamp,
        snapshot@.data == visible_samples(network_views(networks@)),
{
    let ghost views = network_views(networks@);
    let mut data: Vec<WifiSample> = Vec::new();
    for network in it: networks
        invariant
            it.seq() == networks@,
            views == network_views(networks@),
            sample_views(data@) == visible_samples(views.take(it.index() as int)),
    {
        let ghost i = it.index() as int;
        let ghost before = data@;
        assert(network@ == views[i]);
        assert(views.take(i + 1).drop_last() =~= views.take(i));
        if !is_hidden_name(network.ssid.as_str()) {
            let frequency: u32 = channel_frequency(network.channel);
            data.push(WifiSample {
                frequency,
                channel: network.channel,
                bssid: network.mac,
                ssid: network.ssid,
                signal_level: network.signal_level,
            });
            assert(sample_views(data@) =~= sample_views(before).push(sample_of(views[i])));
        }
    }
    assert(views.take(networks@.len() as int) =~= views);
    ScanSnapshot { timestamp, data }
}

/// The snapshot of a scan that just completed; `None` if the scan failed.
pub fn make_snapshot(scan: Option<Vec<ScannedNetwork>>) -> (snapshot: Option<ScanSnapshot>)
    ensures
        snapshot is Some <==> scan is Some,
        scan matches Some(networks) ==> snapshot->Some_0@.data == visible_samples(
            network_views(networks@),
        ),
{
    match scan {
        Some(networks) => Some(snapshot_at(networks, Timestamp::now())),
        None => None,
    }
}

// Deduplication.

/// What identifies the access point of a sample: its BSSID, or its SSID where the
/// BSSID is unknown.
pub open spec fn sample_key(sample: SampleView) -> Seq<char> {
    if sample.bssid.len() == 0 {
        sample.ssid
    } else {
        sample.bssid
    }
}

/// The keys of `samples`, each once, in the order in which they first occur.
pub open spec fn distinct_keys(samples: Seq<SampleView>) -> Seq<Seq<char>>
    decreases samples.len(),
{
    if samples.len() == 0 {
        Seq::empty()
    } else {
        let earlier = distinct_keys(samples.drop_last());
        let key = sample_key(samples.last());
        if earlier.contains(key) {
            earlier
        } else {
            earlier.push(key)
        }
    }
}

/// The strongest of the samples with this key; of equally strong ones the first.
pub open spec fn strongest(samples: Seq<SampleView>, key: Seq<char>) -> SampleView
    decreases samples.len(),
{
    let last = samples.last();
    if samples.len() <= 1 {
        last
    } else {
        let earlier = samples.drop_last();
        if sample_key(last) == key && (!distinct_keys(earlier).contains(key) || last.signal_level
            > strongest(earlier, key).signal_level) {
            last
        } else {
            strongest(earlier, key)
        }
    }
}

/// One sample for each key, the strongest, in the order in which the keys first occur.
pub open spec fn deduplicated(samples: Seq<SampleView>) -> Seq<SampleView> {
    distinct_keys(samples).map_values(|key: Seq<char>| strongest(samples, key))
}

/// The key of a sample.
fn key_of(sample: &WifiSample) -> (key: &String)
    ensures
        key@ == sample_key(sample@),
{
    if sample.bssid.as_str().is_empty() {
        &sample.ssid
    } else {
        &sample.bssid
    }
}

/// The position of the sample with this key; `samples.len()` if there is none.
fn find_key(samples: &Vec<WifiSample>, key: &String) -> (index: usize)
    ensures
        index <= samples@.len(),
        index < samples@.len() ==> sample_key(samples@[index as int]@) == key@,
        forall|k: int| 0 <= k < index ==> sample_key(#[trigger] samples@[k]@) != key@,
{
    let mut i: usize = 0;
    while i < samples.len()
        invariant
            i <= samples@.len(),
            forall|k: int| 0 <= k < i ==> sample_key(#[trigger] samples@[k]@) != key@,
        decreases samples@.len() - i,
    {
        if *key_of(&samples[i]) == *key {
            return i;
        }
        i += 1;
    }
    i
}

proof fn lemma_distinct_keys(samples: Seq<SampleView>)
    ensures
        distinct_keys(samples).no_duplicates(),
        forall|i: int|
            0 <= i < samples.len() ==> distinct_keys(samples).contains(
                sample_key(#[trigger] samples[i]),
            ),
        forall|k: int|
            0 <= k < distinct_keys(samples).len() ==> exists|i: int|
                0 <= i < samples.len() && sample_key(samples[i]) == #[trigger] distinct_keys(
                    samples,
                )[k],
        samples.len() > 0 ==> distinct_keys(samples).len() > 0,
    decreases samples.len(),
{
    if samples.len() > 0 {
        let earlier = samples.drop_last();
        let keys = distinct_keys(earlier);
        let all = distinct_keys(samples);
        lemma_distinct_keys(earlier);
        assert forall|i: int| 0 <= i < samples.len() implies all.contains(
            sample_key(#[trigger] samples[i]),
        ) by {
            if i < earlier.len() {
                assert(samples[i] == earlier[i]);
                let k = choose|k: int| 0 <= k < keys.len() && keys[k] == sample_key(earlier[i]);
                assert(all[k] == keys[k]);
            } else if !keys.contains(sample_key(samples.last())) {
                assert(all[keys.len() as int] == sample_key(samples.last()));
            }
        }
        assert forall|k: int| 0 <= k < all.len() implies exists|i: int|
            0 <= i < samples.len() && sample_key(samples[i]) == #[trigger] all[k] by {
            if k < keys.len() {
                let i = choose|i: int| 0 <= i < earlier.len() && sample_key(earlier[i]) == keys[k];
                assert(sample_key(samples[i]) == all[k]);
            } else {
                assert(sample_key(samples[samples.len() - 1]) == all[k]);
            }
        }
    }
}

proof fn lemma_strongest(samples: Seq<SampleView>, key: Seq<char>)
    requires
        distinct_keys(samples).contains(key),
    ensures
        sample_key(strongest(samples, key)) == key,
        exists|j: int| #[trigger] first_strongest_at(samples, key, j),
    decreases samples.len(),
{
    lemma_distinct_keys(samples);
    let earlier = samples.drop_last();
    let last = samples.len() - 1;
    lemma_distinct_keys(earlier);
    if samples.len() == 1 {
        assert(first_strongest_at(samples, key, 0));
    } else if distinct_keys(earlier).contains(key) {
        lemma_strongest(earlier, key);
        let j = choose|j: int| #[trigger] first_strongest_at(earlier, key, j);
        assert forall|k: int| 0 <= k < earlier.len() implies samples[k] == earlier[k] by {}
        if sample_key(samples[last]) == key && samples[last].signal_level > strongest(
            earlier,
            key,
        ).signal_level {
            assert(first_strongest_at(samples, key, last));
        } else {
            assert(first_strongest_at(samples, key, j));
        }
    } else {
        assert forall|k: int| 0 <= k < last implies sample_key(#[trigger] samples[k]) != key by {
            assert(samples[k] == earlier[k]);
        }
        assert(first_strongest_at(samples, key, last));
    }
}

/// The strongest sample with this key stands at `position`: no sample with the key is
/// stronger, and each one before it is weaker.
pub open spec fn first_strongest_at(
    samples: Seq<SampleView>,
    key: Seq<char>,
    position: int,
) -> bool {
    &&& 0 <= position < samples.len()
    &&& samples[position] == strongest(samples, key)
    &&& sample_key(samples[position]) == key
    &&& forall|k: int|
        0 <= k < samples.len() && sample_key(#[trigger] samples[k]) == key
            ==> samples[k].signal_level <= samples[position].signal_level
    &&& forall|k: int|
        0 <= k < position && sample_key(#[trigger] samples[k]) == key
            ==> samples[k].signal_level < samples[position].signal_level
}

/// Keep only the strongest sample for each access point.
pub fn deduplicate_samples(samples: Vec<WifiSample>) -> (kept: Vec<WifiSample>)
    ensures
        sample_views(kept@) == deduplicated(sample_views(samples@)),
{
    let ghost views = sample_views(samples@);
    let mut kept: Vec<WifiSample> = Vec::new();
    assert(sample_views(kept@) =~= deduplicated(views.take(0)));
    for sample in it: samples
        invariant
            it.seq() == samples@,
            views == sample_views(samples@),
            sample_views(kept@) == deduplicated(views.take(it.index() as int)),
    {
        let ghost i = it.index() as int;
        let ghost seen = views.take(i);
        let ghost now = views.take(i + 1);
        let ghost before = kept@;
        let ghost key = sample_key(sample@);
        proof {
            assert(sample@ == views[i]);
            assert(now.drop_last() =~= seen);
            assert(now.last() == sample@);
            lemma_distinct_keys(seen);
            assert(sample_views(before).len() == before.len());
            assert(before.len() == distinct_keys(seen).len());
            assert forall|k: int| 0 <= k < before.len() implies #[trigger] before[k]@ == strongest(
                seen,
                distinct_keys(seen)[k],
            ) && sample_key(before[k]@) == distinct_keys(seen)[k] by {
                assert(sample_views(before)[k] == before[k]@);
                assert(distinct_keys(seen).contains(distinct_keys(seen)[k]));
                lemma_strongest(seen, distinct_keys(seen)[k]);
            }
        }
        let index: usize = find_key(&kept, key_of(&sample));
        if index < kept.len() {
            assert(distinct_keys(seen)[index as int] == key);
            assert(distinct_keys(now) == distinct_keys(seen));
            if sample.signal_level > kept[index].signal_level {
                kept.set(index, sample);
            }
        } else {
            assert forall|k: int| 0 <= k < distinct_keys(seen).len() implies distinct_keys(seen)[k]
                != key by {
                assert(sample_key(before[k]@) == distinct_keys(seen)[k]);
            }
            kept.push(sample);
        }
        assert(sample_views(kept@) =~= deduplicated(now));
    }
    assert(views.take(samples@.len() as int) =~= views);
    kept
}

/// Deduplication keeps one sample for each access point that was seen, and none for any
/// other.
pub proof fn law_deduplicated_covers_keys(samples: Seq<SampleView>)
    ensures
        ({
            let kept = deduplicated(samples);
            &&& forall|a: int, b: int|
                0 <= a < b < kept.len() ==> sample_key(#[trigger] kept[a]) != sample_key(
                    #[trigger] kept[b],
                )
            &&& forall|i: int|
                0 <= i < samples.len() ==> exists|a: int|
                    0 <= a < kept.len() && sample_key(kept[a]) == sample_key(#[trigger] samples[i])
            &&& forall|a: int|
                0 <= a < kept.len() ==> exists|i: int|
                    0 <= i < samples.len() && samples[i] == #[trigger] kept[a]
        }),
{
    let kept = deduplicated(samples);
    let keys = distinct_keys(samples);
    lemma_distinct_keys(samples);
    assert forall|a: int| 0 <= a < kept.len() implies sample_key(#[trigger] kept[a]) == keys[a] by {
        assert(keys.contains(keys[a]));
        lemma_strongest(samples, keys[a]);
    }
    assert forall|i: int| 0 <= i < samples.len() implies exists|a: int|
        0 <= a < kept.len() && sample_key(kept[a]) == sample_key(#[trigger] samples[i]) by {
        let a = choose|a: int| 0 <= a < keys.len() && keys[a] == sample_key(samples[i]);
        assert(sample_key(kept[a]) == sample_key(samples[i]));
    }
    assert forall|a: int| 0 <= a < kept.len() implies exists|i: int|
        0 <= i < samples.len() && samples[i] == #[trigger] kept[a] by {
        assert(keys.contains(keys[a]));
        lemma_strongest(samples, keys[a]);
        let i = choose|i: int| #[trigger] first_strongest_at(samples, keys[a], i);
        assert(samples[i] == kept[a]);
    }
}

/// The sample kept for an access point is at least as strong as every sample of it, and
/// stronger than each one reported before it.
pub proof fn law_deduplicated_keeps_strongest(samples: Seq<SampleView>, kept: int)
    requires
        0 <= kept < deduplicated(samples).len(),
    ensures
        exists|i: int|
            #[trigger] first_strongest_at(samples, sample_key(deduplicated(samples)[kept]), i)
                && samples[i] == deduplicated(samples)[kept],
{
    let key = distinct_keys(samples)[kept];
    assert(distinct_keys(samples).contains(key));
    lemma_strongest(samples, key);
    let i = choose|i: int| #[trigger] first_strongest_at(samples, key, i);
    assert(samples[i] == deduplicated(samples)[kept]);
}

/// No two of the samples belong to the same access point.
pub open spec fn keys_distinct(samples: Seq<SampleView>) -> bool {
    forall|a: int, b: int|
        0 <= a < b < samples.len() ==> sample_key(#[trigger] samples[a]) != sample_key(
            #[trigger] samples[b],
        )
}

proof fn lemma_distinct_samples_unchanged(samples: Seq<SampleView>)
    requires
        keys_distinct(samples),
    ensures
        distinct_keys(samples) == samples.map_values(|sample: SampleView| sample_key(sample)),
        deduplicated(samples) == samples,
    decreases samples.len(),
{
    if samples.len() > 0 {
        let earlier = samples.drop_last();
        let last = samples.last();
        assert(keys_distinct(earlier));
        lemma_distinct_samples_unchanged(earlier);
        assert(!distinct_keys(earlier).contains(sample_key(last))) by {
            if distinct_keys(earlier).contains(sample_key(last)) {
                let k = choose|k: int|
                    0 <= k < distinct_keys(earlier).len() && distinct_keys(earlier)[k]
                        == sample_key(last);
                assert(sample_key(samples[k]) == sample_key(samples[samples.len() - 1]));
            }
        }
        assert(distinct_keys(samples) =~= samples.map_values(
            |sample: SampleView| sample_key(sample),
        ));
        assert forall|k: int| 0 <= k < samples.len() implies #[trigger] deduplicated(samples)[k]
            == samples[k] by {
            if k < earlier.len() {
                assert(deduplicated(earlier)[k] == earlier[k]);
                assert(sample_key(samples[k]) != sample_key(samples[samples.len() - 1]));
            }
        }
    }
    assert(distinct_keys(samples) =~= samples.map_values(|sample: SampleView| sample_key(sample)));
    assert(deduplicated(samples) =~= samples);
}

/// Samples of different access points are all kept as they are; so deduplicating a
/// second time changes nothing.
pub proof fn law_deduplication_idempotent(samples: Seq<SampleView>)
    ensures
        keys_distinct(deduplicated(samples)),
        keys_distinct(samples) ==> deduplicated(samples) == samples,
        deduplicated(deduplicated(samples)) == deduplicated(samples),
{
    law_deduplicated_covers_keys(samples);
    lemma_distinct_samples_unchanged(deduplicated(samples));
    if keys_distinct(samples) {
        lemma_distinct_samples_unchanged(samples);
    }
}

proof fn lemma_distinct_keys_in_order(samples: Seq<SampleView>)
    ensures
        forall|a: int, b: int|
            #![trigger distinct_keys(samples)[a], distinct_keys(samples)[b]]
            0 <= a < b < distinct_keys(samples).len() ==> exists|i: int|
                0 <= i < samples.len() && sample_key(#[trigger] samples[i]) == distinct_keys(
                    samples,
                )[a] && forall|j: int|
                    0 <= j <= i ==> sample_key(#[trigger] samples[j]) != distinct_keys(samples)[b],
    decreases samples.len(),
{
    if samples.len() > 0 {
        let earlier = samples.drop_last();
        let keys = distinct_keys(earlier);
        let all = distinct_keys(samples);
        lemma_distinct_keys(earlier);
        lemma_distinct_keys_in_order(earlier);
        assert forall|a: int, b: int|
            #![trigger all[a], all[b]]
            0 <= a < b < all.len() implies exists|i: int|
            0 <= i < samples.len() && sample_key(#[trigger] samples[i]) == all[a] && forall|j: int|
                0 <= j <= i ==> sample_key(#[trigger] samples[j]) != all[b] by {
            assert(all[a] == keys[a]);
            if b < keys.len() {
                assert(all[b] == keys[b]);
                let i = choose|i: int|
                    0 <= i < earlier.len() && sample_key(#[trigger] earlier[i]) == keys[a]
                        && forall|j: int|
                        0 <= j <= i ==> sample_key(#[trigger] earlier[j]) != keys[b];
                assert forall|j: int| 0 <= j <= i implies sample_key(#[trigger] samples[j])
                    != all[b] by {
                    assert(samples[j] == earlier[j]);
                }
                assert(samples[i] == earlier[i]);
            } else {
                let i = choose|i: int| 0 <= i < earlier.len() && sample_key(earlier[i]) == keys[a];
                assert forall|j: int| 0 <= j <= i implies sample_key(#[trigger] samples[j])
                    != all[b] by {
                    assert(samples[j] == earlier[j]);
                    assert(keys.contains(sample_key(earlier[j])));
                }
                assert(samples[i] == earlier[i]);
            }
        }
    }
}

/// For each reported sample deduplication keeps one that is at least as strong and has the
/// same BSSID. Where a BSSID is unknown, the SSID stands in for it.
pub proof fn law_every_address_is_kept(samples: Seq<SampleView>, i: int)
    requires
        0 <= i < samples.len(),
    ensures
        exists|a: int|
            0 <= a < deduplicated(samples).len() && {
                let kept = #[trigger] deduplicated(samples)[a];
                let sample = samples[i];
                &&& kept.signal_level >= sample.signal_level
                &&& (if kept.bssid.len() > 0 { kept.bssid } else { kept.ssid }) == (if sample.bssid.len() > 0 {
                    sample.bssid
                } else {
                    sample.ssid
                })
            },
{
    let keys = distinct_keys(samples);
    let key = sample_key(samples[i]);
    lemma_distinct_keys(samples);
    let a = choose|a: int| 0 <= a < keys.len() && keys[a] == key;
    lemma_strongest(samples, key);
    let j = choose|j: int| #[trigger] first_strongest_at(samples, key, j);
    assert(deduplicated(samples)[a] == samples[j]);
    assert(samples[i].signal_level <= samples[j].signal_level);
}

/// What deduplication keeps was reported, and is stronger than each sample with the same
/// BSSID that was reported before it. Where a BSSID is unknown, the SSID stands in for it.
pub proof fn law_kept_samples_were_reported(samples: Seq<SampleView>, a: int)
    requires
        0 <= a < deduplicated(samples).len(),
    ensures
        exists|i: int|
            0 <= i < samples.len() && #[trigger] samples[i] == deduplicated(samples)[a]
                && forall|j: int|
                0 <= j < i && (if samples[j].bssid.len() > 0 {
                    samples[j].bssid
                } else {
                    samples[j].ssid
                }) == (if samples[i].bssid.len() > 0 { samples[i].bssid } else { samples[i].ssid })
                    ==> (#[trigger] samples[j]).signal_level < samples[i].signal_level,
{
    let keys = distinct_keys(samples);
    let key = keys[a];
    assert(keys.contains(key));
    lemma_strongest(samples, key);
    let i = choose|i: int| #[trigger] first_strongest_at(samples, key, i);
    assert(samples[i] == deduplicated(samples)[a]);
    assert forall|j: int|
        0 <= j < i && (if samples[j].bssid.len() > 0 { samples[j].bssid } else { samples[j].ssid })
            == (if samples[i].bssid.len() > 0 { samples[i].bssid } else { samples[i].ssid }) implies (
    #[trigger] samples[j]).signal_level < samples[i].signal_level by {
        assert(sample_key(samples[j]) == key);
    }
}

/// No two of the samples that deduplication keeps share a BSSID, and they stand in the order
/// in which their BSSIDs were first reported. Where a BSSID is unknown, the SSID stands in
/// for it.
pub proof fn law_kept_addresses_differ(samples: Seq<SampleView>, a: int, b: int)
    requires
        0 <= a < b < deduplicated(samples).len(),
    ensures
        ({
            let one = deduplicated(samples)[a];
            let other = deduplicated(samples)[b];
            let first = if one.bssid.len() > 0 { one.bssid } else { one.ssid };
            let second = if other.bssid.len() > 0 { other.bssid } else { other.ssid };
            &&& first != second
            &&& exists|i: int|
                0 <= i < samples.len() && (if (#[trigger] samples[i]).bssid.len() > 0 {
                    samples[i].bssid
                } else {
                    samples[i].ssid
                }) == first && forall|j: int|
                    0 <= j <= i ==> (if (#[trigger] samples[j]).bssid.len() > 0 {
                        samples[j].bssid
                    } else {
                        samples[j].ssid
                    }) != second
        }),
{
    let keys = distinct_keys(samples);
    lemma_distinct_keys(samples);
    lemma_distinct_keys_in_order(samples);
    assert(keys.contains(keys[a]) && keys.contains(keys[b]));
    lemma_strongest(samples, keys[a]);
    lemma_strongest(samples, keys[b]);
    let i = choose|i: int|
        0 <= i < samples.len() && sample_key(#[trigger] samples[i]) == keys[a] && forall|j: int|
            0 <= j <= i ==> sample_key(#[trigger] samples[j]) != keys[b];
    assert(sample_key(samples[i]) == keys[a]);
    assert forall|j: int| 0 <= j <= i implies (if (#[trigger] samples[j]).bssid.len() > 0 {
        samples[j].bssid
    } else {
        samples[j].ssid
    }) != keys[b] by {
        assert(sample_key(samples[j]) != keys[b]);
    }
}

/// Two samples with different BSSIDs are never merged. For each, deduplication keeps one that
/// is at least as strong and has the same BSSID, or none and the same text as its SSID; and
/// these are two.
pub proof fn law_bssids_are_never_merged(samples: Seq<SampleView>, i: int, j: int)
    requires
        0 <= i < samples.len(),
        0 <= j < samples.len(),
        samples[i].bssid.len() > 0,
        samples[j].bssid.len() > 0,
        samples[i].bssid != samples[j].bssid,
    ensures
        exists|a: int, b: int|
            #![trigger deduplicated(samples)[a], deduplicated(samples)[b]]
            {
                let kept = deduplicated(samples);
                &&& 0 <= a < kept.len() && 0 <= b < kept.len() && a != b
                &&& kept[a].bssid == samples[i].bssid || (kept[a].bssid.len() == 0 && kept[a].ssid
                    == samples[i].bssid)
                &&& kept[b].bssid == samples[j].bssid || (kept[b].bssid.len() == 0 && kept[b].ssid
                    == samples[j].bssid)
                &&& kept[a].signal_level >= samples[i].signal_level
                &&& kept[b].signal_level >= samples[j].signal_level
            },
{
    law_every_address_is_kept(samples, i);
    law_every_address_is_kept(samples, j);
}

/// Samples belong to different access points exactly if no two of them share a BSSID, and no
/// two share the text that stands in for it where it is unknown.
pub proof fn law_distinct_access_points(samples: Seq<SampleView>)
    ensures
        keys_distinct(samples) <==> forall|a: int, b: int|
            0 <= a < b < samples.len() ==> {
                let one = #[trigger] samples[a];
                let other = #[trigger] samples[b];
                &&& one.bssid.len() > 0 && other.bssid.len() > 0 ==> one.bssid != other.bssid
                &&& one.bssid.len() == 0 && other.bssid.len() == 0 ==> one.ssid != other.ssid
                &&& one.bssid.len() > 0 && other.bssid.len() == 0 ==> one.bssid != other.ssid
                &&& one.bssid.len() == 0 && other.bssid.len() > 0 ==> one.ssid != other.bssid
            },
{
    let apart = |one: SampleView, other: SampleView|
        {
            &&& one.bssid.len() > 0 && other.bssid.len() > 0 ==> one.bssid != other.bssid
            &&& one.bssid.len() == 0 && other.bssid.len() == 0 ==> one.ssid != other.ssid
            &&& one.bssid.len() > 0 && other.bssid.len() == 0 ==> one.bssid != other.ssid
            &&& one.bssid.len() == 0 && other.bssid.len() > 0 ==> one.ssid != other.bssid
        };
    assert(forall|one: SampleView, other: SampleView|
        #![trigger sample_key(one), sample_key(other)]
        apart(one, other) <==> sample_key(one) != sample_key(other));
}

} // verus!
