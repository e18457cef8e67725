use wifi_scanner::sample::{
    deduplicate_samples, make_snapshot, snapshot_at, ScannedNetwork, WifiSample,
};
use wifi_scanner::time::Timestamp;

fn sample(ssid: &str, bssid: &str, signal_level: i32) -> WifiSample {
    WifiSample {
        ssid: ssid.to_string(),
        signal_level,
        bssid: bssid.to_string(),
        channel: 6,
        frequency: 2437,
    }
}

fn network(mac: &str, ssid: &str, channel: u32, signal_level: i32) -> ScannedNetwork {
    ScannedNetwork { mac: mac.to_string(), ssid: ssid.to_string(), channel, signal_level }
}

fn summary(samples: &[WifiSample]) -> Vec<(String, String, i32)> {
    samples
        .iter()
        .map(|sample| (sample.ssid.clone(), sample.bssid.clone(), sample.signal_level))
        .collect()
}

fn entry(ssid: &str, bssid: &str, signal_level: i32) -> (String, String, i32) {
    (ssid.to_string(), bssid.to_string(), signal_level)
}

#[test]
fn strongest_sample_of_an_access_point_is_kept() {
    let kept = deduplicate_samples(vec![
        sample("home", "aa", -70),
        sample("cafe", "bb", -60),
        sample("home", "aa", -40),
        sample("home", "aa", -55),
    ]);
    assert_eq!(summary(&kept), vec![entry("home", "aa", -40), entry("cafe", "bb", -60)]);
}

#[test]
fn first_of_equally_strong_samples_is_kept() {
    let mut second = sample("renamed", "aa", -50);
    second.channel = 11;
    let kept = deduplicate_samples(vec![sample("home", "aa", -50), second]);
    assert_eq!(kept.len(), 1);
    assert_eq!(kept[0].ssid, "home");
    assert_eq!(kept[0].channel, 6);
}

#[test]
fn ssid_stands_in_for_a_missing_bssid() {
    let kept = deduplicate_samples(vec![
        sample("home", "", -70),
        sample("home", "", -60),
        sample("cafe", "", -50),
        sample("home", "aa", -80),
        sample("other", "home", -30),
    ]);
    assert_eq!(
        summary(&kept),
        vec![entry("other", "home", -30), entry("cafe", "", -50), entry("home", "aa", -80)]
    );
}

#[test]
fn deduplicating_again_changes_nothing() {
    let once = deduplicate_samples(vec![
        sample("home", "aa", -70),
        sample("home", "aa", -60),
        sample("cafe", "bb", -50),
    ]);
    let twice = deduplicate_samples(once.clone());
    assert_eq!(summary(&once), summary(&twice));
    assert!(deduplicate_samples(Vec::new()).is_empty());
}

#[test]
fn cloned_samples_are_equal() {
    let original = sample("home", "aa", -70);
    let copy = original.clone();
    assert_eq!(
        (copy.ssid, copy.bssid, copy.signal_level, copy.channel, copy.frequency),
        ("home".to_string(), "aa".to_string(), -70, 6, 2437)
    );
}

#[test]
fn hidden_networks_are_left_out() {
    let snapshot = snapshot_at(
        vec![network("aa", "home", 6, -40), network("bb", "", 1, -30), network("", "cafe", 0, -70)],
        Timestamp { nanos: 17 },
    );
    assert_eq!(snapshot.timestamp, Timestamp { nanos: 17 });
    assert_eq!(summary(&snapshot.data), vec![entry("home", "aa", -40), entry("cafe", "", -70)]);
    assert_eq!(snapshot.data[0].channel, 6);
    let copy = snapshot.clone();
    assert_eq!(summary(&copy.data), summary(&snapshot.data));
    assert_eq!(copy.timestamp, snapshot.timestamp);
}

#[test]
fn channels_have_their_center_frequency() {
    let cases = [
        (0, 0),
        (1, 2412),
        (6, 2437),
        (13, 2472),
        (14, 2484),
        (15, 0),
        (35, 0),
        (36, 5180),
        (165, 5825),
        (166, 0),
        (167, 6780),
        (233, 7110),
        (234, 0),
        (u32::MAX, 0),
    ];
    for (channel, frequency) in cases {
        let snapshot = snapshot_at(vec![network("aa", "home", channel, -40)], Timestamp { nanos: 0 });
        assert_eq!(snapshot.data[0].frequency, frequency);
        assert_eq!(snapshot.data[0].channel, channel);
    }
}

#[test]
fn a_failed_scan_gives_no_snapshot() {
    assert!(make_snapshot(None).is_none());
}

#[test]
fn a_snapshot_is_stamped_with_the_current_time() {
    let since = || {
        std::time::SystemTime::now().duration_since(std::time::UNIX_EPOCH).unwrap().as_nanos() as i128
    };
    let before = since();
    let snapshot = make_snapshot(Some(vec![network("aa", "home", 6, -40)])).unwrap();
    let after = since();
    assert!(before <= snapshot.timestamp.nanos && snapshot.timestamp.nanos <= after);
    assert_eq!(snapshot.data.len(), 1);
}
