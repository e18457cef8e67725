use wifi_scanner::sample::{ScanSnapshot, WifiSample};
use wifi_scanner::scanner::{sample_count, Scanner};
use wifi_scanner::series::{network_histories_from_snapshots, PlotSeries};
use wifi_scanner::time::{Duration, Timestamp};

const SECOND: i128 = 1_000_000_000;

fn at(nanos: i128) -> Timestamp {
    Timestamp { nanos }
}

fn sample(ssid: &str, bssid: &str, signal_level: i32, channel: u32) -> WifiSample {
    WifiSample {
        ssid: ssid.to_string(),
        signal_level,
        bssid: bssid.to_string(),
        channel,
        frequency: 0,
    }
}

fn snapshot(nanos: i128, data: Vec<WifiSample>) -> ScanSnapshot {
    ScanSnapshot { timestamp: at(nanos), data }
}

fn lines(series: &[PlotSeries]) -> Vec<(String, Vec<(u128, i32)>)> {
    series
        .iter()
        .map(|item| {
            (
                item.ssid.clone(),
                item.points.iter().map(|p| (p.elapsed.nanos, p.signal_level)).collect(),
            )
        })
        .collect()
}

#[test]
fn a_new_scanner_is_empty() {
    let scanner = Scanner::default();
    assert_eq!(scanner.max_history_age(), Duration::from_secs(300));
    assert_eq!(scanner.snapshots_count(), 0);
    assert_eq!(scanner.networks_count(), 0);
    assert_eq!(scanner.estimated_memory_kb(), 0);
    assert!(scanner.best_signal().is_none());
    assert!(scanner.channel_averages().is_empty());
    assert!(scanner.plot_series().is_empty());
    assert!(scanner.export_times().is_empty());
}

#[test]
fn snapshots_expire_after_the_window() {
    let mut scanner = Scanner::default();
    scanner.ingest_snapshot_at(snapshot(0, vec![sample("a", "a", -40, 1)]), at(0));
    scanner.ingest_snapshot_at(snapshot(1, vec![sample("b", "b", -40, 1)]), at(300 * SECOND));
    assert_eq!(scanner.snapshots_count(), 2);
    scanner.cutoff_expired_snapshots_at(at(300 * SECOND + 1));
    assert_eq!(scanner.snapshots_count(), 1);
    assert_eq!(scanner.best_signal().unwrap().ssid, "b");
    scanner.cutoff_expired_snapshots_at(at(0));
    assert_eq!(scanner.snapshots_count(), 1);
    scanner.cutoff_expired_snapshots();
    assert_eq!(scanner.snapshots_count(), 0);
}

#[test]
fn snapshots_are_never_merged_or_skipped() {
    let mut scanner = Scanner::default();
    let arrivals: Vec<(i128, Vec<WifiSample>)> = vec![
        (5, vec![sample("a", "a", -40, 1)]),
        (5, vec![sample("a", "a", -40, 1)]),
        (5, Vec::new()),
        (3, Vec::new()),
        (9, vec![sample("b", "b", -50, 1), sample("b", "b", -45, 1)]),
    ];
    for (i, (nanos, data)) in arrivals.into_iter().enumerate() {
        scanner.ingest_snapshot_at(snapshot(nanos, data), at(10 * SECOND * i as i128));
        assert_eq!(scanner.snapshots_count(), i + 1);
    }
    let times: Vec<u128> = scanner.export_times().iter().map(|span| span.nanos).collect();
    assert_eq!(times, vec![5, 5, 5, 3, 9]);
    assert_eq!(scanner.best_signal().unwrap().signal_level, -45);
}

#[test]
fn an_expired_snapshot_leaves_no_trace() {
    let mut scanner = Scanner::default();
    scanner.ingest_snapshot_at(snapshot(400 * SECOND, vec![sample("a", "a", -40, 1)]), at(400 * SECOND));
    scanner.ingest_snapshot_at(snapshot(0, vec![sample("b", "b", -40, 1)]), at(400 * SECOND));
    assert_eq!(scanner.snapshots_count(), 1);
    assert_eq!(scanner.networks_count(), 1);
    scanner.ingest_snapshot(snapshot(0, vec![sample("c", "c", -40, 1)]));
    assert_eq!(scanner.snapshots_count(), 0);
}

#[test]
fn a_current_snapshot_is_the_latest() {
    let nanos =
        std::time::SystemTime::now().duration_since(std::time::UNIX_EPOCH).unwrap().as_nanos() as i128;
    let mut scanner = Scanner::default();
    scanner.ingest_snapshot(snapshot(nanos, vec![sample("a", "a", -40, 1)]));
    assert_eq!(scanner.snapshots_count(), 1);
    let series = scanner.plot_series();
    assert_eq!(series.len(), 1);
    assert_eq!(series[0].ssid, "a");
    assert_eq!(series[0].points.len(), 1);
    assert!(series[0].points[0].elapsed.nanos < 60_000_000_000);
}

#[test]
fn ingestion_removes_duplicates() {
    let mut scanner = Scanner::default();
    scanner.ingest_snapshot_at(
        snapshot(0, vec![sample("a", "x", -70, 1), sample("a", "x", -50, 1), sample("b", "", -60, 1)]),
        at(0),
    );
    assert_eq!(
        lines(&scanner.plot_series_at(at(0))),
        vec![("a".to_string(), vec![(0, -50)]), ("b".to_string(), vec![(0, -60)])]
    );
}

#[test]
fn best_signal_is_the_last_of_the_strongest() {
    let mut scanner = Scanner::default();
    scanner.ingest_snapshot_at(snapshot(0, vec![sample("old", "o", -10, 1)]), at(0));
    scanner.ingest_snapshot_at(
        snapshot(
            1,
            vec![
                sample("a", "a", -50, 1),
                sample("b", "b", -40, 1),
                sample("c", "c", -40, 1),
                sample("d", "d", -90, 1),
            ],
        ),
        at(1),
    );
    let best = scanner.best_signal().unwrap();
    assert_eq!(best.ssid, "c");
    assert_eq!(best.signal_level, -40);
    scanner.ingest_snapshot_at(snapshot(2, Vec::new()), at(2));
    assert!(scanner.best_signal().is_none());
}

#[test]
fn channel_averages_ascend_by_channel() {
    let mut scanner = Scanner::default();
    scanner.ingest_snapshot_at(snapshot(0, vec![sample("old", "o", -10, 99)]), at(0));
    scanner.ingest_snapshot_at(
        snapshot(
            1,
            vec![
                sample("a", "a", -50, 11),
                sample("b", "b", -40, 1),
                sample("c", "c", -45, 11),
                sample("d", "d", -60, 6),
                sample("e", "e", -42, 11),
            ],
        ),
        at(1),
    );
    let averages: Vec<(u32, i128, usize)> = scanner
        .channel_averages()
        .iter()
        .map(|average| (average.channel, average.signal_total, average.samples))
        .collect();
    assert_eq!(averages, vec![(1, -40, 1), (6, -60, 1), (11, -137, 3)]);
    assert_eq!(averages.iter().map(|(_, _, samples)| samples).sum::<usize>(), 5);
}

#[test]
fn networks_are_counted_by_ssid() {
    let mut scanner = Scanner::default();
    scanner.ingest_snapshot_at(snapshot(0, vec![sample("a", "1", -50, 1), sample("a", "2", -40, 1)]), at(0));
    scanner.ingest_snapshot_at(snapshot(1, vec![sample("b", "3", -50, 1), sample("a", "1", -40, 1)]), at(1));
    assert_eq!(scanner.networks_count(), 2);
}

#[test]
fn memory_is_estimated_from_the_samples() {
    let mut scanner = Scanner::default();
    let data: Vec<WifiSample> = (0..100).map(|i| sample("a", &i.to_string(), -50, 1)).collect();
    scanner.ingest_snapshot_at(snapshot(0, data), at(0));
    let expected = 100 * std::mem::size_of::<WifiSample>() / 1024;
    assert_eq!(scanner.estimated_memory_kb(), expected);
    assert_eq!(scanner.checked_memory_kb(), Some(expected));
    assert!(expected > 0);
}

#[test]
fn histories_are_grouped_by_ssid() {
    let snapshots = vec![
        snapshot(10, vec![sample("b", "1", -50, 1), sample("a", "2", -40, 1)]),
        snapshot(20, vec![sample("a", "2", -41, 1), sample("a", "3", -42, 1)]),
    ];
    assert_eq!(sample_count(&snapshots), 4);
    let table = network_histories_from_snapshots(&snapshots);
    let names: Vec<&str> = table.iter().map(|entry| entry.ssid.as_str()).collect();
    assert_eq!(names, vec!["a", "b"]);
    assert_eq!(table[0].history.len(), 3);
    assert_eq!(table[1].history.len(), 1);
    assert_eq!(table.iter().map(|entry| entry.history.len()).sum::<usize>(), 4);
}

#[test]
fn plot_series_are_sorted_and_hold_every_sample() {
    let mut scanner = Scanner::default();
    scanner.ingest_snapshot_at(
        snapshot(10, vec![sample("zeta", "1", -50, 1), sample("Alpha", "2", -40, 1)]),
        at(10),
    );
    scanner.ingest_snapshot_at(
        snapshot(30, vec![sample("beta", "4", -55, 1), sample("zeta", "1", -52, 1)]),
        at(30),
    );
    assert_eq!(
        lines(&scanner.plot_series_at(at(40))),
        vec![
            ("Alpha".to_string(), vec![(30, -40)]),
            ("beta".to_string(), vec![(10, -55)]),
            ("zeta".to_string(), vec![(30, -50), (10, -52)]),
        ]
    );
    assert_eq!(
        lines(&scanner.plot_series_at(at(20))),
        vec![
            ("Alpha".to_string(), vec![(10, -40)]),
            ("beta".to_string(), vec![]),
            ("zeta".to_string(), vec![(10, -50)]),
        ]
    );
}

#[test]
fn many_samples_are_binned_by_the_second() {
    let mut scanner = Scanner::default();
    for i in 0..500i128 {
        scanner.ingest_snapshot_at(snapshot(i * SECOND / 10, vec![sample("a", "1", -50, 1)]), at(50 * SECOND));
    }
    let all = scanner.plot_series_at(at(50 * SECOND));
    assert_eq!(all[0].points.len(), 500);
    scanner.ingest_snapshot_at(snapshot(50 * SECOND, vec![sample("a", "1", -50, 1)]), at(50 * SECOND));
    let binned = scanner.plot_series_at(at(50 * SECOND));
    assert_eq!(binned.len(), 1);
    assert_eq!(binned[0].points.len(), 46);
    assert_eq!(binned[0].points[0].elapsed.nanos, 50_000_000_000);
    assert_eq!(binned[0].points[1].elapsed.nanos, 48_900_000_000);
    assert_eq!(binned[0].points[0].signal_level, -50);
}

#[test]
fn export_holds_a_line_for_each_sample() {
    let mut scanner = Scanner::default();
    scanner.ingest_snapshot_at(
        snapshot(
            SECOND + SECOND / 2,
            vec![
                WifiSample {
                    ssid: "a \"quoted\", name".to_string(),
                    signal_level: -50,
                    bssid: "00:11".to_string(),
                    channel: 6,
                    frequency: 2437,
                },
                sample("plain", "", -61, 0),
            ],
        ),
        at(2 * SECOND),
    );
    scanner.ingest_snapshot_at(snapshot(-5, vec![sample("late\n", "22", 3, 4)]), at(2 * SECOND));
    let times: Vec<u128> = scanner.export_times().iter().map(|span| span.nanos).collect();
    assert_eq!(times, vec![1_500_000_000, 0]);
    let text = scanner.export_to_csv(&vec!["1.5".to_string(), "0".to_string()]);
    assert_eq!(
        text,
        "timestamp,ssid,signal,bssid,channel,frequency\n\
         1.5,\"a \"\"quoted\"\", name\",-50,00:11,6,2437\n\
         1.5,plain,-61,,0,0\n\
         0,\"late\n\",3,22,4,0\n"
    );
}

#[test]
fn an_empty_export_is_the_header() {
    assert_eq!(
        Scanner::default().export_to_csv(&Vec::new()),
        "timestamp,ssid,signal,bssid,channel,frequency\n"
    );
}
