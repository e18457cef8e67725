use wifi_scanner::frames::FrameStats;
use wifi_scanner::history::PlotPoint;
use wifi_scanner::interaction::{
    filter_matches, filter_series, lowered_filter_matches, nearest_point, PlotInteraction,
};
use wifi_scanner::labels::{
    best_signal_text, channel_text, export_status, hovered_signal_text, hovered_ssid_text,
    metric_text, EXPORT_FILENAME,
};
use wifi_scanner::sample::{ScanSnapshot, WifiSample};
use wifi_scanner::scanner::BestSignal;
use wifi_scanner::series::PlotSeries;
use wifi_scanner::settings::{parse_stored_bool, stored_bool, AppSettings, StoredSettings};
use wifi_scanner::state::AppState;
use wifi_scanner::time::{Duration, Timestamp};
use wifi_scanner::worker::{next_action, WorkerAction, WorkerEvent};

fn at(nanos: i128) -> Timestamp {
    Timestamp { nanos }
}

fn line(ssid: &str, signals: &[i32]) -> PlotSeries {
    PlotSeries {
        ssid: ssid.to_string(),
        points: signals
            .iter()
            .enumerate()
            .map(|(i, signal)| PlotPoint {
                elapsed: Duration { nanos: i as u128 },
                signal_level: *signal,
            })
            .collect(),
    }
}

fn name(text: &str) -> String {
    text.to_string()
}

fn snapshot(nanos: i128, samples: &[(&str, i32, u32)]) -> ScanSnapshot {
    ScanSnapshot {
        timestamp: at(nanos),
        data: samples
            .iter()
            .map(|(ssid, signal_level, channel)| WifiSample {
                ssid: name(ssid),
                signal_level: *signal_level,
                bssid: format!("mac of {ssid}"),
                channel: *channel,
                frequency: 0,
            })
            .collect(),
    }
}

fn names(series: &[PlotSeries]) -> Vec<&str> {
    series.iter().map(|item| item.ssid.as_str()).collect()
}

#[test]
fn stored_flags_are_true_or_false() {
    assert!(parse_stored_bool(&Some(name("true"))));
    assert!(!parse_stored_bool(&Some(name("false"))));
    assert!(!parse_stored_bool(&Some(name("True"))));
    assert!(!parse_stored_bool(&Some(name(" true"))));
    assert!(!parse_stored_bool(&Some(name(""))));
    assert!(!parse_stored_bool(&None));
    assert_eq!(stored_bool(true), "true");
    assert_eq!(stored_bool(false), "false");
}

#[test]
fn settings_survive_a_restart() {
    for show_heatmap in [false, true] {
        for paused in [false, true] {
            let settings = AppSettings { ssid_filter: name("caf\u{e9}"), show_heatmap, paused };
            let loaded = AppSettings::load(Some(settings.save()));
            assert_eq!(loaded.ssid_filter, "caf\u{e9}");
            assert_eq!(loaded.show_heatmap, show_heatmap);
            assert_eq!(loaded.paused, paused);
        }
    }
}

#[test]
fn missing_settings_have_defaults() {
    let empty = StoredSettings { ssid_filter: None, show_heatmap: None, paused: None };
    for settings in [AppSettings::load(None), AppSettings::load(Some(empty)), AppSettings::default()] {
        assert_eq!(settings.ssid_filter, "");
        assert!(!settings.show_heatmap);
        assert!(!settings.paused);
    }
}

#[test]
fn clearing_the_filter_keeps_the_flags() {
    let mut settings = AppSettings { ssid_filter: name("x"), show_heatmap: true, paused: true };
    settings.clear_filter();
    assert_eq!(settings.ssid_filter, "");
    assert!(settings.show_heatmap && settings.paused);
}

#[test]
fn the_latest_frame_times_are_kept() {
    let mut stats = FrameStats::default();
    assert_eq!(stats.last_frame_time(), Duration::zero());
    for i in 0..250u64 {
        stats.record(Duration::from_millis(i));
        assert_eq!(stats.last_frame_time(), Duration::from_millis(i));
    }
    let expected: Vec<Duration> = (150..250).map(Duration::from_millis).collect();
    assert_eq!(stats.frame_times(), &expected);
}

#[test]
fn one_hundred_frame_times_fit() {
    let mut stats = FrameStats::default();
    for i in 0..100u64 {
        stats.record(Duration::from_millis(i));
    }
    assert_eq!(stats.frame_times().len(), 100);
    assert_eq!(stats.frame_times()[0], Duration::from_millis(0));
}

#[test]
fn the_filter_ignores_case() {
    assert!(filter_matches("HomeNet", "HOME"));
    assert!(filter_matches("homenet", "eN"));
    assert!(filter_matches("\u{c9}COLE", "\u{e9}cole"));
    assert!(filter_matches("anything", ""));
    assert!(!filter_matches("HomeNet", "cafe"));
    assert!(!filter_matches("", "x"));
}

#[test]
fn lowered_texts_are_searched() {
    assert!(lowered_filter_matches("homenet", "net", false));
    assert!(!lowered_filter_matches("homenet", "NET", false));
    assert!(lowered_filter_matches("homenet", "NET", true));
}

#[test]
fn filtering_keeps_the_order() {
    let series = vec![line("Home", &[]), line("Cafe", &[]), line("home 5G", &[])];
    assert_eq!(names(&filter_series(series, "HOME")), vec!["Home", "home 5G"]);
    let series = vec![line("Home", &[]), line("Cafe", &[])];
    assert_eq!(names(&filter_series(series, "")), vec!["Home", "Cafe"]);
    let once = filter_series(vec![line("a1", &[]), line("b", &[]), line("a2", &[])], "A");
    let twice = filter_series(once, "A");
    assert_eq!(names(&twice), vec!["a1", "a2"]);
}

#[test]
fn hidden_series_are_not_drawn() {
    let series = vec![line("a", &[]), line("b", &[]), line("c", &[])];
    let mut interaction = PlotInteraction::default();
    assert_eq!(interaction.visible_series(&series), vec![0, 1, 2]);
    interaction.set_visible(&name("b"), false);
    assert!(!interaction.is_visible("b"));
    assert_eq!(interaction.visible_series(&series), vec![0, 2]);
    interaction.set_visible(&name("b"), true);
    assert_eq!(interaction.visible_series(&series), vec![0, 1, 2]);
}

#[test]
fn hidden_names_without_a_series_are_forgotten() {
    let mut interaction = PlotInteraction::default();
    interaction.set_visible(&name("a"), false);
    interaction.set_visible(&name("b"), false);
    interaction.prune_hidden_series(&vec![line("b", &[]), line("c", &[])]);
    assert!(interaction.is_visible("a"));
    assert!(!interaction.is_visible("b"));
    assert!(interaction.is_visible("c"));
}

#[test]
fn a_click_selects_the_nearest_series() {
    let series = vec![line("a", &[-40, -50]), line("b", &[-60])];
    let distances = vec![vec![Some(9), Some(4)], vec![Some(6)]];
    let mut interaction = PlotInteraction::default();
    interaction.handle_pointer(&series, Some(&distances), true, false);
    let hovered = interaction.hovered_point().unwrap();
    assert_eq!(
        (hovered.ssid.as_str(), hovered.elapsed.nanos, hovered.signal_level),
        ("a", 1, -50)
    );
    assert!(!interaction.is_selected(&name("a")));
    interaction.handle_pointer(&series, Some(&distances), false, true);
    assert!(interaction.hovered_point().is_none());
    assert!(interaction.is_selected(&name("a")));
    assert_eq!(interaction.drawing_order(&series), vec![1, 0]);
    interaction.handle_pointer(&series, None, true, true);
    assert!(interaction.hovered_point().is_none());
    assert!(interaction.is_selected(&name("a")));
}

#[test]
fn hiding_the_selected_series_deselects_it() {
    let series = vec![line("a", &[-40]), line("b", &[-60])];
    let distances = vec![vec![Some(1)], vec![Some(6)]];
    let mut interaction = PlotInteraction::default();
    interaction.handle_pointer(&series, Some(&distances), true, true);
    interaction.set_visible(&name("b"), false);
    assert!(interaction.is_selected(&name("a")));
    interaction.set_visible(&name("a"), false);
    assert!(!interaction.is_selected(&name("a")));
    interaction.handle_pointer(&series, Some(&distances), true, true);
    assert!(interaction.hovered_point().is_none());
    assert!(!interaction.is_selected(&name("a")));
}

#[test]
fn the_first_of_equally_near_points_is_hovered() {
    let series = vec![line("a", &[-1]), line("b", &[-2, -3]), line("c", &[-4])];
    let distances = vec![vec![Some(7)], vec![Some(5), Some(5)], vec![Some(5)]];
    let interaction = PlotInteraction::default();
    let nearest = nearest_point(&series, &interaction, &distances).unwrap();
    assert_eq!((nearest.ssid.as_str(), nearest.signal_level), ("b", -2));
}

#[test]
fn a_hidden_series_is_not_hovered() {
    let series = vec![line("a", &[-1]), line("b", &[-2])];
    let distances = vec![vec![Some(1)], vec![Some(5)]];
    let mut interaction = PlotInteraction::default();
    interaction.set_visible(&name("a"), false);
    let nearest = nearest_point(&series, &interaction, &distances).unwrap();
    assert_eq!(nearest.ssid, "b");
    assert!(nearest_point(&vec![line("z", &[])], &interaction, &vec![vec![]]).is_none());
}

#[test]
fn incomparable_distances_displace_nothing() {
    let series = vec![line("a", &[-1, -2, -3])];
    let interaction = PlotInteraction::default();
    let nearest = nearest_point(&series, &interaction, &vec![vec![Some(5), None, Some(4)]]).unwrap();
    assert_eq!(nearest.signal_level, -3);
    let nearest = nearest_point(&series, &interaction, &vec![vec![None, Some(5), Some(4)]]).unwrap();
    assert_eq!(nearest.signal_level, -1);
}

#[test]
fn labels_read_as_shown() {
    assert_eq!(metric_text("Networks", 12), "Networks: 12");
    let best = BestSignal { ssid: name("home"), signal_level: -41 };
    assert_eq!(best_signal_text(&best), "Best: home (-41 dBm)");
    assert_eq!(channel_text(149), "Ch 149");
    assert_eq!(hovered_ssid_text("home"), "SSID: home");
    assert_eq!(hovered_signal_text(-41), "Signal: -41 dBm");
    assert_eq!(EXPORT_FILENAME, "wifi_scan_export.csv");
    assert_eq!(export_status(Ok(())), "Exported to wifi_scan_export.csv");
    assert_eq!(export_status(Err(name("disk full"))), "Export failed: disk full");
}

#[test]
fn a_new_state_has_the_stored_settings() {
    let state = AppState::new(Some(StoredSettings {
        ssid_filter: Some(name("home")),
        show_heatmap: Some(name("true")),
        paused: Some(name("no")),
    }));
    assert_eq!(state.settings.ssid_filter, "home");
    assert!(state.settings.show_heatmap);
    assert!(!state.settings.paused);
    assert_eq!(state.scanner.snapshots_count(), 0);
    assert!(state.export_status.is_none());
}

#[test]
fn a_paused_state_drops_snapshots() {
    let mut state = AppState::new(None);
    state.settings.paused = true;
    state.apply_new_snapshot_at(snapshot(0, &[("a", -40, 1)]), at(0));
    state.apply_new_snapshot(snapshot(0, &[("a", -40, 1)]));
    assert_eq!(state.scanner.snapshots_count(), 0);
    state.settings.paused = false;
    state.apply_new_snapshot_at(snapshot(0, &[("a", -40, 1)]), at(0));
    assert_eq!(state.scanner.snapshots_count(), 1);
    state.apply_new_snapshot(snapshot(0, &[("b", -40, 1)]));
    assert_eq!(state.scanner.snapshots_count(), 0);
}

#[test]
fn the_heatmap_pairs_channels_in_rows() {
    let mut state = AppState::new(None);
    state.settings.show_heatmap = true;
    assert!(state.heatmap().is_none());
    state.apply_new_snapshot_at(snapshot(0, &[("a", -40, 6), ("b", -50, 1), ("c", -51, 6)]), at(0));
    let cells = state.heatmap().unwrap();
    assert_eq!(cells.len(), 2);
    assert_eq!((cells[0].label.as_str(), cells[0].ends_row), ("Ch 1", false));
    assert_eq!((cells[1].label.as_str(), cells[1].ends_row), ("Ch 6", true));
    assert_eq!((cells[1].average.signal_total, cells[1].average.samples), (-91, 2));
    state.settings.show_heatmap = false;
    assert!(state.heatmap().is_none());
}

#[test]
fn the_summary_shows_the_figures() {
    let mut state = AppState::new(None);
    let summary = state.summary();
    assert_eq!(summary.networks, "Networks: 0");
    assert_eq!(summary.snapshots, "Snapshots: 0");
    assert_eq!(summary.memory, Some(name("Memory KB: 0")));
    assert_eq!(summary.best, None);
    state.apply_new_snapshot_at(snapshot(0, &[("a", -40, 6), ("b", -50, 1)]), at(0));
    let summary = state.summary();
    assert_eq!(summary.networks, "Networks: 2");
    assert_eq!(summary.snapshots, "Snapshots: 1");
    assert_eq!(summary.best, Some(name("Best: a (-40 dBm)")));
}

#[test]
fn a_frame_plots_what_the_filter_lets_through() {
    let mut state = AppState::new(None);
    state.apply_new_snapshot_at(snapshot(0, &[("Home", -40, 6), ("cafe", -50, 1)]), at(0));
    state.interaction.set_visible(&name("cafe"), false);
    state.interaction.set_visible(&name("Home"), false);
    state.settings.ssid_filter = name("ho");
    let series = state.plot_frame_at(at(5));
    assert_eq!(names(&series), vec!["Home"]);
    assert_eq!(series[0].points[0].elapsed.nanos, 5);
    let again = state.plot_frame_at(at(5));
    assert_eq!(names(&again), names(&series));
    assert_eq!(again[0].points, series[0].points);
    assert!(!state.interaction.is_visible("Home"));
    assert!(state.interaction.is_visible("cafe"));
    state.settings.clear_filter();
    assert_eq!(names(&state.plot_frame()), vec!["Home", "cafe"]);
}

#[test]
fn exports_and_frames_are_remembered() {
    let mut state = AppState::new(None);
    state.finish_export(Err(name("no space")));
    assert_eq!(state.export_status, Some(name("Export failed: no space")));
    state.finish_export(Ok(()));
    assert_eq!(state.export_status, Some(name("Exported to wifi_scan_export.csv")));
    state.record_frame(Duration::from_millis(16));
    assert_eq!(state.frame_stats.last_frame_time(), Duration::from_millis(16));
}

#[test]
fn the_worker_scans_sends_and_waits() {
    assert!(matches!(next_action(WorkerEvent::Started), WorkerAction::Scan));
    assert!(matches!(next_action(WorkerEvent::Scanned(None)), WorkerAction::Wait));
    match next_action(WorkerEvent::Scanned(Some(snapshot(7, &[("a", -40, 1)])))) {
        WorkerAction::Send(sent) => assert_eq!(sent.timestamp, at(7)),
        _ => panic!("a snapshot is handed over"),
    }
    assert!(matches!(next_action(WorkerEvent::Delivered), WorkerAction::Wait));
    assert!(matches!(next_action(WorkerEvent::Waited), WorkerAction::Scan));
}

#[test]
fn the_worker_stops_when_nobody_receives() {
    assert!(matches!(next_action(WorkerEvent::Disconnected), WorkerAction::Stop));
}
