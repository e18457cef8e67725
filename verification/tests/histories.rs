use wifi_scanner::history::{
    append_average_bin, average_signal, signal_total, NetworkHistory, PlotPoint,
};
use wifi_scanner::time::{Duration, Timestamp};

const SECOND: i128 = 1_000_000_000;

fn history(observations: &[(i128, i32)]) -> NetworkHistory {
    let mut history = NetworkHistory::new();
    for (nanos, signal_level) in observations {
        history.append(Timestamp { nanos: *nanos }, *signal_level);
    }
    history
}

fn points(history: &NetworkHistory, now: i128) -> Vec<(u128, i32)> {
    history
        .to_plot_points(Timestamp { nanos: now })
        .iter()
        .map(|point: &PlotPoint| (point.elapsed.nanos, point.signal_level))
        .collect()
}

#[test]
fn averages_round_halves_away_from_zero() {
    assert_eq!(average_signal(&[-50, -53]), -52);
    assert_eq!(average_signal(&[50, 53]), 52);
    assert_eq!(average_signal(&[-50, -51, -51]), -51);
    assert_eq!(average_signal(&[-50, -50, -51]), -50);
    assert_eq!(average_signal(&[1, -1]), 0);
    assert_eq!(average_signal(&[0, -1]), -1);
    assert_eq!(average_signal(&[7]), 7);
}

#[test]
fn averages_agree_with_rounded_division() {
    for count in 1usize..12 {
        for first in -130i32..20 {
            let mut signals = vec![-60i32; count];
            signals[0] = first;
            let sum: i32 = signals.iter().sum();
            let expected = (sum as f64 / count as f64).round() as i32;
            assert_eq!(average_signal(&signals), expected);
        }
    }
}

#[test]
fn averages_lie_between_the_extremes() {
    assert_eq!(average_signal(&[i32::MIN, i32::MIN, i32::MIN]), i32::MIN);
    assert_eq!(average_signal(&[i32::MAX, i32::MAX]), i32::MAX);
    assert_eq!(average_signal(&[i32::MIN, i32::MAX]), -1);
    let average = average_signal(&[-90, -30, -31, -77]);
    assert!((-90..=-30).contains(&average));
}

#[test]
fn totals_do_not_overflow() {
    assert_eq!(signal_total(&[i32::MAX, i32::MAX, 1]), 2 * i32::MAX as i128 + 1);
    assert_eq!(signal_total(&[]), 0);
}

#[test]
fn bins_average_what_is_close_in_time() {
    let binned = history(&[
        (0, -50),
        (SECOND, -53),
        (SECOND + 1, -60),
        (SECOND + 500, -62),
        (3 * SECOND, -70),
    ])
    .bin_by_time(Duration::from_secs(1));
    assert_eq!(binned.len(), 3);
    assert_eq!(
        points(&binned, 3 * SECOND),
        vec![(3_000_000_000, -52), (1_999_999_999, -61), (0, -70)]
    );
}

#[test]
fn observations_dated_earlier_stay_in_the_open_bin() {
    let binned = history(&[(5 * SECOND, -40), (0, -60)]).bin_by_time(Duration::from_secs(1));
    assert_eq!(points(&binned, 5 * SECOND), vec![(0, -50)]);
}

#[test]
fn an_empty_history_has_no_bins() {
    assert_eq!(history(&[]).bin_by_time(Duration::from_secs(1)).len(), 0);
}

#[test]
fn bins_start_more_than_their_size_apart() {
    let observations: Vec<(i128, i32)> = (0..50).map(|i| (i * SECOND / 3, -40 - i as i32)).collect();
    let binned = history(&observations).bin_by_time(Duration::from_secs(1));
    let starts: Vec<u128> =
        points(&binned, 100 * SECOND).iter().map(|(elapsed, _)| *elapsed).collect();
    assert!(binned.len() <= observations.len());
    for pair in starts.windows(2) {
        assert!(pair[0] - pair[1] > SECOND as u128);
    }
}

#[test]
fn no_signals_make_no_bin() {
    let mut history = NetworkHistory::new();
    append_average_bin(&mut history, Timestamp { nanos: 3 }, &[]);
    assert_eq!(history.len(), 0);
    append_average_bin(&mut history, Timestamp { nanos: 3 }, &[-40, -43]);
    assert_eq!(points(&history, 3), vec![(0, -42)]);
}

#[test]
fn observations_dated_later_are_not_plotted() {
    let history = history(&[(10, -40), (30, -50), (20, -60)]);
    assert_eq!(points(&history, 20), vec![(10, -40), (0, -60)]);
    assert_eq!(points(&history, 9), vec![]);
}
