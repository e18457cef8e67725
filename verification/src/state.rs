//! The state of the application between frames.

use vstd::prelude::*;
#[allow(unused_imports)]
use vstd::string::*;

use crate::channel::{are_channel_averages, ChannelAverage};
use crate::frames::{no_frames, recorded, FrameStats, FramesView};
use crate::interaction::{
    filter_series, filtered, no_interaction, passes_filter, pruned, InteractionView,
    PlotInteraction,
};
use crate::labels::{
    best_signal_text, channel_text, export_status, export_text, metric_text, outcome_view,
};
use crate::sample::{ScanSnapshot, SnapshotView};
use crate::scanner::{
    default_scanner, ingested, is_last_strongest, memory_bytes, memory_is_countable, Scanner,
    ScannerView,
};
use crate::series::{is_plot, series_views, ssids_of, PlotSeries, SeriesView};
use crate::settings::{
    default_settings, restored, text_view, AppSettings, SettingsView, StoredSettings,
};
use crate::text::{integer, natural};
use crate::time::{Duration, Timestamp};

verus! {

/// Scan data, settings, interaction and statistics.
pub struct AppState {
    /// The live scan window.
    pub scanner: Scanner,
    /// What the user has set.
    pub settings: AppSettings,
    /// What the user does with the plot.
    pub interaction: PlotInteraction,
    /// How long frames take.
    pub frame_stats: FrameStats,
    /// How the latest export went.
    pub export_status: Option<String>,
}

/// An [`AppState`] with its parts as their views.
#[verifier::ext_equal]
pub struct StateView {
    pub scanner: ScannerView,
    pub settings: SettingsView,
    pub interaction: InteractionView,
    pub frames: FramesView,
    pub export_status: Option<Seq<char>>,
}

impl View for AppState {
    type V = StateView;

    open spec fn view(&self) -> StateView {
        StateView {
            scanner: self.scanner@,
            settings: self.settings@,
            interaction: self.interaction@,
            frames: self.frame_stats@,
            export_status: text_view(self.export_status),
        }
    }
}

impl StateView {
    /// The scan data and the interaction are in order.
    pub open spec fn well_formed(self) -> bool {
        self.scanner.well_formed() && self.interaction.well_formed()
    }
}

/// The state after a snapshot came in at `now`. While paused, snapshots are dropped.
pub open spec fn received(state: StateView, snapshot: SnapshotView, now: Timestamp) -> StateView {
    if state.settings.paused {
        state
    } else {
        StateView { scanner: ingested(state.scanner, snapshot, now), ..state }
    }
}

/// `series` is what is plotted at `now`: the series of the live window that the filter
/// lets through.
pub open spec fn is_filtered_plot(
    series: Seq<SeriesView>,
    state: StateView,
    now: Timestamp,
) -> bool {
    exists|all: Seq<SeriesView>| #[trigger]
        is_plot(all, state.scanner.snapshots, now) && series == filtered(
            all,
            state.settings.ssid_filter,
        )
}

/// One channel in the heatmap.
#[derive(Debug)]
pub struct HeatmapCell {
    /// The name of the channel.
    pub label: String,
    /// Its average signal.
    pub average: ChannelAverage,
    /// Whether the row of the grid ends here.
    pub ends_row: bool,
}

/// The figures in the summary line.
#[derive(Debug)]
pub struct Summary {
    /// How many networks there are.
    pub networks: String,
    /// How many snapshots are retained.
    pub snapshots: String,
    /// How much memory the samples take; `None` if it is too much to count.
    pub memory: Option<String>,
    /// The strongest network, if there is any.
    pub best: Option<String>,
}

/// The averages in the cells of a heatmap.
pub open spec fn cell_averages(cells: Seq<HeatmapCell>) -> Seq<ChannelAverage> {
    cells.map_values(|cell: HeatmapCell| cell.average)
}

impl AppState {
    /// The state at the start, with the settings that storage holds.
    pub fn new(storage: Option<StoredSettings>) -> (state: AppState)
        ensures
            state@.settings == (match storage {
                Some(held) => restored(held@),
                None => default_settings(),
            }),
            state@.scanner == default_scanner(),
            state@.interaction == no_interaction(),
            state@.frames == no_frames(),
            state@.export_status is None,
            state@.well_formed(),
    {
        AppState {
            scanner: Scanner::default(),
            settings: AppSettings::load(storage),
            interaction: PlotInteraction::default(),
            frame_stats: FrameStats::default(),
            export_status: None,
        }
    }

    /// Take in a snapshot from the worker, unless paused.
    pub fn apply_new_snapshot(&mut self, snapshot: ScanSnapshot)
        ensures
            exists|now: Timestamp| final(self)@ == #[trigger] received(old(self)@, snapshot@, now),
            old(self)@.settings.paused ==> final(self)@ == old(self)@,
            old(self)@.well_formed() ==> final(self)@.well_formed(),
    {
        let now: Timestamp = Timestamp::now();
        self.apply_new_snapshot_at(snapshot, now);
    }

    /// Take in a snapshot from the worker at `now`, unless paused.
    pub fn apply_new_snapshot_at(&mut self, snapshot: ScanSnapshot, now: Timestamp)
        ensures
            final(self)@ == received(old(self)@, snapshot@, now),
            old(self)@.well_formed() ==> final(self)@.well_formed(),
    {
        if !self.settings.paused {
            self.scanner.ingest_snapshot_at(snapshot, now);
        }
    }

    /// Remember how an export went.
    pub fn finish_export(&mut self, outcome: Result<(), String>)
        ensures
            final(self)@ == (StateView {
                export_status: Some(export_text(outcome_view(outcome))),
                ..old(self)@
            }),
    {
        self.export_status = Some(export_status(outcome));
    }

    /// Record the time that a frame took.
    pub fn record_frame(&mut self, elapsed: Duration)
        ensures
            final(self)@ == (StateView {
                frames: recorded(old(self)@.frames, elapsed),
                ..old(self)@
            }),
    {
        self.frame_stats.record(elapsed);
    }

    /// The figures in the summary line.
    pub fn summary(&self) -> (summary: Summary)
        ensures
            summary.networks@ == "Networks"@ + ": "@ + natural(
                ssids_of(self@.scanner.snapshots).len(),
            ),
            summary.snapshots@ == "Snapshots"@ + ": "@ + natural(self@.scanner.snapshots.len()),
            summary.memory is Some <==> memory_is_countable(self@.scanner),
            summary.memory matches Some(text) ==> text@ == "Memory KB"@ + ": "@ + natural(
                memory_bytes(self@.scanner) / 1024,
            ),
            summary.best is Some <==> self@.scanner.latest_data().len() > 0,
            summary.best matches Some(text) ==> exists|i: int| #[trigger]
                is_last_strongest(self@.scanner.latest_data(), i) && text@ == "Best: "@
                    + self@.scanner.latest_data()[i].ssid + " ("@ + integer(
                    self@.scanner.latest_data()[i].signal_level as int,
                ) + " dBm)"@,
    {
        let memory: Option<String> = match self.scanner.checked_memory_kb() {
            Some(kb) => Some(metric_text("Memory KB", kb)),
            None => None,
        };
        let best: Option<String> = match self.scanner.best_signal() {
            Some(found) => Some(best_signal_text(&found)),
            None => None,
        };
        Summary {
            networks: metric_text("Networks", self.scanner.networks_count()),
            snapshots: metric_text("Snapshots", self.scanner.snapshots_count()),
            memory,
            best,
        }
    }

    /// The cells of the channel heatmap; `None` if it is switched off or there is nothing
    /// to show.
    pub fn heatmap(&self) -> (cells: Option<Vec<HeatmapCell>>)
        ensures
            cells is Some <==> self@.settings.show_heatmap && self@.scanner.latest_data().len()
                > 0,
            cells matches Some(shown) ==> are_channel_averages(
                cell_averages(shown@),
                self@.scanner.latest_data(),
            ) && forall|i: int|
                0 <= i < shown@.len() ==> (#[trigger] shown@[i]).label@ == "Ch "@ + natural(
                    shown@[i].average.channel as nat,
                ) && shown@[i].ends_row == (i % 2 == 1),
    {
        if !self.settings.show_heatmap {
            return None;
        }
        let averages: Vec<ChannelAverage> = self.scanner.channel_averages();
        proof {
            crate::channel::lemma_averages_empty(averages@, self@.scanner.latest_data());
        }
        if averages.len() == 0 {
            return None;
        }
        let mut cells: Vec<HeatmapCell> = Vec::new();
        let mut i: usize = 0;
        while i < averages.len()
            invariant
                i <= averages@.len(),
                cells@.len() == i,
                forall|k: int|
                    0 <= k < i ==> (#[trigger] cells@[k]).average == averages@[k] && cells@[k].label@
                        == "Ch "@ + natural(averages@[k].channel as nat) && cells@[k].ends_row == (k
                        % 2 == 1),
            decreases averages@.len() - i,
        {
            let average: ChannelAverage = averages[i];
            cells.push(
                HeatmapCell {
                    label: channel_text(average.channel),
                    average,
                    ends_row: i % 2 == 1,
                },
            );
            i += 1;
        }
        assert(cell_averages(cells@) =~= averages@);
        Some(cells)
    }

    /// The series to plot now. Hidden SSIDs without a series are forgotten.
    pub fn plot_frame(&mut self) -> (series: Vec<PlotSeries>)
        ensures
            exists|now: Timestamp| #[trigger]
                is_filtered_plot(series_views(series@), old(self)@, now),
            final(self)@ == (StateView {
                interaction: pruned(old(self)@.interaction, series_views(series@)),
                ..old(self)@
            }),
            old(self)@.well_formed() ==> final(self)@.well_formed(),
    {
        let now: Timestamp = Timestamp::now();
        self.plot_frame_at(now)
    }

    /// The series to plot at `now`. Hidden SSIDs without a series are forgotten.
    pub fn plot_frame_at(&mut self, now: Timestamp) -> (series: Vec<PlotSeries>)
        ensures
            is_filtered_plot(series_views(series@), old(self)@, now),
            final(self)@ == (StateView {
                interaction: pruned(old(self)@.interaction, series_views(series@)),
                ..old(self)@
            }),
            old(self)@.well_formed() ==> final(self)@.well_formed(),
    {
        let all: Vec<PlotSeries> = self.scanner.plot_series_at(now);
        let ghost all_views = series_views(all@);
        let series: Vec<PlotSeries> = filter_series(all, self.settings.ssid_filter.as_str());
        assert(is_plot(all_views, self@.scanner.snapshots, now));
        self.interaction.prune_hidden_series(&series);
        series
    }
}

/// The snapshots, the filter and the time determine what is plotted.
pub proof fn law_filtered_plot_is_determined(
    first: Seq<SeriesView>,
    second: Seq<SeriesView>,
    state: StateView,
    now: Timestamp,
)
    requires
        is_filtered_plot(first, state, now),
        is_filtered_plot(second, state, now),
    ensures
        first == second,
{
    let snapshots = state.scanner.snapshots;
    let filter = state.settings.ssid_filter;
    let a = choose|all: Seq<SeriesView>| #[trigger]
        is_plot(all, snapshots, now) && first == filtered(all, filter);
    let b = choose|all: Seq<SeriesView>| #[trigger]
        is_plot(all, snapshots, now) && second == filtered(all, filter);
    crate::series::law_plot_is_determined(a, b, snapshots, now);
}

/// While paused, no snapshot changes anything.
pub proof fn law_paused_ignores_snapshots(
    state: StateView,
    snapshot: SnapshotView,
    now: Timestamp,
)
    requires
        state.settings.paused,
    ensures
        received(state, snapshot, now) == state,
{
}

/// While not paused, a snapshot is ingested, and nothing but the window changes.
pub proof fn law_snapshots_change_the_window_only(
    state: StateView,
    snapshot: SnapshotView,
    now: Timestamp,
)
    ensures
        !state.settings.paused ==> received(state, snapshot, now).scanner == ingested(
            state.scanner,
            snapshot,
            now,
        ),
        received(state, snapshot, now).settings == state.settings,
        received(state, snapshot, now).interaction == state.interaction,
        received(state, snapshot, now).frames == state.frames,
        received(state, snapshot, now).export_status == state.export_status,
{
}

/// What is plotted are, in their order, the series of the live window whose SSID passes the
/// filter that is set.
pub proof fn law_filtered_plot_is_of_the_window(
    series: Seq<SeriesView>,
    state: StateView,
    now: Timestamp,
)
    requires
        is_filtered_plot(series, state, now),
    ensures
        exists|all: Seq<SeriesView>| #[trigger]
            is_plot(all, state.scanner.snapshots, now) && series == all.filter(
                |item: SeriesView| passes_filter(item.ssid, state.settings.ssid_filter),
            ),
{
    let filter = state.settings.ssid_filter;
    let all = choose|all: Seq<SeriesView>| #[trigger]
        is_plot(all, state.scanner.snapshots, now) && series == filtered(all, filter);
    crate::interaction::law_filter_keeps_the_order(all, filter);
    assert((|item: SeriesView| passes_filter(item.ssid, filter)) =~= (
    |item: SeriesView| passes_filter(item.ssid, state.settings.ssid_filter)));
}

/// The state is seen with all its parts, and cells with all their averages in order. It is in
/// order exactly if the scan data and the interaction are.
pub proof fn law_state_views_hold_every_part(state: AppState, cells: Seq<HeatmapCell>)
    ensures
        state@.scanner == state.scanner@,
        state@.settings == state.settings@,
        state@.interaction == state.interaction@,
        state@.frames == state.frame_stats@,
        state@.export_status is Some <==> state.export_status is Some,
        state.export_status matches Some(text) ==> state@.export_status == Some(text@),
        state@.well_formed() <==> state.scanner@.well_formed() && state.interaction@.well_formed(),
        cell_averages(cells).len() == cells.len(),
        forall|k: int| 0 <= k < cells.len() ==> #[trigger] cell_averages(cells)[k] == cells[k].average,
{
}

} // verus!
