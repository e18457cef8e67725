//! What the user points at, has selected and has hidden in the plot.

use vstd::hash_set::StringHashSet;
use vstd::prelude::*;
#[allow(unused_imports)]
use vstd::string::*;

use crate::history::PlotPoint;
use crate::series::{series_views, PlotSeries, SeriesView};
use crate::settings::text_view;
use crate::text::{contains_text, lowercase, occurs_in, to_lowercase};
use crate::time::Duration;

verus! {

// The filter.

/// The filter lets the SSID through: it is empty, or its lower case occurs in the lower
/// case of the SSID.
pub open spec fn passes_filter(ssid: Seq<char>, filter: Seq<char>) -> bool {
    filter.len() == 0 || occurs_in(lowercase(filter), lowercase(ssid))
}

/// The series that the filter lets through, in their order.
pub open spec fn filtered(series: Seq<SeriesView>, filter: Seq<char>) -> Seq<SeriesView>
    decreases series.len(),
{
    if series.len() == 0 {
        Seq::empty()
    } else {
        let earlier = filtered(series.drop_last(), filter);
        if passes_filter(series.last().ssid, filter) {
            earlier.push(series.last())
        } else {
            earlier
        }
    }
}

/// Whether a filter lets an SSID through, given the lower case of both.
pub fn lowered_filter_matches(lower_ssid: &str, lower_filter: &str, filter_is_empty: bool) -> (passes:
    bool)
    ensures
        passes == (filter_is_empty || occurs_in(lower_filter@, lower_ssid@)),
{
    filter_is_empty || contains_text(lower_ssid, lower_filter)
}

/// Whether a filter lets an SSID through. Upper and lower case make no difference.
pub fn filter_matches(ssid: &str, filter: &str) -> (passes: bool)
    ensures
        passes == passes_filter(ssid@, filter@),
{
    lowered_filter_matches(
        to_lowercase(ssid).as_str(),
        to_lowercase(filter).as_str(),
        filter.is_empty(),
    )
}

/// Keep the series that the filter lets through.
pub fn filter_series(series: Vec<PlotSeries>, filter: &str) -> (kept: Vec<PlotSeries>)
    ensures
        series_views(kept@) == filtered(series_views(series@), filter@),
{
    let ghost views = series_views(series@);
    let mut kept: Vec<PlotSeries> = Vec::new();
    assert(series_views(kept@) =~= filtered(views.take(0), filter@));
    for item in it: series
        invariant
            it.seq() == series@,
            views == series_views(series@),
            series_views(kept@) == filtered(views.take(it.index() as int), filter@),
    {
        let ghost i = it.index() as int;
        let ghost before = kept@;
        assert(item@ == views[i]);
        assert(views.take(i + 1).drop_last() =~= views.take(i));
        if filter_matches(item.ssid.as_str(), filter) {
            kept.push(item);
            assert(series_views(kept@) =~= series_views(before).push(views[i]));
        }
    }
    assert(views.take(series@.len() as int) =~= views);
    kept
}

/// The empty filter lets every series through.
pub proof fn law_empty_filter_keeps_all(series: Seq<SeriesView>)
    ensures
        filtered(series, Seq::empty()) == series,
    decreases series.len(),
{
    if series.len() > 0 {
        law_empty_filter_keeps_all(series.drop_last());
        assert(series =~= series.drop_last().push(series.last()));
    } else {
        assert(filtered(series, Seq::empty()) =~= series);
    }
}

proof fn lemma_filtered_passes(series: Seq<SeriesView>, filter: Seq<char>)
    ensures
        forall|item: SeriesView| #[trigger]
            filtered(series, filter).contains(item) <==> series.contains(item) && passes_filter(
                item.ssid,
                filter,
            ),
    decreases series.len(),
{
    if series.len() > 0 {
        let earlier = series.drop_last();
        let kept = filtered(earlier, filter);
        let all = filtered(series, filter);
        lemma_filtered_passes(earlier, filter);
        assert forall|item: SeriesView| #[trigger]
            all.contains(item) <==> series.contains(item) && passes_filter(item.ssid, filter) by {
            if series.contains(item) && passes_filter(item.ssid, filter) {
                let i = choose|i: int| 0 <= i < series.len() && series[i] == item;
                if i < earlier.len() {
                    assert(earlier[i] == item);
                    assert(kept.contains(item));
                    let k = choose|k: int| 0 <= k < kept.len() && kept[k] == item;
                    assert(all[k] == item);
                } else {
                    assert(all[all.len() - 1] == item);
                }
            }
            if all.contains(item) {
                let k = choose|k: int| 0 <= k < all.len() && all[k] == item;
                if k < kept.len() {
                    assert(kept[k] == item);
                    assert(kept.contains(item));
                    let i = choose|i: int| 0 <= i < earlier.len() && earlier[i] == item;
                    assert(series[i] == item);
                } else {
                    assert(series[series.len() - 1] == item);
                }
            }
        }
    }
}

/// A filter keeps exactly the series whose SSID passes it, and filtering again with it
/// keeps them all.
pub proof fn law_filter_keeps_what_passes(
    series: Seq<SeriesView>,
    filter: Seq<char>,
    item: SeriesView,
)
    ensures
        filtered(series, filter).contains(item) <==> series.contains(item) && passes_filter(
            item.ssid,
            filter,
        ),
        filtered(filtered(series, filter), filter) == filtered(series, filter),
    decreases series.len(),
{
    lemma_filtered_passes(series, filter);
    if series.len() > 0 {
        law_filter_keeps_what_passes(series.drop_last(), filter, item);
        if passes_filter(series.last().ssid, filter) {
            assert(filtered(series, filter).drop_last() =~= filtered(series.drop_last(), filter));
        }
    }
}

// The state.

/// The point under the pointer.
#[derive(Debug)]
pub struct HoveredPoint {
    /// SSID of its series.
    pub ssid: String,
    /// How long ago the signal was observed.
    pub elapsed: Duration,
    /// RSSI signal level in dBm.
    pub signal_level: i32,
}

/// What the user points at, has selected and has hidden.
pub struct PlotInteraction {
    hovered_point: Option<HoveredPoint>,
    selected_ssid: Option<String>,
    hidden_ssids: StringHashSet,
}

/// A [`HoveredPoint`] with its SSID as a character sequence.
#[verifier::ext_equal]
pub struct HoverView {
    pub ssid: Seq<char>,
    pub elapsed: Duration,
    pub signal_level: i32,
}

/// A [`PlotInteraction`] with its texts as character sequences.
#[verifier::ext_equal]
pub struct InteractionView {
    pub hovered: Option<HoverView>,
    pub selected: Option<Seq<char>>,
    pub hidden: Set<Seq<char>>,
}

impl View for HoveredPoint {
    type V = HoverView;

    open spec fn view(&self) -> HoverView {
        HoverView {
            ssid: self.ssid@,
            elapsed: self.elapsed,
            signal_level: self.signal_level,
        }
    }
}

/// The view of an optional hovered point.
pub open spec fn hover_view(point: Option<HoveredPoint>) -> Option<HoverView> {
    match point {
        Some(hovered) => Some(hovered@),
        None => None,
    }
}

impl View for PlotInteraction {
    type V = InteractionView;

    closed spec fn view(&self) -> InteractionView {
        InteractionView {
            hovered: hover_view(self.hovered_point),
            selected: text_view(self.selected_ssid),
            hidden: self.hidden_ssids@,
        }
    }
}

impl InteractionView {
    /// The selected series is never a hidden one.
    pub open spec fn well_formed(self) -> bool {
        self.selected matches Some(ssid) ==> !self.hidden.contains(ssid)
    }

    /// The series of this SSID is drawn.
    pub open spec fn shows(self, ssid: Seq<char>) -> bool {
        !self.hidden.contains(ssid)
    }

    /// The series of this SSID is drawn on top of the others.
    pub open spec fn highlights(self, ssid: Seq<char>) -> bool {
        self.selected == Some(ssid)
    }
}

/// Nothing hovered, selected or hidden.
pub open spec fn no_interaction() -> InteractionView {
    InteractionView { hovered: None, selected: None, hidden: Set::empty() }
}

/// The SSIDs of series.
pub open spec fn series_ssids(series: Seq<SeriesView>) -> Set<Seq<char>>
    decreases series.len(),
{
    if series.len() == 0 {
        Set::empty()
    } else {
        series_ssids(series.drop_last()).insert(series.last().ssid)
    }
}

/// The state after SSIDs without a series have been forgotten as hidden.
pub open spec fn pruned(state: InteractionView, series: Seq<SeriesView>) -> InteractionView {
    InteractionView {
        hovered: state.hovered,
        selected: state.selected,
        hidden: state.hidden.intersect(series_ssids(series)),
    }
}

/// The state after a series has been shown or hidden. A series that is hidden is no
/// longer selected.
pub open spec fn with_visibility(
    state: InteractionView,
    ssid: Seq<char>,
    visible: bool,
) -> InteractionView {
    if visible {
        InteractionView {
            hovered: state.hovered,
            selected: state.selected,
            hidden: state.hidden.remove(ssid),
        }
    } else {
        InteractionView {
            hovered: state.hovered,
            selected: if state.selected == Some(ssid) {
                None
            } else {
                state.selected
            },
            hidden: state.hidden.insert(ssid),
        }
    }
}

/// The positions of the series that are drawn, in their order.
pub open spec fn visible_positions(series: Seq<SeriesView>, state: InteractionView) -> Seq<int>
    decreases series.len(),
{
    if series.len() == 0 {
        Seq::empty()
    } else {
        let earlier = visible_positions(series.drop_last(), state);
        if state.shows(series.last().ssid) {
            earlier.push(series.len() - 1)
        } else {
            earlier
        }
    }
}

/// The positions of the drawn series that are (or are not) highlighted, in their order.
pub open spec fn layer_positions(
    series: Seq<SeriesView>,
    state: InteractionView,
    highlighted: bool,
) -> Seq<int>
    decreases series.len(),
{
    if series.len() == 0 {
        Seq::empty()
    } else {
        let earlier = layer_positions(series.drop_last(), state, highlighted);
        let ssid = series.last().ssid;
        if state.shows(ssid) && state.highlights(ssid) == highlighted {
            earlier.push(series.len() - 1)
        } else {
            earlier
        }
    }
}

/// The positions of the drawn series in the order of drawing: the highlighted one last,
/// on top of the others.
pub open spec fn drawing_positions(series: Seq<SeriesView>, state: InteractionView) -> Seq<int> {
    layer_positions(series, state, false) + layer_positions(series, state, true)
}

/// Positions as integers.
pub open spec fn as_ints(positions: Seq<usize>) -> Seq<int> {
    positions.map_values(|position: usize| position as int)
}

// The point under the pointer.

/// A point of a series and its distance from the pointer. A distance is a number by
/// which distances are ordered, or `None` if it cannot be compared with any other.
pub struct Candidate {
    pub series: int,
    pub point: int,
    pub distance: Option<u64>,
}

/// The nearer of the nearest point so far and one more. The one more has to be strictly
/// nearer.
pub open spec fn nearer(best: Option<Candidate>, next: Candidate) -> Candidate {
    match best {
        None => next,
        Some(found) => match (found.distance, next.distance) {
            (Some(held), Some(offered)) => if offered < held {
                next
            } else {
                found
            },
            _ => found,
        },
    }
}

/// The nearest point after the points of one more series have been looked at.
pub open spec fn nearest_in_series(
    best: Option<Candidate>,
    series: int,
    distances: Seq<Option<u64>>,
) -> Option<Candidate>
    decreases distances.len(),
{
    if distances.len() == 0 {
        best
    } else {
        Some(
            nearer(
                nearest_in_series(best, series, distances.drop_last()),
                Candidate {
                    series,
                    point: distances.len() - 1,
                    distance: distances.last(),
                },
            ),
        )
    }
}

/// The nearest point of the series that are drawn; `distances` holds the distance of
/// each point of each series.
pub open spec fn nearest_candidate(
    series: Seq<SeriesView>,
    state: InteractionView,
    distances: Seq<Seq<Option<u64>>>,
) -> Option<Candidate>
    decreases series.len(),
{
    if series.len() == 0 {
        None
    } else {
        let last = series.len() - 1;
        let best = nearest_candidate(series.drop_last(), state, distances);
        if state.shows(series[last].ssid) {
            nearest_in_series(best, last, distances[last])
        } else {
            best
        }
    }
}

/// What is shown of the nearest point.
pub open spec fn nearest_hover(
    series: Seq<SeriesView>,
    state: InteractionView,
    distances: Seq<Seq<Option<u64>>>,
) -> Option<HoverView> {
    match nearest_candidate(series, state, distances) {
        None => None,
        Some(found) => Some(
            HoverView {
                ssid: series[found.series].ssid,
                elapsed: series[found.series].points[found.point].elapsed,
                signal_level: series[found.series].points[found.point].signal_level,
            },
        ),
    }
}

/// Each point of each series has a distance.
pub open spec fn distances_fit(
    series: Seq<SeriesView>,
    distances: Seq<Seq<Option<u64>>>,
) -> bool {
    &&& distances.len() == series.len()
    &&& forall|i: int|
        0 <= i < series.len() ==> (#[trigger] distances[i]).len() == series[i].points.len()
}

/// The views of rows of distances.
pub open spec fn distance_views(distances: Seq<Vec<Option<u64>>>) -> Seq<Seq<Option<u64>>> {
    distances.map_values(|row: Vec<Option<u64>>| row@)
}

/// The state after a frame in which the pointer was over the plot or not, was clicked or
/// not, and had these distances from the points, if it had a place in the plot at all.
pub open spec fn after_pointer(
    state: InteractionView,
    series: Seq<SeriesView>,
    distances: Option<Seq<Seq<Option<u64>>>>,
    over_plot: bool,
    clicked: bool,
) -> InteractionView {
    let nearest = match distances {
        Some(rows) => nearest_hover(series, state, rows),
        None => None,
    };
    InteractionView {
        hovered: if over_plot {
            nearest
        } else {
            None
        },
        selected: if clicked && nearest is Some {
            Some(nearest->Some_0.ssid)
        } else {
            state.selected
        },
        hidden: state.hidden,
    }
}

proof fn lemma_nearest_in_series(
    best: Option<Candidate>,
    series: int,
    distances: Seq<Option<u64>>,
)
    ensures
        nearest_in_series(best, series, distances) is None <==> best is None && distances.len()
            == 0,
        nearest_in_series(best, series, distances) matches Some(found) ==> best == Some(found) || (
        found.series == series && 0 <= found.point < distances.len() && found.distance
            == distances[found.point]),
    decreases distances.len(),
{
    if distances.len() > 0 {
        lemma_nearest_in_series(best, series, distances.drop_last());
    }
}

proof fn lemma_nearest_candidate(
    series: Seq<SeriesView>,
    state: InteractionView,
    distances: Seq<Seq<Option<u64>>>,
)
    ensures
        nearest_candidate(series, state, distances) matches Some(found) ==> 0 <= found.series
            < series.len() && state.shows(series[found.series].ssid) && 0 <= found.point
            < distances[found.series].len() && found.distance
            == distances[found.series][found.point],
    decreases series.len(),
{
    if series.len() > 0 {
        let last = series.len() - 1;
        lemma_nearest_candidate(series.drop_last(), state, distances);
        let best = nearest_candidate(series.drop_last(), state, distances);
        if state.shows(series[last].ssid) {
            lemma_nearest_in_series(best, last, distances[last]);
        }
    }
}

/// Find the point nearest to the pointer among the series that are drawn.
pub fn nearest_point(
    series: &Vec<PlotSeries>,
    interaction: &PlotInteraction,
    distances: &Vec<Vec<Option<u64>>>,
) -> (nearest: Option<HoveredPoint>)
    requires
        distances_fit(series_views(series@), distance_views(distances@)),
    ensures
        hover_view(nearest) == nearest_hover(
            series_views(series@),
            interaction@,
            distance_views(distances@),
        ),
{
    let ghost views = series_views(series@);
    let ghost rows = distance_views(distances@);
    let ghost state = interaction@;
    let mut best: Option<(usize, usize, Option<u64>)> = None;
    let ghost mut found: Option<Candidate> = None;
    let mut i: usize = 0;
    while i < series.len()
        invariant
            i <= series@.len(),
            views == series_views(series@),
            rows == distance_views(distances@),
            state == interaction@,
            distances_fit(views, rows),
            found == nearest_candidate(views.take(i as int), state, rows),
            candidate_of(best) == found,
        decreases series@.len() - i,
    {
        proof {
            assert(views[i as int] == series@[i as int]@);
            assert(views.take(i + 1).drop_last() =~= views.take(i as int));
            assert(rows[i as int] == distances@[i as int]@);
        }
        if interaction.is_visible(series[i].ssid.as_str()) {
            let row: &Vec<Option<u64>> = &distances[i];
            let ghost start = found;
            let mut j: usize = 0;
            assert(row@.take(0) =~= Seq::empty());
            while j < row.len()
                invariant
                    j <= row@.len(),
                    found == nearest_in_series(start, i as int, row@.take(j as int)),
                    candidate_of(best) == found,
                decreases row@.len() - j,
            {
                assert(row@.take(j + 1).drop_last() =~= row@.take(j as int));
                let distance: Option<u64> = row[j];
                let closer: bool = match best {
                    None => true,
                    Some(held) => match (held.2, distance) {
                        (Some(old), Some(new)) => new < old,
                        _ => false,
                    },
                };
                if closer {
                    best = Some((i, j, distance));
                }
                proof {
                    found = nearest_in_series(start, i as int, row@.take(j + 1));
                }
                j += 1;
            }
            assert(row@.take(j as int) =~= row@);
        }
        i += 1;
    }
    proof {
        assert(views.take(i as int) =~= views);
        lemma_nearest_candidate(views, state, rows);
    }
    match best {
        None => None,
        Some((at, point, _)) => {
            assert(views[at as int] == series@[at as int]@);
            let shown: PlotPoint = series[at].points[point];
            Some(
                HoveredPoint {
                    ssid: series[at].ssid.clone(),
                    elapsed: shown.elapsed,
                    signal_level: shown.signal_level,
                },
            )
        },
    }
}

/// The candidate that a position and a distance make.
spec fn candidate_of(best: Option<(usize, usize, Option<u64>)>) -> Option<Candidate> {
    match best {
        None => None,
        Some(held) => Some(
            Candidate { series: held.0 as int, point: held.1 as int, distance: held.2 },
        ),
    }
}

impl Default for PlotInteraction {
    fn default() -> (interaction: PlotInteraction)
        ensures
            interaction@ == no_interaction(),
            interaction@.well_formed(),
    {
        PlotInteraction {
            hovered_point: None,
            selected_ssid: None,
            hidden_ssids: StringHashSet::new(),
        }
    }
}

impl PlotInteraction {
    /// The point under the pointer.
    pub fn hovered_point(&self) -> (point: Option<&HoveredPoint>)
        ensures
            (match point {
                Some(hovered) => Some(hovered@),
                None => None,
            }) == self@.hovered,
    {
        match &self.hovered_point {
            Some(hovered) => Some(hovered),
            None => None,
        }
    }

    /// Whether the series of this SSID is drawn.
    pub fn is_visible(&self, ssid: &str) -> (visible: bool)
        ensures
            visible == self@.shows(ssid@),
    {
        !self.hidden_ssids.contains(ssid)
    }

    /// Whether the series of this SSID is selected.
    pub fn is_selected(&self, ssid: &String) -> (selected: bool)
        ensures
            selected == self@.highlights(ssid@),
    {
        match &self.selected_ssid {
            Some(chosen) => *chosen == *ssid,
            None => false,
        }
    }

    /// Show or hide the series of this SSID.
    pub fn set_visible(&mut self, ssid: &String, visible: bool)
        ensures
            final(self)@ == with_visibility(old(self)@, ssid@, visible),
            old(self)@.well_formed() ==> final(self)@.well_formed(),
    {
        if visible {
            self.hidden_ssids.remove(ssid.as_str());
        } else {
            let chosen: bool = self.is_selected(ssid);
            self.hidden_ssids.insert(ssid.clone());
            if chosen {
                self.selected_ssid = None;
            }
        }
    }

    /// Forget as hidden the SSIDs that have no series.
    pub fn prune_hidden_series(&mut self, series: &Vec<PlotSeries>)
        ensures
            final(self)@ == pruned(old(self)@, series_views(series@)),
            old(self)@.well_formed() ==> final(self)@.well_formed(),
    {
        let ghost views = series_views(series@);
        let mut kept: StringHashSet = StringHashSet::new();
        let mut i: usize = 0;
        assert(kept@ =~= self.hidden_ssids@.intersect(series_ssids(views.take(0))));
        while i < series.len()
            invariant
                i <= series@.len(),
                views == series_views(series@),
                kept@ == self.hidden_ssids@.intersect(series_ssids(views.take(i as int))),
            decreases series@.len() - i,
        {
            proof {
                assert(views[i as int] == series@[i as int]@);
                assert(views.take(i + 1).drop_last() =~= views.take(i as int));
            }
            if self.hidden_ssids.contains(series[i].ssid.as_str()) {
                kept.insert(series[i].ssid.clone());
            }
            i += 1;
            assert(kept@ =~= self.hidden_ssids@.intersect(series_ssids(views.take(i as int))));
        }
        assert(views.take(i as int) =~= views);
        self.hidden_ssids = kept;
    }

    /// The positions of the series that are drawn.
    pub fn visible_series(&self, series: &Vec<PlotSeries>) -> (positions: Vec<usize>)
        ensures
            as_ints(positions@) == visible_positions(series_views(series@), self@),
    {
        let ghost views = series_views(series@);
        let mut positions: Vec<usize> = Vec::new();
        let mut i: usize = 0;
        assert(as_ints(positions@) =~= visible_positions(views.take(0), self@));
        while i < series.len()
            invariant
                i <= series@.len(),
                views == series_views(series@),
                as_ints(positions@) == visible_positions(views.take(i as int), self@),
            decreases series@.len() - i,
        {
            let ghost before = positions@;
            proof {
                assert(views[i as int] == series@[i as int]@);
                assert(views.take(i + 1).drop_last() =~= views.take(i as int));
            }
            if self.is_visible(series[i].ssid.as_str()) {
                positions.push(i);
                assert(as_ints(positions@) =~= as_ints(before).push(i as int));
            }
            i += 1;
        }
        assert(views.take(i as int) =~= views);
        positions
    }

    /// The positions of the drawn series that are (or are not) selected.
    fn layer(&self, series: &Vec<PlotSeries>, highlighted: bool) -> (positions: Vec<usize>)
        ensures
            as_ints(positions@) == layer_positions(series_views(series@), self@, highlighted),
    {
        let ghost views = series_views(series@);
        let mut positions: Vec<usize> = Vec::new();
        let mut i: usize = 0;
        assert(as_ints(positions@) =~= layer_positions(views.take(0), self@, highlighted));
        while i < series.len()
            invariant
                i <= series@.len(),
                views == series_views(series@),
                as_ints(positions@) == layer_positions(views.take(i as int), self@, highlighted),
            decreases series@.len() - i,
        {
            let ghost before = positions@;
            proof {
                assert(views[i as int] == series@[i as int]@);
                assert(views.take(i + 1).drop_last() =~= views.take(i as int));
            }
            if self.is_visible(series[i].ssid.as_str()) && self.is_selected(&series[i].ssid)
                == highlighted {
                positions.push(i);
                assert(as_ints(positions@) =~= as_ints(before).push(i as int));
            }
            i += 1;
        }
        assert(views.take(i as int) =~= views);
        positions
    }

    /// The positions of the drawn series in the order of drawing: the selected one last.
    pub fn drawing_order(&self, series: &Vec<PlotSeries>) -> (positions: Vec<usize>)
        ensures
            as_ints(positions@) == drawing_positions(series_views(series@), self@),
    {
        let mut positions: Vec<usize> = self.layer(series, false);
        let mut top: Vec<usize> = self.layer(series, true);
        let ghost bottom = positions@;
        let ghost above = top@;
        positions.append(&mut top);
        assert(as_ints(positions@) =~= as_ints(bottom) + as_ints(above));
        positions
    }

    /// Take in what the pointer did in a frame: the nearest drawn point is hovered while
    /// the pointer is over the plot, and a click selects its series.
    pub fn handle_pointer(
        &mut self,
        series: &Vec<PlotSeries>,
        distances: Option<&Vec<Vec<Option<u64>>>>,
        over_plot: bool,
        clicked: bool,
    )
        requires
            distances matches Some(rows) ==> distances_fit(
                series_views(series@),
                distance_views(rows@),
            ),
        ensures
            final(self)@ == after_pointer(
                old(self)@,
                series_views(series@),
                match distances {
                    Some(rows) => Some(distance_views(rows@)),
                    None => None,
                },
                over_plot,
                clicked,
            ),
            old(self)@.well_formed() ==> final(self)@.well_formed(),
    {
        let ghost before = self@;
        let nearest: Option<HoveredPoint> = match distances {
            Some(rows) => {
                proof {
                    lemma_nearest_candidate(series_views(series@), self@, distance_views(rows@));
                }
                nearest_point(series, self, rows)
            },
            None => None,
        };
        if clicked {
            match &nearest {
                Some(point) => {
                    self.selected_ssid = Some(point.ssid.clone());
                },
                None => {},
            }
        }
        self.hovered_point = if over_plot {
            nearest
        } else {
            None
        };
    }
}

// Laws.

/// Whatever the user does, the selected series stays a drawn one.
pub proof fn law_selected_is_never_hidden(
    state: InteractionView,
    series: Seq<SeriesView>,
    ssid: Seq<char>,
    visible: bool,
    distances: Option<Seq<Seq<Option<u64>>>>,
    over_plot: bool,
    clicked: bool,
)
    requires
        state.well_formed(),
    ensures
        pruned(state, series).well_formed(),
        with_visibility(state, ssid, visible).well_formed(),
        after_pointer(state, series, distances, over_plot, clicked).well_formed(),
        no_interaction().well_formed(),
{
    match distances {
        Some(rows) => {
            lemma_nearest_candidate(series, state, rows);
        },
        None => {},
    }
}

/// Showing a series that was hidden brings back what was hidden before.
pub proof fn law_hide_and_show(state: InteractionView, ssid: Seq<char>)
    requires
        state.shows(ssid),
    ensures
        with_visibility(with_visibility(state, ssid, false), ssid, true).hidden == state.hidden,
        !with_visibility(state, ssid, false).shows(ssid),
        with_visibility(state, ssid, true).shows(ssid),
{
    assert(with_visibility(with_visibility(state, ssid, false), ssid, true).hidden
        =~= state.hidden);
}

/// Pruning forgets no hidden SSID that still has a series, and pruning again with the
/// same series changes nothing.
pub proof fn law_pruning(state: InteractionView, series: Seq<SeriesView>, i: int)
    ensures
        0 <= i < series.len() ==> pruned(state, series).shows(series[i].ssid) == state.shows(
            series[i].ssid,
        ),
        pruned(pruned(state, series), series) == pruned(state, series),
{
    if 0 <= i < series.len() {
        lemma_series_ssids(series, i);
    }
    assert(pruned(pruned(state, series), series) =~= pruned(state, series));
}

proof fn lemma_series_ssids(series: Seq<SeriesView>, i: int)
    requires
        0 <= i < series.len(),
    ensures
        series_ssids(series).contains(series[i].ssid),
    decreases series.len(),
{
    if i < series.len() - 1 {
        lemma_series_ssids(series.drop_last(), i);
    }
}

proof fn lemma_layers(series: Seq<SeriesView>, state: InteractionView, position: int)
    ensures
        visible_positions(series, state).contains(position) <==> 0 <= position < series.len()
            && state.shows(series[position].ssid),
        forall|highlighted: bool| #[trigger]
            layer_positions(series, state, highlighted).contains(position) <==> 0 <= position
                < series.len() && state.shows(series[position].ssid) && state.highlights(
                series[position].ssid,
            ) == highlighted,
        layer_positions(series, state, false).len() + layer_positions(series, state, true).len()
            == visible_positions(series, state).len(),
    decreases series.len(),
{
    if series.len() > 0 {
        let earlier = series.drop_last();
        let last = series.len() - 1;
        let ssid = series[last].ssid;
        lemma_layers(earlier, state, position);
        let seen = visible_positions(earlier, state);
        let all = visible_positions(series, state);
        if state.shows(ssid) {
            assert(all[all.len() - 1] == last);
            if seen.contains(position) {
                let k = choose|k: int| 0 <= k < seen.len() && seen[k] == position;
                assert(all[k] == position);
            }
        }
        assert forall|highlighted: bool| #[trigger]
            layer_positions(series, state, highlighted).contains(position) <==> 0 <= position
                < series.len() && state.shows(series[position].ssid) && state.highlights(
                series[position].ssid,
            ) == highlighted by {
            let lower = layer_positions(earlier, state, highlighted);
            let upper = layer_positions(series, state, highlighted);
            if state.shows(ssid) && state.highlights(ssid) == highlighted {
                assert(upper[upper.len() - 1] == last);
                if lower.contains(position) {
                    let k = choose|k: int| 0 <= k < lower.len() && lower[k] == position;
                    assert(upper[k] == position);
                }
            }
        }
    }
}

/// Every visible series is drawn once: the drawing order holds the visible positions, as
/// many of them, with each selected one after each other one.
pub proof fn law_drawing_order(
    series: Seq<SeriesView>,
    state: InteractionView,
    position: int,
)
    ensures
        drawing_positions(series, state).contains(position) <==> visible_positions(
            series,
            state,
        ).contains(position),
        drawing_positions(series, state).len() == visible_positions(series, state).len(),
        forall|a: int, b: int|
            0 <= a < b < drawing_positions(series, state).len() && state.highlights(
                series[#[trigger] drawing_positions(series, state)[a]].ssid,
            ) ==> state.highlights(series[#[trigger] drawing_positions(series, state)[b]].ssid),
{
    let lower = layer_positions(series, state, false);
    let upper = layer_positions(series, state, true);
    let all = drawing_positions(series, state);
    lemma_layers(series, state, position);
    if lower.contains(position) {
        let k = choose|k: int| 0 <= k < lower.len() && lower[k] == position;
        assert(all[k] == position);
    }
    if upper.contains(position) {
        let k = choose|k: int| 0 <= k < upper.len() && upper[k] == position;
        assert(all[lower.len() + k] == position);
    }
    if all.contains(position) {
        let k = choose|k: int| 0 <= k < all.len() && all[k] == position;
        if k < lower.len() {
            assert(lower[k] == position);
        } else {
            assert(upper[k - lower.len()] == position);
        }
    }
    assert forall|a: int, b: int|
        0 <= a < b < all.len() && state.highlights(series[#[trigger] all[a]].ssid) implies state.highlights(
        series[#[trigger] all[b]].ssid,
    ) by {
        if b >= lower.len() {
            assert(upper[b - lower.len()] == all[b]);
            assert(upper.contains(all[b]));
            lemma_layers(series, state, all[b]);
        } else {
            assert(lower[a] == all[a]);
            assert(lower.contains(all[a]));
            lemma_layers(series, state, all[a]);
        }
    }
}

/// Every distance can be compared.
pub open spec fn all_comparable(distances: Seq<Seq<Option<u64>>>) -> bool {
    forall|i: int, p: int|
        0 <= i < distances.len() && 0 <= p < distances[i].len() ==> (#[trigger] distances[i][p])
            is Some
}

proof fn lemma_nearest_in_series_minimal(
    best: Option<Candidate>,
    series: int,
    distances: Seq<Option<u64>>,
)
    requires
        best matches Some(held) ==> held.distance is Some,
        forall|p: int| 0 <= p < distances.len() ==> (#[trigger] distances[p]) is Some,
    ensures
        nearest_in_series(best, series, distances) matches Some(found) ==> {
            &&& found.distance is Some
            &&& best matches Some(held) ==> found.distance->Some_0 <= held.distance->Some_0
            &&& best matches Some(held) ==> best == Some(found) || found.distance->Some_0
                < held.distance->Some_0
            &&& forall|p: int|
                0 <= p < distances.len() ==> found.distance->Some_0 <= (
                #[trigger] distances[p])->Some_0
            &&& best != Some(found) ==> found.series == series && 0 <= found.point
                < distances.len() && forall|p: int|
                0 <= p < found.point ==> found.distance->Some_0 < (#[trigger] distances[p])->Some_0
        },
    decreases distances.len(),
{
    if distances.len() > 0 {
        let earlier = distances.drop_last();
        assert forall|p: int| 0 <= p < earlier.len() implies (#[trigger] earlier[p]) is Some by {
            assert(earlier[p] == distances[p]);
        }
        lemma_nearest_in_series_minimal(best, series, earlier);
        lemma_nearest_in_series(best, series, earlier);
        assert(distances[distances.len() - 1] is Some);
        assert forall|p: int| 0 <= p < earlier.len() implies #[trigger] distances[p]
            == earlier[p] by {}
    }
}

/// Where all distances can be compared, the hovered point is the nearest one of the drawn
/// series, and the first of equally near ones.
pub proof fn law_nearest_is_nearest(
    series: Seq<SeriesView>,
    state: InteractionView,
    distances: Seq<Seq<Option<u64>>>,
)
    requires
        series.len() <= distances.len(),
        all_comparable(distances),
    ensures
        nearest_candidate(series, state, distances) is None <==> forall|i: int|
            0 <= i < series.len() && state.shows((#[trigger] series[i]).ssid)
                ==> distances[i].len() == 0,
        nearest_candidate(series, state, distances) matches Some(found) ==> {
            &&& 0 <= found.series < series.len()
            &&& state.shows(series[found.series].ssid)
            &&& 0 <= found.point < distances[found.series].len()
            &&& found.distance == distances[found.series][found.point]
            &&& forall|i: int, p: int|
                0 <= i < series.len() && state.shows(series[i].ssid) && 0 <= p
                    < distances[i].len() ==> found.distance->Some_0 <= (
                #[trigger] distances[i][p])->Some_0
            &&& forall|i: int, p: int|
                0 <= i < series.len() && state.shows(series[i].ssid) && 0 <= p
                    < distances[i].len() && (i < found.series || i == found.series && p
                    < found.point) ==> found.distance->Some_0 < (
                #[trigger] distances[i][p])->Some_0
        },
    decreases series.len(),
{
    lemma_nearest_candidate(series, state, distances);
    if series.len() > 0 {
        let earlier = series.drop_last();
        let last = series.len() - 1;
        let row = distances[last];
        let best = nearest_candidate(earlier, state, distances);
        law_nearest_is_nearest(earlier, state, distances);
        assert forall|i: int| 0 <= i < earlier.len() implies #[trigger] earlier[i]
            == series[i] by {}
        assert forall|p: int| 0 <= p < row.len() implies (#[trigger] row[p]) is Some by {
            assert(distances[last][p] is Some);
        }
        if best is Some {
            let held = best->Some_0;
            assert(distances[held.series][held.point] is Some);
        }
        if state.shows(series[last].ssid) {
            lemma_nearest_in_series(best, last, row);
            lemma_nearest_in_series_minimal(best, last, row);
            let now = nearest_candidate(series, state, distances);
            if now is Some {
                let found = now->Some_0;
                assert forall|i: int, p: int|
                    0 <= i < series.len() && state.shows(series[i].ssid) && 0 <= p
                        < distances[i].len() implies found.distance->Some_0 <= (
                #[trigger] distances[i][p])->Some_0 by {
                    if i < last {
                        assert(earlier[i] == series[i]);
                        assert(best is Some);
                    } else {
                        assert(row[p] == distances[i][p]);
                    }
                }
                assert forall|i: int, p: int|
                    0 <= i < series.len() && state.shows(series[i].ssid) && 0 <= p
                        < distances[i].len() && (i < found.series || i == found.series && p
                        < found.point) implies found.distance->Some_0 < (
                #[trigger] distances[i][p])->Some_0 by {
                    if i < last {
                        assert(earlier[i] == series[i]);
                        assert(best is Some);
                    } else {
                        assert(row[p] == distances[i][p]);
                        if best == Some(found) {
                            assert(found.series < last);
                        }
                    }
                }
            } else {
                assert forall|i: int|
                    0 <= i < series.len() && state.shows((#[trigger] series[i]).ssid) implies distances[i].len()
                    == 0 by {
                    if i < last {
                        assert(earlier[i] == series[i]);
                    }
                }
            }
            if forall|i: int|
                0 <= i < series.len() && state.shows((#[trigger] series[i]).ssid)
                    ==> distances[i].len() == 0 {
                assert forall|i: int|
                    0 <= i < earlier.len() && state.shows((#[trigger] earlier[i]).ssid) implies distances[i].len()
                    == 0 by {
                    assert(earlier[i] == series[i]);
                }
                assert(state.shows(series[last].ssid));
            }
        } else {
            if forall|i: int|
                0 <= i < earlier.len() && state.shows((#[trigger] earlier[i]).ssid)
                    ==> distances[i].len() == 0 {
                assert forall|i: int|
                    0 <= i < series.len() && state.shows((#[trigger] series[i]).ssid) implies distances[i].len()
                    == 0 by {
                    if i < last {
                        assert(earlier[i] == series[i]);
                    }
                }
            }
            if forall|i: int|
                0 <= i < series.len() && state.shows((#[trigger] series[i]).ssid)
                    ==> distances[i].len() == 0 {
                assert forall|i: int|
                    0 <= i < earlier.len() && state.shows((#[trigger] earlier[i]).ssid) implies distances[i].len()
                    == 0 by {
                    assert(earlier[i] == series[i]);
                }
            }
        }
    }
}

/// The empty filter lets every SSID through; any other those in whose lower case its own
/// lower case stands, with anything before and after it.
pub proof fn law_filter_matches_inside(ssid: Seq<char>, filter: Seq<char>)
    ensures
        filter.len() == 0 ==> passes_filter(ssid, filter),
        filter.len() > 0 ==> (passes_filter(ssid, filter) <==> exists|
            before: Seq<char>,
            after: Seq<char>,
        |
            lowercase(ssid) == #[trigger] (before + lowercase(filter) + after)),
{
    crate::text::law_occurrence_splits_the_text(lowercase(filter), lowercase(ssid));
}

/// A filter leaves the series that pass it as they are and in their order.
pub proof fn law_filter_keeps_the_order(series: Seq<SeriesView>, filter: Seq<char>)
    ensures
        filtered(series, filter) == series.filter(
            |item: SeriesView| passes_filter(item.ssid, filter),
        ),
    decreases series.len(),
{
    reveal(Seq::filter);
    if series.len() > 0 {
        law_filter_keeps_the_order(series.drop_last(), filter);
    }
}

/// A hovered point is seen with all its fields, rows of distances and positions with all
/// their items in order; at first nothing is hovered, selected or hidden.
pub proof fn law_interaction_views_hold_every_field(
    point: HoveredPoint,
    distances: Seq<Vec<Option<u64>>>,
    positions: Seq<usize>,
    ssid: Seq<char>,
)
    ensures
        point@.ssid == point.ssid@,
        point@.elapsed == point.elapsed,
        point@.signal_level == point.signal_level,
        hover_view(Some(point)) == Some(point@),
        hover_view(None) is None,
        distance_views(distances).len() == distances.len(),
        forall|k: int|
            0 <= k < distances.len() ==> #[trigger] distance_views(distances)[k] == distances[k]@,
        as_ints(positions).len() == positions.len(),
        forall|k: int| 0 <= k < positions.len() ==> #[trigger] as_ints(positions)[k] == positions[k],
        no_interaction().hovered is None,
        no_interaction().selected is None,
        !no_interaction().hidden.contains(ssid),
{
}

/// A series is drawn exactly if its SSID is not hidden, and highlighted exactly if its SSID is
/// the selected one. What is selected is in order exactly if it is not hidden.
pub proof fn law_hidden_is_not_drawn(state: InteractionView, ssid: Seq<char>)
    ensures
        state.shows(ssid) <==> !state.hidden.contains(ssid),
        state.highlights(ssid) <==> state.selected is Some && state.selected->Some_0 == ssid,
        state.selected is None ==> state.well_formed(),
        state.selected == Some(ssid) ==> (state.well_formed() <==> !state.hidden.contains(ssid)),
{
}

/// Showing or hiding a series concerns its own SSID alone: every other one stays as it was. A
/// series that is hidden is no longer selected, and what is hovered stays.
pub proof fn law_visibility_concerns_one_ssid(
    state: InteractionView,
    ssid: Seq<char>,
    visible: bool,
    other: Seq<char>,
)
    ensures
        with_visibility(state, ssid, visible).hidden.contains(ssid) <==> !visible,
        other != ssid ==> (with_visibility(state, ssid, visible).hidden.contains(other)
            <==> state.hidden.contains(other)),
        with_visibility(state, ssid, visible).hovered == state.hovered,
        visible || state.selected != Some(ssid) ==> with_visibility(state, ssid, visible).selected
            == state.selected,
        !visible && state.selected == Some(ssid) ==> with_visibility(
            state,
            ssid,
            visible,
        ).selected is None,
{
}

/// Pruning leaves hidden exactly those hidden SSIDs that have a series, and changes nothing
/// else.
pub proof fn law_pruning_keeps_hidden_series(
    state: InteractionView,
    series: Seq<SeriesView>,
    ssid: Seq<char>,
)
    ensures
        pruned(state, series).hidden.contains(ssid) <==> state.hidden.contains(ssid) && exists|
            i: int,
        |
            0 <= i < series.len() && (#[trigger] series[i]).ssid == ssid,
        pruned(state, series).hovered == state.hovered,
        pruned(state, series).selected == state.selected,
{
    lemma_series_ssids_are(series, ssid);
}

proof fn lemma_series_ssids_are(series: Seq<SeriesView>, ssid: Seq<char>)
    ensures
        series_ssids(series).contains(ssid) ==> exists|i: int|
            0 <= i < series.len() && (#[trigger] series[i]).ssid == ssid,
        (exists|i: int| 0 <= i < series.len() && (#[trigger] series[i]).ssid == ssid)
            ==> series_ssids(series).contains(ssid),
    decreases series.len(),
{
    if exists|i: int| 0 <= i < series.len() && (#[trigger] series[i]).ssid == ssid {
        let i = choose|i: int| 0 <= i < series.len() && (#[trigger] series[i]).ssid == ssid;
        lemma_series_ssids(series, i);
    }
    if series.len() > 0 && series_ssids(series).contains(ssid) {
        let earlier = series.drop_last();
        lemma_series_ssids_are(earlier, ssid);
        if series.last().ssid == ssid {
            assert(series[series.len() - 1].ssid == ssid);
        } else {
            let i = choose|i: int| 0 <= i < earlier.len() && (#[trigger] earlier[i]).ssid == ssid;
            assert(series[i].ssid == ssid);
        }
    }
}

proof fn lemma_positions_ascend(series: Seq<SeriesView>, state: InteractionView)
    ensures
        forall|a: int, b: int|
            0 <= a < b < visible_positions(series, state).len() ==> #[trigger] visible_positions(
                series,
                state,
            )[a] < #[trigger] visible_positions(series, state)[b],
        forall|highlighted: bool, a: int, b: int|
            0 <= a < b < layer_positions(series, state, highlighted).len()
                ==> #[trigger] layer_positions(series, state, highlighted)[a]
                < #[trigger] layer_positions(series, state, highlighted)[b],
        forall|a: int|
            0 <= a < visible_positions(series, state).len() ==> 0 <= #[trigger] visible_positions(
                series,
                state,
            )[a] < series.len(),
        forall|highlighted: bool, a: int|
            0 <= a < layer_positions(series, state, highlighted).len()
                ==> 0 <= #[trigger] layer_positions(series, state, highlighted)[a] < series.len(),
    decreases series.len(),
{
    if series.len() > 0 {
        lemma_positions_ascend(series.drop_last(), state);
        let seen = visible_positions(series.drop_last(), state);
        let all = visible_positions(series, state);
        assert forall|a: int| 0 <= a < all.len() implies 0 <= #[trigger] all[a] < series.len() by {
            if a < seen.len() {
                assert(all[a] == seen[a]);
            }
        }
        assert forall|a: int, b: int| 0 <= a < b < all.len() implies #[trigger] all[a]
            < #[trigger] all[b] by {
            assert(all[a] == seen[a]);
            if b < seen.len() {
                assert(all[b] == seen[b]);
            }
        }
        assert forall|highlighted: bool, a: int|
            0 <= a < layer_positions(series, state, highlighted).len() implies 0
            <= #[trigger] layer_positions(series, state, highlighted)[a] < series.len() by {
            let lower = layer_positions(series.drop_last(), state, highlighted);
            if a < lower.len() {
                assert(layer_positions(series, state, highlighted)[a] == lower[a]);
            }
        }
        assert forall|highlighted: bool, a: int, b: int|
            0 <= a < b < layer_positions(
                series,
                state,
                highlighted,
            ).len() implies #[trigger] layer_positions(series, state, highlighted)[a]
            < #[trigger] layer_positions(series, state, highlighted)[b] by {
            let lower = layer_positions(series.drop_last(), state, highlighted);
            assert(layer_positions(series, state, highlighted)[a] == lower[a]);
            if b < lower.len() {
                assert(layer_positions(series, state, highlighted)[b] == lower[b]);
            }
        }
    }
}

/// The positions of the series that are drawn ascend, and are those of the series whose SSID
/// is not hidden.
pub proof fn law_visible_series_ascend(
    series: Seq<SeriesView>,
    state: InteractionView,
    position: int,
)
    ensures
        visible_positions(series, state).contains(position) <==> 0 <= position < series.len()
            && !state.hidden.contains(series[position].ssid),
        forall|a: int, b: int|
            0 <= a < b < visible_positions(series, state).len() ==> #[trigger] visible_positions(
                series,
                state,
            )[a] < #[trigger] visible_positions(series, state)[b],
{
    lemma_positions_ascend(series, state);
    lemma_layers(series, state, position);
}

/// The order of drawing holds the position of each series whose SSID is not hidden. Of two
/// series in it the one that is drawn later is selected and the other is not, or they are
/// both selected or both not, and stand in their order.
pub proof fn law_selected_series_is_drawn_last(
    series: Seq<SeriesView>,
    state: InteractionView,
    position: int,
)
    ensures
        drawing_positions(series, state).contains(position) <==> 0 <= position < series.len()
            && !state.hidden.contains(series[position].ssid),
        forall|a: int, b: int|
            0 <= a < b < drawing_positions(series, state).len() ==> {
                let lower = #[trigger] drawing_positions(series, state)[a];
                let upper = #[trigger] drawing_positions(series, state)[b];
                let under = state.selected == Some(series[lower].ssid);
                let over = state.selected == Some(series[upper].ssid);
                (!under && over) || (under == over && lower < upper)
            },
{
    let below = layer_positions(series, state, false);
    let above = layer_positions(series, state, true);
    let all = drawing_positions(series, state);
    law_drawing_order(series, state, position);
    lemma_layers(series, state, position);
    lemma_positions_ascend(series, state);
    assert forall|a: int, b: int| 0 <= a < b < all.len() implies {
        let lower = #[trigger] all[a];
        let upper = #[trigger] all[b];
        let under = state.selected == Some(series[lower].ssid);
        let over = state.selected == Some(series[upper].ssid);
        (!under && over) || (under == over && lower < upper)
    } by {
        if a < below.len() {
            assert(all[a] == below[a]);
            assert(below.contains(all[a]));
        } else {
            assert(all[a] == above[a - below.len()]);
            assert(above.contains(all[a]));
        }
        if b < below.len() {
            assert(all[b] == below[b]);
            assert(below.contains(all[b]));
        } else {
            assert(all[b] == above[b - below.len()]);
            assert(above.contains(all[b]));
        }
        lemma_layers(series, state, all[a]);
        lemma_layers(series, state, all[b]);
    }
}

proof fn lemma_nearest_in_any_series(
    best: Option<Candidate>,
    series: int,
    distances: Seq<Option<u64>>,
)
    requires
        distances.len() > 0,
    ensures
        nearest_in_series(best, series, distances) is Some,
        ({
            let found = nearest_in_series(best, series, distances)->Some_0;
            let start = if best is Some {
                best->Some_0.distance
            } else {
                distances[0]
            };
            &&& found.distance is Some <==> start is Some
            &&& best is Some && start is None ==> best == Some(found)
            &&& best is None && start is None ==> found.series == series && found.point == 0
            &&& start is Some ==> found.distance->Some_0 <= start->Some_0
            &&& start is Some && best is Some && best != Some(found) ==> found.distance->Some_0
                < start->Some_0
            &&& start is Some ==> forall|p: int|
                0 <= p < distances.len() && (#[trigger] distances[p]) is Some
                    ==> found.distance->Some_0 <= distances[p]->Some_0
            &&& best != Some(found) ==> found.series == series && 0 <= found.point
                < distances.len() && found.distance == distances[found.point]
            &&& start is Some && best != Some(found) ==> forall|p: int|
                0 <= p < found.point && (#[trigger] distances[p]) is Some ==> found.distance->Some_0
                    < distances[p]->Some_0
        }),
    decreases distances.len(),
{
    let earlier = distances.drop_last();
    lemma_nearest_in_series(best, series, distances);
    if earlier.len() > 0 {
        lemma_nearest_in_any_series(best, series, earlier);
        lemma_nearest_in_series(best, series, earlier);
        assert forall|p: int| 0 <= p < earlier.len() implies #[trigger] distances[p]
            == earlier[p] by {}
    } else {
        assert(nearest_in_series(best, series, earlier) == best);
    }
}

/// Whatever the distances are, there is a nearest point exactly if some series that is drawn
/// has a point, and it is a point of such a series. If the very first point of those series
/// has a distance that cannot be compared, it is that one; if not, it is the first of the
/// points that are as near as any other that can be compared.
pub proof fn law_nearest_of_any_distances(
    series: Seq<SeriesView>,
    state: InteractionView,
    distances: Seq<Seq<Option<u64>>>,
)
    ensures
        nearest_candidate(series, state, distances) is Some <==> exists|i: int|
            0 <= i < series.len() && !state.hidden.contains((#[trigger] series[i]).ssid)
                && distances[i].len() > 0,
        nearest_candidate(series, state, distances) matches Some(found) ==> {
            &&& 0 <= found.series < series.len()
            &&& !state.hidden.contains(series[found.series].ssid)
            &&& 0 <= found.point < distances[found.series].len()
            &&& found.distance == distances[found.series][found.point]
            &&& found.distance is None ==> found.point == 0 && forall|i: int|
                0 <= i < found.series && !state.hidden.contains((#[trigger] series[i]).ssid)
                    ==> distances[i].len() == 0
            &&& found.distance is Some ==> exists|first: int|
                {
                    &&& 0 <= first <= found.series
                    &&& !state.hidden.contains((#[trigger] series[first]).ssid)
                    &&& distances[first].len() > 0
                    &&& distances[first][0] is Some
                    &&& forall|i: int|
                        0 <= i < first && !state.hidden.contains((#[trigger] series[i]).ssid)
                            ==> distances[i].len() == 0
                }
            &&& found.distance matches Some(nearest) ==> forall|i: int, p: int|
                0 <= i < series.len() && !state.hidden.contains(series[i].ssid) && 0 <= p
                    < distances[i].len() && (#[trigger] distances[i][p]) is Some ==> if i
                    < found.series || i == found.series && p < found.point {
                    nearest < distances[i][p]->Some_0
                } else {
                    nearest <= distances[i][p]->Some_0
                }
        },
    decreases series.len(),
{
    if series.len() > 0 {
        let earlier = series.drop_last();
        let last = series.len() - 1;
        let row = distances[last];
        let best = nearest_candidate(earlier, state, distances);
        let now = nearest_candidate(series, state, distances);
        law_nearest_of_any_distances(earlier, state, distances);
        lemma_nearest_candidate(series, state, distances);
        assert forall|i: int| 0 <= i < last implies earlier[i] == #[trigger] series[i] by {}
        if best is Some {
            let i = choose|i: int|
                0 <= i < earlier.len() && !state.hidden.contains((#[trigger] earlier[i]).ssid)
                    && distances[i].len() > 0;
            assert(series[i] == earlier[i]);
        } else {
            assert forall|i: int|
                0 <= i < last && !state.hidden.contains(
                    (#[trigger] series[i]).ssid,
                ) implies distances[i].len() == 0 by {
                assert(earlier[i] == series[i]);
            }
        }
        if state.shows(series[last].ssid) && row.len() > 0 {
            lemma_nearest_in_any_series(best, last, row);
            let found = now->Some_0;
            assert(distances[last].len() > 0);
            if best is Some && best->Some_0.distance is Some {
                let first = choose|first: int|
                    {
                        &&& 0 <= first <= best->Some_0.series
                        &&& !state.hidden.contains((#[trigger] earlier[first]).ssid)
                        &&& distances[first].len() > 0
                        &&& distances[first][0] is Some
                        &&& forall|i: int|
                            0 <= i < first && !state.hidden.contains((#[trigger] earlier[i]).ssid)
                                ==> distances[i].len() == 0
                    };
                assert(series[first] == earlier[first]);
            }
            if found.distance is Some {
                let nearest = found.distance->Some_0;
                assert forall|i: int, p: int|
                    0 <= i < series.len() && !state.hidden.contains(series[i].ssid) && 0 <= p
                        < distances[i].len() && (#[trigger] distances[i][p]) is Some implies if i
                    < found.series || i == found.series && p < found.point {
                    nearest < distances[i][p]->Some_0
                } else {
                    nearest <= distances[i][p]->Some_0
                } by {
                    if i < last {
                        assert(earlier[i] == series[i]);
                        assert(best is Some);
                    } else {
                        assert(row[p] == distances[i][p]);
                    }
                }
            }
        } else {
            assert(now == best);
            if now is Some {
                let found = now->Some_0;
                if found.distance is Some {
                    let first = choose|first: int|
                        {
                            &&& 0 <= first <= found.series
                            &&& !state.hidden.contains((#[trigger] earlier[first]).ssid)
                            &&& distances[first].len() > 0
                            &&& distances[first][0] is Some
                            &&& forall|i: int|
                                0 <= i < first && !state.hidden.contains(
                                    (#[trigger] earlier[i]).ssid,
                                ) ==> distances[i].len() == 0
                        };
                    assert(series[first] == earlier[first]);
                }
            }
        }
    }
}

/// What is shown of the nearest point is the SSID of its series, and its own time and signal.
pub proof fn law_nearest_point_is_shown(
    series: Seq<SeriesView>,
    state: InteractionView,
    distances: Seq<Seq<Option<u64>>>,
)
    ensures
        nearest_hover(series, state, distances) is Some <==> nearest_candidate(
            series,
            state,
            distances,
        ) is Some,
        nearest_candidate(series, state, distances) matches Some(found) ==> {
            let shown = nearest_hover(series, state, distances)->Some_0;
            let point = series[found.series].points[found.point];
            &&& shown.ssid == series[found.series].ssid
            &&& shown.elapsed == point.elapsed
            &&& shown.signal_level == point.signal_level
        },
{
}

/// A frame hides nothing and shows nothing. It hovers the nearest point while the pointer is
/// over the plot, and nothing while it is not. A click selects the series of the nearest
/// point; without a click, or without a nearest point, the selection stays.
pub proof fn law_pointer_hovers_and_selects(
    state: InteractionView,
    series: Seq<SeriesView>,
    rows: Seq<Seq<Option<u64>>>,
    over_plot: bool,
    clicked: bool,
)
    ensures
        after_pointer(state, series, Some(rows), over_plot, clicked).hidden == state.hidden,
        after_pointer(state, series, None, over_plot, clicked).hidden == state.hidden,
        over_plot ==> after_pointer(state, series, Some(rows), over_plot, clicked).hovered
            == nearest_hover(series, state, rows),
        !over_plot ==> after_pointer(state, series, Some(rows), over_plot, clicked).hovered is None,
        after_pointer(state, series, None, over_plot, clicked).hovered is None,
        clicked ==> (nearest_hover(series, state, rows) matches Some(shown) ==> after_pointer(
            state,
            series,
            Some(rows),
            over_plot,
            clicked,
        ).selected == Some(shown.ssid)),
        !clicked || nearest_hover(series, state, rows) is None ==> after_pointer(
            state,
            series,
            Some(rows),
            over_plot,
            clicked,
        ).selected == state.selected,
        after_pointer(state, series, None, over_plot, clicked).selected == state.selected,
{
}

} // verus!
