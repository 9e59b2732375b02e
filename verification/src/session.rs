//! What the window knows, and how it changes when background work reports back.
//!
//! Work is done elsewhere. Each report is an event; `handle` turns the event
//! into the next state.

use crate::analysis::{are_candidates, Analysis, MarketSnapshot};
use crate::columns::{contains_column, is_hourly, velocity_columns, SortColumn};
use crate::crafting::{CraftedItems, EstimatedCraftingCost, PreciseCraftingCost};
use crate::favorites::{toggle_favorite, toggled};
use crate::listings::ItemListings;
use crate::money::{is_integer_part, lemma_integer_part_is_unique, whole};
use crate::order::{lemma_filter_keeps_order, sorted_distinct};
use crate::profit::{
    is_profit_list, law_lower_margin_keeps_candidates, law_wider_list_keeps_items,
    lemma_contains_push, margin_of, ProfitableItem,
};
use crate::recipe::Discipline;
use crate::simulation::{is_steady, CraftingOptions};
use crate::text::{decimal, to_decimal};
use crate::velocity::{merged, unknown_velocity, Groups, Velocity};
use std::collections::{BTreeMap, HashMap, HashSet};
use vstd::prelude::*;
use vstd::string::*;

verus! {

/// Margins of the wider runs, in copper: they put up with losses down to 50
/// silver, one gold and two gold.
pub const WIDE_50S_COPPER: i64 = -5_000;

pub const WIDE_1G_COPPER: i64 = -10_000;

pub const WIDE_2G_COPPER: i64 = -20_000;

/// What a margin is called.
pub open spec fn margin_label(threshold: i64) -> Seq<char> {
    if threshold == WIDE_50S_COPPER {
        "profit > -50s"@
    } else if threshold == WIDE_1G_COPPER {
        "profit > -1g"@
    } else if threshold == WIDE_2G_COPPER {
        "profit > -2g"@
    } else {
        "profitable"@
    }
}

/// What a margin is called.
pub fn threshold_label(threshold: i64) -> (label: &'static str)
    ensures
        label@ == margin_label(threshold),
{
    if threshold == WIDE_50S_COPPER {
        "profit > -50s"
    } else if threshold == WIDE_1G_COPPER {
        "profit > -1g"
    } else if threshold == WIDE_2G_COPPER {
        "profit > -2g"
    } else {
        "profitable"
    }
}

/// State of the window. `T` is a number of sales, and `D` what is shown of one
/// item.
pub struct Session<T, D> {
    pub running: bool,
    /// Margin of the last run.
    pub last_threshold: i64,
    pub status: String,
    pub items: Vec<ProfitableItem>,
    pub favorites: HashSet<u32>,
    /// Whether the favourites have to be written.
    pub favorites_dirty: bool,
    pub detail_item_id: Option<u32>,
    pub detail_open: bool,
    pub detail_loading: bool,
    pub detail: Option<D>,
    pub velocities: HashMap<u32, Velocity<T>>,
    pub velocities_requested: HashSet<u32>,
    /// Items whose history by the hour has been fetched.
    pub velocity_hourly_done: HashSet<u32>,
    /// Items whose history by the day has been fetched.
    pub velocity_daily_done: HashSet<u32>,
    /// Pictures that have been fetched, out of how many.
    pub prefetch_progress: Option<(usize, usize)>,
}

/// State of the window.
#[verifier::ext_equal]
pub struct SessionState<T, D> {
    pub running: bool,
    pub last_threshold: i64,
    pub status: Seq<char>,
    pub items: Seq<ProfitableItem>,
    pub favorites: Set<u32>,
    pub favorites_dirty: bool,
    pub detail_item_id: Option<u32>,
    pub detail_open: bool,
    pub detail_loading: bool,
    pub detail: Option<D>,
    pub velocities: Map<u32, Velocity<T>>,
    pub velocities_requested: Set<u32>,
    pub velocity_hourly_done: Set<u32>,
    pub velocity_daily_done: Set<u32>,
    pub prefetch_progress: Option<(usize, usize)>,
}

impl<T, D> View for Session<T, D> {
    type V = SessionState<T, D>;

    open spec fn view(&self) -> SessionState<T, D> {
        SessionState {
            running: self.running,
            last_threshold: self.last_threshold,
            status: self.status@,
            items: self.items@,
            favorites: self.favorites@,
            favorites_dirty: self.favorites_dirty,
            detail_item_id: self.detail_item_id,
            detail_open: self.detail_open,
            detail_loading: self.detail_loading,
            detail: self.detail,
            velocities: self.velocities@,
            velocities_requested: self.velocities_requested@,
            velocity_hourly_done: self.velocity_hourly_done@,
            velocity_daily_done: self.velocity_daily_done@,
            prefetch_progress: self.prefetch_progress,
        }
    }
}

/// Report of background work.
pub enum Event<T, D> {
    /// A line for the status.
    Progress(String),
    /// A run is over.
    AnalysisDone(Vec<ProfitableItem>),
    AnalysisError(String),
    /// An item has been looked at.
    ItemDone(u32, D),
    ItemError(u32, String),
    /// A picture has been fetched ahead of time.
    IconCached,
    /// Velocity of an item, and which groups were fetched.
    VelocityLoaded(u32, Option<Velocity<T>>, bool, bool),
}

/// The items of a finished run that are kept: all of them, or in a wider run
/// those whose whole copper lies above the margin.
pub open spec fn kept_items(items: Seq<ProfitableItem>, threshold: i64) -> Seq<ProfitableItem> {
    if threshold < 0 {
        items.filter(|i: ProfitableItem| whole(i.profit@) > threshold)
    } else {
        items
    }
}

/// Status of a finished run.
pub open spec fn done_text(threshold: i64, count: nat) -> Seq<char> {
    if threshold < 0 {
        "Done (wide, "@ + margin_label(threshold) + "): "@ + decimal(count) + " items"@
    } else {
        "Done: "@ + decimal(count) + " profitable items"@
    }
}

/// Velocities with what was fetched for an item taken over.
pub open spec fn with_velocity<T>(
    velocities: Map<u32, Velocity<T>>,
    id: u32,
    fetched: Velocity<T>,
    hourly: bool,
    daily: bool,
) -> Map<u32, Velocity<T>> {
    let known = if velocities.contains_key(id) {
        velocities[id]
    } else {
        unknown_velocity()
    };
    velocities.insert(id, merged(known, fetched, hourly, daily))
}

/// The next state.
pub open spec fn after_event<T, D>(
    s: SessionState<T, D>,
    event: Event<T, D>,
) -> SessionState<T, D> {
    match event {
        Event::Progress(message) => SessionState { status: message@, ..s },
        Event::AnalysisDone(items) => {
            let kept = kept_items(items@, s.last_threshold);
            SessionState {
                items: kept,
                running: false,
                status: done_text(s.last_threshold, kept.len()),
                ..s
            }
        },
        Event::AnalysisError(e) => SessionState {
            running: false,
            status: "Analysis failed: "@ + e@,
            ..s
        },
        Event::ItemDone(id, data) => if s.detail_item_id == Some(id) {
            SessionState { detail: Some(data), detail_loading: false, ..s }
        } else {
            s
        },
        Event::ItemError(id, e) => if s.detail_item_id == Some(id) {
            SessionState {
                detail_loading: false,
                status: "Item analysis failed: "@ + e@,
                ..s
            }
        } else {
            s
        },
        Event::IconCached => match s.prefetch_progress {
            Some((done, total)) => if done + 1 >= total {
                SessionState {
                    status: "Prefetched "@ + decimal(total as nat) + " icons"@,
                    prefetch_progress: None,
                    ..s
                }
            } else {
                SessionState { prefetch_progress: Some(((done + 1) as usize, total)), ..s }
            },
            None => s,
        },
        Event::VelocityLoaded(id, fetched, hourly, daily) => SessionState {
            velocity_hourly_done: if hourly {
                s.velocity_hourly_done.insert(id)
            } else {
                s.velocity_hourly_done
            },
            velocity_daily_done: if daily {
                s.velocity_daily_done.insert(id)
            } else {
                s.velocity_daily_done
            },
            velocities: match fetched {
                Some(v) => with_velocity(s.velocities, id, v, hourly, daily),
                None => s.velocities,
            },
            velocities_requested: s.velocities_requested.remove(id),
            ..s
        },
    }
}

/// Drops the items at or below the margin of a wider run.
pub fn keep_above(items: Vec<ProfitableItem>, threshold: i64) -> (kept: Vec<ProfitableItem>)
    ensures
        kept@ == kept_items(items@, threshold),
{
    if threshold >= 0 {
        return items;
    }
    let ghost all = items@;
    let ghost keep = |i: ProfitableItem| whole(i.profit@) > threshold;
    let mut kept: Vec<ProfitableItem> = Vec::new();
    reveal(Seq::filter);
    assert(all.take(0).filter(keep) =~= Seq::empty());
    for item in it: items
        invariant
            it.seq() == all,
            all == items@,
            keep == (|i: ProfitableItem| whole(i.profit@) > threshold),
            kept@ == all.take(it.index() as int).filter(keep),
    {
        proof {
            reveal(Seq::filter);
            assert(all.take(it.index() + 1).drop_last() =~= all.take(it.index() as int));
            assert(all.take(it.index() + 1).last() == item);
        }
        if item.profit.to_copper_value() > threshold {
            kept.push(item);
        }
    }
    assert(all.take(all.len() as int) =~= all);
    kept
}

fn done_status(threshold: i64, count: usize) -> (s: String)
    ensures
        s@ == done_text(threshold, count as nat),
{
    if threshold < 0 {
        String::from_str("Done (wide, ").concat(threshold_label(threshold)).concat("): ").concat(
            to_decimal(count as u64).as_str(),
        ).concat(" items")
    } else {
        String::from_str("Done: ").concat(to_decimal(count as u64).as_str()).concat(
            " profitable items",
        )
    }
}

/// State before anything has happened.
pub open spec fn first_state<T, D>(favorites: Set<u32>) -> SessionState<T, D> {
    SessionState {
        running: false,
        last_threshold: 0,
        status: "Ready. Click 'Run analysis' to fetch databases and compute profitable items."@,
        items: Seq::empty(),
        favorites,
        favorites_dirty: false,
        detail_item_id: None,
        detail_open: false,
        detail_loading: false,
        detail: None,
        velocities: Map::empty(),
        velocities_requested: Set::empty(),
        velocity_hourly_done: Set::empty(),
        velocity_daily_done: Set::empty(),
        prefetch_progress: None,
    }
}

impl<T, D> Session<T, D> {
    /// State before anything has happened.
    pub fn new(favorites: HashSet<u32>) -> (s: Session<T, D>)
        ensures
            s@ == first_state::<T, D>(favorites@),
    {
        Session {
            running: false,
            last_threshold: 0,
            status: String::from_str(
                "Ready. Click 'Run analysis' to fetch databases and compute profitable items.",
            ),
            items: Vec::new(),
            favorites,
            favorites_dirty: false,
            detail_item_id: None,
            detail_open: false,
            detail_loading: false,
            detail: None,
            velocities: HashMap::new(),
            velocities_requested: HashSet::new(),
            velocity_hourly_done: HashSet::new(),
            velocity_daily_done: HashSet::new(),
            prefetch_progress: None,
        }
    }

    /// Takes over a report.
    pub fn handle(&mut self, event: Event<T, D>)
        ensures
            final(self)@ == after_event(old(self)@, event),
    {
        match event {
            Event::Progress(message) => {
                self.status = message;
            },
            Event::AnalysisDone(items) => {
                self.items = keep_above(items, self.last_threshold);
                self.running = false;
                self.status = done_status(self.last_threshold, self.items.len());
            },
            Event::AnalysisError(e) => {
                self.running = false;
                self.status = String::from_str("Analysis failed: ").concat(e.as_str());
            },
            Event::ItemDone(id, data) => {
                if let Some(shown) = self.detail_item_id {
                    if shown == id {
                        self.detail = Some(data);
                        self.detail_loading = false;
                    }
                }
            },
            Event::ItemError(id, e) => {
                if let Some(shown) = self.detail_item_id {
                    if shown == id {
                        self.detail_loading = false;
                        self.status = String::from_str("Item analysis failed: ").concat(
                            e.as_str(),
                        );
                    }
                }
            },
            Event::IconCached => {
                if let Some((done, total)) = self.prefetch_progress {
                    if total <= 1 || done >= total - 1 {
                        self.status = String::from_str("Prefetched ").concat(
                            to_decimal(total as u64).as_str(),
                        ).concat(" icons");
                        self.prefetch_progress = None;
                    } else {
                        self.prefetch_progress = Some((done + 1, total));
                    }
                }
            },
            Event::VelocityLoaded(id, fetched, hourly, daily) => {
                if hourly {
                    self.velocity_hourly_done.insert(id);
                }
                if daily {
                    self.velocity_daily_done.insert(id);
                }
                if let Some(v) = fetched {
                    let known = match self.velocities.remove(&id) {
                        Some(known) => known,
                        None => Velocity::unknown(),
                    };
                    self.velocities.insert(id, known.merge(v, hourly, daily));
                }
                self.velocities_requested.remove(&id);
                assert(self@ =~= after_event(old(self)@, event));
            },
        }
    }
}

/// A report on one thing never touches another: favourites are never changed by
/// background work, and a run is only ended by its own reports.
pub proof fn law_reports_keep_to_their_subject<T, D>(s: SessionState<T, D>, event: Event<T, D>)
    ensures
        after_event(s, event).favorites == s.favorites,
        after_event(s, event).favorites_dirty == s.favorites_dirty,
        after_event(s, event).last_threshold == s.last_threshold,
        after_event(s, event).detail_item_id == s.detail_item_id,
        after_event(s, event).detail_open == s.detail_open,
        !(event is AnalysisDone) ==> after_event(s, event).items == s.items,
        !(event is AnalysisDone || event is AnalysisError) ==> after_event(s, event).running
            == s.running,
        !(event is VelocityLoaded) ==> after_event(s, event).velocities == s.velocities,
{
}

/// A report on an item that is no longer looked at changes nothing.
pub proof fn law_stale_reports_are_ignored<T, D>(
    s: SessionState<T, D>,
    id: u32,
    data: D,
    e: String,
)
    requires
        s.detail_item_id != Some(id),
    ensures
        after_event(s, Event::ItemDone(id, data)) == s,
        after_event(s, Event::ItemError(id, e)) == s,
{
}

/// A strict run keeps everything that it found, and a wider run keeps nothing at
/// or below its margin.
pub proof fn law_kept_items_lie_above_the_margin(
    items: Seq<ProfitableItem>,
    threshold: i64,
    i: int,
)
    requires
        0 <= i < kept_items(items, threshold).len(),
    ensures
        threshold < 0 ==> whole(kept_items(items, threshold)[i].profit@) > threshold,
        items.contains(kept_items(items, threshold)[i]),
{
    let keep = |x: ProfitableItem| whole(x.profit@) > threshold;
    if threshold < 0 {
        items.lemma_filter_pred(keep, i);
        items.lemma_filter_contains_rev(keep, kept_items(items, threshold)[i]);
    }
}

/// What lies above a whole margin below zero lies above it in whole copper too.
proof fn lemma_whole_stays_above(v: real, margin: int)
    requires
        margin < 0,
        v > margin as real,
    ensures
        whole(v) > margin,
{
    let f: int = v.floor();
    let r: int = if v >= 0 as real || v == f as real {
        f
    } else {
        f + 1
    };
    assert(is_integer_part(v, r));
    lemma_integer_part_is_unique(v, r);
}

/// A wide run shows every item that the normal run on the same market shows, made
/// at least as often, where the search is steady.
pub proof fn law_wide_run_shows_every_item<Q, S>(
    ids: Seq<u32>,
    wide_ids: Seq<u32>,
    analysis: Analysis,
    snapshot: MarketSnapshot,
    estimates: Map<u32, EstimatedCraftingCost>,
    filter: Option<Vec<Discipline>>,
    options: CraftingOptions,
    lower: i64,
    search: Q,
    steps: S,
    list: Vec<ProfitableItem>,
    wide_list: Vec<ProfitableItem>,
    item: ProfitableItem,
) -> (wide_item: ProfitableItem) where
    Q: Fn(u32, &BTreeMap<u32, ItemListings>, &CraftedItems) -> Option<PreciseCraftingCost>,
    S: Fn(&CraftedItems) -> u32,

    requires
        is_steady(search),
        0 <= options.profit_threshold <= i32::MAX,
        i32::MIN <= lower <= options.profit_threshold,
        are_candidates(ids, analysis, snapshot, estimates, filter, options),
        are_candidates(
            wide_ids,
            analysis,
            snapshot,
            estimates,
            filter,
            (CraftingOptions { profit_threshold: lower, ..options }),
        ),
        is_profit_list(
            ids,
            analysis.recipes_map@,
            snapshot.listings@,
            options,
            search,
            steps,
            Ok(list),
        ),
        is_profit_list(
            wide_ids,
            analysis.recipes_map@,
            snapshot.listings@,
            (CraftingOptions { profit_threshold: lower, ..options }),
            search,
            steps,
            Ok(wide_list),
        ),
        kept_items(list@, options.profit_threshold).contains(item),
    ensures
        kept_items(wide_list@, lower).contains(wide_item),
        wide_item.id == item.id,
        wide_item.count >= item.count,
{
    assert forall|id: u32| #[trigger] ids.contains(id) implies wide_ids.contains(id) by {
        law_lower_margin_keeps_candidates(
            snapshot.prices@,
            analysis.recipes_map@,
            analysis.items_map@,
            estimates,
            filter,
            margin_of(options.profit_threshold),
            margin_of(lower),
            options.patient,
            id,
        );
    }
    let i: int = list@.index_of(item);
    let wide_item = law_wider_list_keeps_items(
        ids,
        wide_ids,
        analysis.recipes_map@,
        snapshot.listings@,
        options,
        lower,
        search,
        steps,
        list,
        wide_list,
        i,
    );
    if lower < 0 {
        let keep = |x: ProfitableItem| whole(x.profit@) > lower;
        lemma_whole_stays_above(wide_item.profit@, lower as int);
        wide_list@.lemma_filter_contains(keep, wide_list@.index_of(wide_item));
    }
    wide_item
}

/// State after a run with the margin was asked for. While one is running no
/// other is started.
pub open spec fn after_start<T, D>(s: SessionState<T, D>, threshold: i64) -> SessionState<T, D> {
    if s.running {
        s
    } else {
        SessionState {
            running: true,
            last_threshold: threshold,
            status: if threshold < 0 {
                "Starting wide analysis ("@ + margin_label(threshold) + ")..."@
            } else {
                "Starting analysis..."@
            },
            items: Seq::empty(),
            ..s
        }
    }
}

/// State after an item was picked. Without the databases none can be looked at.
pub open spec fn after_pick<T, D>(
    s: SessionState<T, D>,
    id: u32,
    has_analysis: bool,
) -> SessionState<T, D> {
    if has_analysis {
        SessionState {
            detail_item_id: Some(id),
            detail_open: true,
            detail_loading: true,
            detail: None,
            ..s
        }
    } else {
        s
    }
}

/// A window of one of the groups is switched on.
pub open spec fn needed_groups(enabled: Seq<SortColumn>) -> Groups {
    Groups {
        hourly: exists|c: SortColumn| #[trigger]
            enabled.contains(c) && velocity_columns().contains(c) && is_hourly(c),
        daily: exists|c: SortColumn| #[trigger]
            enabled.contains(c) && velocity_columns().contains(c) && !is_hourly(c),
    }
}

/// The groups that are needed, and that have not been fetched for the item.
pub open spec fn groups_for<T, D>(s: SessionState<T, D>, needed: Groups, id: u32) -> Groups {
    Groups {
        hourly: needed.hourly && !s.velocity_hourly_done.contains(id),
        daily: needed.daily && !s.velocity_daily_done.contains(id),
    }
}

/// Velocity to fetch for an item.
#[derive(Clone, Copy, Debug, PartialEq, Eq, Structural)]
pub struct VelocityJob {
    pub item_id: u32,
    pub groups: Groups,
}

/// What there is to fetch for an item of the list.
pub open spec fn job_for<T, D>(
    s: SessionState<T, D>,
    needed: Groups,
    item: ProfitableItem,
) -> Option<VelocityJob> {
    let groups = groups_for(s, needed, item.id);
    if item.count > 0 && (groups.hourly || groups.daily) {
        Some(VelocityJob { item_id: item.id, groups })
    } else {
        None
    }
}

/// What there is to fetch for the list.
pub open spec fn jobs_for<T, D>(s: SessionState<T, D>, needed: Groups) -> Seq<VelocityJob> {
    s.items.filter_map(|i: ProfitableItem| job_for(s, needed, i))
}

/// The items that the jobs are for.
pub open spec fn job_items(jobs: Seq<VelocityJob>) -> Set<u32> {
    Set::new(|id: u32| exists|i: int| 0 <= i < jobs.len() && (#[trigger] jobs[i]).item_id == id)
}

/// Which groups are needed for the windows that are switched on. A group none of
/// whose windows is switched on is never asked for.
pub fn groups_needed(enabled: &Vec<SortColumn>) -> (needed: Groups)
    ensures
        needed == needed_groups(enabled@),
{
    let all = crate::columns::all_velocity_columns();
    let mut hourly = false;
    let mut daily = false;
    let mut i: usize = 0;
    while i < all.len()
        invariant
            all@ == velocity_columns(),
            i <= all.len(),
            hourly == exists|j: int|
                0 <= j < i && enabled@.contains(#[trigger] all@[j]) && is_hourly(all@[j]),
            daily == exists|j: int|
                0 <= j < i && enabled@.contains(#[trigger] all@[j]) && !is_hourly(all@[j]),
        decreases all.len() - i,
    {
        let column = all[i];
        if contains_column(enabled, column) {
            if column == SortColumn::Vel6h || column == SortColumn::Vel12h || column
                == SortColumn::Vel24h {
                hourly = true;
            } else {
                daily = true;
            }
        }
        i += 1;
    }
    proof {
        let all = velocity_columns();
        if needed_groups(enabled@).hourly {
            let c = choose|c: SortColumn| #[trigger]
                enabled@.contains(c) && all.contains(c) && is_hourly(c);
            let k: int = choose|k: int| 0 <= k < all.len() && all[k] == c;
            assert(enabled@.contains(all[k]));
        }
        if needed_groups(enabled@).daily {
            let c = choose|c: SortColumn| #[trigger]
                enabled@.contains(c) && all.contains(c) && !is_hourly(c);
            let k: int = choose|k: int| 0 <= k < all.len() && all[k] == c;
            assert(enabled@.contains(all[k]));
        }
    }
    Groups { hourly, daily }
}

impl<T, D> Session<T, D> {
    /// Starts a run with the margin, unless one is running. Returns whether it
    /// was started.
    pub fn begin_analysis(&mut self, threshold: i64) -> (started: bool)
        ensures
            started == !old(self).running,
            final(self)@ == after_start(old(self)@, threshold),
    {
        if self.running {
            return false;
        }
        self.running = true;
        self.last_threshold = threshold;
        self.status = if threshold < 0 {
            String::from_str("Starting wide analysis (").concat(threshold_label(threshold)).concat(
                ")...",
            )
        } else {
            String::from_str("Starting analysis...")
        };
        self.items = Vec::new();
        true
    }

    /// Opens the window of an item. Returns whether the item is to be looked at.
    pub fn request_item_detail(&mut self, item_id: u32, has_analysis: bool) -> (requested: bool)
        ensures
            requested == has_analysis,
            final(self)@ == after_pick(old(self)@, item_id, has_analysis),
    {
        if !has_analysis {
            return false;
        }
        self.detail_item_id = Some(item_id);
        self.detail_open = true;
        self.detail_loading = true;
        self.detail = None;
        true
    }

    fn groups_missing(&self, needed: Groups, id: u32) -> (groups: Groups)
        ensures
            groups == groups_for(self@, needed, id),
    {
        Groups {
            hourly: needed.hourly && !self.velocity_hourly_done.contains(&id),
            daily: needed.daily && !self.velocity_daily_done.contains(&id),
        }
    }

    /// Finds what there is to fetch for the list, and takes note of it.
    pub fn velocity_jobs(&mut self, enabled: &Vec<SortColumn>) -> (jobs: Vec<VelocityJob>)
        ensures
            jobs@ == jobs_for(old(self)@, needed_groups(enabled@)),
            final(self)@ == (SessionState {
                velocities_requested: old(self)@.velocities_requested.union(job_items(jobs@)),
                ..old(self)@
            }),
    {
        let needed: Groups = groups_needed(enabled);
        let ghost start = self@;
        let ghost f = |i: ProfitableItem| job_for(start, needed, i);
        let mut jobs: Vec<VelocityJob> = Vec::new();
        let mut i: usize = 0;
        assert(start.items.take(0).filter_map(f) =~= Seq::empty());
        while i < self.items.len()
            invariant
                i <= self.items.len(),
                self@ == start,
                f == (|x: ProfitableItem| job_for(start, needed, x)),
                jobs@ == start.items.take(i as int).filter_map(f),
            decreases self.items.len() - i,
        {
            assert(start.items.take(i + 1).drop_last() =~= start.items.take(i as int));
            assert(start.items.take(i + 1).last() == self.items@[i as int]);
            let id: u32 = self.items[i].id;
            let groups = self.groups_missing(needed, id);
            if self.items[i].count > 0 && (groups.hourly || groups.daily) {
                let ghost before = jobs@;
                let job = VelocityJob { item_id: id, groups };
                jobs.push(job);
                assert(jobs@ =~= before + seq![job]);
            }
            i += 1;
        }
        assert(start.items.take(i as int) =~= start.items);
        let mut k: usize = 0;
        assert(self@.velocities_requested =~= start.velocities_requested.union(
            job_items(jobs@.take(0)),
        ));
        while k < jobs.len()
            invariant
                k <= jobs.len(),
                self@ == (SessionState {
                    velocities_requested: start.velocities_requested.union(
                        job_items(jobs@.take(k as int)),
                    ),
                    ..start
                }),
            decreases jobs.len() - k,
        {
            let ghost before = self@.velocities_requested;
            self.velocities_requested.insert(jobs[k].item_id);
            proof {
                let now = jobs@.take(k + 1);
                let earlier = jobs@.take(k as int);
                assert forall|id: u32| job_items(now).contains(id) <==> job_items(
                    earlier,
                ).contains(id) || id == jobs@[k as int].item_id by {
                    if job_items(earlier).contains(id) {
                        let j: int = choose|j: int|
                            0 <= j < earlier.len() && (#[trigger] earlier[j]).item_id == id;
                        assert(now[j].item_id == id);
                    }
                    if id == jobs@[k as int].item_id {
                        assert(now[k as int].item_id == id);
                    }
                    if job_items(now).contains(id) {
                        let j: int = choose|j: int|
                            0 <= j < now.len() && (#[trigger] now[j]).item_id == id;
                        if j < k {
                            assert(earlier[j].item_id == id);
                        }
                    }
                }
                assert(self@.velocities_requested =~= start.velocities_requested.union(
                    job_items(now),
                ));
                assert(self@ =~= (SessionState {
                    velocities_requested: start.velocities_requested.union(job_items(now)),
                    ..start
                }));
            }
            k += 1;
        }
        assert(jobs@.take(k as int) =~= jobs@);
        jobs
    }

    /// Finds what there is to fetch for one item that is looked at, and takes
    /// note of it. There is nothing where it is being fetched already.
    pub fn request_item_velocity(&mut self, item_id: u32, enabled: &Vec<SortColumn>) -> (job:
        Option<Groups>)
        ensures
            ({
                let groups = groups_for(old(self)@, needed_groups(enabled@), item_id);
                let wanted = !old(self)@.velocities_requested.contains(item_id) && (groups.hourly
                    || groups.daily);
                &&& job == (if wanted {
                    Some(groups)
                } else {
                    None
                })
                &&& final(self)@ == (if wanted {
                    SessionState {
                        velocities_requested: old(self)@.velocities_requested.insert(item_id),
                        ..old(self)@
                    }
                } else {
                    old(self)@
                })
            }),
    {
        if self.velocities_requested.contains(&item_id) {
            return None;
        }
        let groups = self.groups_missing(groups_needed(enabled), item_id);
        if !groups.hourly && !groups.daily {
            return None;
        }
        self.velocities_requested.insert(item_id);
        Some(groups)
    }

    /// Takes the item out of the favourites if it is one, and puts it in if not.
    pub fn toggle_favorite(&mut self, item_id: u32)
        ensures
            final(self)@ == (SessionState {
                favorites: toggled(old(self)@.favorites, item_id),
                favorites_dirty: true,
                ..old(self)@
            }),
    {
        toggle_favorite(&mut self.favorites, item_id);
        self.favorites_dirty = true;
    }

    /// Whether pictures can be fetched ahead of time now: not while they are
    /// being fetched, and not before the databases are there.
    pub fn can_prefetch(&self, has_analysis: bool) -> (b: bool)
        ensures
            b == (self.prefetch_progress is None && has_analysis),
    {
        self.prefetch_progress.is_none() && has_analysis
    }

    /// Starts fetching so many pictures ahead of time. Returns whether there are
    /// any.
    pub fn begin_prefetch(&mut self, missing: usize) -> (started: bool)
        ensures
            started == (missing > 0),
            final(self)@ == (if missing == 0 {
                SessionState { status: "All icons are already cached"@, ..old(self)@ }
            } else {
                SessionState {
                    status: "Prefetching "@ + decimal(missing as nat) + " icons..."@,
                    prefetch_progress: Some((0, missing)),
                    ..old(self)@
                }
            }),
    {
        if missing == 0 {
            self.status = String::from_str("All icons are already cached");
            return false;
        }
        self.status = String::from_str("Prefetching ").concat(
            to_decimal(missing as u64).as_str(),
        ).concat(" icons...");
        self.prefetch_progress = Some((0, missing));
        true
    }

    /// Whether background work is under way, so that the window has to be drawn
    /// again.
    pub fn is_busy(&self, pending_icons: usize) -> (b: bool)
        ensures
            b == (self.running || self.detail_loading || pending_icons > 0
                || !self.velocities_requested@.is_empty() || self.prefetch_progress is Some),
    {
        self.running || self.detail_loading || pending_icons > 0
            || !self.velocities_requested.is_empty() || self.prefetch_progress.is_some()
    }

    /// The items whose pictures are fetched ahead of time: those in the list and
    /// the favourites, each once, in ascending order.
    pub fn prefetch_ids(&self) -> (ids: Vec<u32>)
        ensures
            forall|i: int, j: int|
                0 <= i < j < ids@.len() ==> (#[trigger] ids@[i]) < (#[trigger] ids@[j]),
            forall|id: u32| #[trigger]
                ids@.contains(id) <==> self.favorites@.contains(id) || lists_item(self.items@, id),
    {
        let mut ids: Vec<u32> = Vec::new();
        let mut i: usize = 0;
        while i < self.items.len()
            invariant
                i <= self.items.len(),
                forall|id: u32| #[trigger]
                    ids@.contains(id) <==> lists_item(self.items@.take(i as int), id),
            decreases self.items.len() - i,
        {
            let ghost before = ids@;
            let id: u32 = self.items[i].id;
            ids.push(id);
            proof {
                let earlier = self.items@.take(i as int);
                let now = self.items@.take(i + 1);
                assert(now =~= earlier.push(self.items@[i as int]));
                assert forall|x: u32| #[trigger] ids@.contains(x) <==> lists_item(now, x) by {
                    lemma_contains_push(before, id, x);
                    lemma_lists_pushed(earlier, self.items@[i as int], x);
                }
            }
            i += 1;
        }
        assert(self.items@.take(i as int) =~= self.items@);
        let ghost listed = ids@;
        let ghost favorites = self.favorites@;
        for favorite in it: self.favorites.iter()
            invariant
                favorites == self.favorites@,
                it.seq().unref().to_set() == favorites,
                forall|id: u32| #[trigger]
                    favorites.contains(id) ==> it.seq().unref().contains(id),
                forall|id: u32| #[trigger]
                    ids@.contains(id) ==> listed.contains(id) || favorites.contains(id),
                forall|id: u32| #[trigger] listed.contains(id) ==> ids@.contains(id),
                forall|k: int|
                    0 <= k < it.index() ==> ids@.contains(#[trigger] it.seq().unref()[k]),
        {
            let ghost before = ids@;
            ids.push(*favorite);
            proof {
                let k: int = it.index() as int;
                assert(it.seq().unref()[k] == *favorite);
                assert(it.seq().unref().to_set().contains(*favorite));
                assert forall|x: u32| #[trigger] ids@.contains(x) <==> before.contains(x) || x
                    == *favorite by {
                    lemma_contains_push(before, *favorite, x);
                }
            }
        }
        proof {
            assert forall|id: u32| #[trigger] favorites.contains(id) implies ids@.contains(id) by {}
            assert forall|id: u32| #[trigger] ids@.contains(id) <==> favorites.contains(id)
                || lists_item(self.items@, id) by {
                assert(listed.contains(id) <==> lists_item(self.items@, id));
            }
        }
        sorted_distinct(ids)
    }
}

/// The item is in the list.
pub open spec fn lists_item(items: Seq<ProfitableItem>, id: u32) -> bool {
    exists|i: int| 0 <= i < items.len() && (#[trigger] items[i]).id == id
}

proof fn lemma_lists_pushed(items: Seq<ProfitableItem>, more: ProfitableItem, id: u32)
    ensures
        lists_item(items.push(more), id) <==> lists_item(items, id) || more.id == id,
{
    let all = items.push(more);
    if lists_item(items, id) {
        let i: int = choose|i: int| 0 <= i < items.len() && (#[trigger] items[i]).id == id;
        assert(all[i].id == id);
    }
    if more.id == id {
        assert(all[items.len() as int].id == id);
    }
    if lists_item(all, id) {
        let i: int = choose|i: int| 0 <= i < all.len() && (#[trigger] all[i]).id == id;
        if i < items.len() {
            assert(items[i].id == id);
        }
    }
}

/// Once a group has been fetched for an item it is not asked for again.
pub proof fn law_groups_are_fetched_once<T, D>(
    s: SessionState<T, D>,
    id: u32,
    fetched: Option<Velocity<T>>,
    hourly: bool,
    daily: bool,
    needed: Groups,
)
    ensures
        hourly ==> !groups_for(
            after_event(s, Event::VelocityLoaded(id, fetched, hourly, daily)),
            needed,
            id,
        ).hourly,
        daily ==> !groups_for(
            after_event(s, Event::VelocityLoaded(id, fetched, hourly, daily)),
            needed,
            id,
        ).daily,
{
}

/// A run that is over is no longer running. In a run with a margin below zero exactly
/// the items stay whose whole copper lies above it, and in any other all of them. They
/// stay in their order, and their number is reported.
pub proof fn law_finished_run_is_shown<T, D>(
    s: SessionState<T, D>,
    found: Vec<ProfitableItem>,
    i: int,
)
    requires
        0 <= i < found@.len(),
    ensures
        ({
            let now = after_event(s, Event::AnalysisDone(found));
            &&& !now.running
            &&& s.last_threshold >= 0 ==> now.items == found@
            &&& s.last_threshold < 0 ==> (now.items.contains(found@[i]) <==> whole(
                found@[i].profit@,
            ) > s.last_threshold)
            &&& (forall|a: int, b: int|
                #![trigger found@[a], found@[b]]
                0 <= a < b < found@.len() ==> found@[a].profit@ <= found@[b].profit@) ==> (forall|
                a: int,
                b: int,
            |
                #![trigger now.items[a], now.items[b]]
                0 <= a < b < now.items.len() ==> now.items[a].profit@ <= now.items[b].profit@)
            &&& s.last_threshold >= 0 ==> now.status == "Done: "@ + decimal(now.items.len())
                + " profitable items"@
            &&& s.last_threshold < 0 ==> now.status == "Done (wide, "@ + margin_label(
                s.last_threshold,
            ) + "): "@ + decimal(now.items.len()) + " items"@
        }),
{
    let margin = s.last_threshold;
    let keep = |x: ProfitableItem| whole(x.profit@) > margin;
    let now = after_event(s, Event::AnalysisDone(found));
    if margin < 0 {
        if keep(found@[i]) {
            found@.lemma_filter_contains(keep, i);
        }
        if now.items.contains(found@[i]) {
            found@.lemma_filter_pred(keep, now.items.index_of(found@[i]));
        }
        let before = |x: ProfitableItem, y: ProfitableItem| x.profit@ <= y.profit@;
        if forall|a: int, b: int|
            #![trigger found@[a], found@[b]]
            0 <= a < b < found@.len() ==> found@[a].profit@ <= found@[b].profit@ {
            lemma_filter_keeps_order(found@, keep, before);
            assert forall|a: int, b: int|
                #![trigger now.items[a], now.items[b]]
                0 <= a < b < now.items.len() implies now.items[a].profit@ <= now.items[b].profit@ by {
                assert(before(found@.filter(keep)[a], found@.filter(keep)[b]));
            }
        }
    }
}

/// A run that failed is over too. What the last one found stays, and the reason is
/// told.
pub proof fn law_failed_run_is_told<T, D>(s: SessionState<T, D>, e: String)
    ensures
        !after_event(s, Event::AnalysisError(e)).running,
        after_event(s, Event::AnalysisError(e)).items == s.items,
        e@.is_suffix_of(after_event(s, Event::AnalysisError(e)).status),
{
    let status = after_event(s, Event::AnalysisError(e)).status;
    assert(status.subrange(status.len() - e@.len(), status.len() as int) =~= e@);
}

/// What was found of the item that is looked at is shown, and nothing more is waited
/// for. Where that failed the reason is told, and what was shown stays.
pub proof fn law_report_on_the_item_is_shown<T, D>(
    s: SessionState<T, D>,
    id: u32,
    data: D,
    e: String,
)
    requires
        s.detail_item_id == Some(id),
    ensures
        after_event(s, Event::ItemDone(id, data)).detail == Some(data),
        !after_event(s, Event::ItemDone(id, data)).detail_loading,
        after_event(s, Event::ItemDone(id, data)).status == s.status,
        after_event(s, Event::ItemError(id, e)).detail == s.detail,
        !after_event(s, Event::ItemError(id, e)).detail_loading,
        e@.is_suffix_of(after_event(s, Event::ItemError(id, e)).status),
{
    let status = after_event(s, Event::ItemError(id, e)).status;
    assert(status.subrange(status.len() - e@.len(), status.len() as int) =~= e@);
}

/// State after so many pictures have arrived.
pub open spec fn after_pictures<T, D>(s: SessionState<T, D>, count: nat) -> SessionState<T, D>
    decreases count,
{
    if count == 0 {
        s
    } else {
        after_event(after_pictures(s, (count - 1) as nat), Event::IconCached)
    }
}

/// Pictures are counted one by one, and fetching them is over with the last, not
/// before.
pub proof fn law_pictures_are_counted<T, D>(s: SessionState<T, D>, total: usize, count: nat)
    requires
        s.prefetch_progress == Some((0usize, total)),
        count <= total,
        total > 0,
    ensures
        count < total ==> after_pictures(s, count).prefetch_progress == Some(
            (count as usize, total),
        ) && after_pictures(s, count).status == s.status,
        count == total ==> after_pictures(s, count).prefetch_progress is None,
        count == total ==> after_pictures(s, count).status == "Prefetched "@ + decimal(
            total as nat,
        ) + " icons"@,
    decreases count,
{
    if count > 0 {
        law_pictures_are_counted(s, total, (count - 1) as nat);
    }
}

/// What was fetched of the sales of an item goes into its own windows of the groups
/// that were fetched. Other items, and the other windows, stay as they were. The item
/// is no longer waited for.
pub proof fn law_velocities_are_taken_over<T, D>(
    s: SessionState<T, D>,
    id: u32,
    fetched: Velocity<T>,
    hourly: bool,
    daily: bool,
    other: u32,
)
    requires
        other != id,
    ensures
        ({
            let now = after_event(s, Event::VelocityLoaded(id, Some(fetched), hourly, daily));
            let v = now.velocities[id];
            let known = s.velocities[id];
            &&& now.velocities.contains_key(id)
            &&& hourly ==> v.h6 == fetched.h6 && v.h12 == fetched.h12 && v.h24 == fetched.h24
            &&& daily ==> v.d7 == fetched.d7 && v.w2 == fetched.w2 && v.m1 == fetched.m1 && v.m3
                == fetched.m3 && v.m6 == fetched.m6 && v.y1 == fetched.y1 && v.y2 == fetched.y2
            &&& !hourly && s.velocities.contains_key(id) ==> v.h6 == known.h6 && v.h12 == known.h12
                && v.h24 == known.h24
            &&& !daily && s.velocities.contains_key(id) ==> v.d7 == known.d7 && v.w2 == known.w2
                && v.m1 == known.m1 && v.m3 == known.m3 && v.m6 == known.m6 && v.y1 == known.y1
                && v.y2 == known.y2
            &&& !hourly && !s.velocities.contains_key(id) ==> v.h6 is None && v.h12 is None
                && v.h24 is None
            &&& !daily && !s.velocities.contains_key(id) ==> v.d7 is None && v.w2 is None
                && v.m1 is None && v.m3 is None && v.m6 is None && v.y1 is None && v.y2 is None
            &&& now.velocities.contains_key(other) == s.velocities.contains_key(other)
            &&& now.velocities[other] == s.velocities[other]
        }),
{
}

/// A report on the sales of an item ends the wait for it and for no other, whether or
/// not anything was found. The groups that were fetched are marked for the item alone.
pub proof fn law_velocity_report_ends_the_wait<T, D>(
    s: SessionState<T, D>,
    id: u32,
    fetched: Option<Velocity<T>>,
    hourly: bool,
    daily: bool,
    other: u32,
)
    requires
        other != id,
    ensures
        ({
            let now = after_event(s, Event::VelocityLoaded(id, fetched, hourly, daily));
            &&& !now.velocities_requested.contains(id)
            &&& now.velocities_requested.contains(other) == s.velocities_requested.contains(other)
            &&& now.velocity_hourly_done.contains(id) == (hourly
                || s.velocity_hourly_done.contains(id))
            &&& now.velocity_daily_done.contains(id) == (daily
                || s.velocity_daily_done.contains(id))
            &&& now.velocity_hourly_done.contains(other) == s.velocity_hourly_done.contains(other)
            &&& now.velocity_daily_done.contains(other) == s.velocity_daily_done.contains(other)
            &&& fetched is None ==> now.velocities == s.velocities
            &&& now.status == s.status
            &&& now.prefetch_progress == s.prefetch_progress
        }),
{
}

/// A run that is started has the margin that was asked for, and starts with an empty
/// list. While one is running nothing happens. What is known of items stays.
pub proof fn law_one_run_at_a_time<T, D>(s: SessionState<T, D>, threshold: i64)
    ensures
        after_start(s, threshold).running,
        s.running ==> after_start(s, threshold) == s,
        !s.running ==> after_start(s, threshold).last_threshold == threshold,
        !s.running ==> after_start(s, threshold).items.len() == 0,
        after_start(s, threshold).favorites == s.favorites,
        after_start(s, threshold).favorites_dirty == s.favorites_dirty,
        after_start(s, threshold).velocities == s.velocities,
        after_start(s, threshold).velocities_requested == s.velocities_requested,
        after_start(s, threshold).velocity_hourly_done == s.velocity_hourly_done,
        after_start(s, threshold).velocity_daily_done == s.velocity_daily_done,
        after_start(s, threshold).detail == s.detail,
        after_start(s, threshold).detail_item_id == s.detail_item_id,
        after_start(s, threshold).prefetch_progress == s.prefetch_progress,
{
}

/// An item that is picked is the one that is looked at: a report on it is shown, and
/// until it comes nothing of the one before is.
pub proof fn law_picked_item_is_looked_at<T, D>(s: SessionState<T, D>, id: u32, data: D)
    ensures
        ({
            let picked = after_pick(s, id, true);
            &&& picked.detail is None && picked.detail_loading && picked.detail_open
            &&& picked.detail_item_id == Some(id)
            &&& after_event(picked, Event::ItemDone(id, data)).detail == Some(data)
            &&& picked.running == s.running && picked.items == s.items && picked.velocities
                == s.velocities && picked.favorites == s.favorites && picked.status == s.status
        }),
        after_pick(s, id, false) == s,
{
}

/// The history by the hour is needed exactly for the windows of hours, and the one by
/// the day for all others.
pub proof fn law_windows_need_their_history(enabled: Seq<SortColumn>)
    ensures
        needed_groups(enabled).hourly <==> enabled.contains(SortColumn::Vel6h) || enabled.contains(
            SortColumn::Vel12h,
        ) || enabled.contains(SortColumn::Vel24h),
        needed_groups(enabled).daily <==> enabled.contains(SortColumn::Vel7d) || enabled.contains(
            SortColumn::Vel2w,
        ) || enabled.contains(SortColumn::Vel1m) || enabled.contains(SortColumn::Vel3m)
            || enabled.contains(SortColumn::Vel6m) || enabled.contains(SortColumn::Vel1y)
            || enabled.contains(SortColumn::Vel2y),
{
    let all = velocity_columns();
    assert(all[0] == SortColumn::Vel6h && all[1] == SortColumn::Vel12h && all[2]
        == SortColumn::Vel24h && all[3] == SortColumn::Vel7d && all[4] == SortColumn::Vel2w
        && all[5] == SortColumn::Vel1m && all[6] == SortColumn::Vel3m && all[7]
        == SortColumn::Vel6m && all[8] == SortColumn::Vel1y && all[9] == SortColumn::Vel2y);
}

proof fn lemma_jobs_are<T, D>(
    s: SessionState<T, D>,
    needed: Groups,
    items: Seq<ProfitableItem>,
    job: VelocityJob,
)
    ensures
        items.filter_map(|i: ProfitableItem| job_for(s, needed, i)).contains(job) <==> exists|
            i: int,
        |
            0 <= i < items.len() && job_for(s, needed, #[trigger] items[i]) == Some(job),
    decreases items.len(),
{
    let f = |i: ProfitableItem| job_for(s, needed, i);
    let jobs = items.filter_map(f);
    if items.len() > 0 {
        let rest = items.drop_last();
        let earlier = rest.filter_map(f);
        lemma_jobs_are(s, needed, rest, job);
        match f(items.last()) {
            Some(last) => {
                assert(jobs =~= earlier.push(last));
                if earlier.contains(job) {
                    assert(jobs[earlier.index_of(job)] == job);
                }
                if last == job {
                    assert(jobs[earlier.len() as int] == job);
                }
                if jobs.contains(job) {
                    let k: int = jobs.index_of(job);
                    if k < earlier.len() {
                        assert(earlier[k] == job);
                    }
                }
            },
            None => {
                assert(jobs =~= earlier);
            },
        }
        if exists|i: int| 0 <= i < rest.len() && f(#[trigger] rest[i]) == Some(job) {
            let i: int = choose|i: int| 0 <= i < rest.len() && f(#[trigger] rest[i]) == Some(job);
            assert(items[i] == rest[i]);
        }
        if exists|i: int| 0 <= i < items.len() && f(#[trigger] items[i]) == Some(job) {
            let i: int = choose|i: int| 0 <= i < items.len() && f(#[trigger] items[i]) == Some(job);
            if i < rest.len() {
                assert(rest[i] == items[i]);
            }
        }
    }
}

/// A job fetches what a window needs, and what has not been fetched, of an item of the
/// list that can be made at least once. Every such item has its job.
pub proof fn law_jobs_fetch_what_is_missing<T, D>(
    s: SessionState<T, D>,
    needed: Groups,
    job: VelocityJob,
)
    ensures
        jobs_for(s, needed).contains(job) <==> {
            &&& exists|i: int|
                0 <= i < s.items.len() && (#[trigger] s.items[i]).id == job.item_id
                    && s.items[i].count > 0
            &&& job.groups.hourly || job.groups.daily
            &&& job.groups.hourly <==> needed.hourly && !s.velocity_hourly_done.contains(
                job.item_id,
            )
            &&& job.groups.daily <==> needed.daily && !s.velocity_daily_done.contains(job.item_id)
        },
        jobs_for(s, needed).contains(job) ==> job_items(jobs_for(s, needed)).contains(job.item_id),
{
    lemma_jobs_are(s, needed, s.items, job);
    if exists|i: int|
        0 <= i < s.items.len() && (#[trigger] s.items[i]).id == job.item_id && s.items[i].count
            > 0 {
        let i: int = choose|i: int|
            0 <= i < s.items.len() && (#[trigger] s.items[i]).id == job.item_id && s.items[i].count
                > 0;
        let groups = groups_for(s, needed, job.item_id);
        if groups.hourly || groups.daily {
            assert(job_for(s, needed, s.items[i]) == Some(
                VelocityJob { item_id: job.item_id, groups },
            ));
        }
    }
    if jobs_for(s, needed).contains(job) {
        let k: int = jobs_for(s, needed).index_of(job);
        assert(jobs_for(s, needed)[k].item_id == job.item_id);
    }
}

/// What is noted as asked for is an item that there is a job for, and nothing else.
pub proof fn law_only_jobs_are_noted(jobs: Seq<VelocityJob>, i: int, id: u32)
    ensures
        0 <= i < jobs.len() ==> job_items(jobs).contains(jobs[i].item_id),
        (forall|k: int| 0 <= k < jobs.len() ==> (#[trigger] jobs[k]).item_id != id) ==> !job_items(
            jobs,
        ).contains(id),
{
}

/// The name of a wide margin gives the loss that it puts up with, in gold or silver.
pub proof fn law_margin_is_named_by_its_loss(threshold: i64)
    ensures
        margin_label(threshold) == "profitable"@ || (exists|n: nat|
            threshold == -10_000 * n && margin_label(threshold) == "profit > -"@ + #[trigger] decimal(
                n,
            ) + "g"@) || (exists|n: nat|
            threshold == -100 * n && margin_label(threshold) == "profit > -"@ + #[trigger] decimal(
                n,
            ) + "s"@),
        threshold == -5_000 || threshold == -10_000 || threshold == -20_000 ==> margin_label(
            threshold,
        ) != "profitable"@,
{
    reveal_strlit("profitable");
    reveal_strlit("profit > -");
    reveal_strlit("profit > -50s");
    reveal_strlit("profit > -1g");
    reveal_strlit("profit > -2g");
    reveal_strlit("g");
    reveal_strlit("s");
    reveal_with_fuel(decimal, 3);
    if threshold == -5_000 {
        assert(decimal(50) =~= seq!['5', '0']);
        assert(margin_label(threshold) =~= "profit > -"@ + decimal(50) + "s"@);
        assert(margin_label(threshold).len() != "profitable"@.len());
    } else if threshold == -10_000 {
        assert(decimal(1) =~= seq!['1']);
        assert(margin_label(threshold) =~= "profit > -"@ + decimal(1) + "g"@);
        assert(margin_label(threshold).len() != "profitable"@.len());
    } else if threshold == -20_000 {
        assert(decimal(2) =~= seq!['2']);
        assert(margin_label(threshold) =~= "profit > -"@ + decimal(2) + "g"@);
        assert(margin_label(threshold).len() != "profitable"@.len());
    }
}

/// At first nothing is going on, nothing is known, and only the favourites are there.
pub proof fn law_first_state_is_idle<T, D>(favorites: Set<u32>, id: u32)
    ensures
        ({
            let s = first_state::<T, D>(favorites);
            &&& s.favorites == favorites && !s.favorites_dirty
            &&& !s.running && s.items.len() == 0 && s.last_threshold == 0
            &&& s.detail is None && s.detail_item_id is None && !s.detail_open
                && !s.detail_loading
            &&& !s.velocities.contains_key(id) && !s.velocities_requested.contains(id)
            &&& !s.velocity_hourly_done.contains(id) && !s.velocity_daily_done.contains(id)
            &&& s.prefetch_progress is None
        }),
{
}

} // verus!
