//! Settings of the window that are remembered.
//!
//! Thresholds that are fractions may be any kind of number: they are carried,
//! never compared.

use crate::cache::CacheFile;
use crate::columns::{
    all_velocity_columns, column_of_window, enabled_windows, law_shorter_windows_come_first,
    law_window_names_differ, law_windows_are_shown_where_on, named_seconds, names_window,
    shown_windows, shows_velocity, velocity_columns, window_id, SortColumn,
};
use crate::recipe::{discipline_name, discipline_named, lemma_discipline_named, Discipline};
use crate::simulation::CountLimit;
use crate::text::{contains_same_text, decimal, lists_text, texts, to_decimal, trim, trimmed};
use vstd::prelude::*;
use vstd::string::*;

verus! {

/// Fewest background threads. With none nothing would ever be fetched.
pub const MIN_WORKER_THREADS: u32 = 1;

/// Background threads unless set otherwise.
pub const DEFAULT_WORKER_THREADS: u32 = 4;

/// Most background threads. Beyond them the server is what holds things up.
pub const MAX_WORKER_THREADS: u32 = 16;

/// A number of threads within the bounds.
pub open spec fn clamped_threads(threads: u32) -> u32 {
    if threads < MIN_WORKER_THREADS {
        MIN_WORKER_THREADS
    } else if threads > MAX_WORKER_THREADS {
        MAX_WORKER_THREADS
    } else {
        threads
    }
}

/// The number of threads, brought within the bounds.
pub fn clamp_threads(threads: u32) -> (n: u32)
    ensures
        n == clamped_threads(threads),
        MIN_WORKER_THREADS <= n <= MAX_WORKER_THREADS,
{
    if threads < MIN_WORKER_THREADS {
        MIN_WORKER_THREADS
    } else if threads > MAX_WORKER_THREADS {
        MAX_WORKER_THREADS
    } else {
        threads
    }
}

/// Thresholds for the table. One that is not set lets everything pass.
#[derive(Clone, Debug)]
pub struct FilterValues<T> {
    pub min_velocity: Option<T>,
    /// Short name of the window that the velocity is taken from.
    pub velocity_window: String,
    pub min_profit_pct: Option<T>,
    pub min_profit_copper: Option<i32>,
}

/// The same thresholds.
pub open spec fn same_filters<T>(a: FilterValues<T>, b: FilterValues<T>) -> bool {
    &&& a.min_velocity == b.min_velocity
    &&& a.velocity_window@ == b.velocity_window@
    &&& a.min_profit_pct == b.min_profit_pct
    &&& a.min_profit_copper == b.min_profit_copper
}

/// No thresholds.
pub open spec fn are_default_filters<T>(f: FilterValues<T>) -> bool {
    &&& f.min_velocity is None
    &&& f.velocity_window@ == "24h"@
    &&& f.min_profit_pct is None
    &&& f.min_profit_copper is None
}

impl<T: Copy> FilterValues<T> {
    /// No thresholds.
    pub fn none() -> (f: FilterValues<T>)
        ensures
            are_default_filters(f),
    {
        FilterValues {
            min_velocity: None,
            velocity_window: String::from_str("24h"),
            min_profit_pct: None,
            min_profit_copper: None,
        }
    }

    /// A copy.
    pub fn duplicate(&self) -> (f: FilterValues<T>)
        ensures
            same_filters(f, *self),
    {
        FilterValues {
            min_velocity: self.min_velocity,
            velocity_window: self.velocity_window.clone(),
            min_profit_pct: self.min_profit_pct,
            min_profit_copper: self.min_profit_copper,
        }
    }

    /// Number of thresholds that are set.
    pub fn active(&self) -> (n: usize)
        ensures
            n == active_count(*self),
    {
        let mut n: usize = 0;
        if self.min_velocity.is_some() {
            n += 1;
        }
        if self.min_profit_pct.is_some() {
            n += 1;
        }
        if self.min_profit_copper.is_some() {
            n += 1;
        }
        n
    }
}

/// Number of thresholds that are set.
pub open spec fn active_count<T>(f: FilterValues<T>) -> int {
    (if f.min_velocity is Some {
        1int
    } else {
        0
    }) + (if f.min_profit_pct is Some {
        1int
    } else {
        0
    }) + (if f.min_profit_copper is Some {
        1int
    } else {
        0
    })
}

/// Label of the button that opens the thresholds.
pub fn filters_label(active: usize) -> (text: String)
    ensures
        text@ == (if active > 0 {
            "Filters ("@ + decimal(active as nat) + " active)"@
        } else {
            "Filters"@
        }),
{
    if active > 0 {
        String::from_str("Filters (").concat(to_decimal(active as u64).as_str()).concat(" active)")
    } else {
        String::from_str("Filters")
    }
}

/// What is shown when thresholds have been applied.
pub fn filters_applied_status(active: usize) -> (text: String)
    ensures
        text@ == (if active == 0 {
            "Filters cleared"@
        } else {
            "Filters applied ("@ + decimal(active as nat) + " active)"@
        }),
{
    if active == 0 {
        String::from_str("Filters cleared")
    } else {
        String::from_str("Filters applied (").concat(to_decimal(active as u64).as_str()).concat(
            " active)",
        )
    }
}

/// The window that thresholds are applied to: the one that was picked, or the
/// first one that is switched on where the one that was picked is not.
pub open spec fn applied_window(picked: Seq<char>, enabled: Seq<SortColumn>) -> Seq<char> {
    let windows = shown_windows(enabled);
    if windows.len() == 0 || exists|i: int|
        0 <= i < windows.len() && names_window(#[trigger] windows[i], picked) {
        picked
    } else {
        window_id(windows[0])->0
    }
}

/// The window that thresholds are applied to.
pub fn window_to_apply(picked: &str, enabled: &Vec<SortColumn>) -> (window: String)
    ensures
        window@ == applied_window(picked@, enabled@),
{
    let windows = enabled_windows(enabled);
    proof {
        lemma_windows_are_velocities(enabled@);
    }
    if windows.len() == 0 {
        return String::from_str(picked);
    }
    let mut i: usize = 0;
    while i < windows.len()
        invariant
            windows@ == shown_windows(enabled@),
            i <= windows.len(),
            windows.len() > 0,
            forall|j: int| 0 <= j < i ==> !names_window(#[trigger] windows@[j], picked@),
            forall|j: int| 0 <= j < windows@.len() ==> shows_velocity(#[trigger] windows@[j]),
        decreases windows.len() - i,
    {
        if let Some(id) = windows[i].window() {
            if crate::text::same_text(id, picked) {
                assert(names_window(windows@[i as int], picked@));
                return String::from_str(picked);
            }
        }
        i += 1;
    }
    assert(shows_velocity(windows@[0]));
    match windows[0].window() {
        Some(id) => String::from_str(id),
        None => String::from_str(picked),
    }
}

/// Every window that is switched on shows a velocity.
pub proof fn lemma_windows_are_velocities(enabled: Seq<SortColumn>)
    ensures
        forall|j: int|
            0 <= j < shown_windows(enabled).len() ==> shows_velocity(
                #[trigger] shown_windows(enabled)[j],
            ) && enabled.contains(shown_windows(enabled)[j]),
{
    let keep = |c: SortColumn| enabled.contains(c);
    let shown = shown_windows(enabled);
    assert forall|j: int| 0 <= j < shown.len() implies shows_velocity(#[trigger] shown[j])
        && enabled.contains(shown[j]) by {
        velocity_columns().lemma_filter_pred(keep, j);
        velocity_columns().lemma_filter_contains_rev(keep, shown[j]);
    }
}

/// Thresholds as they are kept in the file.
#[derive(Clone, Debug)]
pub struct ExtraFilters<T> {
    pub min_velocity: Option<T>,
    pub velocity_window: Option<String>,
    pub min_profit_pct: Option<T>,
    pub min_profit_copper: Option<i32>,
}

/// Settings as they are kept in the file. What is missing there keeps its
/// value. Fractions below zero are left out when the file is read.
#[derive(Clone, Debug)]
pub struct GuiPrefs<T> {
    pub sort_by_profit_desc: Option<bool>,
    pub favorites_only: Option<bool>,
    pub disciplines: Option<Vec<String>>,
    pub velocity_windows: Option<Vec<String>>,
    pub worker_threads: Option<u32>,
    pub extra_filters: Option<ExtraFilters<T>>,
}

/// Settings that are remembered.
#[derive(Clone, Debug)]
pub struct Preferences<T> {
    pub sort_by_profit_desc: bool,
    pub favorites_only: bool,
    pub discipline_filter: Vec<Discipline>,
    pub enabled_velocity: Vec<SortColumn>,
    pub worker_threads: u32,
    /// Thresholds that are being edited.
    pub filter_draft: FilterValues<T>,
    /// Thresholds that the table goes by.
    pub filter_applied: FilterValues<T>,
    /// Thresholds in the file.
    pub filter_saved: FilterValues<T>,
}

/// File with the settings.
pub fn prefs_path(cache_dir: &str) -> (file: CacheFile)
    ensures
        file.dir@ == cache_dir@,
        file.name@ == "gui_prefs.json"@,
{
    CacheFile { dir: String::from_str(cache_dir), name: String::from_str("gui_prefs.json") }
}

/// The disciplines with the names, as far as there are any.
pub open spec fn disciplines_named(names: Seq<String>) -> Seq<Discipline> {
    names.filter_map(|n: String| discipline_named(n@))
}

/// The windows that the names stand for, in the order in which they are shown.
pub open spec fn windows_named(names: Seq<String>) -> Seq<SortColumn> {
    velocity_columns().filter(|c: SortColumn| lists_text(names, window_id(c)->0))
}

/// Thresholds as they are read from the file: an unknown window and an amount
/// below zero are left out.
pub open spec fn are_filters_read<T>(f: FilterValues<T>, extra: ExtraFilters<T>) -> bool {
    &&& f.min_velocity == extra.min_velocity
    &&& f.min_profit_pct == extra.min_profit_pct
    &&& f.min_profit_copper == (match extra.min_profit_copper {
        Some(copper) => if copper >= 0 {
            Some(copper)
        } else {
            None
        },
        None => None,
    })
    &&& f.velocity_window@ == (match extra.velocity_window {
        Some(window) => if exists|c: SortColumn| #[trigger] names_window(c, window@) {
            window@
        } else {
            "24h"@
        },
        None => "24h"@,
    })
}

/// Settings after what the file holds has been taken over. The table starts
/// without thresholds, whatever the file holds.
pub open spec fn is_restored<T>(
    now: Preferences<T>,
    before: Preferences<T>,
    prefs: GuiPrefs<T>,
) -> bool {
    &&& now.sort_by_profit_desc == (match prefs.sort_by_profit_desc {
        Some(v) => v,
        None => before.sort_by_profit_desc,
    })
    &&& now.favorites_only == (match prefs.favorites_only {
        Some(v) => v,
        None => before.favorites_only,
    })
    &&& now.discipline_filter@ == (match prefs.disciplines {
        Some(names) => disciplines_named(names@),
        None => before.discipline_filter@,
    })
    &&& now.enabled_velocity@ == (match prefs.velocity_windows {
        Some(names) => windows_named(names@),
        None => before.enabled_velocity@,
    })
    &&& now.worker_threads == (match prefs.worker_threads {
        Some(threads) => clamped_threads(threads),
        None => before.worker_threads,
    })
    &&& match prefs.extra_filters {
        Some(extra) => are_filters_read(now.filter_draft, extra) && are_filters_read(
            now.filter_saved,
            extra,
        ),
        None => now.filter_draft == before.filter_draft && now.filter_saved == before.filter_saved,
    }
    &&& now.filter_applied == before.filter_applied
}

fn disciplines_from(names: &Vec<String>) -> (disciplines: Vec<Discipline>)
    ensures
        disciplines@ == disciplines_named(names@),
{
    let ghost f = |n: String| discipline_named(n@);
    let mut disciplines: Vec<Discipline> = Vec::new();
    let mut i: usize = 0;
    assert(names@.take(0).filter_map(f) =~= Seq::empty());
    while i < names.len()
        invariant
            i <= names.len(),
            f == (|n: String| discipline_named(n@)),
            disciplines@ == names@.take(i as int).filter_map(f),
        decreases names.len() - i,
    {
        assert(names@.take(i + 1).drop_last() =~= names@.take(i as int));
        let ghost before = disciplines@;
        if let Some(d) = Discipline::parse(names[i].as_str()) {
            disciplines.push(d);
            assert(disciplines@ =~= before + seq![d]);
        }
        i += 1;
    }
    assert(names@.take(i as int) =~= names@);
    disciplines
}

fn windows_from(names: &Vec<String>) -> (windows: Vec<SortColumn>)
    ensures
        windows@ == windows_named(names@),
{
    let all = all_velocity_columns();
    let ghost keep = |c: SortColumn| lists_text(names@, window_id(c)->0);
    let mut windows: Vec<SortColumn> = Vec::new();
    let mut i: usize = 0;
    reveal(Seq::filter);
    assert(all@.take(0).filter(keep) =~= Seq::empty());
    while i < all.len()
        invariant
            all@ == velocity_columns(),
            i <= all.len(),
            keep == (|c: SortColumn| lists_text(names@, window_id(c)->0)),
            windows@ == all@.take(i as int).filter(keep),
        decreases all.len() - i,
    {
        proof {
            reveal(Seq::filter);
            assert(all@.take(i + 1).drop_last() =~= all@.take(i as int));
            assert(shows_velocity(all@[i as int]));
        }
        if let Some(id) = all[i].window() {
            if contains_same_text(names, id) {
                windows.push(all[i]);
            }
        }
        i += 1;
    }
    assert(all@.take(i as int) =~= all@);
    windows
}

impl<T: Copy> ExtraFilters<T> {
    /// Thresholds as they are read from the file.
    fn read(&self) -> (f: FilterValues<T>)
        ensures
            are_filters_read(f, *self),
    {
        let velocity_window = match &self.velocity_window {
            Some(window) => match column_of_window(window.as_str()) {
                Some(c) => {
                    assert(names_window(c, window@));
                    window.clone()
                },
                None => String::from_str("24h"),
            },
            None => String::from_str("24h"),
        };
        FilterValues {
            min_velocity: self.min_velocity,
            velocity_window,
            min_profit_pct: self.min_profit_pct,
            min_profit_copper: match self.min_profit_copper {
                Some(copper) => if copper >= 0 {
                    Some(copper)
                } else {
                    None
                },
                None => None,
            },
        }
    }
}

impl<T: Copy> Preferences<T> {
    /// Settings before anything has been set.
    pub fn defaults() -> (p: Preferences<T>)
        ensures
            p.sort_by_profit_desc,
            !p.favorites_only,
            p.discipline_filter@.len() == 0,
            p.enabled_velocity@ == velocity_columns(),
            p.worker_threads == DEFAULT_WORKER_THREADS,
            are_default_filters(p.filter_draft),
            are_default_filters(p.filter_applied),
            are_default_filters(p.filter_saved),
    {
        Preferences {
            sort_by_profit_desc: true,
            favorites_only: false,
            discipline_filter: Vec::new(),
            enabled_velocity: all_velocity_columns(),
            worker_threads: DEFAULT_WORKER_THREADS,
            filter_draft: FilterValues::none(),
            filter_applied: FilterValues::none(),
            filter_saved: FilterValues::none(),
        }
    }

    /// Takes over what the file holds.
    pub fn with_prefs(self, prefs: GuiPrefs<T>) -> (p: Preferences<T>)
        ensures
            is_restored(p, self, prefs),
    {
        let mut p = self;
        if let Some(v) = prefs.sort_by_profit_desc {
            p.sort_by_profit_desc = v;
        }
        if let Some(v) = prefs.favorites_only {
            p.favorites_only = v;
        }
        if let Some(names) = &prefs.disciplines {
            p.discipline_filter = disciplines_from(names);
        }
        if let Some(names) = &prefs.velocity_windows {
            p.enabled_velocity = windows_from(names);
        }
        if let Some(threads) = prefs.worker_threads {
            p.worker_threads = clamp_threads(threads);
        }
        if let Some(extra) = &prefs.extra_filters {
            p.filter_draft = extra.read();
            p.filter_saved = extra.read();
        }
        p
    }
}

/// Names of the disciplines.
pub open spec fn names_of(disciplines: Seq<Discipline>) -> Seq<Seq<char>> {
    disciplines.map_values(|d: Discipline| discipline_name(d))
}

/// Short names of the windows.
pub open spec fn window_ids(windows: Seq<SortColumn>) -> Seq<Seq<char>> {
    windows.map_values(|c: SortColumn| window_id(c)->0)
}

/// What the file is to hold: all settings, and of the thresholds those that
/// were saved, never those that are only being edited.
pub open spec fn is_snapshot<T>(prefs: GuiPrefs<T>, p: Preferences<T>) -> bool {
    &&& prefs.sort_by_profit_desc == Some(p.sort_by_profit_desc)
    &&& prefs.favorites_only == Some(p.favorites_only)
    &&& prefs.disciplines matches Some(names) && texts(names@) == names_of(p.discipline_filter@)
    &&& prefs.velocity_windows matches Some(names) && texts(names@) == window_ids(
        shown_windows(p.enabled_velocity@),
    )
    &&& prefs.worker_threads == Some(p.worker_threads)
    &&& prefs.extra_filters matches Some(extra) && {
        &&& extra.min_velocity == p.filter_saved.min_velocity
        &&& extra.velocity_window matches Some(window) && window@ == p.filter_saved.velocity_window@
        &&& extra.min_profit_pct == p.filter_saved.min_profit_pct
        &&& extra.min_profit_copper == p.filter_saved.min_profit_copper
    }
}

fn to_names(disciplines: &Vec<Discipline>) -> (names: Vec<String>)
    ensures
        texts(names@) == names_of(disciplines@),
{
    let mut names: Vec<String> = Vec::new();
    let mut i: usize = 0;
    assert(texts(names@) =~= names_of(disciplines@.take(0)));
    while i < disciplines.len()
        invariant
            i <= disciplines.len(),
            texts(names@) == names_of(disciplines@.take(i as int)),
        decreases disciplines.len() - i,
    {
        let ghost before = names@;
        let name = String::from_str(disciplines[i].name());
        let ghost text = name@;
        names.push(name);
        assert(texts(names@) =~= texts(before).push(text));
        assert(names_of(disciplines@.take(i + 1)) =~= names_of(disciplines@.take(i as int)).push(
            text,
        ));
        i += 1;
    }
    assert(disciplines@.take(i as int) =~= disciplines@);
    names
}

fn to_window_ids(windows: &Vec<SortColumn>) -> (ids: Vec<String>)
    requires
        forall|j: int| 0 <= j < windows@.len() ==> shows_velocity(#[trigger] windows@[j]),
    ensures
        texts(ids@) == window_ids(windows@),
{
    let mut ids: Vec<String> = Vec::new();
    let mut i: usize = 0;
    assert(texts(ids@) =~= window_ids(windows@.take(0)));
    while i < windows.len()
        invariant
            i <= windows.len(),
            forall|j: int| 0 <= j < windows@.len() ==> shows_velocity(#[trigger] windows@[j]),
            texts(ids@) == window_ids(windows@.take(i as int)),
        decreases windows.len() - i,
    {
        let ghost before = ids@;
        assert(shows_velocity(windows@[i as int]));
        let id = match windows[i].window() {
            Some(id) => String::from_str(id),
            None => String::new(),
        };
        let ghost text = id@;
        ids.push(id);
        assert(texts(ids@) =~= texts(before).push(text));
        assert(window_ids(windows@.take(i + 1)) =~= window_ids(windows@.take(i as int)).push(
            text,
        ));
        i += 1;
    }
    assert(windows@.take(i as int) =~= windows@);
    ids
}

/// Thresholds after they were applied: the table goes by them, and they are
/// what the file is to hold.
pub open spec fn is_applied<T>(now: Preferences<T>, before: Preferences<T>) -> bool {
    let window = applied_window(
        before.filter_draft.velocity_window@,
        before.enabled_velocity@,
    );
    &&& now.filter_draft.velocity_window@ == window
    &&& now.filter_draft.min_velocity == before.filter_draft.min_velocity
    &&& now.filter_draft.min_profit_pct == before.filter_draft.min_profit_pct
    &&& now.filter_draft.min_profit_copper == before.filter_draft.min_profit_copper
    &&& same_filters(now.filter_applied, now.filter_draft)
    &&& same_filters(now.filter_saved, now.filter_draft)
    &&& now.sort_by_profit_desc == before.sort_by_profit_desc
    &&& now.favorites_only == before.favorites_only
    &&& now.discipline_filter == before.discipline_filter
    &&& now.enabled_velocity == before.enabled_velocity
    &&& now.worker_threads == before.worker_threads
}

impl<T: Copy> Preferences<T> {
    /// What the file is to hold.
    pub fn current_prefs(&self) -> (prefs: GuiPrefs<T>)
        ensures
            is_snapshot(prefs, *self),
    {
        let windows = enabled_windows(&self.enabled_velocity);
        proof {
            lemma_windows_are_velocities(self.enabled_velocity@);
        }
        GuiPrefs {
            sort_by_profit_desc: Some(self.sort_by_profit_desc),
            favorites_only: Some(self.favorites_only),
            disciplines: Some(to_names(&self.discipline_filter)),
            velocity_windows: Some(to_window_ids(&windows)),
            worker_threads: Some(self.worker_threads),
            extra_filters: Some(
                ExtraFilters {
                    min_velocity: self.filter_saved.min_velocity,
                    velocity_window: Some(self.filter_saved.velocity_window.clone()),
                    min_profit_pct: self.filter_saved.min_profit_pct,
                    min_profit_copper: self.filter_saved.min_profit_copper,
                },
            ),
        }
    }

    /// Applies the thresholds that were edited.
    pub fn apply_filters(self) -> (p: Preferences<T>)
        ensures
            is_applied(p, self),
    {
        let mut p = self;
        let window = window_to_apply(
            p.filter_draft.velocity_window.as_str(),
            &p.enabled_velocity,
        );
        p.filter_draft.velocity_window = window;
        p.filter_applied = p.filter_draft.duplicate();
        p.filter_saved = p.filter_draft.duplicate();
        p
    }

    /// Drops edits of the thresholds that were not applied.
    pub fn discard_filter_edits(&mut self)
        ensures
            same_filters(final(self).filter_draft, old(self).filter_saved),
            final(self).filter_saved == old(self).filter_saved,
            final(self).filter_applied == old(self).filter_applied,
            final(self).sort_by_profit_desc == old(self).sort_by_profit_desc,
            final(self).favorites_only == old(self).favorites_only,
            final(self).discipline_filter == old(self).discipline_filter,
            final(self).enabled_velocity == old(self).enabled_velocity,
            final(self).worker_threads == old(self).worker_threads,
    {
        self.filter_draft = self.filter_saved.duplicate();
    }
}

/// Thresholds that survive the file: their window is known, and the amount is
/// not below zero.
pub open spec fn are_valid_filters<T>(f: FilterValues<T>) -> bool {
    &&& exists|c: SortColumn| #[trigger] names_window(c, f.velocity_window@)
    &&& f.min_profit_copper matches Some(copper) ==> copper >= 0
}

proof fn lemma_names_read_back(disciplines: Seq<Discipline>, names: Seq<String>)
    requires
        texts(names) == names_of(disciplines),
    ensures
        disciplines_named(names) == disciplines,
    decreases names.len(),
{
    let f = |n: String| discipline_named(n@);
    assert(texts(names).len() == names.len());
    assert(names_of(disciplines).len() == disciplines.len());
    if names.len() == 0 {
        assert(disciplines_named(names) =~= disciplines);
    } else {
        let n: int = names.len() - 1;
        assert(texts(names)[n] == names[n]@);
        assert(names_of(disciplines)[n] == discipline_name(disciplines[n]));
        lemma_discipline_named(disciplines[n]);
        assert(texts(names.drop_last()) =~= texts(names).drop_last());
        assert(names_of(disciplines.drop_last()) =~= names_of(disciplines).drop_last());
        lemma_names_read_back(disciplines.drop_last(), names.drop_last());
        assert(f(names.last()) == Some(disciplines.last()));
        assert(disciplines_named(names) =~= disciplines_named(names.drop_last()) + seq![
            disciplines.last(),
        ]);
        assert(disciplines =~= disciplines.drop_last() + seq![disciplines.last()]);
    }
}

proof fn lemma_same_filter<A>(s: Seq<A>, p: spec_fn(A) -> bool, q: spec_fn(A) -> bool)
    requires
        forall|i: int| 0 <= i < s.len() ==> p(#[trigger] s[i]) == q(s[i]),
    ensures
        s.filter(p) == s.filter(q),
    decreases s.len(),
{
    reveal(Seq::filter);
    if s.len() > 0 {
        let t = s.drop_last();
        assert forall|i: int| 0 <= i < t.len() implies p(#[trigger] t[i]) == q(t[i]) by {
            assert(t[i] == s[i]);
        }
        lemma_same_filter(t, p, q);
    }
}

proof fn lemma_windows_read_back(enabled: Seq<SortColumn>, names: Seq<String>)
    requires
        texts(names) == window_ids(shown_windows(enabled)),
    ensures
        windows_named(names) == shown_windows(enabled),
{
    let shown = shown_windows(enabled);
    let all = velocity_columns();
    let keep = |c: SortColumn| enabled.contains(c);
    let found = |c: SortColumn| lists_text(names, window_id(c)->0);
    lemma_windows_are_velocities(enabled);
    assert(texts(names).len() == names.len());
    assert(window_ids(shown).len() == shown.len());
    assert forall|i: int| 0 <= i < all.len() implies keep(#[trigger] all[i]) == found(all[i]) by {
        let c = all[i];
        assert(shows_velocity(c));
        if keep(c) {
            all.lemma_filter_contains(keep, i);
            let k: int = choose|k: int| 0 <= k < shown.len() && shown[k] == c;
            assert(texts(names)[k] == names[k]@);
            assert(window_ids(shown)[k] == window_id(c)->0);
        }
        if found(c) {
            let k: int = choose|k: int|
                0 <= k < names.len() && (#[trigger] names[k])@ == window_id(c)->0;
            assert(texts(names)[k] == names[k]@);
            assert(window_ids(shown)[k] == window_id(shown[k])->0);
            assert(shows_velocity(shown[k]));
            law_window_names_differ(c, shown[k], window_id(c)->0);
        }
    }
    lemma_same_filter(all, keep, found);
}

/// Settings that are saved and restored are the same settings, but for windows
/// that are listed in the order in which they are shown, a number of threads
/// brought within its bounds, and thresholds that have to be applied anew.
pub proof fn law_settings_survive<T>(
    p: Preferences<T>,
    prefs: GuiPrefs<T>,
    before: Preferences<T>,
    now: Preferences<T>,
)
    requires
        is_snapshot(prefs, p),
        is_restored(now, before, prefs),
        are_valid_filters(p.filter_saved),
    ensures
        now.sort_by_profit_desc == p.sort_by_profit_desc,
        now.favorites_only == p.favorites_only,
        now.discipline_filter@ == p.discipline_filter@,
        now.enabled_velocity@ == shown_windows(p.enabled_velocity@),
        now.worker_threads == clamped_threads(p.worker_threads),
        same_filters(now.filter_saved, p.filter_saved),
        same_filters(now.filter_draft, p.filter_saved),
        now.filter_applied == before.filter_applied,
{
    lemma_names_read_back(p.discipline_filter@, prefs.disciplines->0@);
    lemma_windows_read_back(p.enabled_velocity@, prefs.velocity_windows->0@);
}

/// Edits of the thresholds never reach the file before they are applied.
pub proof fn law_edits_are_not_kept<T>(
    p: Preferences<T>,
    draft: FilterValues<T>,
    prefs: GuiPrefs<T>,
)
    ensures
        is_snapshot(prefs, p) <==> is_snapshot(prefs, Preferences { filter_draft: draft, ..p }),
{
}

/// The limit that a setting of the count stands for, and the entry that keeps
/// it: none where it is switched off, and never less than one.
pub open spec fn count_setting(enabled: bool, count: u32) -> int {
    if !enabled {
        -1
    } else if count < 1 {
        1
    } else {
        count as int
    }
}

/// The setting of the count, and the value to keep for it, where it is switched
/// on.
pub fn set_count_limit(enabled: bool, count: u32) -> (res: (i64, Option<i64>))
    ensures
        res.0 == count_setting(enabled, count),
        res.1 == (if enabled {
            Some(res.0)
        } else {
            None
        }),
{
    if !enabled {
        return (-1, None);
    }
    let value: i64 = if count < 1 {
        1
    } else {
        count as i64
    };
    (value, Some(value))
}

/// Limit on crafts that a setting stands for.
pub open spec fn crafts_allowed(setting: i64) -> CountLimit {
    if setting <= 0 {
        CountLimit::Unlimited
    } else {
        CountLimit::Crafts(setting as u32)
    }
}

/// Limit on units that a setting stands for.
pub open spec fn items_allowed(setting: i64) -> CountLimit {
    if setting < 0 {
        CountLimit::Unlimited
    } else {
        CountLimit::Items(setting as u32)
    }
}

/// Whether a limit is set, and the number to show for it.
pub open spec fn shown_count(setting: i64) -> (bool, u32) {
    (setting > 0, if setting > 0 {
        setting as u32
    } else {
        1
    })
}

/// Limit on crafts that a setting stands for. Without a limit it is zero or
/// less.
pub fn crafts_limit(setting: i64) -> (limit: CountLimit)
    ensures
        limit == (if setting <= 0 {
            CountLimit::Unlimited
        } else {
            CountLimit::Crafts(setting as u32)
        }),
        limit == crafts_allowed(setting),
{
    if setting <= 0 {
        CountLimit::Unlimited
    } else {
        CountLimit::Crafts(setting as u32)
    }
}

/// Limit on units that a setting stands for. Without a limit it is below zero.
pub fn items_limit(setting: i64) -> (limit: CountLimit)
    ensures
        limit == (if setting < 0 {
            CountLimit::Unlimited
        } else {
            CountLimit::Items(setting as u32)
        }),
        limit == items_allowed(setting),
{
    if setting < 0 {
        CountLimit::Unlimited
    } else {
        CountLimit::Items(setting as u32)
    }
}

/// Whether a limit is set, and the number to show for it. Zero or less sets none.
pub fn count_input(setting: i64) -> (res: (bool, u32))
    ensures
        res.0 == (setting > 0),
        res.1 == (if setting > 0 {
            setting as u32
        } else {
            1
        }),
        res == shown_count(setting),
{
    (setting > 0, if setting > 0 {
        setting as u32
    } else {
        1
    })
}

/// The key to keep, without white space at its ends, where there is one.
pub fn api_key_to_keep(input: &str) -> (key: Option<String>)
    ensures
        match key {
            Some(k) => k@ == trimmed(input@) && k@.len() > 0,
            None => trimmed(input@).len() == 0,
        },
{
    let key = trim(input);
    let chars: usize = crate::text::chars_of(key.as_str()).len();
    if chars == 0 {
        None
    } else {
        Some(key)
    }
}

/// The number of threads lies between one and sixteen. A number that does is kept, and
/// more are never fewer.
pub proof fn law_threads_stay_within_bounds(threads: u32, more: u32)
    ensures
        1 <= clamped_threads(threads) <= 16,
        1 <= threads <= 16 ==> clamped_threads(threads) == threads,
        threads <= more ==> clamped_threads(threads) <= clamped_threads(more),
{
}

/// Each threshold that is set counts as one, and the window does not count.
pub proof fn law_each_threshold_counts_once<T>(
    f: FilterValues<T>,
    value: T,
    copper: i32,
    window: String,
)
    ensures
        ({
            let none = FilterValues::<T> {
                min_velocity: None,
                velocity_window: window,
                min_profit_pct: None,
                min_profit_copper: None,
            };
            &&& active_count(none) == 0
            &&& active_count(FilterValues { velocity_window: window, ..f }) == active_count(f)
            &&& active_count(FilterValues { min_velocity: Some(value), ..f }) == active_count(
                FilterValues { min_velocity: None, ..f },
            ) + 1
            &&& active_count(FilterValues { min_profit_pct: Some(value), ..f }) == active_count(
                FilterValues { min_profit_pct: None, ..f },
            ) + 1
            &&& active_count(FilterValues { min_profit_copper: Some(copper), ..f })
                == active_count(FilterValues { min_profit_copper: None, ..f }) + 1
        }),
{
}

/// Thresholds are applied to a window that is switched on, if any is: to the one that
/// was picked, or else to the shortest.
pub proof fn law_applied_window_is_switched_on(
    picked: Seq<char>,
    enabled: Seq<SortColumn>,
    column: SortColumn,
)
    requires
        enabled.contains(column),
        shows_velocity(column),
    ensures
        exists|c: SortColumn| #[trigger]
            names_window(c, applied_window(picked, enabled)) && enabled.contains(c)
                && shows_velocity(c),
        names_window(column, picked) ==> applied_window(picked, enabled) == picked,
        applied_window(picked, enabled) == picked || named_seconds(
            applied_window(picked, enabled),
        ) <= named_seconds(window_id(column)->0),
{
    let windows = shown_windows(enabled);
    law_windows_are_shown_where_on(enabled, column);
    lemma_windows_are_velocities(enabled);
    let k: int = windows.index_of(column);
    assert(windows[k] == column);
    law_shorter_windows_come_first(enabled, 0, k);
    assert(shows_velocity(windows[0]));
    assert(names_window(windows[0], window_id(windows[0])->0));
    if exists|i: int| 0 <= i < windows.len() && names_window(#[trigger] windows[i], picked) {
        let i: int = choose|i: int|
            0 <= i < windows.len() && names_window(#[trigger] windows[i], picked);
        assert(names_window(windows[i], applied_window(picked, enabled)) && enabled.contains(
            windows[i],
        ) && shows_velocity(windows[i]));
    } else {
        assert(applied_window(picked, enabled) == window_id(windows[0])->0);
        assert(names_window(windows[0], applied_window(picked, enabled)) && enabled.contains(
            windows[0],
        ) && shows_velocity(windows[0]));
    }
}

/// Without a window that is switched on the one that was picked stays.
pub proof fn law_picked_window_stays_alone(picked: Seq<char>, enabled: Seq<SortColumn>)
    requires
        forall|c: SortColumn| #[trigger] enabled.contains(c) ==> !shows_velocity(c),
    ensures
        applied_window(picked, enabled) == picked,
{
    lemma_windows_are_velocities(enabled);
    if shown_windows(enabled).len() > 0 {
        assert(shows_velocity(shown_windows(enabled)[0]));
    }
}

/// Thresholds that are read from the file have a window that is known, and no amount
/// below zero. What is right in the file is taken as it is.
pub proof fn law_filters_are_read_as_written<T>(f: FilterValues<T>, extra: ExtraFilters<T>)
    requires
        are_filters_read(f, extra),
    ensures
        f.min_velocity == extra.min_velocity,
        f.min_profit_pct == extra.min_profit_pct,
        f.min_profit_copper matches Some(copper) ==> copper >= 0 && extra.min_profit_copper
            == Some(copper),
        f.min_profit_copper is None ==> (extra.min_profit_copper matches Some(copper) ==> copper
            < 0),
        exists|c: SortColumn| #[trigger] names_window(c, f.velocity_window@),
        extra.velocity_window matches Some(window) ==> (exists|c: SortColumn| #[trigger]
            names_window(c, window@)) ==> f.velocity_window@ == window@,
{
    assert(names_window(SortColumn::Vel24h, "24h"@));
}

/// What is not in the file keeps its value, and what is there is taken over, whatever
/// stood in its place.
pub proof fn law_missing_settings_keep_their_value<T>(
    now: Preferences<T>,
    before: Preferences<T>,
    prefs: GuiPrefs<T>,
)
    requires
        is_restored(now, before, prefs),
    ensures
        prefs.sort_by_profit_desc is None ==> now.sort_by_profit_desc
            == before.sort_by_profit_desc,
        prefs.sort_by_profit_desc matches Some(v) ==> now.sort_by_profit_desc == v,
        prefs.favorites_only is None ==> now.favorites_only == before.favorites_only,
        prefs.favorites_only matches Some(v) ==> now.favorites_only == v,
        prefs.disciplines is None ==> now.discipline_filter@ == before.discipline_filter@,
        prefs.velocity_windows is None ==> now.enabled_velocity@ == before.enabled_velocity@,
        prefs.worker_threads is None ==> now.worker_threads == before.worker_threads,
        prefs.worker_threads matches Some(threads) ==> (1 <= threads <= 16 ==> now.worker_threads
            == threads) && 1 <= now.worker_threads <= 16,
        prefs.extra_filters is None ==> now.filter_draft == before.filter_draft && now.filter_saved
            == before.filter_saved,
        now.filter_applied == before.filter_applied,
{
}

/// A window is restored exactly if its short name is in the file.
pub proof fn law_windows_are_restored_by_name(names: Seq<String>, column: SortColumn)
    requires
        shows_velocity(column),
    ensures
        windows_named(names).contains(column) <==> exists|i: int|
            0 <= i < names.len() && (#[trigger] names[i])@ == window_id(column)->0,
{
    let all = velocity_columns();
    let found = |c: SortColumn| lists_text(names, window_id(c)->0);
    law_windows_are_shown_where_on(seq![column], column);
    assert(seq![column][0] == column);
    assert(all.contains(column)) by {
        let on = |c: SortColumn| seq![column].contains(c);
        all.lemma_filter_contains_rev(on, column);
    }
    if found(column) {
        all.lemma_filter_contains(found, all.index_of(column));
    }
    if windows_named(names).contains(column) {
        all.lemma_filter_pred(found, windows_named(names).index_of(column));
    }
}

/// Thresholds that are applied are those that the table goes by, those that the file
/// is to hold, and those that were edited. Nothing else changes.
pub proof fn law_applied_filters_are_kept<T>(
    now: Preferences<T>,
    before: Preferences<T>,
    prefs: GuiPrefs<T>,
)
    requires
        is_applied(now, before),
        is_snapshot(prefs, now),
    ensures
        now.filter_applied.min_velocity == before.filter_draft.min_velocity,
        now.filter_applied.min_profit_pct == before.filter_draft.min_profit_pct,
        now.filter_applied.min_profit_copper == before.filter_draft.min_profit_copper,
        prefs.extra_filters matches Some(extra) && {
            &&& extra.min_velocity == before.filter_draft.min_velocity
            &&& extra.min_profit_pct == before.filter_draft.min_profit_pct
            &&& extra.min_profit_copper == before.filter_draft.min_profit_copper
            &&& extra.velocity_window matches Some(window) && window@
                == now.filter_applied.velocity_window@
        },
        prefs.sort_by_profit_desc == Some(before.sort_by_profit_desc),
        prefs.favorites_only == Some(before.favorites_only),
        prefs.worker_threads == Some(before.worker_threads),
        now.discipline_filter == before.discipline_filter,
        now.enabled_velocity == before.enabled_velocity,
{
}

/// A limit that is switched on holds, and is shown, as it was set, where it was at
/// least one. A limit that is switched off is none.
pub proof fn law_count_limits_hold_as_set(count: u32)
    ensures
        ({
            let on = count_setting(true, count) as i64;
            let off = count_setting(false, count) as i64;
            &&& count >= 1 ==> crafts_allowed(on) == CountLimit::Crafts(count)
            &&& count >= 1 ==> items_allowed(on) == CountLimit::Items(count)
            &&& count >= 1 ==> shown_count(on) == (true, count)
            &&& count == 0 ==> crafts_allowed(on) == CountLimit::Crafts(1)
            &&& count == 0 ==> items_allowed(on) == CountLimit::Items(1)
            &&& crafts_allowed(off) is Unlimited
            &&& items_allowed(off) is Unlimited
            &&& !shown_count(off).0
            &&& shown_count(off).1 >= 1
        }),
{
}

} // verus!
