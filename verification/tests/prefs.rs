use gw2_arbitrage::columns::{all_velocity_columns, SortColumn};
use gw2_arbitrage::prefs::{
    api_key_to_keep, clamp_threads, count_input, crafts_limit, filters_applied_status,
    filters_label, items_limit, prefs_path, set_count_limit, window_to_apply, ExtraFilters,
    FilterValues, GuiPrefs, Preferences,
};
use gw2_arbitrage::recipe::Discipline;
use gw2_arbitrage::simulation::CountLimit;

fn no_prefs() -> GuiPrefs<u32> {
    GuiPrefs {
        sort_by_profit_desc: None,
        favorites_only: None,
        disciplines: None,
        velocity_windows: None,
        worker_threads: None,
        extra_filters: None,
    }
}

fn strings(texts: &[&str]) -> Option<Vec<String>> {
    Some(texts.iter().map(|t| t.to_string()).collect())
}

#[test]
fn defaults() {
    let p: Preferences<u32> = Preferences::defaults().with_prefs(no_prefs());
    assert!(p.sort_by_profit_desc);
    assert!(!p.favorites_only);
    assert!(p.discipline_filter.is_empty());
    assert_eq!(p.enabled_velocity, all_velocity_columns());
    assert_eq!(p.worker_threads, 4);
    assert_eq!(p.filter_applied.velocity_window, "24h");
    assert_eq!(p.filter_applied.active(), 0);
    assert_eq!(prefs_path("c").name, "gui_prefs.json");
}

#[test]
fn kept_preferences_are_read_with_care() {
    let p = Preferences::defaults().with_prefs(GuiPrefs {
        sort_by_profit_desc: Some(false),
        favorites_only: Some(true),
        disciplines: strings(&["Chef", "Baker", "Tailor"]),
        velocity_windows: strings(&["2y", "never", "6h"]),
        worker_threads: Some(0),
        extra_filters: Some(ExtraFilters {
            min_velocity: Some(7u32),
            velocity_window: Some("never".to_string()),
            min_profit_pct: None,
            min_profit_copper: Some(-1),
        }),
    });
    assert!(!p.sort_by_profit_desc);
    assert!(p.favorites_only);
    assert_eq!(p.discipline_filter, vec![Discipline::Chef, Discipline::Tailor]);
    assert_eq!(p.enabled_velocity, vec![SortColumn::Vel6h, SortColumn::Vel2y]);
    assert_eq!(p.worker_threads, 1);
    assert_eq!(p.filter_draft.min_velocity, Some(7));
    assert_eq!(p.filter_saved.velocity_window, "24h");
    assert_eq!(p.filter_saved.min_profit_copper, None);
    // nothing is applied until the user says so
    assert_eq!(p.filter_applied.active(), 0);
}

#[test]
fn settings_survive_a_restart() {
    let mut p: Preferences<u32> = Preferences::defaults();
    p.favorites_only = true;
    p.discipline_filter = vec![Discipline::Scribe];
    p.enabled_velocity = vec![SortColumn::Vel7d];
    p.worker_threads = 9;
    p.filter_draft = FilterValues {
        min_velocity: Some(3),
        velocity_window: "7d".to_string(),
        min_profit_pct: None,
        min_profit_copper: Some(50),
    };
    // edits are not kept before they are applied
    let kept = p.current_prefs().extra_filters.unwrap();
    assert_eq!((kept.min_velocity, kept.min_profit_copper), (None, None));
    let p = p.apply_filters();
    assert_eq!(p.filter_applied.active(), 2);
    let again = Preferences::defaults().with_prefs(p.current_prefs());
    assert!(again.favorites_only);
    assert_eq!(again.discipline_filter, vec![Discipline::Scribe]);
    assert_eq!(again.enabled_velocity, vec![SortColumn::Vel7d]);
    assert_eq!(again.worker_threads, 9);
    assert_eq!(again.filter_saved.min_velocity, Some(3));
    assert_eq!(again.filter_saved.velocity_window, "7d");
    assert_eq!(again.filter_saved.min_profit_copper, Some(50));
}

#[test]
fn edits_can_be_discarded() {
    let mut p: Preferences<u32> = Preferences::defaults();
    p.filter_draft.min_profit_copper = Some(1);
    p.discard_filter_edits();
    assert_eq!(p.filter_draft.min_profit_copper, None);
    let copy = p.filter_draft.duplicate();
    assert_eq!(copy.velocity_window, "24h");
}

#[test]
fn windows_that_are_off_are_not_applied() {
    assert_eq!(window_to_apply("24h", &vec![SortColumn::Vel24h]), "24h");
    assert_eq!(window_to_apply("24h", &vec![SortColumn::Vel2y, SortColumn::Vel7d]), "7d");
    assert_eq!(window_to_apply("24h", &vec![]), "24h");
    let mut p: Preferences<u32> = Preferences::defaults();
    p.enabled_velocity = vec![SortColumn::Vel1m];
    let p = p.apply_filters();
    assert_eq!(p.filter_saved.velocity_window, "1m");
}

#[test]
fn labels_of_filters() {
    assert_eq!(filters_label(0), "Filters");
    assert_eq!(filters_label(2), "Filters (2 active)");
    assert_eq!(filters_applied_status(0), "Filters cleared");
    assert_eq!(filters_applied_status(3), "Filters applied (3 active)");
}

#[test]
fn limits() {
    assert_eq!(clamp_threads(0), 1);
    assert_eq!(clamp_threads(8), 8);
    assert_eq!(clamp_threads(99), 16);
    assert_eq!(set_count_limit(true, 0), (1, Some(1)));
    assert_eq!(set_count_limit(true, 7), (7, Some(7)));
    assert_eq!(set_count_limit(false, 7), (-1, None));
    assert_eq!(crafts_limit(-1), CountLimit::Unlimited);
    assert_eq!(crafts_limit(0), CountLimit::Unlimited);
    assert_eq!(crafts_limit(3), CountLimit::Crafts(3));
    assert_eq!(items_limit(-1), CountLimit::Unlimited);
    assert_eq!(items_limit(3), CountLimit::Items(3));
    assert_eq!(count_input(-1), (false, 1));
    assert_eq!(count_input(0), (false, 1));
    assert_eq!(count_input(5), (true, 5));
}

#[test]
fn keys_are_trimmed() {
    assert_eq!(api_key_to_keep(" abc \n"), Some("abc".to_string()));
    assert_eq!(api_key_to_keep(" \t"), None);
}
