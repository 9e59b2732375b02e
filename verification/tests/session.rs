use gw2_arbitrage::columns::{all_velocity_columns, SortColumn};
use gw2_arbitrage::crafting::CraftedItems;
use gw2_arbitrage::money::Money;
use gw2_arbitrage::profit::ProfitableItem;
use gw2_arbitrage::session::{
    groups_needed, keep_above, threshold_label, Event, Session, WIDE_1G_COPPER, WIDE_2G_COPPER,
    WIDE_50S_COPPER,
};
use gw2_arbitrage::velocity::Velocity;
use std::collections::HashSet;

fn item(id: u32, profit: i32) -> ProfitableItem {
    let m = Money::from_copper;
    ProfitableItem {
        id,
        crafting_cost: m(1),
        count: 1,
        profit: m(profit),
        max_sell: m(1),
        min_sell: m(1),
        breakeven: m(1),
        crafting_steps: 1,
        crafted_items: CraftedItems::none(),
    }
}

fn session() -> Session<u32, char> {
    Session::new(HashSet::from([9]))
}

#[test]
fn modes_have_labels() {
    assert_eq!(threshold_label(0), "profitable");
    assert_eq!(threshold_label(WIDE_50S_COPPER), "profit > -50s");
    assert_eq!(threshold_label(WIDE_1G_COPPER), "profit > -1g");
    assert_eq!(threshold_label(WIDE_2G_COPPER), "profit > -2g");
}

#[test]
fn an_analysis_runs_once() {
    let mut s = session();
    assert!(!s.running);
    assert!(s.begin_analysis(0));
    assert_eq!(s.status, "Starting analysis...");
    assert!(!s.begin_analysis(WIDE_1G_COPPER));
    assert!(s.is_busy(0));
    s.handle(Event::AnalysisDone(vec![item(1, 5), item(2, -5)]));
    assert_eq!(s.status, "Done: 2 profitable items");
    assert!(!s.running);
    assert!(s.begin_analysis(WIDE_1G_COPPER));
    assert_eq!(s.status, "Starting wide analysis (profit > -1g)...");
    assert!(s.items.is_empty());
    s.handle(Event::Progress("Fetching x".to_string()));
    assert_eq!(s.status, "Fetching x");
    s.handle(Event::AnalysisDone(vec![item(1, -10_000), item(2, -9_999)]));
    assert_eq!(s.status, "Done (wide, profit > -1g): 1 items");
    assert_eq!(s.items[0].id, 2);
    s.begin_analysis(0);
    s.handle(Event::AnalysisError("no".to_string()));
    assert_eq!(s.status, "Analysis failed: no");
    assert!(!s.running);
}

#[test]
fn only_items_above_the_margin_are_kept() {
    let kept = keep_above(vec![item(1, -1), item(2, 0), item(3, 1), item(4, -2)], -1);
    let ids: Vec<u32> = kept.iter().map(|i| i.id).collect();
    assert_eq!(ids, vec![2, 3]);
}

#[test]
fn details_of_other_items_are_ignored() {
    let mut s = session();
    assert!(!s.request_item_detail(5, false));
    assert_eq!(s.detail_item_id, None);
    assert!(s.request_item_detail(5, true));
    assert!(s.detail_loading && s.detail_open);
    s.handle(Event::ItemDone(4, 'x'));
    assert!(s.detail_loading && s.detail.is_none());
    s.handle(Event::ItemDone(5, 'y'));
    assert_eq!(s.detail, Some('y'));
    assert!(!s.detail_loading);
    s.request_item_detail(6, true);
    assert_eq!(s.detail, None);
    let before = s.status.clone();
    s.handle(Event::ItemError(5, "late".to_string()));
    assert_eq!(s.status, before);
    s.handle(Event::ItemError(6, "gone".to_string()));
    assert_eq!(s.status, "Item analysis failed: gone");
    assert!(!s.detail_loading);
}

#[test]
fn groups_follow_the_windows() {
    let needed = |enabled: &[SortColumn]| {
        let g = groups_needed(&enabled.to_vec());
        (g.hourly, g.daily)
    };
    assert_eq!(needed(&[]), (false, false));
    assert_eq!(needed(&[SortColumn::Vel24h]), (true, false));
    assert_eq!(needed(&[SortColumn::Vel7d]), (false, true));
    assert_eq!(needed(&all_velocity_columns()), (true, true));
}

#[test]
fn groups_are_fetched_once() {
    let mut s = session();
    s.items = vec![item(1, 5), item(2, 5)];
    s.items[1].count = 0;
    let jobs = s.velocity_jobs(&vec![SortColumn::Vel6h]);
    assert_eq!(jobs.len(), 1);
    assert_eq!((jobs[0].item_id, jobs[0].groups.hourly, jobs[0].groups.daily), (1, true, false));
    assert!(s.velocities_requested.contains(&1));
    assert!(s.request_item_velocity(1, &all_velocity_columns()).is_none());
    let mut v = Velocity::unknown();
    v.h6 = Some(7);
    v.d7 = Some(8);
    s.handle(Event::VelocityLoaded(1, Some(v), true, false));
    assert!(s.velocities_requested.is_empty());
    assert_eq!((s.velocities[&1].h6, s.velocities[&1].d7), (Some(7), None));
    let job = s.request_item_velocity(1, &all_velocity_columns()).unwrap();
    assert_eq!((job.hourly, job.daily), (false, true));
    s.handle(Event::VelocityLoaded(1, Some(v), false, true));
    assert_eq!((s.velocities[&1].h6, s.velocities[&1].d7), (Some(7), Some(8)));
    assert!(s.velocity_jobs(&all_velocity_columns()).is_empty());
    // a failed download is asked for again
    s.items.push(item(3, 1));
    assert_eq!(s.velocity_jobs(&all_velocity_columns()).len(), 1);
    s.handle(Event::VelocityLoaded(3, None, false, false));
    assert!(!s.velocities.contains_key(&3));
    assert_eq!(s.velocity_jobs(&all_velocity_columns()).len(), 1);
}

#[test]
fn icons_are_fetched_ahead() {
    let mut s = session();
    s.items = vec![item(9, 5), item(2, 5)];
    assert_eq!(s.prefetch_ids(), vec![2, 9]);
    assert!(!s.can_prefetch(false));
    assert!(s.can_prefetch(true));
    assert!(!s.begin_prefetch(0));
    assert_eq!(s.status, "All icons are already cached");
    assert!(s.begin_prefetch(2));
    assert_eq!(s.status, "Prefetching 2 icons...");
    assert!(!s.can_prefetch(true));
    s.handle(Event::IconCached);
    assert_eq!(s.prefetch_progress, Some((1, 2)));
    s.handle(Event::IconCached);
    assert_eq!(s.prefetch_progress, None);
    assert_eq!(s.status, "Prefetched 2 icons");
    s.handle(Event::IconCached);
    assert!(!s.is_busy(0));
    assert!(s.is_busy(1));
}

#[test]
fn favorites_are_marked_for_saving() {
    let mut s = session();
    assert!(!s.favorites_dirty);
    s.toggle_favorite(9);
    s.toggle_favorite(4);
    assert_eq!(s.favorites, HashSet::from([4]));
    assert!(s.favorites_dirty);
}
