use gw2_arbitrage::columns::{
    all_sort_columns, all_velocity_columns, click_heading, column_of_window, contains_column,
    enabled_windows, fall_back_sorting, header_text, set_window, velocity_in, visible_columns,
    SortColumn,
};
use gw2_arbitrage::crafting::CraftedItems;
use gw2_arbitrage::item::{Item, Rarity};
use gw2_arbitrage::money::Money;
use gw2_arbitrage::profit::ProfitableItem;
use gw2_arbitrage::recipe::{Discipline, Recipe, RecipeSource};
use gw2_arbitrage::table::{
    item_name, passes_filters, shown_order, ItemFilter, ProfitMeasure, RowFacts,
};
use gw2_arbitrage::velocity::Velocity;
use std::collections::{HashMap, HashSet};

#[test]
fn columns_in_order() {
    let all = all_sort_columns();
    assert_eq!(all.len(), 16);
    assert_eq!(all[0], SortColumn::Name);
    assert_eq!(all[6..].to_vec(), all_velocity_columns());
    for column in &all {
        assert_eq!(column.is_velocity(), column.window().is_some());
        assert_eq!(
            column.default_desc(),
            !matches!(column, SortColumn::Name | SortColumn::Disciplines)
        );
        if let Some(id) = column.window() {
            assert_eq!(column_of_window(id), Some(*column));
            assert_eq!(column.header(), format!("Vel {}", id));
        }
    }
    for a in &all {
        for b in &all {
            assert_eq!(a.header() == b.header(), a == b);
        }
    }
    assert_eq!(column_of_window("3w"), None);
    assert_eq!(SortColumn::ItemId.header(), "Item ID");
}

#[test]
fn windows_are_switched() {
    let mut enabled = vec![SortColumn::Vel2y];
    set_window(&mut enabled, SortColumn::Vel6h, true);
    assert!(contains_column(&enabled, SortColumn::Vel6h));
    // always shown in the order of the columns
    assert_eq!(enabled_windows(&enabled), vec![SortColumn::Vel6h, SortColumn::Vel2y]);
    let visible = visible_columns(&enabled);
    assert_eq!(visible.len(), 8);
    assert_eq!(visible[6..].to_vec(), vec![SortColumn::Vel6h, SortColumn::Vel2y]);
    set_window(&mut enabled, SortColumn::Vel2y, false);
    assert_eq!(enabled, vec![SortColumn::Vel6h]);
}

#[test]
fn velocities_by_column() {
    let mut v: Velocity<u32> = Velocity::unknown();
    v.m3 = Some(5);
    assert_eq!(velocity_in(&v, SortColumn::Vel3m), &Some(5));
    assert_eq!(velocity_in(&v, SortColumn::Vel6m), &None);
}

#[test]
fn headings_sort() {
    assert_eq!(
        click_heading(SortColumn::Name, false, SortColumn::Name),
        (SortColumn::Name, true)
    );
    assert_eq!(
        click_heading(SortColumn::Name, false, SortColumn::ItemId),
        (SortColumn::ItemId, true)
    );
    assert_eq!(
        click_heading(SortColumn::ItemId, true, SortColumn::Disciplines),
        (SortColumn::Disciplines, false)
    );
    assert_eq!(
        fall_back_sorting(SortColumn::Vel7d, false, &vec![SortColumn::Vel6h]),
        (SortColumn::TotalProfit, true)
    );
    assert_eq!(
        fall_back_sorting(SortColumn::Vel7d, false, &vec![SortColumn::Vel7d]),
        (SortColumn::Vel7d, false)
    );
    assert_eq!(fall_back_sorting(SortColumn::Name, false, &vec![]), (SortColumn::Name, false));
    assert_eq!(header_text(SortColumn::Name, SortColumn::Name, true), "Name \u{25bc}");
    assert_eq!(header_text(SortColumn::Name, SortColumn::Name, false), "Name \u{25b2}");
    assert_eq!(header_text(SortColumn::Vel1y, SortColumn::Name, false), "Vel 1y");
}

fn item(id: u32, profit: i32, count: u32, steps: u32) -> ProfitableItem {
    let m = Money::from_copper;
    ProfitableItem {
        id,
        crafting_cost: m(1),
        count,
        profit: m(profit),
        max_sell: m(1),
        min_sell: m(1),
        breakeven: m(1),
        crafting_steps: steps,
        crafted_items: CraftedItems::none(),
    }
}

fn facts(name: &str, rank: i64) -> RowFacts {
    RowFacts {
        name: name.to_string(),
        disciplines: format!("D{}", name),
        percentage_enough: false,
        velocity_enough: None,
        velocity_rank: Some(rank),
    }
}

fn no_filter() -> ItemFilter {
    ItemFilter {
        favorites_only: false,
        disciplines: vec![],
        min_profit: None,
        measure: ProfitMeasure::PerCraft,
        by_percentage: false,
        by_velocity: false,
    }
}

fn recipes() -> HashMap<u32, Recipe> {
    HashMap::from([(
        1,
        Recipe {
            id: None,
            output_item_id: 1,
            output_item_count: 5,
            disciplines: vec![Discipline::Chef],
            ingredients: vec![],
            source: RecipeSource::Automatic,
        },
    )])
}

#[test]
fn filters_select_items() {
    let favorites = HashSet::from([1]);
    let shown = |item: &ProfitableItem, facts: &RowFacts, filter: &ItemFilter| {
        passes_filters(item, facts, &recipes(), &favorites, filter)
    };
    let one = item(1, 100, 10, 1);
    let two = item(2, 100, 10, 1);
    let any = facts("a", 0);
    assert!(shown(&one, &any, &no_filter()));
    assert!(!shown(&item(1, 100, 0, 1), &any, &no_filter()));
    let favorites_only = ItemFilter { favorites_only: true, ..no_filter() };
    assert!(shown(&one, &any, &favorites_only));
    assert!(!shown(&two, &any, &favorites_only));
    let chefs = ItemFilter { disciplines: vec![Discipline::Scribe, Discipline::Chef], ..no_filter() };
    assert!(shown(&one, &any, &chefs));
    assert!(!shown(&two, &any, &chefs));
    let by_percentage = ItemFilter { by_percentage: true, ..no_filter() };
    assert!(!shown(&one, &any, &by_percentage));
    assert!(shown(&one, &RowFacts { percentage_enough: true, ..facts("a", 0) }, &by_percentage));
    let by_velocity = ItemFilter { by_velocity: true, ..no_filter() };
    let selling = |enough| RowFacts { velocity_enough: enough, ..facts("a", 0) };
    assert!(shown(&one, &selling(Some(true)), &by_velocity));
    assert!(!shown(&one, &selling(Some(false)), &by_velocity));
    assert!(!shown(&one, &selling(None), &by_velocity));
}

#[test]
fn profit_is_measured_in_three_ways() {
    // ten units in two crafts: 100 in all, 50 a craft, 10 a unit
    let one = item(1, 100, 10, 1);
    let least = |measure: ProfitMeasure| {
        let passes = |min: i32| {
            let filter = ItemFilter { min_profit: Some(min), measure, ..no_filter() };
            passes_filters(&one, &facts("a", 0), &recipes(), &HashSet::new(), &filter)
        };
        (0..=200).filter(|min| passes(*min)).max()
    };
    assert_eq!(least(ProfitMeasure::Total), Some(100));
    assert_eq!(least(ProfitMeasure::PerCraft), Some(50));
    assert_eq!(least(ProfitMeasure::PerItem), Some(10));
}

#[test]
fn favorites_stay_on_top() {
    let items = vec![item(1, 10, 1, 1), item(2, 30, 1, 1), item(3, 20, 2, 1), item(4, 0, 0, 1)];
    let all: Vec<RowFacts> = vec![facts("b", 2), facts("A", 1), facts("c", 3), facts("d", 4)];
    let order = |favorites: &HashSet<u32>, column, desc| {
        shown_order(&items, &all, &recipes(), favorites, &no_filter(), column, desc)
    };
    let none = HashSet::new();
    assert_eq!(order(&none, SortColumn::TotalProfit, true), vec![1, 2, 0]);
    assert_eq!(order(&none, SortColumn::TotalProfit, false), vec![0, 2, 1]);
    assert_eq!(order(&HashSet::from([1]), SortColumn::TotalProfit, true), vec![0, 1, 2]);
    assert_eq!(order(&HashSet::from([3]), SortColumn::TotalProfit, false), vec![2, 0, 1]);
    // upper and lower case are the same for names
    assert_eq!(order(&none, SortColumn::Name, false), vec![1, 0, 2]);
    assert_eq!(order(&none, SortColumn::Disciplines, false), vec![1, 0, 2]);
    assert_eq!(order(&none, SortColumn::ItemId, true), vec![2, 1, 0]);
    assert_eq!(order(&none, SortColumn::Vel24h, true), vec![2, 0, 1]);
    let mut unknown = all.clone();
    unknown[2].velocity_rank = None;
    unknown[1].velocity_rank = Some(i64::MIN);
    assert_eq!(
        shown_order(&items, &unknown, &recipes(), &none, &no_filter(), SortColumn::Vel24h, false),
        vec![2, 1, 0]
    );
    // 10 a unit each for the first and the third: they keep their order
    assert_eq!(order(&none, SortColumn::ProfitPerItem, true), vec![1, 0, 2]);
    assert_eq!(order(&none, SortColumn::ProfitPerStep, false), vec![0, 2, 1]);
}

#[test]
fn names_of_unknown_items() {
    let items = HashMap::from([(
        1,
        Item {
            id: 1,
            name: "Ring".to_string(),
            display_name: "Ring (Rare)".to_string(),
            rarity: Rarity::Rare,
            icon: None,
            restricted: false,
            vendor: None,
            unlocks: None,
        },
    )]);
    assert_eq!(item_name(&items, 1), "Ring (Rare)");
    assert_eq!(item_name(&items, 2), "???");
    assert_eq!(items[&1].rarity(), &Rarity::Rare);
}
