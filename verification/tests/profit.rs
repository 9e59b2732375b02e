use gw2_arbitrage::analysis::{
    account_warning, compute_profitable_items, covers_at_age, craftable_recipes, custom_warning,
    loaded, merge_recipes, price_request, relevant_price_ids, remove_recipes, Analysis, Blacklists,
    MarketSnapshot, PriceRequest, MARKET_SNAPSHOT_TTL_SECS,
};
use gw2_arbitrage::api;
use gw2_arbitrage::crafting::{
    CraftedItems, EstimatedCraftingCost, PreciseCraftingCost, Purchase, Source,
};
use gw2_arbitrage::item::{Item, Rarity};
use gw2_arbitrage::listings::ItemListings;
use gw2_arbitrage::money::Money;
use gw2_arbitrage::profit::{
    calc_item_profit, calculate_crafting_profit, find_profitable_items, item_listing_ids,
    listing_request_ids, listings_for_item, profitable_item_list, required_unknown_recipes,
    unlocking_items, vec_to_map, ProfitableItem,
};
use gw2_arbitrage::recipe::{Discipline, Recipe, RecipeIngredient, RecipeSource};
use gw2_arbitrage::session::keep_above;
use gw2_arbitrage::simulation::{CountLimit, CraftingOptions, RunError};
use std::collections::{BTreeMap, HashMap, HashSet};
use std::time::Instant;

fn copper(n: i32) -> Money {
    Money::from_copper(n)
}

fn level(unit_price: u32, quantity: u32) -> api::Listing {
    api::Listing { listings: 1, unit_price, quantity }
}

fn book(id: u32, buys: Vec<api::Listing>, sells: Vec<api::Listing>) -> api::ItemListings {
    api::ItemListings { id, buys, sells }
}

fn recipe(output: u32, batch: u32, ingredients: &[(u32, u32)]) -> Recipe {
    Recipe {
        id: Some(output + 1000),
        output_item_id: output,
        output_item_count: batch,
        disciplines: vec![Discipline::Chef],
        ingredients: ingredients
            .iter()
            .map(|(item_id, count)| RecipeIngredient { item_id: *item_id, count: *count })
            .collect(),
        source: RecipeSource::Automatic,
    }
}

fn recipes(all: Vec<Recipe>) -> HashMap<u32, Recipe> {
    vec_to_map(all, |r: &Recipe| r.output_item_id)
}

fn books(all: Vec<api::ItemListings>) -> HashMap<u32, api::ItemListings> {
    vec_to_map(all, |b: &api::ItemListings| b.id)
}

fn options(profit_threshold: i64) -> CraftingOptions {
    CraftingOptions {
        value: None,
        threshold: None,
        count_limit: CountLimit::Unlimited,
        profit_threshold,
        patient: false,
    }
}

/// One unit of item 2 makes `batch` units of item 1.
fn from_one_unit(
    batch: u32,
    patient: bool,
) -> impl Fn(u32, &BTreeMap<u32, ItemListings>, &CraftedItems) -> Option<PreciseCraftingCost> {
    move |id, books, crafted| {
        let cost = books.get(&2)?.best_offer_with_mode(1, patient)?;
        let mut made = crafted.crafted.clone();
        *made.entry(id).or_insert(0) += batch;
        Some(PreciseCraftingCost {
            source: Source::Crafting,
            cost: copper(cost as i32),
            purchases: vec![Purchase { item_id: 2, count: 1, source: Source::TradingPost }],
            items: CraftedItems { crafted: made, leftovers: BTreeMap::new() },
        })
    }
}

fn steps(crafted: &CraftedItems) -> u32 {
    crafted.crafted.values().sum()
}

fn market() -> HashMap<u32, api::ItemListings> {
    books(vec![
        book(1, vec![level(80, 5), level(100, 2)], vec![level(120, 4)]),
        book(2, vec![level(40, 9)], vec![level(70, 1), level(50, 2)]),
    ])
}

#[test]
fn crafting_stops_when_it_stops_paying() {
    let recipes_map = recipes(vec![recipe(1, 1, &[(2, 1)])]);
    let (item, list) = calculate_crafting_profit(
        1,
        &recipes_map,
        &market(),
        options(0),
        true,
        &from_one_unit(1, false),
        &steps,
    )
    .unwrap();
    let item = item.unwrap();
    assert_eq!((item.id, item.count, item.crafting_steps), (1, 2, 2));
    assert!(item.profit.equals(&copper(70)));
    assert!(item.crafting_cost.equals(&copper(100)));
    // two units are sold at 100 each
    let revenue = copper(200).trading_post_sale_revenue();
    assert!(item.profit.plus(item.crafting_cost).equals(&revenue));
    assert!(item.max_sell.equals(&copper(100)));
    assert!(item.min_sell.equals(&copper(100)));
    assert!(item.breakeven.equals(&copper(1000).divided_by(17)));
    assert!(item.profit_per_item().equals(&copper(35)));
    assert!(item.profit_per_crafting_step().equals(&copper(35)));
    assert_eq!(item.crafted_items.crafted, BTreeMap::from([(1, 2)]));

    let list = list.unwrap();
    assert_eq!(list.trading_post.len(), 1);
    assert!(list.crafting.is_empty() && list.vendor.is_empty());
    let bought = &list.trading_post[&2];
    assert_eq!(bought.count, 2);
    assert!(bought.min_price.equals(&copper(50)));
    assert!(bought.max_price.equals(&copper(50)));
    assert!(bought.total_cost.equals(&copper(100)));
}

#[test]
fn a_lower_margin_goes_on() {
    let recipes_map = recipes(vec![recipe(1, 1, &[(2, 1)])]);
    let (item, list) = calculate_crafting_profit(
        1,
        &recipes_map,
        &market(),
        options(-10),
        true,
        &from_one_unit(1, false),
        &steps,
    )
    .unwrap();
    let item = item.unwrap();
    assert_eq!(item.count, 3);
    assert!(item.profit.equals(&copper(68)));
    assert!(item.min_sell.equals(&copper(80)));
    let bought = &list.unwrap().trading_post[&2];
    assert!(bought.min_price.equals(&copper(50)));
    assert!(bought.max_price.equals(&copper(70)));
    assert!(bought.total_cost.equals(&copper(170)));
}

#[test]
fn the_total_never_falls_below_the_margin() {
    // each unit sells for 85 and costs 90
    let listings = books(vec![
        book(1, vec![level(100, 10)], vec![]),
        book(2, vec![], vec![level(90, 10)]),
    ]);
    let recipes_map = recipes(vec![recipe(1, 1, &[(2, 1)])]);
    let (item, _) = calculate_crafting_profit(
        1,
        &recipes_map,
        &listings,
        options(-17),
        false,
        &from_one_unit(1, false),
        &steps,
    )
    .unwrap();
    let item = item.unwrap();
    assert_eq!(item.count, 3);
    assert!(item.profit.equals(&copper(-15)));
}

#[test]
fn patience_sells_at_asks_and_buys_at_bids() {
    let recipes_map = recipes(vec![recipe(1, 1, &[(2, 1)])]);
    let (item, list) = calculate_crafting_profit(
        1,
        &recipes_map,
        &market(),
        CraftingOptions { patient: true, ..options(0) },
        true,
        &from_one_unit(1, true),
        &steps,
    )
    .unwrap();
    let item = item.unwrap();
    assert_eq!(item.count, 4);
    assert!(item.profit.equals(&copper(4 * (102 - 40))));
    assert!(item.max_sell.equals(&copper(120)));
    assert!(list.unwrap().trading_post[&2].total_cost.equals(&copper(160)));
}

#[test]
fn prices_of_bids_are_recorded_lowest_to_highest() {
    let listings = books(vec![
        book(1, vec![], vec![level(100, 3)]),
        book(2, vec![level(6, 1), level(10, 1), level(20, 1)], vec![]),
    ]);
    let recipes_map = recipes(vec![recipe(1, 1, &[(2, 3)])]);
    let three_units = |_: u32, _: &BTreeMap<u32, ItemListings>, _: &CraftedItems| {
        Some(PreciseCraftingCost {
            source: Source::Crafting,
            cost: copper(16),
            purchases: vec![
                Purchase { item_id: 2, count: 1, source: Source::TradingPost },
                Purchase { item_id: 2, count: 2, source: Source::TradingPost },
            ],
            items: CraftedItems::none(),
        })
    };
    let (_, list) = calculate_crafting_profit(
        1,
        &recipes_map,
        &listings,
        CraftingOptions {
            patient: true,
            count_limit: CountLimit::Crafts(1),
            ..options(0)
        },
        true,
        &three_units,
        &steps,
    )
    .unwrap();
    let bought = &list.unwrap().trading_post[&2];
    assert_eq!(bought.count, 3);
    assert!(bought.min_price.equals(&copper(6)));
    assert!(bought.max_price.equals(&copper(20)));
    assert!(bought.total_cost.equals(&copper(36)));
}

#[test]
fn a_wide_run_keeps_what_comes_out_at_cost() {
    let recipes_map = recipes(vec![recipe(1, 1, &[(2, 1)])]);
    let listings = books(vec![book(2, vec![], vec![level(110, 1), level(90, 1)])]);
    let run = |threshold| {
        calculate_crafting_profit(
            1,
            &recipes_map,
            &listings,
            CraftingOptions {
                value: Some(100),
                count_limit: CountLimit::Crafts(2),
                ..options(threshold)
            },
            false,
            &from_one_unit(1, false),
            &steps,
        )
        .unwrap()
        .0
    };
    let normal = run(0).unwrap();
    assert_eq!(normal.count, 1);
    assert!(normal.profit.equals(&copper(10)));
    let wide = run(-100).unwrap();
    assert_eq!(wide.count, 2);
    assert!(wide.profit.is_zero());
    // at a margin of zero nothing is reported at cost
    let at_cost = books(vec![book(2, vec![], vec![level(100, 1)])]);
    let none = calculate_crafting_profit(
        1,
        &recipes_map,
        &at_cost,
        CraftingOptions { value: Some(100), ..options(0) },
        false,
        &from_one_unit(1, false),
        &steps,
    );
    assert!(none.unwrap().0.is_none());
}

#[test]
fn a_wide_run_shows_what_the_normal_run_shows() {
    // batches earn 10, -20 and -10
    let recipes_map = recipes(vec![recipe(1, 1, &[(2, 1)])]);
    let listings =
        books(vec![book(2, vec![], vec![level(110, 1), level(120, 1), level(90, 1)])]);
    let run = |threshold| {
        let item = calculate_crafting_profit(
            1,
            &recipes_map,
            &listings,
            CraftingOptions { value: Some(100), ..options(threshold) },
            false,
            &from_one_unit(1, false),
            &steps,
        )
        .unwrap()
        .0;
        keep_above(item.into_iter().collect(), threshold)
    };
    assert_eq!(run(0).len(), 1);
    let wide = run(-20);
    assert_eq!((wide.len(), wide[0].count), (1, 2));
    assert!(wide[0].profit.equals(&copper(-10)));
}

#[test]
fn a_limited_item_is_the_same_in_a_wide_run() {
    let recipes_map = recipes(vec![recipe(1, 1, &[(2, 1)])]);
    let run = |threshold| {
        calculate_crafting_profit(
            1,
            &recipes_map,
            &market(),
            CraftingOptions { count_limit: CountLimit::Crafts(2), ..options(threshold) },
            false,
            &from_one_unit(1, false),
            &steps,
        )
        .unwrap()
        .0
        .unwrap()
    };
    let normal = run(0);
    let wide = run(-10_000);
    assert_eq!((normal.count, wide.count), (2, 2));
    assert!(wide.profit.equals(&normal.profit));
    assert!(wide.crafting_cost.equals(&normal.crafting_cost));
    assert!(wide.min_sell.equals(&normal.min_sell));
    assert!(wide.breakeven.equals(&normal.breakeven));
}

#[test]
fn the_last_price_bounds_the_first() {
    let recipes_map = recipes(vec![recipe(1, 1, &[(2, 1)])]);
    let listings = books(vec![
        book(1, vec![level(90, 2), level(100, 1)], vec![level(130, 2), level(120, 1)]),
        book(2, vec![level(10, 2)], vec![level(20, 2)]),
    ]);
    let run = |patient| {
        calculate_crafting_profit(
            1,
            &recipes_map,
            &listings,
            CraftingOptions { patient, ..options(0) },
            false,
            &from_one_unit(1, patient),
            &steps,
        )
        .unwrap()
        .0
        .unwrap()
    };
    let instant = run(false);
    assert_eq!(instant.count, 2);
    assert!(instant.max_sell.equals(&copper(100)));
    assert!(instant.min_sell.equals(&copper(90)));
    let patient = run(true);
    assert_eq!(patient.count, 2);
    assert!(patient.max_sell.equals(&copper(120)));
    assert!(patient.min_sell.equals(&copper(130)));
}

#[test]
fn a_run_goes_on_without_what_it_can_spare() {
    let fail = |text: &str| text.to_string();
    let all = loaded(
        Some(Ok::<i32, String>(5)),
        Ok::<_, String>(vec![1]),
        Ok::<_, String>(vec!['c']),
        Ok::<_, String>(vec![true]),
    )
    .unwrap();
    assert_eq!(all.known_recipes, Some(5));
    assert_eq!((all.official, all.custom, all.items), (vec![1], vec!['c'], vec![true]));
    let less = loaded(
        Some(Err::<i32, String>(fail("a"))),
        Ok::<_, String>(vec![1]),
        Err::<Vec<char>, String>(fail("c")),
        Ok::<_, String>(vec![true]),
    )
    .unwrap();
    assert_eq!(less.known_recipes, None);
    assert!(less.custom.is_empty());
    let none = |official: Result<Vec<i32>, String>, items: Result<Vec<i32>, String>| {
        loaded(None::<Result<i32, String>>, official, Ok::<Vec<i32>, String>(vec![]), items).err()
    };
    assert_eq!(none(Err(fail("o")), Err(fail("i"))), Some(fail("o")));
    assert_eq!(none(Ok(vec![]), Err(fail("i"))), Some(fail("i")));
    assert_eq!(none(Ok(vec![]), Ok(vec![])), None);
    assert_eq!(account_warning("403"), "API error fetching recipe unlocks: 403");
    assert_eq!(custom_warning("404"), "Failed to fetch custom recipes: 404");
}

#[test]
fn a_fixed_value_replaces_the_market() {
    let recipes_map = recipes(vec![recipe(1, 5, &[(2, 1)])]);
    let listings = books(vec![book(2, vec![], vec![level(70, 1), level(50, 2)])]);
    let (item, list) = calculate_crafting_profit(
        1,
        &recipes_map,
        &listings,
        CraftingOptions { value: Some(12), threshold: Some(9), ..options(0) },
        false,
        &from_one_unit(5, false),
        &steps,
    )
    .unwrap();
    let item = item.unwrap();
    // two batches at 5 x 12 for 50 each; the third would cost 70
    assert_eq!((item.count, item.crafting_steps), (10, 10));
    assert!(item.profit.equals(&copper(20)));
    assert!(item.max_sell.equals(&copper(9)));
    assert!(item.min_sell.equals(&copper(12)));
    assert!(list.is_none());
}

#[test]
fn limits_count_items_or_crafts() {
    let recipes_map = recipes(vec![recipe(1, 2, &[(2, 1)])]);
    let run = |count_limit| {
        calculate_crafting_profit(
            1,
            &recipes_map,
            &market(),
            CraftingOptions { count_limit, ..options(0) },
            false,
            &from_one_unit(2, false),
            &steps,
        )
        .unwrap()
        .0
        .map(|item| item.count)
    };
    assert_eq!(run(CountLimit::Items(1)), None);
    assert_eq!(run(CountLimit::Items(2)), Some(2));
    assert_eq!(run(CountLimit::Items(5)), Some(4));
    assert_eq!(run(CountLimit::Crafts(1)), Some(2));
    assert_eq!(run(CountLimit::Crafts(2)), Some(4));
    assert_eq!(run(CountLimit::Crafts(0)), None);
    assert_eq!(run(CountLimit::Unlimited), Some(6));
}

#[test]
fn other_sources_stop_the_run() {
    let recipes_map = recipes(vec![recipe(1, 1, &[(2, 1)])]);
    let search = |_: u32, _: &BTreeMap<u32, ItemListings>, _: &CraftedItems| {
        Some(PreciseCraftingCost {
            source: Source::Vendor,
            cost: copper(1),
            purchases: vec![],
            items: CraftedItems::none(),
        })
    };
    let res = calculate_crafting_profit(
        1, &recipes_map, &market(), options(0), false, &search, &steps,
    );
    assert!(res.unwrap().0.is_none());
}

#[test]
fn runs_that_cannot_be_accounted_for_fail() {
    let recipes_map = recipes(vec![recipe(1, 1, &[(2, 1)])]);
    let quote = |cost: Money, item_id: u32, count: u32| {
        move |_: u32, _: &BTreeMap<u32, ItemListings>, _: &CraftedItems| {
            Some(PreciseCraftingCost {
                source: Source::Crafting,
                cost,
                purchases: vec![Purchase { item_id, count, source: Source::TradingPost }],
                items: CraftedItems::none(),
            })
        }
    };
    let run = |listings: &HashMap<u32, api::ItemListings>, cost: Money, item_id: u32, count: u32| {
        calculate_crafting_profit(
            1,
            &recipes_map,
            listings,
            options(1),
            false,
            &quote(cost, item_id, count),
            &steps,
        )
        .err()
    };
    let no_product = books(vec![book(2, vec![], vec![level(50, 2)])]);
    assert_eq!(run(&no_product, copper(1), 2, 1), Some(RunError::MissingListings(1)));
    assert_eq!(run(&market(), copper(1), 3, 1), Some(RunError::MissingListings(3)));
    assert_eq!(run(&market(), copper(1), 2, 4), Some(RunError::CannotBuy(2)));
    assert_eq!(
        run(&market(), Money::whole_copper(i64::MAX), 2, 1),
        Some(RunError::OutOfRange)
    );
}

#[test]
fn crafted_and_vendor_parts_are_listed_without_a_price() {
    let recipes_map = recipes(vec![recipe(1, 1, &[(2, 1), (3, 4)])]);
    let search = |_: u32, _: &BTreeMap<u32, ItemListings>, _: &CraftedItems| {
        Some(PreciseCraftingCost {
            source: Source::Crafting,
            cost: copper(60),
            purchases: vec![
                Purchase { item_id: 3, count: 4, source: Source::Vendor },
                Purchase { item_id: 2, count: 1, source: Source::Crafting },
            ],
            items: CraftedItems::none(),
        })
    };
    let (item, list) = calculate_crafting_profit(
        1,
        &recipes_map,
        &market(),
        CraftingOptions { count_limit: CountLimit::Crafts(2), ..options(0) },
        true,
        &search,
        &steps,
    )
    .unwrap();
    let list = list.unwrap();
    assert!(list.trading_post.is_empty());
    assert_eq!(list.vendor[&3].count, 8);
    assert!(list.vendor[&3].total_cost.is_zero());
    assert_eq!(list.crafting[&2].count, 2);
    let item = item.unwrap();
    assert!(item.profit.equals(&copper(50)));
    assert_eq!(item.crafting_steps, 0);
    assert!(item.profit_per_crafting_step().is_zero());
}

fn price(id: u32, bid: u32, ask: u32, quantity: u32) -> api::Price {
    api::Price {
        id,
        buys: api::PriceInfo { unit_price: bid, quantity: 1 },
        sells: api::PriceInfo { unit_price: ask, quantity },
    }
}

fn item(id: u32, restricted: bool, unlocks: Option<Vec<u32>>) -> Item {
    Item {
        id,
        name: format!("item {}", id),
        display_name: format!("Item {}", id),
        rarity: Rarity::Basic,
        icon: None,
        restricted,
        vendor: None,
        unlocks,
    }
}

fn estimate(cost: i32, source: Source) -> EstimatedCraftingCost {
    EstimatedCraftingCost { source, cost: copper(cost) }
}

#[test]
fn candidates_pay_at_current_prices() {
    let recipes_map = recipes(vec![
        recipe(1, 1, &[(9, 1)]),
        recipe(2, 1, &[(8, 1)]),
        recipe(3, 1, &[]),
        recipe(4, 1, &[]),
        recipe(5, 1, &[]),
        recipe(6, 1, &[]),
    ]);
    let prices = vec_to_map(
        vec![
            price(1, 100, 200, 1),
            price(2, 100, 200, 1),
            price(3, 100, 200, 1),
            price(4, 100, 200, 0),
            price(5, 100, 200, 1),
        ],
        |p: &api::Price| p.id,
    );
    let items = vec_to_map(vec![item(3, true, None)], |i: &Item| i.id);
    let estimates = HashMap::from([
        (1, estimate(84, Source::Crafting)),
        (2, estimate(85, Source::Crafting)),
        (3, estimate(1, Source::Crafting)),
        (4, estimate(1, Source::Crafting)),
        (5, estimate(1, Source::Vendor)),
        (6, estimate(1, Source::Crafting)),
    ]);
    let find = |filter: &Option<Vec<Discipline>>, threshold, patient| {
        let (mut ids, mut parts) = find_profitable_items(
            &prices, &recipes_map, &items, &estimates, filter, threshold, patient,
        );
        ids.sort();
        parts.sort();
        (ids, parts)
    };
    assert_eq!(find(&None, 0, false), (vec![1], vec![9]));
    // patient runs sell at the ask, a lower margin keeps what was found
    assert_eq!(find(&None, 0, true), (vec![1, 2], vec![8, 9]));
    assert_eq!(find(&None, -5, false), (vec![1, 2], vec![8, 9]));
    assert_eq!(find(&Some(vec![Discipline::Tailor]), 0, true), (vec![], vec![]));
    assert_eq!(find(&Some(vec![Discipline::Tailor, Discipline::Chef]), 0, false), (vec![1], vec![9]));
}

#[test]
fn ids_to_ask_for_are_sorted() {
    assert_eq!(listing_request_ids(&vec![5, 1], &vec![3, 5, 3]), vec![1, 3, 5]);
    let recipes_map = recipes(vec![recipe(7, 1, &[(3, 1), (5, 1)]), recipe(5, 1, &[(2, 1)])]);
    assert_eq!(item_listing_ids(7, &recipes_map), vec![2, 3, 5, 7]);
    assert_eq!(item_listing_ids(99, &recipes_map), vec![99]);
    assert_eq!(relevant_price_ids(&recipes_map), vec![2, 3, 5, 7]);
    assert!(matches!(price_request(&recipes_map), PriceRequest::Ids(ids) if ids == vec![2, 3, 5, 7]));
}

#[test]
fn requests_cover_what_is_read() {
    let recipes_map = recipes(vec![recipe(1, 1, &[(2, 1), (5, 1)]), recipe(5, 1, &[(6, 1)])]);
    let prices = vec_to_map(vec![price(1, 100, 200, 1)], |p: &api::Price| p.id);
    let estimates = HashMap::from([(1, estimate(50, Source::Crafting))]);
    let (ids, parts) = find_profitable_items(
        &prices,
        &recipes_map,
        &HashMap::new(),
        &estimates,
        &None,
        -10,
        false,
    );
    assert_eq!(listing_request_ids(&ids, &parts), item_listing_ids(1, &recipes_map));
}

#[test]
fn large_price_requests_ask_for_everything() {
    let many = |n: u32| recipes((1..=n).map(|id| recipe(id, 1, &[])).collect());
    assert!(matches!(price_request(&many(20_000)), PriceRequest::Ids(ids) if ids.len() == 20_000));
    assert!(matches!(price_request(&many(20_001)), PriceRequest::Everything));
}

#[test]
fn only_the_books_of_the_parts_are_read() {
    let recipes_map = recipes(vec![recipe(1, 1, &[(2, 1)])]);
    let mut all = market();
    all.insert(50, book(50, vec![], vec![]));
    let selected = listings_for_item(1, &recipes_map, &all);
    let mut ids: Vec<u32> = selected.keys().copied().collect();
    ids.sort();
    assert_eq!(ids, vec![1, 2]);
    assert_eq!(selected[&2].sells, all[&2].sells);
}

#[test]
fn the_list_is_sorted_by_profit() {
    let recipes_map = recipes(vec![recipe(1, 1, &[(2, 1)]), recipe(5, 1, &[(2, 1)]), recipe(6, 1, &[(2, 1)])]);
    let mut all = market();
    all.insert(5, book(5, vec![level(70, 1)], vec![]));
    all.insert(6, book(6, vec![level(10, 1)], vec![]));
    let list = profitable_item_list(
        &all,
        &vec![1, 5, 6],
        &recipes_map,
        options(0),
        &from_one_unit(1, false),
        &steps,
    )
    .unwrap();
    let ids: Vec<u32> = list.iter().map(|item| item.id).collect();
    assert_eq!(ids, vec![5, 1]);
    assert!(list[0].profit.equals(&copper(19).divided_by(2)));
    let failed = profitable_item_list(
        &books(vec![book(2, vec![], vec![level(50, 2)])]),
        &vec![5],
        &recipes_map,
        options(0),
        &from_one_unit(1, false),
        &steps,
    );
    assert_eq!(failed.err(), Some(RunError::MissingListings(5)));
}

fn analysis(recipes_map: HashMap<u32, Recipe>) -> Analysis {
    Analysis { items_map: HashMap::new(), recipes_map, known_recipes: None }
}

#[test]
fn a_snapshot_answers_runs_it_has_the_books_for() {
    let analysis = analysis(recipes(vec![recipe(1, 1, &[(2, 1)])]));
    let estimates = HashMap::from([(1, estimate(50, Source::Crafting))]);
    let mut snapshot = MarketSnapshot {
        prices: HashMap::from([(1, price(1, 100, 120, 4))]),
        listings: market(),
        threshold: 0,
        fetched_at: Instant::now(),
    };
    let compute = |snapshot: &MarketSnapshot| {
        compute_profitable_items(
            &analysis,
            snapshot,
            &estimates,
            &None,
            options(0),
            &from_one_unit(1, false),
            &steps,
        )
        .unwrap()
    };
    let list = compute(&snapshot).unwrap();
    assert_eq!(list.len(), 1);
    assert!(list[0].profit.equals(&copper(70)));
    assert!(snapshot.covers(0));
    assert!(snapshot.covers(5));
    assert!(!snapshot.covers(-1));
    // ingredients may lack a book, products may not
    snapshot.listings.remove(&2);
    assert_eq!(compute(&snapshot).map(|l| l.len()), Some(0));
    snapshot.listings.remove(&1);
    assert!(compute(&snapshot).is_none());
}

#[test]
fn snapshots_grow_old() {
    assert!(covers_at_age(-100, -100, MARKET_SNAPSHOT_TTL_SECS - 1));
    assert!(!covers_at_age(-100, -100, MARKET_SNAPSHOT_TTL_SECS));
    assert!(!covers_at_age(0, -1, 0));
    assert!(covers_at_age(-1, 0, 0));
}

#[test]
fn official_recipes_win_over_custom_ones() {
    let mut custom = recipe(1, 7, &[]);
    custom.id = None;
    let lists = Blacklists { recipes: Some(vec![1002]), items: Some(vec![66]) };
    let map = merge_recipes(
        vec![custom, recipe(4, 1, &[]), recipe(6, 1, &[])],
        vec![recipe(1, 1, &[]), recipe(2, 1, &[]), recipe(3, 1, &[(66, 1)])],
        vec![recipe(4, 9, &[(66, 1)])],
        &lists,
    );
    let mut ids: Vec<u32> = map.keys().copied().collect();
    ids.sort();
    assert_eq!(ids, vec![1, 4, 6]);
    assert_eq!(map[&1].output_item_count, 1);
    // built-in recipes are not subject to the lists
    assert_eq!(map[&4].output_item_count, 9);
    assert!(lists.leave_out(&recipe(2, 1, &[])));
    assert!(!lists.leave_out(&recipe(1, 1, &[])));
}

#[test]
fn recipes_without_disciplines_are_dropped() {
    let mut deprecated = recipe(1, 1, &[]);
    deprecated.disciplines.clear();
    let kept = craftable_recipes(vec![deprecated, recipe(2, 1, &[])]);
    assert_eq!(kept.len(), 1);
    assert_eq!(kept[0].output_item_id, 2);
    let mut map = recipes(vec![recipe(1, 1, &[]), recipe(2, 1, &[])]);
    remove_recipes(&mut map, &vec![2, 3]);
    assert_eq!(map.len(), 1);
    assert!(map.contains_key(&1));
}

#[test]
fn one_item_is_reported_with_its_book() {
    let recipes_map = recipes(vec![recipe(1, 1, &[(2, 1)])]);
    let report = calc_item_profit(
        1,
        &recipes_map,
        &HashSet::from([1001]),
        &market(),
        options(0),
        &from_one_unit(1, false),
        &steps,
    )
    .unwrap();
    assert!(report.item.unwrap().profit.equals(&copper(70)));
    assert_eq!(report.shopping.trading_post[&2].count, 2);
    assert_eq!(report.required_unknown_recipes, vec![1001]);
    assert_eq!(report.order_book.unwrap().buys, market()[&1].buys);

    let missing = calc_item_profit(
        1,
        &recipes_map,
        &HashSet::new(),
        &HashMap::new(),
        options(0),
        &from_one_unit(1, false),
        &steps,
    )
    .unwrap();
    assert!(missing.item.is_none());
    assert!(missing.order_book.is_none());
    assert!(missing.shopping.trading_post.is_empty());
}

fn crafted(ids: &[u32]) -> Option<ProfitableItem> {
    Some(ProfitableItem {
        id: 1,
        crafting_cost: copper(1),
        count: 1,
        profit: copper(1),
        max_sell: copper(1),
        min_sell: copper(1),
        breakeven: copper(1),
        crafting_steps: 1,
        crafted_items: CraftedItems {
            crafted: ids.iter().map(|id| (*id, 1)).collect(),
            leftovers: BTreeMap::new(),
        },
    })
}

#[test]
fn recipes_that_are_not_known_yet() {
    let mut nameless = recipe(3, 1, &[]);
    nameless.id = None;
    let recipes_map = recipes(vec![recipe(1, 1, &[]), recipe(2, 1, &[]), nameless]);
    let unknown = HashSet::from([1001, 1009]);
    assert_eq!(required_unknown_recipes(&crafted(&[1, 2, 3, 4]), &recipes_map, &unknown), vec![1001]);
    assert_eq!(required_unknown_recipes(&None, &recipes_map, &unknown), Vec::<u32>::new());
    let items = vec_to_map(
        vec![item(1, false, Some(vec![5, 1009])), item(2, false, Some(vec![5])), item(3, false, None)],
        |i: &Item| i.id,
    );
    assert_eq!(unlocking_items(&items, &unknown), vec![1]);
    assert!(items[&1].unlocks_recipe(5));
    assert!(!items[&3].unlocks_recipe(5));
    assert!(!items[&2].unlocks_any(&unknown));
}

#[test]
fn later_values_win_in_a_map() {
    let map = vec_to_map(vec![(1, 'a'), (2, 'b'), (1, 'c')], |x: &(u32, char)| x.0);
    assert_eq!(map, HashMap::from([(1, (1, 'c')), (2, (2, 'b'))]));
}
