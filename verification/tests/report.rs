use gw2_arbitrage::api;
use gw2_arbitrage::crafting::{CraftedItems, Leftover, PurchasedIngredient, Source};
use gw2_arbitrage::item::{Item, Rarity, VendorOffer};
use gw2_arbitrage::money::Money;
use gw2_arbitrage::profit::ProfitableItem;
use gw2_arbitrage::recipe::RecipeIngredient;
use gw2_arbitrage::report::{
    best_offers, count_message, crafting_step_line, crafting_steps_url, export_header, export_line,
    export_order, headline_of, inventory_slots, item_links, leftover_line, list_header, list_line,
    max_inventory_slots, output_row, price_message, rarity_color, recipe_source_line, selling_line,
    shopping_line, shopping_plan, total_profit, unknown_recipes_message, ShoppingEntry,
};
use gw2_arbitrage::simulation::ShoppingList;
use std::collections::{BTreeMap, HashMap};

fn copper(n: i32) -> Money {
    Money::from_copper(n)
}

fn profitable(id: u32, profit: i32, count: u32) -> ProfitableItem {
    ProfitableItem {
        id,
        crafting_cost: copper(1000),
        count,
        profit: copper(profit),
        max_sell: copper(200),
        min_sell: copper(150),
        breakeven: copper(85).trading_post_listing_price(),
        crafting_steps: 4,
        crafted_items: CraftedItems::none(),
    }
}

fn item(id: u32, name: &str, vendor: Option<VendorOffer>, unlocks: Option<Vec<u32>>) -> Item {
    Item {
        id,
        name: name.to_string(),
        display_name: name.to_string(),
        rarity: Rarity::Basic,
        icon: None,
        restricted: false,
        vendor,
        unlocks,
    }
}

fn items() -> HashMap<u32, Item> {
    HashMap::from([
        (1, item(1, "Soup", None, None)),
        (2, item(2, "Water", Some(VendorOffer { cost: copper(8), batch: 25 }), None)),
        (3, item(3, "Salt", Some(VendorOffer { cost: copper(4), batch: 1 }), None)),
        (4, item(4, "Recipe: Soup", None, Some(vec![77]))),
    ])
}

#[test]
fn headline_and_prices() {
    let p = profitable(1, 12_345, 5);
    assert_eq!(headline_of(&p, "Soup", "12"), "5 x Soup = 1.23.45g profit (3086 / step, 12%)");
    assert_eq!(price_message(&copper(200), &copper(150)), "0.02.00g to 0.01.50g");
    assert_eq!(price_message(&copper(200), &copper(200)), "0.02.00g");
    assert_eq!(
        selling_line(&p),
        "Sell at: 0.02.00g to 0.01.50g, Money Required: 0.10.50g, Breakeven price: 0.01.00g"
    );
}

fn bought(count: u32, total: i32) -> PurchasedIngredient {
    PurchasedIngredient {
        count,
        min_price: copper(2),
        max_price: copper(3),
        total_cost: copper(total),
    }
}

#[test]
fn the_plan_starts_with_the_trading_post() {
    let list = ShoppingList {
        crafting: BTreeMap::from([(7, bought(900, 0))]),
        trading_post: BTreeMap::from([(5, bought(10, 5)), (6, bought(10, 9)), (8, bought(30, 1)), (4, bought(10, 9))]),
        vendor: BTreeMap::from([(2, bought(50, 0))]),
    };
    let plan = shopping_plan(&list);
    let ids: Vec<u32> = plan.iter().map(|e| e.item_id).collect();
    // most units first, then the highest cost, then the highest id
    assert_eq!(ids, vec![8, 6, 4, 5, 7, 2]);
    assert_eq!(plan[4].source, Source::Crafting);
    assert_eq!(plan[5].source, Source::Vendor);
}

fn entry(item_id: u32, source: Source, ingredient: PurchasedIngredient) -> ShoppingEntry {
    ShoppingEntry { item_id, source, ingredient }
}

#[test]
fn shopping_lines() {
    let line = |e: &ShoppingEntry| shopping_line(e, &items());
    assert_eq!(
        line(&entry(1, Source::TradingPost, bought(600, 1500))).unwrap(),
        "600 (2 x 250 + 100) Soup (at 0.00.02g to 0.00.03g) Subtotal: 0.15.00g"
    );
    let mut even = bought(500, 1000);
    even.max_price = even.min_price;
    assert_eq!(
        line(&entry(9, Source::TradingPost, even)).unwrap(),
        "500 (2 x 250) ??? (at 0.00.02g) Subtotal: 0.10.00g"
    );
    assert_eq!(
        line(&entry(2, Source::Vendor, bought(60, 0))).unwrap(),
        "60 (2 x 25 + 10) Water (vendor: 0.02.00g per 25) Subtotal: 0.04.80g"
    );
    assert_eq!(
        line(&entry(3, Source::Vendor, bought(7, 0))).unwrap(),
        "7 Salt (vendor: 0.00.04g) Subtotal: 0.00.28g"
    );
    assert_eq!(line(&entry(1, Source::Vendor, bought(7, 0))).unwrap(), "7 Soup");
    assert_eq!(line(&entry(1, Source::Crafting, bought(250, 0))).unwrap(), "250 Soup");
    // a vendor's ingredient has to be known
    assert_eq!(line(&entry(9, Source::Vendor, bought(7, 0))), None);
}

#[test]
fn stacks_take_slots() {
    assert_eq!(count_message(250, 250), "250");
    assert_eq!(count_message(251, 250), "251 (1 x 250 + 1)");
    assert_eq!(count_message(9, 1), "9");
    assert_eq!(inventory_slots(250, 250), 1);
    assert_eq!(inventory_slots(251, 250), 2);
    assert_eq!(inventory_slots(60, 25), 1);
    assert_eq!(inventory_slots(600, 1), 1);
    let plan = vec![
        entry(1, Source::TradingPost, bought(600, 1)),
        entry(2, Source::Vendor, bought(60, 0)),
    ];
    assert_eq!(max_inventory_slots(&plan, &items()), 5);
}

#[test]
fn crafting_steps() {
    assert_eq!(
        crafting_steps_url(3, 19),
        "https://gw2efficiency.com/crafting/calculator/a~1!b~1!c~1!d~3-19"
    );
    let parts = vec![
        RecipeIngredient { item_id: 2, count: 3 },
        RecipeIngredient { item_id: 8, count: 1 },
    ];
    assert_eq!(crafting_step_line(1, 4, 1, &parts, &items()), "4 Soup from 12 Water 4 ???");
    assert_eq!(
        crafting_step_line(1, 10, 5, &parts, &items()),
        "2 (makes 10) Soup from 6 Water 2 ???"
    );
    assert_eq!(
        leftover_line(3, &Leftover { count: 2, unit_cost: copper(85), source: Source::Vendor }, &items()),
        "2 Salt, breakeven: 0.01.00g each"
    );
}

#[test]
fn recipes_to_learn() {
    let price = api::Price {
        id: 4,
        buys: api::PriceInfo { unit_price: 1, quantity: 1 },
        sells: api::PriceInfo { unit_price: 250, quantity: 1 },
    };
    assert_eq!(
        recipe_source_line(77, &items(), &HashMap::from([(4, price)])),
        "Recipe: Soup, buy for 0.02.50g"
    );
    assert_eq!(recipe_source_line(77, &items(), &HashMap::new()), "Recipe: Soup");
    assert_eq!(recipe_source_line(5424, &items(), &HashMap::new()), "Recipe 5424 is not available!");
    assert_eq!(
        unknown_recipes_message(true, &vec!["a".to_string()]),
        "You can not craft this yet. Required recipes:\na"
    );
    assert_eq!(
        unknown_recipes_message(false, &vec!["a".to_string(), "b".to_string()]),
        "You may not be able to craft this yet. Required recipess:\na\nb"
    );
}

#[test]
fn rows_of_the_list() {
    let row = output_row(&profitable(19, 10_000, 3), "Soup", "Ch/Ta", &vec![7, 8]).unwrap();
    assert_eq!(row.total_profit, "1.00.00g");
    assert_eq!((row.profit_per_item, row.profit_per_step), (3333, 2500));
    let line = format!(
        "{:<50} {:<15} {:<15} {:<20} {:>15} {:>15} {:>15} {:>15} {:>15} {:>15}",
        "Soup", "Ch/Ta", "19", "7,8", "1.00.00g", "3 items", "3333 / item", "4 steps", "2500 / step", "12%"
    );
    assert_eq!(list_line(&row, "12"), line);
    assert_eq!(
        list_header(),
        format!(
            "{:<50} {:<15} {:<15} {:<20} {:>15} {:>15} {:>15} {:>15} {:>15} {:>15}",
            "Name",
            "Disciplines",
            "Item id",
            "Req. Recipe Ids",
            "Total profit",
            "No. required",
            "Profit / item",
            "Crafting steps",
            "Profit / step",
            "Profit on cost",
        )
    );
    assert_eq!(export_header().join("|"), "Name|Disciplines|Item ID|Unknown recipes|Total profit|No. required|Profit / item|Crafting steps|Profit / step|Profit on cost");
    assert_eq!(export_line(&row, "12").join("|"), "Soup|Ch/Ta|19|7,8|1.00.00g|3|3333|4|2500|12");
    assert!(output_row(&profitable(19, 1, 0), "a", "b", &vec![]).is_none());
    let single = output_row(&profitable(19, -7, 1), "a", "b", &vec![]).unwrap();
    assert!(list_line(&single, "-1").contains(" 1 item "));
    assert_eq!(single.profit_per_step, -1);
}

#[test]
fn exports_start_with_the_highest_profit() {
    let items = vec![profitable(1, 5, 1), profitable(2, 9, 1), profitable(3, 5, 1), profitable(4, -1, 1)];
    assert_eq!(export_order(&items), vec![1, 0, 2, 3]);
    assert!(total_profit(&items).unwrap().equals(&copper(18)));
}

#[test]
fn best_offers_come_first() {
    let l = |unit_price, quantity| api::Listing { listings: 1, unit_price, quantity };
    let side: Vec<api::Listing> = (1..=7).map(|p| l(p * 100, p)).collect();
    let asks = best_offers(&side, true);
    assert_eq!(asks.len(), 5);
    assert_eq!(asks[0], "0.01.00g x1");
    let bids = best_offers(&side, false);
    assert_eq!(bids[0], "0.07.00g x7");
    assert!(best_offers(&vec![], true).is_empty());
}

#[test]
fn links_and_colors() {
    let links = item_links(12476, "Bowl of Soup");
    assert_eq!(links.wiki, "https://wiki.guildwars2.com/wiki/Bowl%20of%20Soup");
    assert_eq!(
        links.calculator,
        "https://gw2efficiency.com/crafting/calculator/a~1!b~1!c~1!d~1-12476"
    );
    assert_eq!(links.market, "https://www.gw2bltc.com/en/item/12476");
    assert_eq!(rarity_color(&Rarity::Legendary), (0xFF, 0x84, 0x00));
    assert_eq!(rarity_color(&Rarity::Junk), (0xAA, 0xAA, 0xAA));
}
