use gw2_arbitrage::api;
use gw2_arbitrage::crafting::{CraftedItems, Leftover, PurchasedIngredient, Source};
use gw2_arbitrage::item::{Item, Rarity, VendorOffer};
use gw2_arbitrage::money::Money;
use gw2_arbitrage::profit::{ItemReport, ProfitableItem};
use gw2_arbitrage::recipe::RecipeIngredient;
use gw2_arbitrage::report::list_header;
use gw2_arbitrage::simulation::ShoppingList;
use gw2_arbitrage::summary::{
    export_records, item_lines, list_lines, CraftingStep, ItemContext, ListFacts,
};
use std::collections::{BTreeMap, HashMap};

fn copper(n: i32) -> Money {
    Money::from_copper(n)
}

fn item(id: u32, name: &str, vendor: Option<VendorOffer>) -> (u32, Item) {
    (
        id,
        Item {
            id,
            name: name.to_string(),
            display_name: name.to_string(),
            rarity: Rarity::Basic,
            icon: None,
            restricted: false,
            vendor,
            unlocks: None,
        },
    )
}

fn profitable(id: u32, profit: i32, count: u32) -> ProfitableItem {
    let leftover = |count| Leftover { count, unit_cost: copper(17), source: Source::Crafting };
    ProfitableItem {
        id,
        crafting_cost: copper(100),
        count,
        profit: copper(profit),
        max_sell: copper(50),
        min_sell: copper(50),
        breakeven: copper(40),
        crafting_steps: 2,
        crafted_items: CraftedItems {
            crafted: BTreeMap::new(),
            leftovers: BTreeMap::from([(9, leftover(1)), (3, leftover(2))]),
        },
    }
}

fn bought(count: u32) -> PurchasedIngredient {
    PurchasedIngredient {
        count,
        min_price: copper(2),
        max_price: copper(2),
        total_cost: copper(8),
    }
}

fn report(item: Option<ProfitableItem>) -> ItemReport {
    ItemReport {
        item,
        shopping: ShoppingList {
            crafting: BTreeMap::new(),
            trading_post: BTreeMap::from([(2, bought(4))]),
            vendor: BTreeMap::from([(3, bought(1))]),
        },
        required_unknown_recipes: vec![77],
        order_book: None,
    }
}

#[test]
fn lines_on_an_item() {
    let offer = VendorOffer { cost: copper(5), batch: 1 };
    let items_map = HashMap::from([
        item(1, "Soup", None),
        item(2, "Water", None),
        item(3, "Salt", Some(offer)),
    ]);
    let recipe_prices: HashMap<u32, api::Price> = HashMap::new();
    let steps = vec![CraftingStep {
        item_id: 1,
        count: 4,
        batch: 1,
        ingredients: vec![RecipeIngredient { item_id: 2, count: 1 }],
    }];
    let context = ItemContext {
        items_map: &items_map,
        recipe_prices: &recipe_prices,
        steps: &steps,
        account_known: true,
    };
    let lines = item_lines(1, &report(Some(profitable(1, 60, 4))), &context, "60").unwrap();
    assert_eq!(
        lines,
        vec![
            "============",
            "Shopping list for 4 x Soup = 0.00.60g profit (30 / step, 60%)",
            "Sell at: 0.00.50g, Money Required: 0.01.05g, Breakeven price: 0.00.40g",
            "============",
            "4 Water (at 0.00.02g) Subtotal: 0.00.08g",
            "1 Salt (vendor: 0.00.05g) Subtotal: 0.00.05g",
            "============",
            "Max inventory slots: 3",
            "Crafting steps: https://gw2efficiency.com/crafting/calculator/a~1!b~1!c~1!d~4-1",
            "4 Soup from 4 Water",
            "You can not craft this yet. Required recipes:\nRecipe 77 is not available!",
            "Leftovers:",
            "2 Salt, breakeven: 0.00.20g each",
            "1 ???, breakeven: 0.00.20g each",
        ]
    );
    assert_eq!(
        item_lines(1, &report(None), &context, "0").unwrap(),
        vec!["Item is not profitable to craft"]
    );
    // nothing is said where a vendor sells what is not known
    let none = HashMap::new();
    let context = ItemContext { items_map: &none, ..context };
    assert!(item_lines(1, &report(Some(profitable(1, 60, 4))), &context, "60").is_none());
    assert!(item_lines(1, &report(None), &context, "60").is_some());
}

fn facts(name: &str) -> ListFacts {
    ListFacts {
        name: name.to_string(),
        disciplines: "Ch".to_string(),
        unknown_recipes: vec![],
        percentage: "7".to_string(),
    }
}

#[test]
fn lines_on_all_items() {
    let items = vec![profitable(1, 60, 4), profitable(2, 5, 0), profitable(3, 90, 1)];
    let all = vec![facts("a"), facts("b"), facts("c")];
    let lines = list_lines(&items, &all).unwrap();
    let ruler = "=".repeat(list_header().len());
    assert_eq!(lines.len(), 8);
    assert_eq!(lines[0], list_header());
    assert_eq!(lines[1], ruler);
    assert!(lines[2].starts_with("a "));
    assert!(lines[3].starts_with("c "));
    assert_eq!(lines[4..7].to_vec(), vec![ruler.clone(), list_header(), ruler]);
    assert_eq!(lines[7], "Total: 0.01.55g");
    let mut huge = profitable(1, 1, 1);
    huge.profit = Money::whole_copper(i64::MAX);
    assert!(list_lines(&vec![huge, profitable(2, 1, 1)], &vec![facts("a"), facts("b")]).is_none());
}

#[test]
fn exports_list_what_is_made() {
    let items = vec![profitable(1, 60, 4), profitable(2, 500, 0), profitable(3, 90, 1)];
    let records = export_records(&items, &vec![facts("a"), facts("b"), facts("c")]);
    assert_eq!(records.len(), 3);
    assert_eq!(records[0][2], "Item ID");
    assert_eq!(records[1].join("|"), "c|Ch|3||0.00.90g|1|90|2|45|7");
    assert_eq!(records[2][0], "a");
}
