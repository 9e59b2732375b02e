//! What is printed of one item, and of the list of all items.

use crate::api;
use crate::crafting::{Leftover, Source};
use crate::item::Item;
use crate::money::{amount_text, fits, sum_of, whole};
use crate::order::{
    is_stable_order, is_stable_sort, lemma_filter_keeps_order, lemma_position_found,
    lemma_sort_keeps_values, sorted_distinct,
};
use crate::profit::{lemma_contains_push, ItemReport, ProfitableItem};
use crate::recipe::RecipeIngredient;
use crate::report::{
    are_entries, are_keys_unlocking, crafting_step_line, crafting_steps_url, export_cells,
    export_header, export_headings, export_line, export_order, headline, headline_of, how_to_learn,
    in_columns, is_output_row, is_shopping_plan, law_export_goes_by_profit,
    law_shopping_names_all_ingredients, leftover_line, leftover_text, list_cells,
    list_header, list_headings, list_line, max_inventory_slots, more_copper, output_row, profits_of,
    recipe_source_line, selling_line, selling_text, shopping_line, shopping_order, shopping_plan,
    shopping_text, slots_needed, step_text, steps_address, total_profit, unknown_recipes_message,
    unknown_recipes_text, OutputRow, ShoppingEntry,
};
use crate::simulation::Shopping;
use crate::table::{item_name, shown_name};
use crate::text::{chars_of, decimal, texts, to_wide_decimal};
use std::collections::{BTreeMap, HashMap};
use vstd::prelude::*;
use vstd::string::*;

verus! {

/// A step of the crafting: so many units of an item, made so many at a time.
#[derive(Clone, Debug)]
pub struct CraftingStep {
    pub item_id: u32,
    pub count: u32,
    pub batch: u32,
    pub ingredients: Vec<RecipeIngredient>,
}

/// What the lines on an item draw on beside the item itself.
pub struct ItemContext<'a> {
    pub items_map: &'a HashMap<u32, Item>,
    /// Prices of the items that unlock recipes.
    pub recipe_prices: &'a HashMap<u32, api::Price>,
    /// The steps of the crafting, in the order in which they are made.
    pub steps: &'a Vec<CraftingStep>,
    /// Whether it is known which recipes the account has unlocked.
    pub account_known: bool,
}

/// A line between two parts.
pub open spec fn divider() -> Seq<char> {
    "============"@
}

/// The lines of a shopping list.
pub open spec fn shopping_texts(plan: Seq<ShoppingEntry>, items: Map<u32, Item>) -> Seq<Seq<char>> {
    plan.map_values(|e: ShoppingEntry| shopping_text(e, items))
}

/// The lines of the steps.
pub open spec fn step_texts(steps: Seq<CraftingStep>, items: Map<u32, Item>) -> Seq<Seq<char>> {
    steps.map_values(
        |s: CraftingStep| step_text(s.item_id, s.count, s.batch, s.ingredients@, items),
    )
}

/// The line says how to learn the recipe.
pub open spec fn tells_how_to_learn(
    line: Seq<char>,
    recipe_id: u32,
    items: Map<u32, Item>,
    prices: Map<u32, api::Price>,
) -> bool {
    exists|keys: Seq<u32>| #[trigger]
        are_keys_unlocking(keys, items, recipe_id) && line == how_to_learn(
            recipe_id,
            keys,
            items,
            prices,
        )
}

/// The lines say how to learn the recipes, in their order.
pub open spec fn tell_how_to_learn(
    lines: Seq<Seq<char>>,
    recipes: Seq<u32>,
    items: Map<u32, Item>,
    prices: Map<u32, api::Price>,
) -> bool {
    &&& lines.len() == recipes.len()
    &&& forall|i: int|
        0 <= i < lines.len() ==> tells_how_to_learn(
            #[trigger] lines[i],
            recipes[i],
            items,
            prices,
        )
}

/// The keys of a map, in ascending order.
pub open spec fn are_keys_of<V>(keys: Seq<u32>, map: Map<u32, V>) -> bool {
    &&& forall|i: int, j: int|
        0 <= i < j < keys.len() ==> (#[trigger] keys[i]) < (#[trigger] keys[j])
    &&& forall|k: u32| #[trigger] keys.contains(k) <==> map.contains_key(k)
}

/// The lines on what is left over.
pub open spec fn leftover_texts(
    keys: Seq<u32>,
    leftovers: Map<u32, Leftover>,
    items: Map<u32, Item>,
) -> Seq<Seq<char>> {
    keys.map_values(|k: u32| leftover_text(k, leftovers[k], items))
}

/// The part on recipes that are not known to be unlocked.
pub open spec fn unknown_part(account_known: bool, learning: Seq<Seq<char>>) -> Seq<Seq<char>> {
    if learning.len() > 0 {
        seq![unknown_recipes_text(account_known, learning)]
    } else {
        Seq::empty()
    }
}

/// The part on what is left over.
pub open spec fn leftover_part(lines: Seq<Seq<char>>) -> Seq<Seq<char>> {
    if lines.len() > 0 {
        seq!["Leftovers:"@] + lines
    } else {
        Seq::empty()
    }
}

/// The part on what an item earns.
pub open spec fn earnings_part(
    item_id: u32,
    item: ProfitableItem,
    items: Map<u32, Item>,
    percentage: Seq<char>,
) -> Seq<Seq<char>> {
    seq![
        divider(),
        "Shopping list for "@ + headline(item, shown_name(items, item_id), percentage),
        selling_text(item),
        divider(),
    ]
}

/// The part between what to buy and what to craft.
pub open spec fn inventory_part(
    item_id: u32,
    count: u32,
    plan: Seq<ShoppingEntry>,
    items: Map<u32, Item>,
) -> Seq<Seq<char>> {
    seq![
        divider(),
        "Max inventory slots: "@ + decimal(slots_needed(plan, items, plan.len())),
        "Crafting steps: "@ + steps_address(count, item_id),
    ]
}

/// All lines on an item that is worth crafting.
pub open spec fn item_output(
    item_id: u32,
    item: ProfitableItem,
    context: ItemContext,
    percentage: Seq<char>,
    plan: Seq<ShoppingEntry>,
    learning: Seq<Seq<char>>,
    keys: Seq<u32>,
) -> Seq<Seq<char>> {
    let items = context.items_map@;
    earnings_part(item_id, item, items, percentage) + shopping_texts(plan, items) + inventory_part(
        item_id,
        item.count,
        plan,
        items,
    ) + step_texts(context.steps@, items) + unknown_part(context.account_known, learning)
        + leftover_part(leftover_texts(keys, item.crafted_items.leftovers@, items))
}

/// The lines on an item.
pub open spec fn are_item_lines(
    lines: Seq<Seq<char>>,
    item_id: u32,
    report: ItemReport,
    context: ItemContext,
    percentage: Seq<char>,
) -> bool {
    match report.item {
        None => lines == seq!["Item is not profitable to craft"@],
        Some(item) => exists|plan: Seq<ShoppingEntry>, learning: Seq<Seq<char>>, keys: Seq<u32>|
            {
                &&& #[trigger] is_shopping_plan(plan, report.shopping@)
                &&& #[trigger] tell_how_to_learn(
                    learning,
                    report.required_unknown_recipes@,
                    context.items_map@,
                    context.recipe_prices@,
                )
                &&& #[trigger] are_keys_of(keys, item.crafted_items.leftovers@)
                &&& lines == item_output(item_id, item, context, percentage, plan, learning, keys)
            },
    }
}

/// Every ingredient that a vendor sells is known.
pub open spec fn vendors_known(list: Shopping, items: Map<u32, Item>) -> bool {
    forall|id: u32| #[trigger] list.vendor.contains_key(id) ==> items.contains_key(id)
}

proof fn lemma_plan_is_known(plan: Seq<ShoppingEntry>, list: Shopping, items: Map<u32, Item>)
    requires
        is_shopping_plan(plan, list),
    ensures
        vendors_known(list, items) <==> forall|i: int|
            0 <= i < plan.len() && (#[trigger] plan[i]).source == Source::Vendor
                ==> items.contains_key(plan[i].item_id),
{
    let entries = choose|entries: Seq<ShoppingEntry>| #[trigger]
        are_entries(entries, list) && is_stable_sort(entries, shopping_order(), plan);
    lemma_sort_keeps_values(entries, shopping_order(), plan);
    if vendors_known(list, items) {
        assert forall|i: int|
            0 <= i < plan.len() && (#[trigger] plan[i]).source
                == Source::Vendor implies items.contains_key(plan[i].item_id) by {
            assert(plan.contains(plan[i]));
            let k: int = choose|k: int| 0 <= k < entries.len() && entries[k] == plan[i];
            assert(list.entry(entries[k].item_id, Source::Vendor) is Some);
            assert(list.vendor.contains_key(plan[i].item_id));
        }
    }
    if forall|i: int|
        0 <= i < plan.len() && (#[trigger] plan[i]).source == Source::Vendor
            ==> items.contains_key(plan[i].item_id) {
        assert forall|id: u32| #[trigger]
            list.vendor.contains_key(id) implies items.contains_key(id) by {
            assert(list.entry(id, Source::Vendor) is Some);
            let k: int = choose|k: int|
                0 <= k < entries.len() && (#[trigger] entries[k]).item_id == id
                    && entries[k].source == Source::Vendor;
            assert(entries.contains(entries[k]));
            assert(plan.contains(entries[k]));
            let i: int = choose|i: int| 0 <= i < plan.len() && plan[i] == entries[k];
            assert(plan[i].source == Source::Vendor);
        }
    }
}

fn shopping_lines(plan: &Vec<ShoppingEntry>, items_map: &HashMap<u32, Item>) -> (lines: Option<
    Vec<String>,
>)
    ensures
        match lines {
            Some(lines) => texts(lines@) == shopping_texts(plan@, items_map@) && forall|i: int|
                0 <= i < plan@.len() && (#[trigger] plan@[i]).source == Source::Vendor
                    ==> items_map@.contains_key(plan@[i].item_id),
            None => exists|i: int|
                0 <= i < plan@.len() && (#[trigger] plan@[i]).source == Source::Vendor
                    && !items_map@.contains_key(plan@[i].item_id),
        },
{
    let mut lines: Vec<String> = Vec::new();
    let mut i: usize = 0;
    assert(texts(lines@) =~= shopping_texts(plan@.take(0), items_map@));
    while i < plan.len()
        invariant
            i <= plan.len(),
            texts(lines@) == shopping_texts(plan@.take(i as int), items_map@),
            forall|k: int|
                0 <= k < i && (#[trigger] plan@[k]).source == Source::Vendor
                    ==> items_map@.contains_key(plan@[k].item_id),
        decreases plan.len() - i,
    {
        let ghost before = lines@;
        let line = match shopping_line(&plan[i], items_map) {
            Some(line) => line,
            None => {
                return None;
            },
        };
        let ghost text = line@;
        lines.push(line);
        proof {
            assert(texts(lines@) =~= texts(before).push(text));
            assert(shopping_texts(plan@.take(i + 1), items_map@) =~= shopping_texts(
                plan@.take(i as int),
                items_map@,
            ).push(text));
        }
        i += 1;
    }
    assert(plan@.take(i as int) =~= plan@);
    Some(lines)
}

fn step_lines(steps: &Vec<CraftingStep>, items_map: &HashMap<u32, Item>) -> (lines: Vec<String>)
    requires
        forall|i: int| 0 <= i < steps@.len() ==> (#[trigger] steps@[i]).batch > 0,
    ensures
        texts(lines@) == step_texts(steps@, items_map@),
{
    let mut lines: Vec<String> = Vec::new();
    let mut i: usize = 0;
    assert(texts(lines@) =~= step_texts(steps@.take(0), items_map@));
    while i < steps.len()
        invariant
            i <= steps.len(),
            forall|k: int| 0 <= k < steps@.len() ==> (#[trigger] steps@[k]).batch > 0,
            texts(lines@) == step_texts(steps@.take(i as int), items_map@),
        decreases steps.len() - i,
    {
        let ghost before = lines@;
        let step = &steps[i];
        assert(steps@[i as int].batch > 0);
        let line = crafting_step_line(
            step.item_id,
            step.count,
            step.batch,
            &step.ingredients,
            items_map,
        );
        let ghost text = line@;
        lines.push(line);
        proof {
            assert(texts(lines@) =~= texts(before).push(text));
            assert(step_texts(steps@.take(i + 1), items_map@) =~= step_texts(
                steps@.take(i as int),
                items_map@,
            ).push(text));
        }
        i += 1;
    }
    assert(steps@.take(i as int) =~= steps@);
    lines
}

fn learning_lines(
    recipes: &Vec<u32>,
    items_map: &HashMap<u32, Item>,
    prices: &HashMap<u32, api::Price>,
) -> (lines: Vec<String>)
    ensures
        tell_how_to_learn(texts(lines@), recipes@, items_map@, prices@),
{
    let mut lines: Vec<String> = Vec::new();
    let mut i: usize = 0;
    while i < recipes.len()
        invariant
            i <= recipes.len(),
            lines@.len() == i,
            forall|k: int|
                0 <= k < i ==> tells_how_to_learn(
                    (#[trigger] lines@[k])@,
                    recipes@[k],
                    items_map@,
                    prices@,
                ),
        decreases recipes.len() - i,
    {
        let line = recipe_source_line(recipes[i], items_map, prices);
        assert(tells_how_to_learn(line@, recipes@[i as int], items_map@, prices@));
        lines.push(line);
        i += 1;
    }
    assert forall|k: int| 0 <= k < texts(lines@).len() implies tells_how_to_learn(
        #[trigger] texts(lines@)[k],
        recipes@[k],
        items_map@,
        prices@,
    ) by {
        assert(texts(lines@)[k] == lines@[k]@);
    }
    lines
}

fn sorted_keys<V>(map: &BTreeMap<u32, V>) -> (keys: Vec<u32>)
    ensures
        are_keys_of(keys@, map@),
{
    let ghost all = map@;
    let mut keys: Vec<u32> = Vec::new();
    for entry in it: map.iter()
        invariant
            all == map@,
            forall|i: int|
                0 <= i < it.seq().len() ==> all.contains_key(*(#[trigger] it.seq()[i]).0),
            forall|k: u32| #[trigger] keys@.contains(k) ==> all.contains_key(k),
            forall|i: int| 0 <= i < it.index() ==> keys@.contains(*(#[trigger] it.seq()[i]).0),
    {
        let ghost before = keys@;
        keys.push(*entry.0);
        proof {
            assert forall|k: u32| #[trigger] keys@.contains(k) <==> before.contains(k) || k
                == *entry.0 by {
                lemma_contains_push(before, *entry.0, k);
            }
        }
    }
    proof {
        assert forall|k: u32| all.contains_key(k) implies #[trigger] keys@.contains(k) by {}
    }
    sorted_distinct(keys)
}

fn leftover_lines(
    keys: &Vec<u32>,
    leftovers: &BTreeMap<u32, Leftover>,
    items_map: &HashMap<u32, Item>,
) -> (lines: Vec<String>)
    requires
        are_keys_of(keys@, leftovers@),
    ensures
        texts(lines@) == leftover_texts(keys@, leftovers@, items_map@),
{
    let mut lines: Vec<String> = Vec::new();
    let mut i: usize = 0;
    assert(texts(lines@) =~= leftover_texts(keys@.take(0), leftovers@, items_map@));
    while i < keys.len()
        invariant
            i <= keys.len(),
            are_keys_of(keys@, leftovers@),
            texts(lines@) == leftover_texts(keys@.take(i as int), leftovers@, items_map@),
        decreases keys.len() - i,
    {
        let ghost before = lines@;
        assert(keys@.contains(keys@[i as int]));
        if let Some(leftover) = leftovers.get(&keys[i]) {
            let line = leftover_line(keys[i], leftover, items_map);
            let ghost text = line@;
            lines.push(line);
            proof {
                assert(texts(lines@) =~= texts(before).push(text));
                assert(leftover_texts(keys@.take(i + 1), leftovers@, items_map@)
                    =~= leftover_texts(keys@.take(i as int), leftovers@, items_map@).push(text));
            }
        }
        i += 1;
    }
    assert(keys@.take(i as int) =~= keys@);
    lines
}

fn earnings_lines(
    item_id: u32,
    item: &ProfitableItem,
    items_map: &HashMap<u32, Item>,
    percentage: &str,
) -> (lines: Vec<String>)
    ensures
        texts(lines@) == earnings_part(item_id, *item, items_map@, percentage@),
{
    let name = item_name(items_map, item_id);
    let lines = vec![
        String::from_str("============"),
        String::from_str("Shopping list for ").concat(
            headline_of(item, name.as_str(), percentage).as_str(),
        ),
        selling_line(item),
        String::from_str("============"),
    ];
    assert(texts(lines@) =~= earnings_part(item_id, *item, items_map@, percentage@));
    lines
}

fn inventory_lines(
    item_id: u32,
    count: u32,
    plan: &Vec<ShoppingEntry>,
    items_map: &HashMap<u32, Item>,
) -> (lines: Vec<String>)
    ensures
        texts(lines@) == inventory_part(item_id, count, plan@, items_map@),
{
    let lines = vec![
        String::from_str("============"),
        String::from_str("Max inventory slots: ").concat(
            to_wide_decimal(max_inventory_slots(plan, items_map)).as_str(),
        ),
        String::from_str("Crafting steps: ").concat(crafting_steps_url(count, item_id).as_str()),
    ];
    assert(texts(lines@) =~= inventory_part(item_id, count, plan@, items_map@));
    lines
}

fn unknown_lines(account_known: bool, learning: &Vec<String>) -> (lines: Vec<String>)
    ensures
        texts(lines@) == unknown_part(account_known, texts(learning@)),
{
    let mut lines: Vec<String> = Vec::new();
    if learning.len() > 0 {
        lines.push(unknown_recipes_message(account_known, learning));
    }
    assert(texts(lines@) =~= unknown_part(account_known, texts(learning@)));
    lines
}

fn with_leftover_heading(leftovers: Vec<String>) -> (lines: Vec<String>)
    ensures
        texts(lines@) == leftover_part(texts(leftovers@)),
{
    let mut lines: Vec<String> = Vec::new();
    if leftovers.len() > 0 {
        lines.push(String::from_str("Leftovers:"));
        assert(texts(lines@) =~= seq!["Leftovers:"@]);
        lines = joined(lines, leftovers);
    }
    assert(texts(lines@) =~= leftover_part(texts(leftovers@)));
    lines
}

fn joined(first: Vec<String>, second: Vec<String>) -> (lines: Vec<String>)
    ensures
        texts(lines@) == texts(first@) + texts(second@),
{
    let mut lines = first;
    let mut more = second;
    lines.append(&mut more);
    assert(texts(lines@) =~= texts(first@) + texts(second@));
    lines
}

/// The lines on an item: what it earns, what to buy, and how to craft it.
/// `percentage` is the profit on the cost. There are none where a vendor sells
/// an ingredient that is not known.
pub fn item_lines(
    item_id: u32,
    report: &ItemReport,
    context: &ItemContext,
    percentage: &str,
) -> (lines: Option<Vec<String>>)
    requires
        forall|i: int| 0 <= i < context.steps@.len() ==> (#[trigger] context.steps@[i]).batch > 0,
    ensures
        match lines {
            Some(lines) => are_item_lines(
                texts(lines@),
                item_id,
                *report,
                *context,
                percentage@,
            ) && (report.item is Some ==> vendors_known(report.shopping@, context.items_map@)),
            None => report.item is Some && !vendors_known(
                report.shopping@,
                context.items_map@,
            ),
        },
{
    let items_map = context.items_map;
    let item = match &report.item {
        Some(item) => item,
        None => {
            let lines = vec![String::from_str("Item is not profitable to craft")];
            assert(texts(lines@) =~= seq!["Item is not profitable to craft"@]);
            return Some(lines);
        },
    };
    let plan = shopping_plan(&report.shopping);
    proof {
        lemma_plan_is_known(plan@, report.shopping@, items_map@);
    }
    let shopping = match shopping_lines(&plan, items_map) {
        Some(lines) => lines,
        None => {
            return None;
        },
    };
    let learning = learning_lines(
        &report.required_unknown_recipes,
        items_map,
        context.recipe_prices,
    );
    let keys = sorted_keys(&item.crafted_items.leftovers);
    let leftovers = leftover_lines(&keys, &item.crafted_items.leftovers, items_map);
    let mut lines = earnings_lines(item_id, item, items_map, percentage);
    lines = joined(lines, shopping);
    lines = joined(lines, inventory_lines(item_id, item.count, &plan, items_map));
    lines = joined(lines, step_lines(context.steps, items_map));
    lines = joined(lines, unknown_lines(context.account_known, &learning));
    lines = joined(lines, with_leftover_heading(leftovers));
    assert(texts(lines@) == item_output(
        item_id,
        *item,
        *context,
        percentage@,
        plan@,
        texts(learning@),
        keys@,
    ));
    Some(lines)
}

/// What the list says of an item beside what crafting it comes to.
#[derive(Clone, Debug)]
pub struct ListFacts {
    pub name: String,
    pub disciplines: String,
    /// Recipes that are not known to be unlocked.
    pub unknown_recipes: Vec<u32>,
    /// The profit on the cost.
    pub percentage: String,
}

/// Line of the list on an item.
pub open spec fn is_list_text(line: Seq<char>, item: ProfitableItem, facts: ListFacts) -> bool {
    exists|row: OutputRow| #[trigger]
        is_output_row(row, item, facts.name@, facts.disciplines@, facts.unknown_recipes@) && line
            == in_columns(list_cells(row, facts.percentage@))
}

/// The items of which any is made, in the order of the list.
pub open spec fn made_positions(items: Seq<ProfitableItem>) -> Seq<int>
    decreases items.len(),
{
    if items.len() == 0 {
        Seq::empty()
    } else {
        let earlier = made_positions(items.drop_last());
        if items.last().count > 0 {
            earlier.push(items.len() - 1)
        } else {
            earlier
        }
    }
}

/// The lines on the items of which any is made.
pub open spec fn are_rows(
    lines: Seq<Seq<char>>,
    items: Seq<ProfitableItem>,
    facts: Seq<ListFacts>,
) -> bool {
    let made = made_positions(items);
    &&& lines.len() == made.len()
    &&& forall|i: int|
        0 <= i < lines.len() ==> is_list_text(
            #[trigger] lines[i],
            items[made[i]],
            facts[made[i]],
        )
}

/// A line of the width of the headings.
pub open spec fn ruler() -> Seq<char> {
    Seq::new(in_columns(list_headings()).len(), |i: int| '=')
}

/// The list of items between its headings, with the profit of all of them.
pub open spec fn list_output(rows: Seq<Seq<char>>, total: real) -> Seq<Seq<char>> {
    seq![in_columns(list_headings()), ruler()] + rows + seq![
        ruler(),
        in_columns(list_headings()),
        ruler(),
        "Total: "@ + amount_text(total),
    ]
}

fn ruler_line() -> (s: String)
    ensures
        s@ == ruler(),
{
    let width: usize = chars_of(list_header().as_str()).len();
    let mut s = String::new();
    let mut i: usize = 0;
    while i < width
        invariant
            i <= width,
            s@ == Seq::new(i as nat, |k: int| '='),
        decreases width - i,
    {
        s.push('=');
        i += 1;
        assert(s@ =~= Seq::new(i as nat, |k: int| '='));
    }
    s
}

proof fn lemma_made_in_range(items: Seq<ProfitableItem>)
    ensures
        forall|i: int|
            0 <= i < made_positions(items).len() ==> 0 <= #[trigger] made_positions(items)[i]
                < items.len(),
    decreases items.len(),
{
    if items.len() > 0 {
        lemma_made_in_range(items.drop_last());
        let earlier = made_positions(items.drop_last());
        assert forall|i: int| 0 <= i < made_positions(items).len() implies 0
            <= #[trigger] made_positions(items)[i] < items.len() by {
            if i < earlier.len() {
                assert(made_positions(items)[i] == earlier[i]);
            }
        }
    }
}

fn row_lines(items: &Vec<ProfitableItem>, facts: &Vec<ListFacts>) -> (lines: Vec<String>)
    requires
        facts@.len() == items@.len(),
    ensures
        are_rows(texts(lines@), items@, facts@),
{
    let mut lines: Vec<String> = Vec::new();
    let mut i: usize = 0;
    assert(items@.take(0) =~= Seq::empty());
    assert(texts(lines@) =~= Seq::empty());
    while i < items.len()
        invariant
            i <= items.len(),
            facts@.len() == items@.len(),
            are_rows(texts(lines@), items@.take(i as int), facts@),
        decreases items.len() - i,
    {
        let ghost before = texts(lines@);
        let ghost earlier = items@.take(i as int);
        let ghost now = items@.take(i + 1);
        proof {
            assert(now.drop_last() =~= earlier);
            assert(now.last() == items@[i as int]);
            lemma_made_in_range(earlier);
        }
        let fact = &facts[i];
        let row = output_row(
            &items[i],
            fact.name.as_str(),
            fact.disciplines.as_str(),
            &fact.unknown_recipes,
        );
        if let Some(row) = row {
            let line = list_line(&row, fact.percentage.as_str());
            let ghost text = line@;
            assert(is_list_text(text, items@[i as int], facts@[i as int]));
            lines.push(line);
            assert(texts(lines@) =~= before.push(text));
        }
        proof {
            let made = made_positions(now);
            let made_before = made_positions(earlier);
            assert forall|k: int| 0 <= k < texts(lines@).len() implies is_list_text(
                #[trigger] texts(lines@)[k],
                now[made[k]],
                facts@[made[k]],
            ) by {
                if k < before.len() {
                    assert(texts(lines@)[k] == before[k]);
                    assert(made[k] == made_before[k]);
                    assert(now[made[k]] == earlier[made[k]]);
                }
            }
        }
        i += 1;
    }
    assert(items@.take(i as int) =~= items@);
    lines
}

/// The list of items between its headings, with the profit of all of them. There
/// is none where that profit is more than can be held.
pub fn list_lines(items: &Vec<ProfitableItem>, facts: &Vec<ListFacts>) -> (lines: Option<
    Vec<String>,
>)
    requires
        facts@.len() == items@.len(),
    ensures
        match lines {
            Some(lines) => exists|rows: Seq<Seq<char>>| #[trigger]
                are_rows(rows, items@, facts@) && texts(lines@) == list_output(
                    rows,
                    sum_of(profits_of(items@)),
                ),
            None => exists|i: int|
                0 <= i <= items@.len() && !fits(sum_of(#[trigger] profits_of(items@).take(i))),
        },
{
    let total = match total_profit(items) {
        Some(total) => total,
        None => {
            return None;
        },
    };
    let rows = row_lines(items, facts);
    let top = vec![list_header(), ruler_line()];
    assert(texts(top@) =~= seq![in_columns(list_headings()), ruler()]);
    let bottom = vec![
        ruler_line(),
        list_header(),
        ruler_line(),
        String::from_str("Total: ").concat(total.render().as_str()),
    ];
    assert(texts(bottom@) =~= seq![
        ruler(),
        in_columns(list_headings()),
        ruler(),
        "Total: "@ + amount_text(total@),
    ]);
    let lines = joined(joined(top, rows), bottom);
    assert(are_rows(texts(rows@), items@, facts@));
    Some(lines)
}

/// Line of the file on an item.
pub open spec fn is_export_record(
    record: Seq<Seq<char>>,
    item: ProfitableItem,
    facts: ListFacts,
) -> bool {
    exists|row: OutputRow| #[trigger]
        is_output_row(row, item, facts.name@, facts.disciplines@, facts.unknown_recipes@) && record
            == export_cells(row, facts.percentage@)
}

/// Those of the positions at which any unit is made.
pub open spec fn made_among(order: Seq<usize>, items: Seq<ProfitableItem>) -> Seq<usize>
    decreases order.len(),
{
    if order.len() == 0 {
        Seq::empty()
    } else {
        let earlier = made_among(order.drop_last(), items);
        if items[order.last() as int].count > 0 {
            earlier.push(order.last())
        } else {
            earlier
        }
    }
}

/// The lines on the items at the positions, as far as any unit is made.
pub open spec fn are_records(
    records: Seq<Vec<String>>,
    order: Seq<usize>,
    items: Seq<ProfitableItem>,
    facts: Seq<ListFacts>,
) -> bool {
    let made = made_among(order, items);
    &&& records.len() == made.len()
    &&& forall|i: int|
        0 <= i < records.len() ==> is_export_record(
            texts((#[trigger] records[i])@),
            items[made[i] as int],
            facts[made[i] as int],
        )
}

/// The file that a list is written to: its headings, and the items in the order
/// of their profit.
pub open spec fn is_export(
    records: Seq<Vec<String>>,
    items: Seq<ProfitableItem>,
    facts: Seq<ListFacts>,
) -> bool {
    &&& records.len() > 0
    &&& texts(records[0]@) == export_headings()
    &&& exists|order: Seq<usize>| #[trigger]
        is_stable_order(items, more_copper(), order) && are_records(
            records.drop_first(),
            order,
            items,
            facts,
        )
}

/// The file that a list is written to, line by line.
pub fn export_records(items: &Vec<ProfitableItem>, facts: &Vec<ListFacts>) -> (records: Vec<
    Vec<String>,
>)
    requires
        facts@.len() == items@.len(),
    ensures
        is_export(records@, items@, facts@),
{
    let order = export_order(items);
    let mut records: Vec<Vec<String>> = Vec::new();
    records.push(export_header());
    let ghost heading = records@[0];
    let mut k: usize = 0;
    assert(order@.take(0) =~= Seq::empty());
    assert(records@.drop_first() =~= Seq::empty());
    while k < order.len()
        invariant
            k <= order.len(),
            facts@.len() == items@.len(),
            is_stable_order(items@, more_copper(), order@),
            records@.len() > 0,
            records@[0] == heading,
            are_records(records@.drop_first(), order@.take(k as int), items@, facts@),
        decreases order.len() - k,
    {
        let ghost before = records@.drop_first();
        let ghost earlier = made_among(order@.take(k as int), items@);
        assert(order@.take(k + 1).drop_last() =~= order@.take(k as int));
        let position: usize = order[k];
        let fact = &facts[position];
        let row = output_row(
            &items[position],
            fact.name.as_str(),
            fact.disciplines.as_str(),
            &fact.unknown_recipes,
        );
        if let Some(row) = row {
            let record = export_line(&row, fact.percentage.as_str());
            assert(is_export_record(
                texts(record@),
                items@[position as int],
                facts@[position as int],
            ));
            let ghost added = record;
            records.push(record);
            assert(records@.drop_first() =~= before.push(added));
        }
        proof {
            let made = made_among(order@.take(k + 1), items@);
            let now = records@.drop_first();
            assert forall|i: int| 0 <= i < now.len() implies is_export_record(
                texts((#[trigger] now[i])@),
                items@[made[i] as int],
                facts@[made[i] as int],
            ) by {
                if i < before.len() {
                    assert(now[i] == before[i]);
                    assert(made[i] == earlier[i]);
                }
            }
        }
        k += 1;
    }
    assert(order@.take(k as int) =~= order@);
    records
}

/// An item that is not worth crafting has one line, which says so. Any other has its
/// headline and the line on selling at the top, a line for each ingredient and source,
/// and behind them a line for each step, each leftover, and one on missing recipes
/// exactly if there are any.
pub proof fn law_item_lines_tell_all(
    lines: Seq<Seq<char>>,
    item_id: u32,
    report: ItemReport,
    context: ItemContext,
    percentage: Seq<char>,
    id: u32,
    source: Source,
    step: int,
)
    requires
        are_item_lines(lines, item_id, report, context, percentage),
    ensures
        report.item is None ==> lines.len() == 1 && lines[0] == "Item is not profitable to craft"@,
        report.item matches Some(item) ==> {
            let items = context.items_map@;
            &&& lines.len() >= 7 + context.steps@.len()
            &&& lines[1] == "Shopping list for "@ + headline(
                item,
                shown_name(items, item_id),
                percentage,
            )
            &&& lines[2] == selling_text(item)
            &&& report.shopping@.entry(id, source) is Some ==> exists|e: ShoppingEntry|
                e.item_id == id && e.source == source && lines.contains(
                    #[trigger] shopping_text(e, items),
                )
            &&& 0 <= step < context.steps@.len() ==> lines.contains(
                step_text(
                    context.steps@[step].item_id,
                    context.steps@[step].count,
                    context.steps@[step].batch,
                    context.steps@[step].ingredients@,
                    items,
                ),
            )
            &&& item.crafted_items.leftovers@.contains_key(id) ==> lines.contains("Leftovers:"@)
                && lines.contains(leftover_text(id, item.crafted_items.leftovers@[id], items))
            &&& report.required_unknown_recipes@.len() > 0 ==> exists|learning: Seq<Seq<char>>|
                learning.len() == report.required_unknown_recipes@.len() && lines.contains(
                    #[trigger] unknown_recipes_text(context.account_known, learning),
                )
        },
{
    if report.item is Some {
        let item = report.item->0;
        let items = context.items_map@;
        let leftovers = item.crafted_items.leftovers@;
        let (plan, learning, keys) = choose|
            plan: Seq<ShoppingEntry>,
            learning: Seq<Seq<char>>,
            keys: Seq<u32>,
        |
            {
                &&& #[trigger] is_shopping_plan(plan, report.shopping@)
                &&& #[trigger] tell_how_to_learn(
                    learning,
                    report.required_unknown_recipes@,
                    items,
                    context.recipe_prices@,
                )
                &&& #[trigger] are_keys_of(keys, leftovers)
                &&& lines == item_output(item_id, item, context, percentage, plan, learning, keys)
            };
        lemma_output_holds(item_id, item, context, percentage, plan, learning, keys);
        if report.shopping@.entry(id, source) is Some {
            law_shopping_names_all_ingredients(plan, report.shopping@, id, source, 0);
            let k: int = choose|k: int|
                0 <= k < plan.len() && (#[trigger] plan[k]).item_id == id && plan[k].source
                    == source;
            let e = plan[k];
            assert(lines.contains(shopping_text(e, items)));
        }
        if leftovers.contains_key(id) {
            assert(keys.contains(id));
            let k: int = keys.index_of(id);
            assert(keys[k] == id);
        }
        if report.required_unknown_recipes@.len() > 0 {
            assert(lines.contains(unknown_recipes_text(context.account_known, learning)));
        }
    }
}

proof fn lemma_output_holds(
    item_id: u32,
    item: ProfitableItem,
    context: ItemContext,
    percentage: Seq<char>,
    plan: Seq<ShoppingEntry>,
    learning: Seq<Seq<char>>,
    keys: Seq<u32>,
)
    ensures
        ({
            let items = context.items_map@;
            let steps = context.steps@;
            let leftovers = item.crafted_items.leftovers@;
            let all = item_output(item_id, item, context, percentage, plan, learning, keys);
            &&& all.len() >= 7 + steps.len()
            &&& all[1] == "Shopping list for "@ + headline(
                item,
                shown_name(items, item_id),
                percentage,
            )
            &&& all[2] == selling_text(item)
            &&& forall|k: int|
                0 <= k < plan.len() ==> all.contains(shopping_text(#[trigger] plan[k], items))
            &&& forall|k: int|
                0 <= k < steps.len() ==> all.contains(
                    step_text(
                        (#[trigger] steps[k]).item_id,
                        steps[k].count,
                        steps[k].batch,
                        steps[k].ingredients@,
                        items,
                    ),
                )
            &&& learning.len() > 0 ==> all.contains(
                unknown_recipes_text(context.account_known, learning),
            )
            &&& keys.len() > 0 ==> all.contains("Leftovers:"@)
            &&& forall|k: int|
                0 <= k < keys.len() ==> all.contains(
                    leftover_text(#[trigger] keys[k], leftovers[keys[k]], items),
                )
        }),
{
    let items = context.items_map@;
    let steps = context.steps@;
    let leftovers = item.crafted_items.leftovers@;
    let a = earnings_part(item_id, item, items, percentage);
    let b = shopping_texts(plan, items);
    let c = inventory_part(item_id, item.count, plan, items);
    let d = step_texts(steps, items);
    let e = unknown_part(context.account_known, learning);
    let told = leftover_texts(keys, leftovers, items);
    let f = leftover_part(told);
    let all = item_output(item_id, item, context, percentage, plan, learning, keys);
    lemma_six_parts(a, b, c, d, e, f);
    assert(all == a + b + c + d + e + f);
    assert(a.len() == 4 && c.len() == 3 && d.len() == steps.len());
    assert(all[1] == a[1] && all[2] == a[2]);
    assert forall|k: int| 0 <= k < plan.len() implies all.contains(
        shopping_text(#[trigger] plan[k], items),
    ) by {
        assert(b[k] == shopping_text(plan[k], items));
    }
    assert forall|k: int| 0 <= k < steps.len() implies all.contains(
        step_text(
            (#[trigger] steps[k]).item_id,
            steps[k].count,
            steps[k].batch,
            steps[k].ingredients@,
            items,
        ),
    ) by {
        assert(d[k] == step_text(
            steps[k].item_id,
            steps[k].count,
            steps[k].batch,
            steps[k].ingredients@,
            items,
        ));
    }
    if learning.len() > 0 {
        assert(e[0] == unknown_recipes_text(context.account_known, learning));
    }
    if keys.len() > 0 {
        assert(f[0] == "Leftovers:"@);
    }
    assert forall|k: int| 0 <= k < keys.len() implies all.contains(
        leftover_text(#[trigger] keys[k], leftovers[keys[k]], items),
    ) by {
        assert(told[k] == leftover_text(keys[k], leftovers[keys[k]], items));
        assert(f[1 + k] == told[k]);
    }
}

/// Every line of six parts is a line of the whole, and the first part comes first.
proof fn lemma_six_parts(
    a: Seq<Seq<char>>,
    b: Seq<Seq<char>>,
    c: Seq<Seq<char>>,
    d: Seq<Seq<char>>,
    e: Seq<Seq<char>>,
    f: Seq<Seq<char>>,
)
    ensures
        ({
            let all = a + b + c + d + e + f;
            &&& all.len() == a.len() + b.len() + c.len() + d.len() + e.len() + f.len()
            &&& forall|i: int| 0 <= i < a.len() ==> all[i] == #[trigger] a[i]
            &&& forall|i: int| 0 <= i < b.len() ==> all.contains(#[trigger] b[i])
            &&& forall|i: int| 0 <= i < d.len() ==> all.contains(#[trigger] d[i])
            &&& forall|i: int| 0 <= i < e.len() ==> all.contains(#[trigger] e[i])
            &&& forall|i: int| 0 <= i < f.len() ==> all.contains(#[trigger] f[i])
        }),
{
    let all = a + b + c + d + e + f;
    assert forall|i: int| 0 <= i < b.len() implies all.contains(#[trigger] b[i]) by {
        assert(all[a.len() + i] == b[i]);
    }
    assert forall|i: int| 0 <= i < d.len() implies all.contains(#[trigger] d[i]) by {
        assert(all[a.len() + b.len() + c.len() + i] == d[i]);
    }
    assert forall|i: int| 0 <= i < e.len() implies all.contains(#[trigger] e[i]) by {
        assert(all[a.len() + b.len() + c.len() + d.len() + i] == e[i]);
    }
    assert forall|i: int| 0 <= i < f.len() implies all.contains(#[trigger] f[i]) by {
        assert(all[a.len() + b.len() + c.len() + d.len() + e.len() + i] == f[i]);
    }
}

/// The list has a line for each item of which any is made, in the order of the items,
/// and for no other.
pub proof fn law_list_has_what_is_made(items: Seq<ProfitableItem>, p: int, i: int, j: int)
    ensures
        made_positions(items).contains(p) <==> 0 <= p < items.len() && items[p].count > 0,
        0 <= i < j < made_positions(items).len() ==> made_positions(items)[i] < made_positions(
            items,
        )[j],
    decreases items.len(),
{
    let made = made_positions(items);
    if items.len() > 0 {
        let rest = items.drop_last();
        let earlier = made_positions(rest);
        law_list_has_what_is_made(rest, p, i, j);
        lemma_made_in_range(rest);
        if earlier.contains(p) {
            assert(made[earlier.index_of(p)] == p);
        }
        if items.last().count > 0 {
            assert(made[earlier.len() as int] == items.len() - 1);
            if made.contains(p) {
                let k: int = made.index_of(p);
                if k < earlier.len() {
                    assert(earlier[k] == p);
                }
            }
            if 0 <= i < j < made.len() && j == earlier.len() {
                assert(made[i] == earlier[i]);
            }
        }
    }
}

/// The list starts and ends with its headings, each line as wide as the others. The
/// last line gives the profit of all items.
pub proof fn law_list_stands_between_headings(rows: Seq<Seq<char>>, total: real, i: int)
    ensures
        list_output(rows, total).len() == rows.len() + 6,
        list_output(rows, total).first() == in_columns(list_headings()),
        list_output(rows, total)[rows.len() + 3int] == in_columns(list_headings()),
        list_output(rows, total).last() == "Total: "@ + amount_text(total),
        0 <= i < rows.len() ==> list_output(rows, total)[2 + i] == rows[i],
        list_output(rows, total)[1].len() == in_columns(list_headings()).len(),
        0 <= i < ruler().len() ==> list_output(rows, total)[1][i] == '=',
{
}

/// The file has the items of which any is made, the most whole copper first.
pub proof fn law_file_has_what_is_made(
    items: Seq<ProfitableItem>,
    order: Seq<usize>,
    p: usize,
    i: int,
    j: int,
)
    requires
        is_stable_order(items, more_copper(), order),
    ensures
        made_among(order, items).contains(p) <==> p < items.len() && items[p as int].count > 0,
        0 <= i < j < made_among(order, items).len() ==> whole(
            items[made_among(order, items)[i] as int].profit@,
        ) >= whole(items[made_among(order, items)[j] as int].profit@),
{
    let keep = |k: usize| items[k as int].count > 0;
    let before = |a: usize, b: usize|
        whole(items[a as int].profit@) >= whole(items[b as int].profit@);
    lemma_made_are_picked(order, items);
    assert forall|a: int, b: int|
        #![trigger order[a], order[b]]
        0 <= a < b < order.len() implies before(order[a], order[b]) by {
        law_export_goes_by_profit(items, order, a, b);
    }
    lemma_filter_keeps_order(order, keep, before);
    if 0 <= i < j < made_among(order, items).len() {
        assert(before(order.filter(keep)[i], order.filter(keep)[j]));
    }
    if p < items.len() && items[p as int].count > 0 {
        lemma_position_found(order, items.len(), p as int);
        let k: int = order.index_of(p);
        assert(order[k] == p);
        order.lemma_filter_contains(keep, k);
    }
    if made_among(order, items).contains(p) {
        order.lemma_filter_pred(keep, order.filter(keep).index_of(p));
        order.lemma_filter_contains_rev(keep, p);
        let k: int = order.index_of(p);
        assert(order[k] == p);
    }
}

proof fn lemma_made_are_picked(order: Seq<usize>, items: Seq<ProfitableItem>)
    ensures
        made_among(order, items) == order.filter(|k: usize| items[k as int].count > 0),
    decreases order.len(),
{
    reveal(Seq::filter);
    if order.len() > 0 {
        lemma_made_are_picked(order.drop_last(), items);
    }
}

} // verus!
