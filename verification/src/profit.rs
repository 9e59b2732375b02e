//! Items that are worth crafting.

use crate::api;
use crate::crafting::{CraftedItems, EstimatedCraftingCost, PreciseCraftingCost, Source};
use crate::item::{unlocks, unlocks_one_of, Item};
use crate::listings::{
    coin, is_ask_side, is_bid_side, law_cheapest_units_first, law_dearest_units_first, proceeds,
    units, ItemListings,
};
use crate::money::{after_fees, before_fees, fits, lemma_fits, Money};
use crate::order::{
    is_id_list_of, is_stable_sort, lemma_sort_keeps_values, sorted_distinct, stable_sort,
};
use crate::recipe::{
    has_ingredient, is_ingredient_path, is_transitive_ingredient, leads_to,
    lemma_ingredient_has_a_maker, lemma_path_extends, Discipline, Recipe,
};
use crate::simulation::{
    always_buys_ordinarily, at_limit, ends, fails, has_true_ranges, is_accountable_from,
    is_history, is_start, is_steady, is_step, law_limit_ends_the_wider_simulation,
    law_profit_is_revenue_less_cost, law_rounds_add_up, law_simulation_is_sound, law_simulation_keeps_true_ranges,
    law_wider_simulation_does_not_fail, law_wider_simulation_makes_as_much, leads_up_to,
    leaves_alone, lemma_list_is_kept, lemma_same_crafts_same_totals, margin_can_be_added,
    reported_books, shopping_of, sum_of_costs, Book, CountLimit, CraftingOptions, CraftingRun, RunError,
    ShoppingList, Totals,
};
use rayon::iter::{IntoParallelRefIterator, ParallelIterator};
use std::collections::{BTreeMap, HashMap, HashSet};
use vstd::prelude::*;

verus! {

/// An item, with what crafting it comes to.
#[derive(Clone, Debug, PartialEq, Eq)]
pub struct ProfitableItem {
    pub id: u32,
    pub crafting_cost: Money,
    pub count: u32,
    pub profit: Money,
    /// Best price that the product can fetch.
    pub max_sell: Money,
    /// Price of the last unit sold.
    pub min_sell: Money,
    /// Price at which the most expensive unit brings in its cost.
    pub breakeven: Money,
    pub crafting_steps: u32,
    pub crafted_items: CraftedItems,
}

impl ProfitableItem {
    /// Profit of one unit.
    pub fn profit_per_item(&self) -> (m: Money)
        requires
            self.count > 0,
            fits(self.profit@ / (self.count as real)),
        ensures
            m@ == self.profit@ / (self.count as real),
    {
        self.profit.divided_by(self.count)
    }

    /// Profit of one crafting step, or nothing where there is no step.
    pub fn profit_per_crafting_step(&self) -> (m: Money)
        requires
            self.crafting_steps > 0 ==> fits(self.profit@ / (self.crafting_steps as real)),
        ensures
            m@ == (if self.crafting_steps == 0 {
                0 as real
            } else {
                self.profit@ / (self.crafting_steps as real)
            }),
    {
        if self.crafting_steps == 0 {
            Money::zero()
        } else {
            self.profit.divided_by(self.crafting_steps)
        }
    }
}

/// Copper that a batch has to earn.
pub open spec fn margin_of(profit_threshold: i64) -> real {
    ((profit_threshold as i32) as int) as real
}

/// Price that a unit is expected to fetch: the best bid when instant, the
/// cheapest ask when patient.
pub open spec fn expected_price(price: api::Price, patient: bool) -> u32 {
    if patient {
        price.sells.unit_price
    } else {
        price.buys.unit_price
    }
}

/// A recipe passes the filter: there is none, or it names one of the
/// disciplines of the recipe.
pub open spec fn passes_filter(recipe: Recipe, filter: Option<Vec<Discipline>>) -> bool {
    match filter {
        None => true,
        Some(disciplines) => exists|d: Discipline| #[trigger]
            disciplines@.contains(d) && recipe.disciplines@.contains(d),
    }
}

/// Item `id` promises a profit: it can be crafted, sold and is on offer, and at
/// aggregated prices a sale brings in more than the crafting cost and the
/// margin.
pub open spec fn is_candidate(
    prices: Map<u32, api::Price>,
    recipes: Map<u32, Recipe>,
    items: Map<u32, Item>,
    estimates: Map<u32, EstimatedCraftingCost>,
    filter: Option<Vec<Discipline>>,
    margin: real,
    patient: bool,
    id: u32,
) -> bool {
    &&& recipes.contains_key(id)
    &&& !(items.contains_key(id) && items[id].restricted)
    &&& passes_filter(recipes[id], filter)
    &&& prices.contains_key(id)
    &&& prices[id].sells.quantity > 0
    &&& estimates.contains_key(id)
    &&& estimates[id].source == Source::Crafting
    &&& after_fees(coin(expected_price(prices[id], patient)) as real) > estimates[id].cost@ + margin
}

/// Whether a sale at `price` brings in more than the cost and the margin.
fn pays(price: u32, cost: Money, profit_threshold: i64) -> (b: bool)
    ensures
        b == (after_fees(coin(price) as real) > cost@ + margin_of(profit_threshold)),
{
    let copper: i32 = price as i32;
    let margin: i32 = profit_threshold as i32;
    let bar: i64 = 17 * (copper as i64) - 20 * (margin as i64);
    proof {
        lemma_fits(17 * (copper as int), 20);
        lemma_fits(bar as int, 20);
        let revenue: real = after_fees(copper as real);
        assert(revenue * (20 as real) == (17 * (copper as int)) as real);
        assert(revenue == ((17 * (copper as int)) as real) / (20 as real));
        assert(revenue - (margin as real) == (bar as real) / (20 as real));
    }
    let revenue = Money::from_copper(copper).trading_post_sale_revenue();
    cost.less_than(&revenue.minus(Money::from_copper(margin)))
}

/// The items that promise a profit, and the ingredients that they lead to.
///
/// `estimates` holds the cheapest way to obtain each item that can be obtained
/// at aggregated prices.
pub fn find_profitable_items(
    tp_prices_map: &HashMap<u32, api::Price>,
    recipes_map: &HashMap<u32, Recipe>,
    items_map: &HashMap<u32, Item>,
    estimates: &HashMap<u32, EstimatedCraftingCost>,
    filter_disciplines: &Option<Vec<Discipline>>,
    profit_threshold: i64,
    patient: bool,
) -> (found: (Vec<u32>, Vec<u32>))
    ensures
        found.0@.no_duplicates(),
        forall|id: u32| #[trigger]
            found.0@.contains(id) <==> is_candidate(
                tp_prices_map@,
                recipes_map@,
                items_map@,
                estimates@,
                *filter_disciplines,
                margin_of(profit_threshold),
                patient,
                id,
            ),
        forall|id: u32| #[trigger]
            found.1@.contains(id) <==> is_ingredient_of_one(recipes_map@, found.0@, id),
{
    let ghost recipes = recipes_map@;
    let mut ids: Vec<u32> = Vec::new();
    let mut ingredient_ids: Vec<u32> = Vec::new();
    for entry in it: recipes_map.iter()
        invariant
            recipes == recipes_map@,
            it.seq().no_duplicates(),
            forall|i: int|
                0 <= i < it.seq().len() ==> recipes.contains_key(*(#[trigger] it.seq()[i]).0)
                    && recipes[*it.seq()[i].0] == *it.seq()[i].1,
            ids@.no_duplicates(),
            forall|id: u32| #[trigger]
                ids@.contains(id) ==> exists|i: int|
                    0 <= i < it.index() && *(#[trigger] it.seq()[i]).0 == id,
            forall|i: int|
                0 <= i < it.index() ==> (ids@.contains(*(#[trigger] it.seq()[i]).0)
                    <==> is_candidate(
                    tp_prices_map@,
                    recipes,
                    items_map@,
                    estimates@,
                    *filter_disciplines,
                    margin_of(profit_threshold),
                    patient,
                    *it.seq()[i].0,
                )),
            forall|id: u32| #[trigger]
                ingredient_ids@.contains(id) <==> is_ingredient_of_one(recipes, ids@, id),
    {
        let id: u32 = *entry.0;
        let recipe: &Recipe = entry.1;
        let ghost earlier = ids@;
        proof {
            assert(it.seq()[it.index() as int] == entry);
            assert(!ids@.contains(id)) by {
                if ids@.contains(id) {
                    let i: int = choose|i: int|
                        0 <= i < it.index() && *(#[trigger] it.seq()[i]).0 == id;
                    assert(it.seq()[i].1 == it.seq()[it.index() as int].1);
                    assert(it.seq()[i] == it.seq()[it.index() as int]);
                }
            }
        }
        if is_worth_a_look(
            id,
            recipe,
            tp_prices_map,
            items_map,
            estimates,
            filter_disciplines,
            profit_threshold,
            patient,
            Ghost(recipes),
        ) {
            let ghost before = ingredient_ids@;
            ids.push(id);
            recipe.collect_ingredient_ids(recipes_map, &mut ingredient_ids);
            proof {
                let added = ingredient_ids@.skip(before.len() as int);
                assert(ingredient_ids@ =~= before + added);
                assert forall|x: u32| #[trigger]
                    ingredient_ids@.contains(x) <==> is_ingredient_of_one(recipes, ids@, x) by {
                    lemma_contains_append(before, added, x);
                    lemma_ingredient_of_more(recipes, earlier, id, x);
                }
                assert forall|x: u32| #[trigger] ids@.contains(x) implies earlier.contains(x) || x
                    == id by {
                    lemma_contains_push(earlier, id, x);
                }
                assert forall|i: int| 0 <= i < it.index() implies (ids@.contains(
                    *(#[trigger] it.seq()[i]).0,
                ) <==> earlier.contains(*it.seq()[i].0)) by {
                    lemma_contains_push(earlier, id, *it.seq()[i].0);
                    if *it.seq()[i].0 == id {
                        assert(it.seq()[i] == it.seq()[it.index() as int]);
                    }
                }
                lemma_contains_push(earlier, id, id);
            }
        }
    }
    (ids, ingredient_ids)
}

/// `id` is a transitive ingredient of one of the items.
pub open spec fn is_ingredient_of_one(recipes: Map<u32, Recipe>, ids: Seq<u32>, id: u32) -> bool {
    exists|i: int|
        0 <= i < ids.len() && is_transitive_ingredient(recipes, recipes[#[trigger] ids[i]], id)
}

proof fn lemma_ingredient_of_more(recipes: Map<u32, Recipe>, ids: Seq<u32>, more: u32, id: u32)
    ensures
        is_ingredient_of_one(recipes, ids.push(more), id) <==> is_ingredient_of_one(
            recipes,
            ids,
            id,
        ) || is_transitive_ingredient(recipes, recipes[more], id),
{
    let all = ids.push(more);
    if is_ingredient_of_one(recipes, ids, id) {
        let i: int = choose|i: int|
            0 <= i < ids.len() && is_transitive_ingredient(recipes, recipes[#[trigger] ids[i]], id);
        assert(all[i] == ids[i]);
    }
    if is_transitive_ingredient(recipes, recipes[more], id) {
        assert(all[ids.len() as int] == more);
    }
    if is_ingredient_of_one(recipes, all, id) {
        let i: int = choose|i: int|
            0 <= i < all.len() && is_transitive_ingredient(recipes, recipes[#[trigger] all[i]], id);
        if i < ids.len() {
            assert(all[i] == ids[i]);
        }
    }
}

pub proof fn lemma_contains_append(a: Seq<u32>, b: Seq<u32>, x: u32)
    ensures
        (a + b).contains(x) <==> a.contains(x) || b.contains(x),
{
    if a.contains(x) {
        let i: int = choose|i: int| 0 <= i < a.len() && a[i] == x;
        assert((a + b)[i] == x);
    }
    if b.contains(x) {
        let i: int = choose|i: int| 0 <= i < b.len() && b[i] == x;
        assert((a + b)[a.len() + i] == x);
    }
}

pub proof fn lemma_contains_push(s: Seq<u32>, more: u32, x: u32)
    ensures
        s.push(more).contains(x) <==> s.contains(x) || x == more,
{
    assert(s.push(more) =~= s + seq![more]);
    lemma_contains_append(s, seq![more], x);
    if x == more {
        assert(seq![more][0] == x);
    }
}

/// Whether the item promises a profit.
fn is_worth_a_look(
    id: u32,
    recipe: &Recipe,
    tp_prices_map: &HashMap<u32, api::Price>,
    items_map: &HashMap<u32, Item>,
    estimates: &HashMap<u32, EstimatedCraftingCost>,
    filter_disciplines: &Option<Vec<Discipline>>,
    profit_threshold: i64,
    patient: bool,
    Ghost(recipes): Ghost<Map<u32, Recipe>>,
) -> (b: bool)
    requires
        recipes.contains_key(id),
        recipes[id] == *recipe,
    ensures
        b == is_candidate(
            tp_prices_map@,
            recipes,
            items_map@,
            estimates@,
            *filter_disciplines,
            margin_of(profit_threshold),
            patient,
            id,
        ),
{
    if let Some(item) = items_map.get(&id) {
        if item.is_restricted() {
            return false;
        }
    }
    if let Some(disciplines) = filter_disciplines {
        if !recipe.has_any_discipline(disciplines) {
            return false;
        }
    }
    let price: api::Price = match tp_prices_map.get(&id) {
        Some(price) => *price,
        None => return false,
    };
    if price.sells.quantity == 0 {
        return false;
    }
    match estimates.get(&id) {
        Some(estimate) => {
            let unit_price: u32 = if patient {
                price.sells.unit_price
            } else {
                price.buys.unit_price
            };
            estimate.source == Source::Crafting && pays(
                unit_price,
                estimate.cost,
                profit_threshold,
            )
        },
        None => false,
    }
}

/// An item that promises a profit at one margin does so at every lower margin.
/// So prices and order books that cover a run at the lower margin cover one at
/// the higher.
pub proof fn law_lower_margin_keeps_candidates(
    prices: Map<u32, api::Price>,
    recipes: Map<u32, Recipe>,
    items: Map<u32, Item>,
    estimates: Map<u32, EstimatedCraftingCost>,
    filter: Option<Vec<Discipline>>,
    margin: real,
    lower: real,
    patient: bool,
    id: u32,
)
    requires
        lower <= margin,
        is_candidate(prices, recipes, items, estimates, filter, margin, patient, id),
    ensures
        is_candidate(prices, recipes, items, estimates, filter, lower, patient, id),
{
}

/// The ids to ask order books for: the items and their ingredients, each once,
/// in ascending order.
pub fn listing_request_ids(item_ids: &Vec<u32>, ingredient_ids: &Vec<u32>) -> (ids: Vec<u32>)
    ensures
        is_id_list_of(ids@, item_ids@ + ingredient_ids@),
{
    let mut all: Vec<u32> = item_ids.clone();
    let mut more: Vec<u32> = ingredient_ids.clone();
    all.append(&mut more);
    assert(all@ =~= item_ids@ + ingredient_ids@);
    sorted_distinct(all)
}

/// Units that one craft of the item makes.
pub open spec fn batch_of(recipes: Map<u32, Recipe>, item_id: u32) -> u32 {
    if recipes.contains_key(item_id) {
        recipes[item_id].output_item_count
    } else {
        1
    }
}

/// Best price that the product can fetch: the best bid when instant, the
/// cheapest ask when patient.
pub open spec fn best_sale_price(
    books: Map<u32, Book>,
    item_id: u32,
    options: CraftingOptions,
) -> u32 {
    if books.contains_key(item_id) {
        let side = books[item_id].sale_side(options.patient);
        if side.len() == 0 {
            0
        } else {
            side.last().unit_price
        }
    } else {
        match options.threshold {
            Some(price) => price,
            None => 0,
        }
    }
}

/// There is something to report: a unit was made, and not at cost. With a margin
/// below zero a unit at cost is reported too.
pub open spec fn has_outcome(totals: Totals, margin: real) -> bool {
    totals.count > 0 && (totals.profit != 0 as real || margin < 0 as real)
}

/// What a simulation of `item_id` comes to.
pub open spec fn is_outcome(
    item: ProfitableItem,
    totals: Totals,
    item_id: u32,
    max_sell: u32,
    steps: u32,
) -> bool {
    &&& item.id == item_id
    &&& item.crafting_cost@ == totals.crafting_cost
    &&& item.count == totals.count
    &&& item.profit@ == totals.profit
    &&& item.max_sell@ == coin(max_sell) as real
    &&& item.min_sell@ == coin(totals.min_sell) as real
    &&& item.breakeven@ == before_fees(totals.unit_cost)
    &&& fits(before_fees(totals.unit_cost))
    &&& item.crafting_steps == steps
    &&& item.crafted_items == totals.crafted
}

/// What crafting the item comes to, for the answers that `search` and `steps`
/// gave: the simulation that starts with the reported order books went on to
/// its end, or failed.
pub open spec fn is_crafting_profit<Q, S>(
    item_id: u32,
    recipes: Map<u32, Recipe>,
    listings: Map<u32, api::ItemListings>,
    options: CraftingOptions,
    keep_list: bool,
    search: Q,
    steps: S,
    res: Result<(Option<ProfitableItem>, Option<ShoppingList>), RunError>,
) -> bool where
    Q: Fn(u32, &BTreeMap<u32, ItemListings>, &CraftedItems) -> Option<PreciseCraftingCost>,
    S: Fn(&CraftedItems) -> u32,
 {
    exists|first: CraftingRun, last: CraftingRun| #[trigger]
        leads_up_to(search, first, last) && is_start(
            first,
            item_id,
            batch_of(recipes, item_id),
            listings,
            options,
            keep_list,
        ) && match res {
            Ok((item, list)) => {
                &&& ends(search, last)
                &&& shopping_of(list) == last@.totals.shopping
                &&& if has_outcome(last@.totals, options.margin()) {
                    item is Some && exists|n: u32| #[trigger]
                        call_ensures(steps, (&last.tally.crafted,), n) && is_outcome(
                            item->0,
                            last@.totals,
                            item_id,
                            best_sale_price(reported_books(listings), item_id, options),
                            n,
                        )
                } else {
                    item is None
                }
            },
            Err(e) => {
                ||| fails(search, last, e)
                ||| ends(search, last) && has_outcome(last@.totals, options.margin()) && e
                    == RunError::OutOfRange && !fits(before_fees(last@.totals.unit_cost))
            },
        }
}

/// Best price that the product can fetch.
fn current_best_price(run: &CraftingRun) -> (price: u32)
    ensures
        price == best_sale_price(run@.books, run.item_id, run.options),
{
    match run.books.get(&run.item_id) {
        None => match run.options.threshold {
            Some(price) => price,
            None => 0,
        },
        Some(listings) => {
            let side = if run.options.patient {
                &listings.sells
            } else {
                &listings.buys
            };
            if side.len() == 0 {
                0
            } else {
                side[side.len() - 1].unit_price
            }
        },
    }
}

/// Crafts the item batch by batch until it stops paying.
///
/// `search` finds the cheapest way to make one more batch from what the order
/// books offer, and `steps` counts the crafting steps of what was crafted. With
/// `keep_list` the purchases are listed too.
pub fn calculate_crafting_profit<Q, S>(
    item_id: u32,
    recipes_map: &HashMap<u32, Recipe>,
    tp_listings_map: &HashMap<u32, api::ItemListings>,
    options: CraftingOptions,
    keep_list: bool,
    search: &Q,
    steps: &S,
) -> (res: Result<(Option<ProfitableItem>, Option<ShoppingList>), RunError>) where
    Q: Fn(u32, &BTreeMap<u32, ItemListings>, &CraftedItems) -> Option<PreciseCraftingCost>,
    S: Fn(&CraftedItems) -> u32,

    requires
        forall|id: u32, books: &BTreeMap<u32, ItemListings>, crafted: &CraftedItems|
            call_requires(*search, (id, books, crafted)),
        forall|crafted: &CraftedItems| call_requires(*steps, (crafted,)),
    ensures
        is_crafting_profit(
            item_id,
            recipes_map@,
            tp_listings_map@,
            options,
            keep_list,
            *search,
            *steps,
            res,
        ),
{
    let batch: u32 = match recipes_map.get(&item_id) {
        Some(recipe) => recipe.output_item_count,
        None => 1,
    };
    let run = CraftingRun::start(item_id, batch, tp_listings_map, options, keep_list);
    let ghost first = run;
    let max_sell: u32 = current_best_price(&run);
    let tally = match run.finish(search) {
        Ok(tally) => tally,
        Err(e) => {
            return Err(e);
        },
    };
    let ghost last = choose|last: CraftingRun| #[trigger]
        leads_up_to(*search, first, last) && ends(*search, last) && tally == last.tally;
    let loss_allowed: bool = (options.profit_threshold as i32) < 0;
    if tally.count > 0 && (!tally.profit.is_zero() || loss_allowed) {
        let breakeven = match tally.unit_cost.checked_listing_price() {
            Some(price) => price,
            None => {
                assert(leads_up_to(*search, first, last));
                return Err(RunError::OutOfRange);
            },
        };
        let crafting_steps: u32 = steps(&tally.crafted);
        let item = ProfitableItem {
            id: item_id,
            crafting_cost: tally.crafting_cost,
            count: tally.count,
            profit: tally.profit,
            max_sell: Money::from_copper(max_sell as i32),
            min_sell: Money::from_copper(tally.min_sell as i32),
            breakeven,
            crafting_steps,
            crafted_items: tally.crafted,
        };
        proof {
            assert(leads_up_to(*search, first, last));
            assert(call_ensures(*steps, (&last.tally.crafted,), crafting_steps));
            assert(is_outcome(
                item,
                last@.totals,
                item_id,
                best_sale_price(reported_books(tp_listings_map@), item_id, options),
                crafting_steps,
            ));
        }
        Ok((Some(item), tally.shopping))
    } else {
        assert(leads_up_to(*search, first, last));
        Ok((None, tally.shopping))
    }
}

/// `id` is the item or one of its transitive ingredients.
pub open spec fn is_part_of(recipes: Map<u32, Recipe>, item_id: u32, id: u32) -> bool {
    ||| id == item_id
    ||| recipes.contains_key(item_id) && is_transitive_ingredient(recipes, recipes[item_id], id)
}

/// The item and its transitive ingredients.
fn parts_of(item_id: u32, recipes_map: &HashMap<u32, Recipe>) -> (ids: Vec<u32>)
    ensures
        forall|id: u32| #[trigger]
            ids@.contains(id) <==> is_part_of(recipes_map@, item_id, id),
{
    let mut ids: Vec<u32> = Vec::new();
    ids.push(item_id);
    let ghost start = ids@;
    assert(start[0] == item_id);
    if let Some(recipe) = recipes_map.get(&item_id) {
        recipe.collect_ingredient_ids(recipes_map, &mut ids);
        proof {
            let added = ids@.skip(start.len() as int);
            assert(ids@ =~= start + added);
            assert forall|id: u32| #[trigger] ids@.contains(id) <==> is_part_of(
                recipes_map@,
                item_id,
                id,
            ) by {
                lemma_contains_append(start, added, id);
            }
        }
    }
    ids
}

/// The ids to ask order books for when one item is looked at: the item and its
/// ingredients, each once, in ascending order.
pub fn item_listing_ids(item_id: u32, recipes_map: &HashMap<u32, Recipe>) -> (ids: Vec<u32>)
    ensures
        forall|i: int, j: int|
            0 <= i < j < ids@.len() ==> (#[trigger] ids@[i]) < (#[trigger] ids@[j]),
        forall|id: u32| #[trigger]
            ids@.contains(id) <==> is_part_of(recipes_map@, item_id, id),
{
    sorted_distinct(parts_of(item_id, recipes_map))
}

/// The order books that crafting the item can read, out of all of them.
pub open spec fn is_selection(
    recipes: Map<u32, Recipe>,
    item_id: u32,
    all: Map<u32, api::ItemListings>,
    selected: Map<u32, api::ItemListings>,
) -> bool {
    &&& forall|id: u32| #[trigger]
        selected.contains_key(id) <==> all.contains_key(id) && is_part_of(recipes, item_id, id)
    &&& forall|id: u32| #[trigger]
        selected.contains_key(id) ==> selected[id].same_book(&all[id])
}

/// Picks the order books that crafting the item can read.
pub fn listings_for_item(
    item_id: u32,
    recipes_map: &HashMap<u32, Recipe>,
    tp_listings_map: &HashMap<u32, api::ItemListings>,
) -> (selected: HashMap<u32, api::ItemListings>)
    ensures
        is_selection(recipes_map@, item_id, tp_listings_map@, selected@),
{
    let ids = parts_of(item_id, recipes_map);
    let mut selected: HashMap<u32, api::ItemListings> = HashMap::new();
    let mut i: usize = 0;
    while i < ids.len()
        invariant
            i <= ids.len(),
            forall|id: u32| #[trigger]
                selected@.contains_key(id) <==> tp_listings_map@.contains_key(id) && ids@.take(
                    i as int,
                ).contains(id),
            forall|id: u32| #[trigger]
                selected@.contains_key(id) ==> selected@[id].same_book(&tp_listings_map@[id]),
        decreases ids.len() - i,
    {
        let id: u32 = ids[i];
        proof {
            assert(ids@.take(i + 1) =~= ids@.take(i as int).push(id));
            assert forall|x: u32| #[trigger] ids@.take(i + 1).contains(x) <==> ids@.take(
                i as int,
            ).contains(x) || x == id by {
                lemma_contains_push(ids@.take(i as int), id, x);
            }
        }
        if let Some(listings) = tp_listings_map.get(&id) {
            selected.insert(id, listings.duplicate());
        }
        i += 1;
    }
    assert(ids@.take(i as int) =~= ids@);
    selected
}

/// What crafting an item comes to, out of all order books.
pub open spec fn is_item_profit<Q, S>(
    item_id: u32,
    recipes: Map<u32, Recipe>,
    all: Map<u32, api::ItemListings>,
    options: CraftingOptions,
    search: Q,
    steps: S,
    res: Result<Option<ProfitableItem>, RunError>,
) -> bool where
    Q: Fn(u32, &BTreeMap<u32, ItemListings>, &CraftedItems) -> Option<PreciseCraftingCost>,
    S: Fn(&CraftedItems) -> u32,
 {
    exists|selected: Map<u32, api::ItemListings>| #[trigger]
        is_selection(recipes, item_id, all, selected) && is_crafting_profit(
            item_id,
            recipes,
            selected,
            options,
            false,
            search,
            steps,
            match res {
                Ok(item) => Ok((item, None)),
                Err(e) => Err(e),
            },
        )
}

/// Crafts one item of a list.
pub fn item_profit<Q, S>(
    item_id: u32,
    recipes_map: &HashMap<u32, Recipe>,
    tp_listings_map: &HashMap<u32, api::ItemListings>,
    options: CraftingOptions,
    search: &Q,
    steps: &S,
) -> (res: Result<Option<ProfitableItem>, RunError>) where
    Q: Fn(u32, &BTreeMap<u32, ItemListings>, &CraftedItems) -> Option<PreciseCraftingCost>,
    S: Fn(&CraftedItems) -> u32,

    requires
        forall|id: u32, books: &BTreeMap<u32, ItemListings>, crafted: &CraftedItems|
            call_requires(*search, (id, books, crafted)),
        forall|crafted: &CraftedItems| call_requires(*steps, (crafted,)),
    ensures
        is_item_profit(
            item_id,
            recipes_map@,
            tp_listings_map@,
            options,
            *search,
            *steps,
            res,
        ),
{
    let selected = listings_for_item(item_id, recipes_map, tp_listings_map);
    match calculate_crafting_profit(
        item_id,
        recipes_map,
        &selected,
        options,
        false,
        search,
        steps,
    ) {
        Ok((item, list)) => {
            proof {
                law_no_list_is_kept(
                    item_id,
                    recipes_map@,
                    selected@,
                    options,
                    *search,
                    *steps,
                    item,
                    list,
                );
            }
            Ok(item)
        },
        Err(e) => Err(e),
    }
}

/// Where no list is to be kept, none comes back.
pub proof fn law_no_list_is_kept<Q, S>(
    item_id: u32,
    recipes: Map<u32, Recipe>,
    listings: Map<u32, api::ItemListings>,
    options: CraftingOptions,
    search: Q,
    steps: S,
    item: Option<ProfitableItem>,
    list: Option<ShoppingList>,
) where
    Q: Fn(u32, &BTreeMap<u32, ItemListings>, &CraftedItems) -> Option<PreciseCraftingCost>,
    S: Fn(&CraftedItems) -> u32,

    requires
        is_crafting_profit(
            item_id,
            recipes,
            listings,
            options,
            false,
            search,
            steps,
            Ok((item, list)),
        ),
    ensures
        list is None,
{
    let (first, last) = choose|first: CraftingRun, last: CraftingRun| #[trigger]
        leads_up_to(search, first, last) && is_start(
            first,
            item_id,
            batch_of(recipes, item_id),
            listings,
            options,
            false,
        ) && ends(search, last) && shopping_of(list) == last@.totals.shopping;
    lemma_list_is_kept(search, first, last);
}

/// Runs `f` on every id on the threads of `rayon`'s pool.
///
/// `par_iter` of [`rayon::iter::IntoParallelRefIterator`], with `map` and
/// `collect` of [`rayon::iter::ParallelIterator`]: the results come back in the
/// order of the ids, each of them what `f` returned for its id.
#[verifier::external_body]
fn for_each_id<F>(ids: &Vec<u32>, f: &F) -> (results: Vec<
    Result<Option<ProfitableItem>, RunError>,
>) where F: Fn(u32) -> Result<Option<ProfitableItem>, RunError> + Sync
    requires
        forall|i: int| 0 <= i < ids@.len() ==> call_requires(*f, (#[trigger] ids@[i],)),
    ensures
        results@.len() == ids@.len(),
        forall|i: int|
            0 <= i < ids@.len() ==> call_ensures(*f, (ids@[i],), #[trigger] results@[i]),
{
    ids.par_iter().map(|id| f(*id)).collect()
}

/// The results that are there, in their order.
pub open spec fn present<T>(results: Seq<Option<T>>) -> Seq<T>
    decreases results.len(),
{
    if results.len() == 0 {
        Seq::empty()
    } else {
        match results.last() {
            Some(x) => present(results.drop_last()).push(x),
            None => present(results.drop_last()),
        }
    }
}

/// Order of items by their profit.
pub open spec fn less_profit() -> spec_fn(ProfitableItem, ProfitableItem) -> bool {
    |a: ProfitableItem, b: ProfitableItem| a.profit@ < b.profit@
}

/// What crafting each item comes to, sorted by profit, lowest first.
pub open spec fn is_profit_list<Q, S>(
    ids: Seq<u32>,
    recipes: Map<u32, Recipe>,
    all: Map<u32, api::ItemListings>,
    options: CraftingOptions,
    search: Q,
    steps: S,
    res: Result<Vec<ProfitableItem>, RunError>,
) -> bool where
    Q: Fn(u32, &BTreeMap<u32, ItemListings>, &CraftedItems) -> Option<PreciseCraftingCost>,
    S: Fn(&CraftedItems) -> u32,
 {
    match res {
        Ok(list) => exists|found: Seq<Option<ProfitableItem>>|
            found.len() == ids.len() && (forall|i: int|
                0 <= i < ids.len() ==> is_item_profit(
                    ids[i],
                    recipes,
                    all,
                    options,
                    search,
                    steps,
                    Ok(#[trigger] found[i]),
                )) && #[trigger] is_stable_sort(present(found), less_profit(), list@),
        Err(e) => exists|i: int|
            0 <= i < ids.len() && is_item_profit(
                #[trigger] ids[i],
                recipes,
                all,
                options,
                search,
                steps,
                Err(e),
            ),
    }
}

/// There is no error among the results, and `list` holds those that are there,
/// sorted by profit.
pub open spec fn is_sorted_outcome(
    results: Seq<Result<Option<ProfitableItem>, RunError>>,
    list: Seq<ProfitableItem>,
) -> bool {
    exists|found: Seq<Option<ProfitableItem>>|
        found.len() == results.len() && (forall|i: int|
            0 <= i < found.len() ==> results[i] == Ok::<Option<ProfitableItem>, RunError>(
                #[trigger] found[i],
            )) && #[trigger] is_stable_sort(present(found), less_profit(), list)
}

/// Sorts the results that are there by profit, lowest first. The first error
/// among the results stands for all of them.
pub fn sorted_by_profit(results: Vec<Result<Option<ProfitableItem>, RunError>>) -> (res: Result<
    Vec<ProfitableItem>,
    RunError,
>)
    ensures
        match res {
            Ok(list) => is_sorted_outcome(results@, list@),
            Err(e) => exists|i: int|
                0 <= i < results@.len() && #[trigger] results@[i] == Err::<
                    Option<ProfitableItem>,
                    RunError,
                >(e) && forall|j: int| 0 <= j < i ==> (#[trigger] results@[j]) is Ok,
        },
{
    let ghost all = results@;
    let ghost mut found: Seq<Option<ProfitableItem>> = Seq::empty();
    let mut list: Vec<ProfitableItem> = Vec::new();
    for result in it: results
        invariant
            it.seq() == all,
            all == results@,
            found.len() == it.index(),
            forall|i: int|
                0 <= i < found.len() ==> all[i] == Ok::<Option<ProfitableItem>, RunError>(
                    #[trigger] found[i],
                ),
            list@ == present(found),
    {
        assert(result == all[it.index() as int]);
        match result {
            Err(e) => {
                assert(all[it.index() as int] == Err::<Option<ProfitableItem>, RunError>(e));
                assert forall|j: int| 0 <= j < it.index() implies (#[trigger] all[j]) is Ok by {
                    assert(all[j] == Ok::<Option<ProfitableItem>, RunError>(found[j]));
                }
                return Err(e);
            },
            Ok(item) => {
                let ghost item_copy = item;
                if let Some(x) = item {
                    list.push(x);
                }
                proof {
                    let more = found.push(item_copy);
                    assert(more.drop_last() =~= found);
                    found = more;
                }
            },
        }
    }
    let ghost less = less_profit();
    let before = |a: &ProfitableItem, b: &ProfitableItem| -> (r: bool)
        ensures
            r == (a.profit@ < b.profit@),
        { a.profit.less_than(&b.profit) };
    let sorted = stable_sort(list, &before, Ghost(less));
    assert(is_stable_sort(present(found), less_profit(), sorted@));
    assert(is_sorted_outcome(all, sorted@));
    Ok(sorted)
}

/// Crafts every item of a list, and sorts the outcomes by profit.
pub fn profitable_item_list<Q, S>(
    tp_listings_map: &HashMap<u32, api::ItemListings>,
    profitable_item_ids: &Vec<u32>,
    recipes_map: &HashMap<u32, Recipe>,
    options: CraftingOptions,
    search: &Q,
    steps: &S,
) -> (res: Result<Vec<ProfitableItem>, RunError>) where
    Q: Fn(
        u32,
        &BTreeMap<u32, ItemListings>,
        &CraftedItems,
    ) -> Option<PreciseCraftingCost> + Sync,
    S: Fn(&CraftedItems) -> u32 + Sync,

    requires
        forall|id: u32, books: &BTreeMap<u32, ItemListings>, crafted: &CraftedItems|
            call_requires(*search, (id, books, crafted)),
        forall|crafted: &CraftedItems| call_requires(*steps, (crafted,)),
    ensures
        is_profit_list(
            profitable_item_ids@,
            recipes_map@,
            tp_listings_map@,
            options,
            *search,
            *steps,
            res,
        ),
{
    let profit_of = |id: u32| -> (r: Result<Option<ProfitableItem>, RunError>)
        ensures
            is_item_profit(
                id,
                recipes_map@,
                tp_listings_map@,
                options,
                *search,
                *steps,
                r,
            ),
        { item_profit(id, recipes_map, tp_listings_map, options, search, steps) };
    let results = for_each_id(profitable_item_ids, &profit_of);
    let ghost all = results@;
    let res = sorted_by_profit(results);
    proof {
        match &res {
            Ok(list) => {
                let found = choose|found: Seq<Option<ProfitableItem>>|
                    found.len() == all.len() && (forall|i: int|
                        0 <= i < found.len() ==> all[i] == Ok::<Option<ProfitableItem>, RunError>(
                            #[trigger] found[i],
                        )) && #[trigger] is_stable_sort(present(found), less_profit(), list@);
                assert forall|i: int| 0 <= i < profitable_item_ids@.len() implies is_item_profit(
                    profitable_item_ids@[i],
                    recipes_map@,
                    tp_listings_map@,
                    options,
                    *search,
                    *steps,
                    Ok(#[trigger] found[i]),
                ) by {
                    assert(call_ensures(profit_of, (profitable_item_ids@[i],), all[i]));
                }
            },
            Err(e) => {
                let i: int = choose|i: int|
                    0 <= i < all.len() && #[trigger] all[i] == Err::<
                        Option<ProfitableItem>,
                        RunError,
                    >(*e) && forall|j: int| 0 <= j < i ==> (#[trigger] all[j]) is Ok;
                assert(call_ensures(profit_of, (profitable_item_ids@[i],), all[i]));
            },
        }
    }
    res
}

/// The values under their ids. Of values with the same id the last one stays.
pub open spec fn last_of_each_id<T>(values: Seq<T>, ids: Seq<u32>) -> Map<u32, T>
    decreases values.len(),
{
    if values.len() == 0 {
        Map::empty()
    } else {
        last_of_each_id(values.drop_last(), ids.drop_last()).insert(ids.last(), values.last())
    }
}

/// `ids` are the ids that `id_fn` gives to the values.
pub open spec fn are_ids_of<T, F: Fn(&T) -> u32>(
    id_fn: F,
    values: Seq<T>,
    ids: Seq<u32>,
) -> bool {
    &&& ids.len() == values.len()
    &&& forall|i: int|
        0 <= i < values.len() ==> call_ensures(id_fn, (&values[i],), #[trigger] ids[i])
}

/// Puts the values under their ids. Of values with the same id the last one
/// stays.
pub fn vec_to_map<T, F>(v: Vec<T>, id_fn: F) -> (map: HashMap<u32, T>) where F: Fn(&T) -> u32
    requires
        forall|x: &T| call_requires(id_fn, (x,)),
    ensures
        exists|ids: Seq<u32>| #[trigger]
            are_ids_of(id_fn, v@, ids) && map@ == last_of_each_id(v@, ids),
{
    let ghost all = v@;
    let ghost mut ids: Seq<u32> = Seq::empty();
    let mut map: HashMap<u32, T> = HashMap::new();
    for x in it: v
        invariant
            it.seq() == all,
            all == v@,
            forall|x: &T| call_requires(id_fn, (x,)),
            are_ids_of(id_fn, all.take(it.index() as int), ids),
            map@ == last_of_each_id(all.take(it.index() as int), ids),
    {
        let ghost value = x;
        let id: u32 = id_fn(&x);
        map.insert(id, x);
        proof {
            let i: int = it.index() as int;
            let more = ids.push(id);
            assert(all.take(i + 1) =~= all.take(i).push(value));
            assert(all.take(i + 1).drop_last() =~= all.take(i));
            assert(more.drop_last() =~= ids);
            ids = more;
        }
    }
    assert(all.take(all.len() as int) =~= all);
    assert(are_ids_of(id_fn, all, ids));
    map
}

/// The ids under which the items stand that unlock one of the recipes, each
/// once.
pub open spec fn are_unlocking_keys(
    keys: Seq<u32>,
    items: Map<u32, Item>,
    recipes: Set<u32>,
) -> bool {
    &&& keys.no_duplicates()
    &&& forall|key: u32| #[trigger]
        keys.contains(key) <==> items.contains_key(key) && unlocks_one_of(items[key], recipes)
}

/// The items that unlock one of the recipes: what can be bought to learn them.
pub fn unlocking_items(items_map: &HashMap<u32, Item>, recipes: &HashSet<u32>) -> (ids: Vec<u32>)
    ensures
        exists|keys: Seq<u32>| #[trigger]
            are_unlocking_keys(keys, items_map@, recipes@) && ids@ == Seq::new(
                keys.len(),
                |i: int| items_map@[keys[i]].id,
            ),
{
    let ghost items = items_map@;
    let ghost mut keys: Seq<u32> = Seq::empty();
    let mut ids: Vec<u32> = Vec::new();
    for entry in it: items_map.iter()
        invariant
            items == items_map@,
            it.seq().no_duplicates(),
            forall|i: int|
                0 <= i < it.seq().len() ==> items.contains_key(*(#[trigger] it.seq()[i]).0)
                    && items[*it.seq()[i].0] == *it.seq()[i].1,
            keys.no_duplicates(),
            forall|key: u32| #[trigger]
                keys.contains(key) ==> exists|i: int|
                    0 <= i < it.index() && *(#[trigger] it.seq()[i]).0 == key,
            forall|i: int|
                0 <= i < it.index() ==> (keys.contains(*(#[trigger] it.seq()[i]).0)
                    <==> unlocks_one_of(items[*it.seq()[i].0], recipes@)),
            ids@ == Seq::new(keys.len(), |i: int| items[keys[i]].id),
    {
        let key: u32 = *entry.0;
        proof {
            assert(it.seq()[it.index() as int] == entry);
            assert(!keys.contains(key)) by {
                if keys.contains(key) {
                    let i: int = choose|i: int|
                        0 <= i < it.index() && *(#[trigger] it.seq()[i]).0 == key;
                    assert(it.seq()[i] == it.seq()[it.index() as int]);
                }
            }
        }
        if entry.1.unlocks_any(recipes) {
            ids.push(entry.1.id);
            proof {
                let more = keys.push(key);
                assert forall|x: u32| #[trigger] more.contains(x) <==> keys.contains(x) || x
                    == key by {
                    lemma_contains_push(keys, key, x);
                }
                assert forall|i: int| 0 <= i < it.index() implies *(#[trigger] it.seq()[i]).0
                    != key by {
                    if *it.seq()[i].0 == key {
                        assert(it.seq()[i] == it.seq()[it.index() as int]);
                    }
                }
                assert(ids@ =~= Seq::new(more.len(), |i: int| items[more[i]].id));
                keys = more;
            }
        }
    }
    assert(are_unlocking_keys(keys, items, recipes@));
    ids
}

/// The unknown ones among the recipes of the items, in the order of the items.
pub open spec fn unknown_recipes_of(
    ids: Seq<u32>,
    recipes: Map<u32, Recipe>,
    unknown: Set<u32>,
) -> Seq<u32>
    decreases ids.len(),
{
    if ids.len() == 0 {
        Seq::empty()
    } else {
        let earlier = unknown_recipes_of(ids.drop_last(), recipes, unknown);
        let id = ids.last();
        if recipes.contains_key(id) && recipes[id].id is Some && unknown.contains(
            recipes[id].id->0,
        ) {
            earlier.push(recipes[id].id->0)
        } else {
            earlier
        }
    }
}

/// The items that were crafted, in ascending order.
pub open spec fn are_crafted_ids(ids: Seq<u32>, crafted: Map<u32, u32>) -> bool {
    &&& forall|i: int, j: int|
        0 <= i < j < ids.len() ==> (#[trigger] ids[i]) < (#[trigger] ids[j])
    &&& forall|id: u32| #[trigger] ids.contains(id) <==> crafted.contains_key(id)
}

/// The items that were crafted, in ascending order.
fn crafted_ids(items: &CraftedItems) -> (ids: Vec<u32>)
    ensures
        are_crafted_ids(ids@, items.crafted@),
{
    let ghost crafted = items.crafted@;
    let mut ids: Vec<u32> = Vec::new();
    for entry in it: items.crafted.iter()
        invariant
            crafted == items.crafted@,
            forall|i: int|
                0 <= i < it.seq().len() ==> crafted.contains_key(*(#[trigger] it.seq()[i]).0),
            ids@.len() == it.index(),
            forall|i: int| 0 <= i < it.index() ==> ids@[i] == *(#[trigger] it.seq()[i]).0,
            forall|id: u32| #[trigger] ids@.contains(id) ==> crafted.contains_key(id),
    {
        let ghost earlier = ids@;
        ids.push(*entry.0);
        assert forall|id: u32| #[trigger] ids@.contains(id) implies crafted.contains_key(id) by {
            lemma_contains_push(earlier, *entry.0, id);
        }
    }
    proof {
        assert forall|id: u32| #[trigger] crafted.contains_key(id) implies ids@.contains(id) by {}
    }
    sorted_distinct(ids)
}

/// The unknown recipes that crafting the item calls for.
pub fn required_unknown_recipes(
    item: &Option<ProfitableItem>,
    recipes_map: &HashMap<u32, Recipe>,
    unknown_recipes: &HashSet<u32>,
) -> (required: Vec<u32>)
    ensures
        match item {
            None => required@.len() == 0,
            Some(p) => exists|ids: Seq<u32>| #[trigger]
                are_crafted_ids(ids, p.crafted_items.crafted@) && required@
                    == unknown_recipes_of(ids, recipes_map@, unknown_recipes@),
        },
{
    let mut required: Vec<u32> = Vec::new();
    if let Some(p) = item {
        let ids = crafted_ids(&p.crafted_items);
        let mut i: usize = 0;
        while i < ids.len()
            invariant
                i <= ids.len(),
                required@ == unknown_recipes_of(
                    ids@.take(i as int),
                    recipes_map@,
                    unknown_recipes@,
                ),
            decreases ids.len() - i,
        {
            assert(ids@.take(i + 1).drop_last() =~= ids@.take(i as int));
            if let Some(recipe) = recipes_map.get(&ids[i]) {
                if let Some(recipe_id) = recipe.id {
                    if unknown_recipes.contains(&recipe_id) {
                        required.push(recipe_id);
                    }
                }
            }
            i += 1;
        }
        assert(ids@.take(i as int) =~= ids@);
        assert(are_crafted_ids(ids@, p.crafted_items.crafted@));
    }
    required
}

/// Everything there is to show of one item.
#[derive(Clone, Debug)]
pub struct ItemReport {
    pub item: Option<ProfitableItem>,
    /// What to buy.
    pub shopping: ShoppingList,
    /// Recipes to learn first.
    pub required_unknown_recipes: Vec<u32>,
    /// Order book of the item itself.
    pub order_book: Option<api::ItemListings>,
}

/// What crafting one item comes to, with what to buy and what to learn, from
/// the order books of the item and its ingredients. `unknown_recipes` are the
/// recipes on the way to the item that the account does not have.
pub fn calc_item_profit<Q, S>(
    item_id: u32,
    recipes_map: &HashMap<u32, Recipe>,
    unknown_recipes: &HashSet<u32>,
    tp_listings_map: &HashMap<u32, api::ItemListings>,
    options: CraftingOptions,
    search: &Q,
    steps: &S,
) -> (res: Result<ItemReport, RunError>) where
    Q: Fn(u32, &BTreeMap<u32, ItemListings>, &CraftedItems) -> Option<PreciseCraftingCost>,
    S: Fn(&CraftedItems) -> u32,

    requires
        forall|id: u32, books: &BTreeMap<u32, ItemListings>, crafted: &CraftedItems|
            call_requires(*search, (id, books, crafted)),
        forall|crafted: &CraftedItems| call_requires(*steps, (crafted,)),
    ensures
        is_crafting_profit(
            item_id,
            recipes_map@,
            tp_listings_map@,
            options,
            true,
            *search,
            *steps,
            match res {
                Ok(report) => Ok((report.item, Some(report.shopping))),
                Err(e) => Err(e),
            },
        ),
        res matches Ok(report) ==> {
            &&& match report.item {
                None => report.required_unknown_recipes@.len() == 0,
                Some(p) => exists|ids: Seq<u32>| #[trigger]
                    are_crafted_ids(ids, p.crafted_items.crafted@)
                        && report.required_unknown_recipes@ == unknown_recipes_of(
                        ids,
                        recipes_map@,
                        unknown_recipes@,
                    ),
            }
            &&& match report.order_book {
                Some(book) => tp_listings_map@.contains_key(item_id) && book.same_book(
                    &tp_listings_map@[item_id],
                ),
                None => !tp_listings_map@.contains_key(item_id),
            }
        },
{
    let crafted = calculate_crafting_profit(
        item_id,
        recipes_map,
        tp_listings_map,
        options,
        true,
        search,
        steps,
    );
    let (item, list) = match crafted {
        Ok(outcome) => outcome,
        Err(e) => return Err(e),
    };
    proof {
        law_list_is_kept(
            item_id,
            recipes_map@,
            tp_listings_map@,
            options,
            *search,
            *steps,
            item,
            list,
        );
    }
    let shopping = match list {
        Some(list) => list,
        None => ShoppingList::empty(),
    };
    let required_unknown_recipes = required_unknown_recipes(&item, recipes_map, unknown_recipes);
    let order_book = match tp_listings_map.get(&item_id) {
        Some(book) => Some(book.duplicate()),
        None => None,
    };
    Ok(ItemReport { item, shopping, required_unknown_recipes, order_book })
}

/// Where a list is to be kept, one comes back.
pub proof fn law_list_is_kept<Q, S>(
    item_id: u32,
    recipes: Map<u32, Recipe>,
    listings: Map<u32, api::ItemListings>,
    options: CraftingOptions,
    search: Q,
    steps: S,
    item: Option<ProfitableItem>,
    list: Option<ShoppingList>,
) where
    Q: Fn(u32, &BTreeMap<u32, ItemListings>, &CraftedItems) -> Option<PreciseCraftingCost>,
    S: Fn(&CraftedItems) -> u32,

    requires
        is_crafting_profit(
            item_id,
            recipes,
            listings,
            options,
            true,
            search,
            steps,
            Ok((item, list)),
        ),
    ensures
        list is Some,
{
    let (first, last) = choose|first: CraftingRun, last: CraftingRun| #[trigger]
        leads_up_to(search, first, last) && is_start(
            first,
            item_id,
            batch_of(recipes, item_id),
            listings,
            options,
            true,
        ) && ends(search, last) && shopping_of(list) == last@.totals.shopping;
    lemma_list_is_kept(search, first, last);
}

/// An outcome is sound: the units are whole batches within the limit, and there
/// is a profit, or with a margin below zero a result above it.
pub proof fn law_outcome_is_sound<Q, S>(
    item_id: u32,
    recipes: Map<u32, Recipe>,
    listings: Map<u32, api::ItemListings>,
    options: CraftingOptions,
    keep_list: bool,
    search: Q,
    steps: S,
    item: ProfitableItem,
    list: Option<ShoppingList>,
) where
    Q: Fn(u32, &BTreeMap<u32, ItemListings>, &CraftedItems) -> Option<PreciseCraftingCost>,
    S: Fn(&CraftedItems) -> u32,

    requires
        is_crafting_profit(
            item_id,
            recipes,
            listings,
            options,
            keep_list,
            search,
            steps,
            Ok((Some(item), list)),
        ),
    ensures
        item.id == item_id,
        item.count > 0,
        options.margin() >= 0 as real ==> item.profit@ > 0 as real,
        options.margin() < 0 as real ==> item.profit@ > options.margin(),
        exists|crafts: nat| item.count == #[trigger] (crafts * batch_of(recipes, item_id)),
        options.count_limit matches CountLimit::Items(limit) ==> item.count <= limit,
        options.count_limit matches CountLimit::Crafts(limit) ==> item.count <= limit * batch_of(
            recipes,
            item_id,
        ),
{
    let (first, last) = choose|first: CraftingRun, last: CraftingRun| #[trigger]
        leads_up_to(search, first, last) && is_start(
            first,
            item_id,
            batch_of(recipes, item_id),
            listings,
            options,
            keep_list,
        ) && ends(search, last) && shopping_of(list) == last@.totals.shopping && (if has_outcome(
            last@.totals,
            options.margin(),
        ) {
            exists|n: u32| #[trigger]
                call_ensures(steps, (&last.tally.crafted,), n) && is_outcome(
                    item,
                    last@.totals,
                    item_id,
                    best_sale_price(reported_books(listings), item_id, options),
                    n,
                )
        } else {
            false
        });
    let batch = batch_of(recipes, item_id);
    law_simulation_is_sound(search, first, last, item_id, batch, listings, options, keep_list);
    let crafts = last@.totals.crafts;
    assert(item.count == crafts * batch);
    let margin = options.margin();
    if margin >= 0 as real {
        assert((crafts as real) * margin >= 0 as real) by (nonlinear_arith)
            requires
                crafts >= 0,
                margin >= 0 as real,
        ;
    }
    if let CountLimit::Crafts(limit) = options.count_limit {
        assert(crafts * batch <= limit * batch) by (nonlinear_arith)
            requires
                crafts <= limit,
                batch >= 0,
        ;
    }
}

/// An item that a strict run reports is made at least as often in a run with a
/// lower margin, where the search is steady. So the wider run reports it too.
pub proof fn law_wider_run_keeps_items<Q, S>(
    item_id: u32,
    recipes: Map<u32, Recipe>,
    listings: Map<u32, api::ItemListings>,
    options: CraftingOptions,
    lower: i64,
    keep_list: bool,
    search: Q,
    steps: S,
    item: ProfitableItem,
    list: Option<ShoppingList>,
    wide_item: Option<ProfitableItem>,
    wide_list: Option<ShoppingList>,
) where
    Q: Fn(u32, &BTreeMap<u32, ItemListings>, &CraftedItems) -> Option<PreciseCraftingCost>,
    S: Fn(&CraftedItems) -> u32,

    requires
        is_steady(search),
        options.margin() >= 0 as real,
        (CraftingOptions { profit_threshold: lower, ..options }).margin() <= options.margin(),
        is_crafting_profit(
            item_id,
            recipes,
            listings,
            options,
            keep_list,
            search,
            steps,
            Ok((Some(item), list)),
        ),
        is_crafting_profit(
            item_id,
            recipes,
            listings,
            (CraftingOptions { profit_threshold: lower, ..options }),
            keep_list,
            search,
            steps,
            Ok((wide_item, wide_list)),
        ),
    ensures
        wide_item is Some,
        wide_item->0.count >= item.count,
{
    let wider = CraftingOptions { profit_threshold: lower, ..options };
    let batch = batch_of(recipes, item_id);
    let (first, last) = choose|first: CraftingRun, last: CraftingRun| #[trigger]
        leads_up_to(search, first, last) && is_start(
            first,
            item_id,
            batch,
            listings,
            options,
            keep_list,
        ) && ends(search, last) && (if has_outcome(last@.totals, options.margin()) {
            exists|n: u32| #[trigger]
                call_ensures(steps, (&last.tally.crafted,), n) && is_outcome(
                    item,
                    last@.totals,
                    item_id,
                    best_sale_price(reported_books(listings), item_id, options),
                    n,
                )
        } else {
            false
        });
    let (wide, wide_last) = choose|first: CraftingRun, last: CraftingRun| #[trigger]
        leads_up_to(search, first, last) && is_start(
            first,
            item_id,
            batch,
            listings,
            wider,
            keep_list,
        ) && ends(search, last) && (if has_outcome(last@.totals, wider.margin()) {
            wide_item is Some && exists|n: u32| #[trigger]
                call_ensures(steps, (&last.tally.crafted,), n) && is_outcome(
                    wide_item->0,
                    last@.totals,
                    item_id,
                    best_sale_price(reported_books(listings), item_id, wider),
                    n,
                )
        } else {
            wide_item is None
        });
    law_simulation_is_sound(search, first, last, item_id, batch, listings, options, keep_list);
    let crafts = last@.totals.crafts;
    let margin = options.margin();
    assert((crafts as real) * margin >= 0 as real) by (nonlinear_arith)
        requires
            crafts >= 0,
            margin >= 0 as real,
    ;
    law_wider_simulation_makes_as_much(
        search,
        first,
        last,
        wide,
        wide_last,
        item_id,
        batch,
        listings,
        options,
        lower,
        keep_list,
    );
}

/// From `crafts` batches on, a run can be accounted for: every round that it comes
/// to, and the price at which the last batch brings in its cost.
pub open spec fn goes_on_accountably<Q>(
    item_id: u32,
    batch: u32,
    listings: Map<u32, api::ItemListings>,
    options: CraftingOptions,
    keep_list: bool,
    search: Q,
    crafts: nat,
) -> bool where
    Q: Fn(u32, &BTreeMap<u32, ItemListings>, &CraftedItems) -> Option<PreciseCraftingCost>,
 {
    forall|first: CraftingRun| #[trigger]
        is_start(first, item_id, batch, listings, options, keep_list) ==> is_accountable_from(
            search,
            first,
            crafts,
        ) && forall|run: CraftingRun| #[trigger]
            leads_up_to(search, first, run) && run@.totals.crafts > crafts ==> fits(
                before_fees(run@.totals.unit_cost),
            )
}

/// An item that a strict run reports after so many crafts is reported by a run
/// with a lower margin too, made at least as often, where the search is steady,
/// the margin can be added to the costs, and what the wider run makes beyond can be
/// accounted for. What both of them make never fails the wider one.
pub proof fn law_wider_run_succeeds<Q, S>(
    item_id: u32,
    recipes: Map<u32, Recipe>,
    listings: Map<u32, api::ItemListings>,
    options: CraftingOptions,
    lower: i64,
    keep_list: bool,
    search: Q,
    steps: S,
    item: ProfitableItem,
    list: Option<ShoppingList>,
    wide_res: Result<(Option<ProfitableItem>, Option<ShoppingList>), RunError>,
    crafts: nat,
) where
    Q: Fn(u32, &BTreeMap<u32, ItemListings>, &CraftedItems) -> Option<PreciseCraftingCost>,
    S: Fn(&CraftedItems) -> u32,

    requires
        is_steady(search),
        options.margin() >= 0 as real,
        (CraftingOptions { profit_threshold: lower, ..options }).margin() <= options.margin(),
        forall|first: CraftingRun| #[trigger]
            is_start(
                first,
                item_id,
                batch_of(recipes, item_id),
                listings,
                (CraftingOptions { profit_threshold: lower, ..options }),
                keep_list,
            ) ==> margin_can_be_added(search, first),
        is_crafting_profit(
            item_id,
            recipes,
            listings,
            options,
            keep_list,
            search,
            steps,
            Ok((Some(item), list)),
        ),
        is_crafting_profit(
            item_id,
            recipes,
            listings,
            (CraftingOptions { profit_threshold: lower, ..options }),
            keep_list,
            search,
            steps,
            wide_res,
        ),
        item.count == crafts * batch_of(recipes, item_id),
        goes_on_accountably(
            item_id,
            batch_of(recipes, item_id),
            listings,
            (CraftingOptions { profit_threshold: lower, ..options }),
            keep_list,
            search,
            crafts,
        ),
    ensures
        wide_res matches Ok((Some(wide_item), _)) && wide_item.count >= item.count,
{
    let wider = CraftingOptions { profit_threshold: lower, ..options };
    let batch = batch_of(recipes, item_id);
    let (first, last) = choose|first: CraftingRun, last: CraftingRun| #[trigger]
        leads_up_to(search, first, last) && is_start(
            first,
            item_id,
            batch,
            listings,
            options,
            keep_list,
        ) && ends(search, last) && (if has_outcome(last@.totals, options.margin()) {
            exists|n: u32| #[trigger]
                call_ensures(steps, (&last.tally.crafted,), n) && is_outcome(
                    item,
                    last@.totals,
                    item_id,
                    best_sale_price(reported_books(listings), item_id, options),
                    n,
                )
        } else {
            false
        });
    law_simulation_is_sound(search, first, last, item_id, batch, listings, options, keep_list);
    let made = last@.totals.crafts;
    assert(made == crafts) by (nonlinear_arith)
        requires
            made * batch == crafts * batch,
            made * batch > 0,
            batch >= 0,
    ;
    if let Err(e) = wide_res {
        let (wide, wide_last) = choose|first: CraftingRun, last: CraftingRun| #[trigger]
            leads_up_to(search, first, last) && is_start(
                first,
                item_id,
                batch,
                listings,
                wider,
                keep_list,
            ) && (fails(search, last, e) || ends(search, last) && !fits(
                before_fees(last@.totals.unit_cost),
            ));
        law_wider_simulation_does_not_fail(
            search,
            first,
            last,
            wide,
            wide_last,
            item_id,
            batch,
            listings,
            options,
            lower,
            keep_list,
            e,
        );
        if !fails(search, wide_last, e) {
            law_wider_simulation_makes_as_much(
                search,
                first,
                last,
                wide,
                wide_last,
                item_id,
                batch,
                listings,
                options,
                lower,
                keep_list,
            );
            if wide_last@.totals.crafts == crafts {
                lemma_same_crafts_same_totals(
                    search,
                    first,
                    last,
                    wide,
                    wide_last,
                    item_id,
                    batch,
                    listings,
                    options,
                    lower,
                    keep_list,
                );
            }
        }
        assert(false);
    }
    let (wide_item, wide_list) = wide_res->Ok_0;
    law_wider_run_keeps_items(
        item_id,
        recipes,
        listings,
        options,
        lower,
        keep_list,
        search,
        steps,
        item,
        list,
        wide_item,
        wide_list,
    );
}

/// An item that a strict run makes up to the limit comes out the same in a run with
/// a lower margin, where the search is steady and the margin can be added to the
/// costs.
pub proof fn law_limited_item_is_the_same_when_wider<Q, S>(
    item_id: u32,
    recipes: Map<u32, Recipe>,
    listings: Map<u32, api::ItemListings>,
    options: CraftingOptions,
    lower: i64,
    keep_list: bool,
    search: Q,
    steps: S,
    item: ProfitableItem,
    list: Option<ShoppingList>,
    wide_res: Result<(Option<ProfitableItem>, Option<ShoppingList>), RunError>,
) where
    Q: Fn(u32, &BTreeMap<u32, ItemListings>, &CraftedItems) -> Option<PreciseCraftingCost>,
    S: Fn(&CraftedItems) -> u32,

    requires
        is_steady(search),
        options.margin() >= 0 as real,
        (CraftingOptions { profit_threshold: lower, ..options }).margin() <= options.margin(),
        forall|first: CraftingRun| #[trigger]
            is_start(
                first,
                item_id,
                batch_of(recipes, item_id),
                listings,
                (CraftingOptions { profit_threshold: lower, ..options }),
                keep_list,
            ) ==> margin_can_be_added(search, first),
        is_crafting_profit(
            item_id,
            recipes,
            listings,
            options,
            keep_list,
            search,
            steps,
            Ok((Some(item), list)),
        ),
        is_crafting_profit(
            item_id,
            recipes,
            listings,
            (CraftingOptions { profit_threshold: lower, ..options }),
            keep_list,
            search,
            steps,
            wide_res,
        ),
        match options.count_limit {
            CountLimit::Unlimited => false,
            CountLimit::Items(limit) => item.count + batch_of(recipes, item_id) > limit,
            CountLimit::Crafts(limit) => item.count == limit * batch_of(recipes, item_id),
        },
    ensures
        wide_res matches Ok((Some(wide_item), _)) && {
            &&& wide_item.id == item.id
            &&& wide_item.count == item.count
            &&& wide_item.profit@ == item.profit@
            &&& wide_item.crafting_cost@ == item.crafting_cost@
            &&& wide_item.max_sell@ == item.max_sell@
            &&& wide_item.min_sell@ == item.min_sell@
            &&& wide_item.breakeven@ == item.breakeven@
        },
{
    let wider = CraftingOptions { profit_threshold: lower, ..options };
    let batch = batch_of(recipes, item_id);
    let (first, last) = choose|first: CraftingRun, last: CraftingRun| #[trigger]
        leads_up_to(search, first, last) && is_start(
            first,
            item_id,
            batch,
            listings,
            options,
            keep_list,
        ) && ends(search, last) && (if has_outcome(last@.totals, options.margin()) {
            exists|n: u32| #[trigger]
                call_ensures(steps, (&last.tally.crafted,), n) && is_outcome(
                    item,
                    last@.totals,
                    item_id,
                    best_sale_price(reported_books(listings), item_id, options),
                    n,
                )
        } else {
            false
        });
    law_simulation_is_sound(search, first, last, item_id, batch, listings, options, keep_list);
    let made = last@.totals.crafts;
    if let CountLimit::Crafts(limit) = options.count_limit {
        assert(made == limit) by (nonlinear_arith)
            requires
                made * batch == limit * batch,
                made * batch > 0,
                batch >= 0,
        ;
    }
    assert(at_limit(last@));
    if let Err(e) = wide_res {
        let (wide, wide_last) = choose|first: CraftingRun, last: CraftingRun| #[trigger]
            leads_up_to(search, first, last) && is_start(
                first,
                item_id,
                batch,
                listings,
                wider,
                keep_list,
            ) && (fails(search, last, e) || ends(search, last) && !fits(
                before_fees(last@.totals.unit_cost),
            ));
        law_wider_simulation_does_not_fail(
            search,
            first,
            last,
            wide,
            wide_last,
            item_id,
            batch,
            listings,
            options,
            lower,
            keep_list,
            e,
        );
        law_limit_ends_the_wider_simulation(
            search,
            first,
            last,
            wide,
            wide_last,
            item_id,
            batch,
            listings,
            options,
            lower,
            keep_list,
        );
        if !fails(search, wide_last, e) {
            law_wider_simulation_makes_as_much(
                search,
                first,
                last,
                wide,
                wide_last,
                item_id,
                batch,
                listings,
                options,
                lower,
                keep_list,
            );
        }
        assert(false);
    }
    let (wide_item, wide_list) = wide_res->Ok_0;
    law_wider_run_keeps_items(
        item_id,
        recipes,
        listings,
        options,
        lower,
        keep_list,
        search,
        steps,
        item,
        list,
        wide_item,
        wide_list,
    );
    let (wide, wide_last) = choose|first: CraftingRun, last: CraftingRun| #[trigger]
        leads_up_to(search, first, last) && is_start(
            first,
            item_id,
            batch,
            listings,
            wider,
            keep_list,
        ) && ends(search, last) && (if has_outcome(last@.totals, wider.margin()) {
            wide_item is Some && exists|n: u32| #[trigger]
                call_ensures(steps, (&last.tally.crafted,), n) && is_outcome(
                    wide_item->0,
                    last@.totals,
                    item_id,
                    best_sale_price(reported_books(listings), item_id, wider),
                    n,
                )
        } else {
            wide_item is None
        });
    law_limit_ends_the_wider_simulation(
        search,
        first,
        last,
        wide,
        wide_last,
        item_id,
        batch,
        listings,
        options,
        lower,
        keep_list,
    );
    law_wider_simulation_makes_as_much(
        search,
        first,
        last,
        wide,
        wide_last,
        item_id,
        batch,
        listings,
        options,
        lower,
        keep_list,
    );
}

/// The prices on the list of what was bought are the range of what the units
/// cost, over all batches, where each purchase gets a unit and costs no more
/// copper than a signed 32-bit number can tell.
pub proof fn law_list_has_true_ranges<Q, S>(
    item_id: u32,
    recipes: Map<u32, Recipe>,
    listings: Map<u32, api::ItemListings>,
    options: CraftingOptions,
    keep_list: bool,
    search: Q,
    steps: S,
    item: Option<ProfitableItem>,
    list: Option<ShoppingList>,
) where
    Q: Fn(u32, &BTreeMap<u32, ItemListings>, &CraftedItems) -> Option<PreciseCraftingCost>,
    S: Fn(&CraftedItems) -> u32,

    requires
        is_crafting_profit(
            item_id,
            recipes,
            listings,
            options,
            keep_list,
            search,
            steps,
            Ok((item, list)),
        ),
        forall|first: CraftingRun| #[trigger]
            is_start(first, item_id, batch_of(recipes, item_id), listings, options, keep_list)
                ==> always_buys_ordinarily(search, first),
    ensures
        list matches Some(l) ==> has_true_ranges(l@),
{
    let batch = batch_of(recipes, item_id);
    let (first, last) = choose|first: CraftingRun, last: CraftingRun| #[trigger]
        leads_up_to(search, first, last) && is_start(
            first,
            item_id,
            batch,
            listings,
            options,
            keep_list,
        ) && ends(search, last) && shopping_of(list) == last@.totals.shopping;
    law_simulation_keeps_true_ranges(
        search,
        first,
        last,
        item_id,
        batch,
        listings,
        options,
        keep_list,
    );
}

/// The order books that crafting the item can read stand for the same offers,
/// however they were picked.
proof fn lemma_selections_agree(
    recipes: Map<u32, Recipe>,
    item_id: u32,
    all: Map<u32, api::ItemListings>,
    a: Map<u32, api::ItemListings>,
    b: Map<u32, api::ItemListings>,
)
    requires
        is_selection(recipes, item_id, all, a),
        is_selection(recipes, item_id, all, b),
    ensures
        reported_books(a) == reported_books(b),
{
    assert forall|id: u32| #[trigger]
        reported_books(a).contains_key(id) == reported_books(b).contains_key(id) && (
        reported_books(a).contains_key(id) ==> reported_books(a)[id] == reported_books(b)[id]) by {
        assert(a.contains_key(id) == b.contains_key(id));
    }
    assert(reported_books(a) =~= reported_books(b));
}

/// An item that a strict run reports is reported by a run with a lower margin
/// too, made at least as often. With a margin below zero its result lies above
/// the margin.
proof fn lemma_wider_run_keeps_item<Q, S>(
    item_id: u32,
    recipes: Map<u32, Recipe>,
    all: Map<u32, api::ItemListings>,
    options: CraftingOptions,
    lower: i64,
    search: Q,
    steps: S,
    item: ProfitableItem,
    wide_item: Option<ProfitableItem>,
) where
    Q: Fn(u32, &BTreeMap<u32, ItemListings>, &CraftedItems) -> Option<PreciseCraftingCost>,
    S: Fn(&CraftedItems) -> u32,

    requires
        is_steady(search),
        options.margin() >= 0 as real,
        (CraftingOptions { profit_threshold: lower, ..options }).margin() <= options.margin(),
        is_item_profit(item_id, recipes, all, options, search, steps, Ok(Some(item))),
        is_item_profit(
            item_id,
            recipes,
            all,
            (CraftingOptions { profit_threshold: lower, ..options }),
            search,
            steps,
            Ok(wide_item),
        ),
    ensures
        item.id == item_id,
        wide_item is Some,
        wide_item->0.id == item_id,
        wide_item->0.count >= item.count,
        margin_of(lower) < 0 as real ==> wide_item->0.profit@ > margin_of(lower),
{
    let wider = CraftingOptions { profit_threshold: lower, ..options };
    let a = choose|selected: Map<u32, api::ItemListings>| #[trigger]
        is_selection(recipes, item_id, all, selected) && is_crafting_profit(
            item_id,
            recipes,
            selected,
            options,
            false,
            search,
            steps,
            Ok((Some(item), None)),
        );
    let b = choose|selected: Map<u32, api::ItemListings>| #[trigger]
        is_selection(recipes, item_id, all, selected) && is_crafting_profit(
            item_id,
            recipes,
            selected,
            wider,
            false,
            search,
            steps,
            Ok((wide_item, None)),
        );
    lemma_selections_agree(recipes, item_id, all, a, b);
    assert forall|first: CraftingRun, last: CraftingRun| #[trigger]
        leads_up_to(search, first, last) && is_start(
            first,
            item_id,
            batch_of(recipes, item_id),
            b,
            wider,
            false,
        ) implies is_start(first, item_id, batch_of(recipes, item_id), a, wider, false) by {}
    assert(is_crafting_profit(
        item_id,
        recipes,
        a,
        wider,
        false,
        search,
        steps,
        Ok((wide_item, None)),
    ));
    law_wider_run_keeps_items(
        item_id,
        recipes,
        a,
        options,
        lower,
        false,
        search,
        steps,
        item,
        None,
        wide_item,
        None,
    );
    law_outcome_is_sound(item_id, recipes, a, options, false, search, steps, item, None);
    law_outcome_is_sound(item_id, recipes, a, wider, false, search, steps, wide_item->0, None);
}

proof fn lemma_present_holds<T>(results: Seq<Option<T>>, x: T)
    ensures
        present(results).contains(x) <==> results.contains(Some(x)),
    decreases results.len(),
{
    if results.len() > 0 {
        let rest = results.drop_last();
        let n: int = results.len() - 1;
        lemma_present_holds(rest, x);
        if rest.contains(Some(x)) {
            let i: int = rest.index_of(Some(x));
            assert(results[i] == Some(x));
        }
        if results.contains(Some(x)) {
            let i: int = results.index_of(Some(x));
            if i < n {
                assert(rest[i] == Some(x));
            }
        }
        assert(results[n] == results.last());
        if let Some(y) = results.last() {
            lemma_contains_item(present(rest), y, x);
        }
    }
}

proof fn lemma_contains_item<T>(s: Seq<T>, y: T, x: T)
    ensures
        s.push(y).contains(x) <==> s.contains(x) || x == y,
{
    assert(s.push(y)[s.len() as int] == y);
    if s.contains(x) {
        let i: int = s.index_of(x);
        assert(s.push(y)[i] == x);
    }
    if s.push(y).contains(x) {
        let i: int = s.push(y).index_of(x);
        if i < s.len() {
            assert(s[i] == x);
        }
    }
}

/// Every item on the list of a strict run is on the list of a run with a lower
/// margin too, made at least as often, where the search is steady and the items
/// of the strict run are looked at again. With a margin below zero its result
/// lies above the margin.
pub proof fn law_wider_list_keeps_items<Q, S>(
    ids: Seq<u32>,
    wide_ids: Seq<u32>,
    recipes: Map<u32, Recipe>,
    all: Map<u32, api::ItemListings>,
    options: CraftingOptions,
    lower: i64,
    search: Q,
    steps: S,
    list: Vec<ProfitableItem>,
    wide_list: Vec<ProfitableItem>,
    i: int,
) -> (wide_item: ProfitableItem) where
    Q: Fn(u32, &BTreeMap<u32, ItemListings>, &CraftedItems) -> Option<PreciseCraftingCost>,
    S: Fn(&CraftedItems) -> u32,

    requires
        is_steady(search),
        options.margin() >= 0 as real,
        (CraftingOptions { profit_threshold: lower, ..options }).margin() <= options.margin(),
        forall|id: u32| #[trigger] ids.contains(id) ==> wide_ids.contains(id),
        is_profit_list(ids, recipes, all, options, search, steps, Ok(list)),
        is_profit_list(
            wide_ids,
            recipes,
            all,
            (CraftingOptions { profit_threshold: lower, ..options }),
            search,
            steps,
            Ok(wide_list),
        ),
        0 <= i < list@.len(),
    ensures
        wide_list@.contains(wide_item),
        wide_item.id == list@[i].id,
        wide_item.count >= list@[i].count,
        margin_of(lower) < 0 as real ==> wide_item.profit@ > margin_of(lower),
{
    let wider = CraftingOptions { profit_threshold: lower, ..options };
    let item = list@[i];
    let found = choose|found: Seq<Option<ProfitableItem>>|
        found.len() == ids.len() && (forall|i: int|
            0 <= i < ids.len() ==> is_item_profit(
                ids[i],
                recipes,
                all,
                options,
                search,
                steps,
                Ok(#[trigger] found[i]),
            )) && #[trigger] is_stable_sort(present(found), less_profit(), list@);
    let wide_found = choose|found: Seq<Option<ProfitableItem>>|
        found.len() == wide_ids.len() && (forall|i: int|
            0 <= i < wide_ids.len() ==> is_item_profit(
                wide_ids[i],
                recipes,
                all,
                wider,
                search,
                steps,
                Ok(#[trigger] found[i]),
            )) && #[trigger] is_stable_sort(present(found), less_profit(), wide_list@);
    lemma_sort_keeps_values(present(found), less_profit(), list@);
    lemma_sort_keeps_values(present(wide_found), less_profit(), wide_list@);
    assert(list@.contains(item));
    lemma_present_holds(found, item);
    let k: int = found.index_of(Some(item));
    assert(found[k] == Some(item));
    assert(ids.contains(ids[k]));
    let m: int = wide_ids.index_of(ids[k]);
    assert(wide_ids[m] == ids[k]);
    let wide_result = wide_found[m];
    lemma_wider_run_keeps_item(
        ids[k],
        recipes,
        all,
        options,
        lower,
        search,
        steps,
        item,
        wide_result,
    );
    let wide_item = wide_result->0;
    assert(wide_found[m] == Some(wide_item));
    lemma_present_holds(wide_found, wide_item);
    wide_item
}

/// The search never buys the item itself on the trading post.
pub open spec fn never_buys<Q>(search: Q, item_id: u32) -> bool where
    Q: Fn(u32, &BTreeMap<u32, ItemListings>, &CraftedItems) -> Option<PreciseCraftingCost>,
 {
    forall|
        id: u32,
        books: &BTreeMap<u32, ItemListings>,
        crafted: &CraftedItems,
        found: Option<PreciseCraftingCost>,
    | #[trigger]
        call_ensures(search, (id, books, crafted), found) && found is Some ==> leaves_alone(
            found->0,
            item_id,
        )
}

/// The profit and the cost of an outcome add up to what selling its units from
/// the reported order book brings in, best offers first, where no unit of the
/// item is bought on the way.
pub proof fn law_outcome_is_revenue_less_cost<Q, S>(
    item_id: u32,
    recipes: Map<u32, Recipe>,
    listings: Map<u32, api::ItemListings>,
    options: CraftingOptions,
    keep_list: bool,
    search: Q,
    steps: S,
    item: ProfitableItem,
    list: Option<ShoppingList>,
) where
    Q: Fn(u32, &BTreeMap<u32, ItemListings>, &CraftedItems) -> Option<PreciseCraftingCost>,
    S: Fn(&CraftedItems) -> u32,

    requires
        never_buys(search, item_id),
        options.value is None,
        reported_books(listings).contains_key(item_id),
        is_crafting_profit(
            item_id,
            recipes,
            listings,
            options,
            keep_list,
            search,
            steps,
            Ok((Some(item), list)),
        ),
    ensures
        match proceeds(
            reported_books(listings)[item_id].sale_side(options.patient),
            item.count as nat,
        ) {
            Some((revenue, _)) => item.profit@ + item.crafting_cost@ == revenue,
            None => false,
        },
{
    let (first, last) = choose|first: CraftingRun, last: CraftingRun| #[trigger]
        leads_up_to(search, first, last) && is_start(
            first,
            item_id,
            batch_of(recipes, item_id),
            listings,
            options,
            keep_list,
        ) && ends(search, last) && (if has_outcome(last@.totals, options.margin()) {
            exists|n: u32| #[trigger]
                call_ensures(steps, (&last.tally.crafted,), n) && is_outcome(
                    item,
                    last@.totals,
                    item_id,
                    best_sale_price(reported_books(listings), item_id, options),
                    n,
                )
        } else {
            false
        });
    let (runs, found) = choose|
        runs: Seq<CraftingRun>,
        found: Seq<Option<PreciseCraftingCost>>,
    | #[trigger]
        is_history(search, runs, found) && runs[0] == first && runs.last() == last;
    assert forall|k: int| 0 <= k < found.len() && (#[trigger] found[k]) is Some implies leaves_alone(
        found[k]->0,
        item_id,
    ) by {
        assert(is_step(search, runs[k], found[k], runs[k + 1]));
    }
    law_profit_is_revenue_less_cost(search, runs, found, found.len() as int);
}

/// The last unit of an outcome is sold at the price of the offer that is so many
/// places down the reported order book, where no unit of the item is bought on the
/// way. So it fetches no more than the first one where it is sold to bids, and no
/// less where it is listed among asks.
pub proof fn law_last_price_bounds_the_first<Q, S>(
    item_id: u32,
    recipes: Map<u32, Recipe>,
    listings: Map<u32, api::ItemListings>,
    options: CraftingOptions,
    keep_list: bool,
    search: Q,
    steps: S,
    item: ProfitableItem,
    list: Option<ShoppingList>,
) where
    Q: Fn(u32, &BTreeMap<u32, ItemListings>, &CraftedItems) -> Option<PreciseCraftingCost>,
    S: Fn(&CraftedItems) -> u32,

    requires
        never_buys(search, item_id),
        options.value is None,
        reported_books(listings).contains_key(item_id),
        is_crafting_profit(
            item_id,
            recipes,
            listings,
            options,
            keep_list,
            search,
            steps,
            Ok((Some(item), list)),
        ),
    ensures
        ({
            let side = reported_books(listings)[item_id].sale_side(options.patient);
            let offers = units(side);
            &&& 0 < item.count <= offers.len()
            &&& item.min_sell@ == coin(offers[item.count - 1]) as real
            &&& item.max_sell@ == coin(side.last().unit_price) as real
            &&& is_bid_side(side) && side.last().unit_price <= i32::MAX ==> item.min_sell@
                <= item.max_sell@
            &&& is_ask_side(side) && offers[item.count - 1] <= i32::MAX ==> item.min_sell@
                >= item.max_sell@
        }),
{
    let (first, last) = choose|first: CraftingRun, last: CraftingRun| #[trigger]
        leads_up_to(search, first, last) && is_start(
            first,
            item_id,
            batch_of(recipes, item_id),
            listings,
            options,
            keep_list,
        ) && ends(search, last) && (if has_outcome(last@.totals, options.margin()) {
            exists|n: u32| #[trigger]
                call_ensures(steps, (&last.tally.crafted,), n) && is_outcome(
                    item,
                    last@.totals,
                    item_id,
                    best_sale_price(reported_books(listings), item_id, options),
                    n,
                )
        } else {
            false
        });
    let (runs, found) = choose|
        runs: Seq<CraftingRun>,
        found: Seq<Option<PreciseCraftingCost>>,
    | #[trigger]
        is_history(search, runs, found) && runs[0] == first && runs.last() == last;
    assert forall|k: int| 0 <= k < found.len() && (#[trigger] found[k]) is Some implies leaves_alone(
        found[k]->0,
        item_id,
    ) by {
        assert(is_step(search, runs[k], found[k], runs[k + 1]));
    }
    law_profit_is_revenue_less_cost(search, runs, found, found.len() as int);
    let side = reported_books(listings)[item_id].sale_side(options.patient);
    let n: int = item.count as int;
    assert(units(side).take(n).last() == units(side)[n - 1]);
    assert(side.len() > 0);
    if is_bid_side(side) {
        law_dearest_units_first(side);
    }
    if is_ask_side(side) {
        law_cheapest_units_first(side);
    }
}

/// The order books that are asked for are all that crafting the items can read,
/// whether the items were found at this margin or only at a higher one.
pub proof fn law_requests_cover_all_parts(
    prices: Map<u32, api::Price>,
    recipes: Map<u32, Recipe>,
    items: Map<u32, Item>,
    estimates: Map<u32, EstimatedCraftingCost>,
    filter: Option<Vec<Discipline>>,
    margin: real,
    lower: real,
    patient: bool,
    item_ids: Seq<u32>,
    ingredient_ids: Seq<u32>,
    requested: Seq<u32>,
    item_id: u32,
    part: u32,
)
    requires
        lower <= margin,
        forall|id: u32| #[trigger]
            item_ids.contains(id) <==> is_candidate(
                prices,
                recipes,
                items,
                estimates,
                filter,
                lower,
                patient,
                id,
            ),
        forall|id: u32| #[trigger]
            ingredient_ids.contains(id) <==> is_ingredient_of_one(recipes, item_ids, id),
        is_id_list_of(requested, item_ids + ingredient_ids),
        is_candidate(prices, recipes, items, estimates, filter, margin, patient, item_id),
        is_part_of(recipes, item_id, part),
    ensures
        requested.contains(part),
{
    law_lower_margin_keeps_candidates(
        prices,
        recipes,
        items,
        estimates,
        filter,
        margin,
        lower,
        patient,
        item_id,
    );
    assert(item_ids.contains(item_id));
    lemma_contains_append(item_ids, ingredient_ids, part);
    if part != item_id {
        assert(is_ingredient_of_one(recipes, item_ids, part));
        assert(ingredient_ids.contains(part));
    }
    assert((item_ids + ingredient_ids).contains(part));
}

/// A candidate is an item with a recipe that can be sold and is on offer, and 85% of
/// what a unit fetches are more than its crafting cost and the margin: of the best
/// bid where it is sold at once, of the cheapest ask where it is listed.
pub proof fn law_candidates_promise_a_profit(
    prices: Map<u32, api::Price>,
    recipes: Map<u32, Recipe>,
    items: Map<u32, Item>,
    estimates: Map<u32, EstimatedCraftingCost>,
    filter: Option<Vec<Discipline>>,
    profit_threshold: i64,
    patient: bool,
    id: u32,
)
    requires
        i32::MIN <= profit_threshold <= i32::MAX,
        is_candidate(
            prices,
            recipes,
            items,
            estimates,
            filter,
            margin_of(profit_threshold),
            patient,
            id,
        ),
    ensures
        recipes.contains_key(id),
        prices.contains_key(id),
        prices[id].sells.quantity > 0,
        items.contains_key(id) ==> !items[id].restricted,
        estimates.contains_key(id),
        estimates[id].source == Source::Crafting,
        !patient && prices[id].buys.unit_price <= i32::MAX ==> (85 * prices[id].buys.unit_price) as real
            > (estimates[id].cost@ + (profit_threshold as int) as real) * (100 as real),
        patient && prices[id].sells.unit_price <= i32::MAX ==> (85 * prices[id].sells.unit_price) as real
            > (estimates[id].cost@ + (profit_threshold as int) as real) * (100 as real),
{
}

/// What promises a profit is a candidate: nothing else is asked of an item that has
/// a recipe of one of the disciplines, whatever stands beside it in either list.
pub proof fn law_what_promises_a_profit_is_a_candidate(
    prices: Map<u32, api::Price>,
    recipes: Map<u32, Recipe>,
    items: Map<u32, Item>,
    estimates: Map<u32, EstimatedCraftingCost>,
    filter: Option<Vec<Discipline>>,
    profit_threshold: i64,
    patient: bool,
    id: u32,
    wanted: int,
    own: int,
)
    requires
        i32::MIN <= profit_threshold <= i32::MAX,
        recipes.contains_key(id),
        filter matches Some(wanted_ones) ==> 0 <= wanted < wanted_ones@.len() && 0 <= own
            < recipes[id].disciplines@.len() && wanted_ones@[wanted]
            == recipes[id].disciplines@[own],
        !items.contains_key(id) || !items[id].restricted,
        prices.contains_key(id),
        prices[id].sells.quantity > 0,
        estimates.contains_key(id),
        estimates[id].source == Source::Crafting,
        !patient ==> prices[id].buys.unit_price <= i32::MAX && (85 * prices[id].buys.unit_price) as real
            > (estimates[id].cost@ + (profit_threshold as int) as real) * (100 as real),
        patient ==> prices[id].sells.unit_price <= i32::MAX && (85 * prices[id].sells.unit_price) as real
            > (estimates[id].cost@ + (profit_threshold as int) as real) * (100 as real),
    ensures
        is_candidate(
            prices,
            recipes,
            items,
            estimates,
            filter,
            margin_of(profit_threshold),
            patient,
            id,
        ),
{
    if let Some(wanted_ones) = filter {
        let d = wanted_ones@[wanted];
        assert(wanted_ones@.contains(d) && recipes[id].disciplines@.contains(d));
    }
}

/// A recipe of none of the disciplines of the filter makes no candidate.
pub proof fn law_other_disciplines_are_left_out(
    prices: Map<u32, api::Price>,
    recipes: Map<u32, Recipe>,
    items: Map<u32, Item>,
    estimates: Map<u32, EstimatedCraftingCost>,
    filter: Option<Vec<Discipline>>,
    profit_threshold: i64,
    patient: bool,
    id: u32,
    disciplines: Vec<Discipline>,
)
    requires
        forall|i: int, j: int|
            0 <= i < disciplines@.len() && 0 <= j < recipes[id].disciplines@.len() ==> (
            #[trigger] disciplines@[i]) != (#[trigger] recipes[id].disciplines@[j]),
    ensures
        !is_candidate(
            prices,
            recipes,
            items,
            estimates,
            Some(disciplines),
            margin_of(profit_threshold),
            patient,
            id,
        ),
{
    if passes_filter(recipes[id], Some(disciplines)) {
        let d = choose|d: Discipline| #[trigger]
            disciplines@.contains(d) && recipes[id].disciplines@.contains(d);
        let i: int = disciplines@.index_of(d);
        let j: int = recipes[id].disciplines@.index_of(d);
        assert(disciplines@[i] == recipes[id].disciplines@[j]);
    }
}

/// The order of the disciplines of a recipe does not matter, nor does one more of
/// them take a candidate away. Each discipline of a candidate finds it.
pub proof fn law_order_of_disciplines_does_not_matter(
    prices: Map<u32, api::Price>,
    recipes: Map<u32, Recipe>,
    items: Map<u32, Item>,
    estimates: Map<u32, EstimatedCraftingCost>,
    filter: Option<Vec<Discipline>>,
    profit_threshold: i64,
    patient: bool,
    id: u32,
    other: Recipe,
    single: Vec<Discipline>,
)
    requires
        recipes.contains_key(id),
        forall|i: int|
            0 <= i < recipes[id].disciplines@.len() ==> other.disciplines@.contains(
                #[trigger] recipes[id].disciplines@[i],
            ),
        is_candidate(
            prices,
            recipes,
            items,
            estimates,
            filter,
            margin_of(profit_threshold),
            patient,
            id,
        ),
        single@.len() == 1,
        recipes[id].disciplines@.contains(single@[0]),
    ensures
        is_candidate(
            prices,
            recipes.insert(id, other),
            items,
            estimates,
            filter,
            margin_of(profit_threshold),
            patient,
            id,
        ),
        is_candidate(
            prices,
            recipes,
            items,
            estimates,
            Some(single),
            margin_of(profit_threshold),
            patient,
            id,
        ),
{
    if let Some(disciplines) = filter {
        let d = choose|d: Discipline| #[trigger]
            disciplines@.contains(d) && recipes[id].disciplines@.contains(d);
        let i: int = recipes[id].disciplines@.index_of(d);
        assert(other.disciplines@.contains(recipes[id].disciplines@[i]));
        assert(disciplines@.contains(d) && other.disciplines@.contains(d));
    }
    let own = single@[0];
    assert(single@.contains(own));
    lemma_shared_discipline_passes(recipes[id], Some(single), own);
}

proof fn lemma_shared_discipline_passes(
    recipe: Recipe,
    filter: Option<Vec<Discipline>>,
    d: Discipline,
)
    requires
        filter is Some,
        (filter->0)@.contains(d),
        recipe.disciplines@.contains(d),
    ensures
        passes_filter(recipe, filter),
{
    let wanted = filter->0;
    assert(wanted@.contains(d) && recipe.disciplines@.contains(d));
}

/// Of the market, only the best price of the side that is sold to and whether there
/// is anything on offer decide about a candidate.
pub proof fn law_other_side_of_the_market_does_not_matter(
    prices: Map<u32, api::Price>,
    recipes: Map<u32, Recipe>,
    items: Map<u32, Item>,
    estimates: Map<u32, EstimatedCraftingCost>,
    filter: Option<Vec<Discipline>>,
    profit_threshold: i64,
    patient: bool,
    id: u32,
    other: api::Price,
)
    requires
        prices.contains_key(id),
        (other.sells.quantity > 0) == (prices[id].sells.quantity > 0),
        !patient ==> other.buys.unit_price == prices[id].buys.unit_price,
        patient ==> other.sells.unit_price == prices[id].sells.unit_price,
    ensures
        is_candidate(
            prices,
            recipes,
            items,
            estimates,
            filter,
            margin_of(profit_threshold),
            patient,
            id,
        ) == is_candidate(
            prices.insert(id, other),
            recipes,
            items,
            estimates,
            filter,
            margin_of(profit_threshold),
            patient,
            id,
        ),
{
}

/// The ingredients that are asked for are all those of the candidates' recipes, and
/// all those of recipes for what is asked for. Each of them is an ingredient of one
/// of these.
pub proof fn law_ingredients_are_followed_down(
    recipes: Map<u32, Recipe>,
    ids: Seq<u32>,
    i: int,
    a: u32,
    b: u32,
    k: int,
)
    requires
        0 <= i < ids.len(),
    ensures
        0 <= k < recipes[ids[i]].ingredients@.len() ==> is_ingredient_of_one(
            recipes,
            ids,
            recipes[ids[i]].ingredients@[k].item_id,
        ),
        is_ingredient_of_one(recipes, ids, a) && recipes.contains_key(a) && 0 <= k
            < recipes[a].ingredients@.len() ==> is_ingredient_of_one(
            recipes,
            ids,
            recipes[a].ingredients@[k].item_id,
        ),
        is_ingredient_of_one(recipes, ids, b) ==> exists|maker: u32, l: int|
            (ids.contains(maker) || recipes.contains_key(maker) && is_ingredient_of_one(
                recipes,
                ids,
                maker,
            )) && 0 <= l < recipes[maker].ingredients@.len() && (
            #[trigger] recipes[maker].ingredients@[l]).item_id == b,
{
    let first = recipes[ids[i]];
    if 0 <= k < first.ingredients@.len() {
        let x = first.ingredients@[k].item_id;
        assert(has_ingredient(first, x));
        assert(is_ingredient_path(recipes, first, seq![x]));
        assert(seq![x].last() == x);
        assert(is_transitive_ingredient(recipes, recipes[ids[i]], x));
    }
    if is_ingredient_of_one(recipes, ids, a) && recipes.contains_key(a) && 0 <= k
        < recipes[a].ingredients@.len() {
        let j: int = choose|j: int|
            0 <= j < ids.len() && is_transitive_ingredient(recipes, recipes[#[trigger] ids[j]], a);
        let x = recipes[a].ingredients@[k].item_id;
        assert(has_ingredient(recipes[a], x));
        assert(leads_to(recipes, a, x));
        lemma_path_extends(recipes, recipes[ids[j]], a, x);
    }
    if is_ingredient_of_one(recipes, ids, b) {
        let j: int = choose|j: int|
            0 <= j < ids.len() && is_transitive_ingredient(recipes, recipes[#[trigger] ids[j]], b);
        lemma_ingredient_has_a_maker(recipes, recipes[ids[j]], b);
        if has_ingredient(recipes[ids[j]], b) {
            let l: int = choose|l: int|
                0 <= l < recipes[ids[j]].ingredients@.len() && (
                #[trigger] recipes[ids[j]].ingredients@[l]).item_id == b;
            assert(ids.contains(ids[j]));
            assert(recipes[ids[j]].ingredients@[l].item_id == b);
        } else {
            let maker = choose|maker: u32| #[trigger]
                is_transitive_ingredient(recipes, recipes[ids[j]], maker) && leads_to(
                    recipes,
                    maker,
                    b,
                );
            let l: int = choose|l: int|
                0 <= l < recipes[maker].ingredients@.len() && (
                #[trigger] recipes[maker].ingredients@[l]).item_id == b;
            assert(is_ingredient_of_one(recipes, ids, maker));
            assert(recipes[maker].ingredients@[l].item_id == b);
        }
    }
}

/// An outcome adds up, over the answers that the search gave one after the other:
/// its cost is the sum of what they cost, its units are a batch of the recipe for
/// each of them, and what was crafted is what the last one says. Sold at the
/// breakeven price, of which 85% are kept, the units of the last batch bring in
/// exactly what that batch cost. At a fixed value the profit and the cost are the
/// value of the units.
pub proof fn law_outcome_adds_up<Q, S>(
    item_id: u32,
    recipes: Map<u32, Recipe>,
    listings: Map<u32, api::ItemListings>,
    options: CraftingOptions,
    keep_list: bool,
    search: Q,
    steps: S,
    item: ProfitableItem,
    list: Option<ShoppingList>,
) -> (history: (Seq<CraftingRun>, Seq<Option<PreciseCraftingCost>>)) where
    Q: Fn(u32, &BTreeMap<u32, ItemListings>, &CraftedItems) -> Option<PreciseCraftingCost>,
    S: Fn(&CraftedItems) -> u32,

    requires
        is_crafting_profit(
            item_id,
            recipes,
            listings,
            options,
            keep_list,
            search,
            steps,
            Ok((Some(item), list)),
        ),
    ensures
        ({
            let runs = history.0;
            let found = history.1;
            let batch = if recipes.contains_key(item_id) {
                recipes[item_id].output_item_count as int
            } else {
                1
            };
            let last_cost = (found.last()->0).cost@;
            &&& runs.len() == found.len() + 1
            &&& found.len() > 0
            &&& forall|k: int|
                0 <= k < found.len() ==> (#[trigger] found[k]) is Some && call_ensures(
                    search,
                    (runs[k].item_id, &runs[k].books, &runs[k].tally.crafted),
                    found[k],
                )
            &&& item.id == item_id
            &&& item.crafting_cost@ == sum_of_costs(found)
            &&& item.count == found.len() * batch
            &&& item.breakeven@ * (85 as real) / (100 as real) * (batch as real) == last_cost
            &&& item.crafted_items == (found.last()->0).items
            &&& call_ensures(steps, (&item.crafted_items,), item.crafting_steps)
            &&& options.value matches Some(price) ==> item.profit@ + item.crafting_cost@ == (coin(
                price,
            ) * item.count) as real && item.min_sell@ == coin(price) as real
            &&& shopping_of(list) == runs.last()@.totals.shopping
        }),
{
    let batch = batch_of(recipes, item_id);
    let (first, last) = choose|first: CraftingRun, last: CraftingRun| #[trigger]
        leads_up_to(search, first, last) && is_start(
            first,
            item_id,
            batch,
            listings,
            options,
            keep_list,
        ) && ends(search, last) && shopping_of(list) == last@.totals.shopping && (if has_outcome(
            last@.totals,
            options.margin(),
        ) {
            exists|n: u32| #[trigger]
                call_ensures(steps, (&last.tally.crafted,), n) && is_outcome(
                    item,
                    last@.totals,
                    item_id,
                    best_sale_price(reported_books(listings), item_id, options),
                    n,
                )
        } else {
            false
        });
    let (runs, found) = choose|
        runs: Seq<CraftingRun>,
        found: Seq<Option<PreciseCraftingCost>>,
    | #[trigger]
        is_history(search, runs, found) && runs[0] == first && runs.last() == last;
    let n: int = found.len() as int;
    law_rounds_add_up(search, runs, found, n);
    assert(found.take(n) =~= found);
    if n == 0 {
        assert(0 * batch == 0);
    }
    assert forall|k: int| 0 <= k < found.len() implies (#[trigger] found[k]) is Some
        && call_ensures(
        search,
        (runs[k].item_id, &runs[k].books, &runs[k].tally.crafted),
        found[k],
    ) by {
        assert(is_step(search, runs[k], found[k], runs[k + 1]));
    }
    let unit = last@.totals.unit_cost;
    let b = batch as real;
    assert(item.breakeven@ * (85 as real) / (100 as real) == unit) by (nonlinear_arith)
        requires
            item.breakeven@ == unit * (20 as real) / (17 as real),
    ;
    (runs, found)
}

/// The best price on record is that of the best offer in the report: of the bids when
/// instant, of the asks when patient. Without a book it is the one that was given.
pub proof fn law_best_price_is_reported<Q, S>(
    item_id: u32,
    recipes: Map<u32, Recipe>,
    listings: Map<u32, api::ItemListings>,
    options: CraftingOptions,
    keep_list: bool,
    search: Q,
    steps: S,
    item: ProfitableItem,
    list: Option<ShoppingList>,
) where
    Q: Fn(u32, &BTreeMap<u32, ItemListings>, &CraftedItems) -> Option<PreciseCraftingCost>,
    S: Fn(&CraftedItems) -> u32,

    requires
        is_crafting_profit(
            item_id,
            recipes,
            listings,
            options,
            keep_list,
            search,
            steps,
            Ok((Some(item), list)),
        ),
    ensures
        listings.contains_key(item_id) && !options.patient && listings[item_id].buys@.len() > 0
            ==> item.max_sell@ == coin(listings[item_id].buys@.last().unit_price) as real,
        listings.contains_key(item_id) && options.patient && listings[item_id].sells@.len() > 0
            ==> item.max_sell@ == coin(listings[item_id].sells@.last().unit_price) as real,
        !listings.contains_key(item_id) && options.threshold is Some ==> item.max_sell@ == coin(
            options.threshold->0,
        ) as real,
        !listings.contains_key(item_id) && options.threshold is None ==> item.max_sell@
            == 0 as real,
{
    let (first, last) = choose|first: CraftingRun, last: CraftingRun| #[trigger]
        leads_up_to(search, first, last) && is_start(
            first,
            item_id,
            batch_of(recipes, item_id),
            listings,
            options,
            keep_list,
        ) && ends(search, last) && (if has_outcome(last@.totals, options.margin()) {
            exists|n: u32| #[trigger]
                call_ensures(steps, (&last.tally.crafted,), n) && is_outcome(
                    item,
                    last@.totals,
                    item_id,
                    best_sale_price(reported_books(listings), item_id, options),
                    n,
                )
        } else {
            false
        });
    assert(reported_books(listings).contains_key(item_id) == listings.contains_key(item_id));
}

/// Of all order books those are read that belong to the item, to an ingredient of its
/// recipe, or to an ingredient of a recipe for one that is read.
pub proof fn law_books_of_the_parts_are_read(
    recipes: Map<u32, Recipe>,
    item_id: u32,
    all: Map<u32, api::ItemListings>,
    selected: Map<u32, api::ItemListings>,
    part: u32,
    k: int,
    id: u32,
)
    requires
        is_selection(recipes, item_id, all, selected),
    ensures
        all.contains_key(item_id) ==> selected.contains_key(item_id),
        recipes.contains_key(item_id) && 0 <= k < recipes[item_id].ingredients@.len()
            && all.contains_key(recipes[item_id].ingredients@[k].item_id)
            ==> selected.contains_key(recipes[item_id].ingredients@[k].item_id),
        is_part_of(recipes, item_id, part) && recipes.contains_key(part) && 0 <= k
            < recipes[part].ingredients@.len() && all.contains_key(
            recipes[part].ingredients@[k].item_id,
        ) ==> selected.contains_key(recipes[part].ingredients@[k].item_id),
        selected.contains_key(id) ==> all.contains_key(id) && selected[id].buys@ == all[id].buys@
            && selected[id].sells@ == all[id].sells@ && selected[id].id == all[id].id,
{
    if recipes.contains_key(item_id) && 0 <= k < recipes[item_id].ingredients@.len() {
        let x = recipes[item_id].ingredients@[k].item_id;
        assert(has_ingredient(recipes[item_id], x));
        assert(is_ingredient_path(recipes, recipes[item_id], seq![x]));
        assert(seq![x].last() == x);
        assert(is_transitive_ingredient(recipes, recipes[item_id], x));
    }
    if is_part_of(recipes, item_id, part) && recipes.contains_key(part) && 0 <= k
        < recipes[part].ingredients@.len() && part != item_id {
        let x = recipes[part].ingredients@[k].item_id;
        assert(has_ingredient(recipes[part], x));
        assert(leads_to(recipes, part, x));
        lemma_path_extends(recipes, recipes[item_id], part, x);
    }
}

/// The list of a run goes from the lowest profit to the highest.
pub proof fn law_list_is_sorted_by_profit<Q, S>(
    ids: Seq<u32>,
    recipes: Map<u32, Recipe>,
    all: Map<u32, api::ItemListings>,
    options: CraftingOptions,
    search: Q,
    steps: S,
    list: Vec<ProfitableItem>,
    i: int,
    j: int,
) where
    Q: Fn(u32, &BTreeMap<u32, ItemListings>, &CraftedItems) -> Option<PreciseCraftingCost>,
    S: Fn(&CraftedItems) -> u32,

    requires
        is_profit_list(ids, recipes, all, options, search, steps, Ok(list)),
        0 <= i < j < list@.len(),
    ensures
        list@[i].profit@ <= list@[j].profit@,
        ids.contains(list@[i].id),
{
    let found = choose|found: Seq<Option<ProfitableItem>>|
        found.len() == ids.len() && (forall|i: int|
            0 <= i < ids.len() ==> is_item_profit(
                ids[i],
                recipes,
                all,
                options,
                search,
                steps,
                Ok(#[trigger] found[i]),
            )) && #[trigger] is_stable_sort(present(found), less_profit(), list@);
    lemma_sort_keeps_values(present(found), less_profit(), list@);
    let less = less_profit();
    assert(!less(list@[j], list@[i]) || less(list@[i], list@[j]));
    let item = list@[i];
    assert(list@.contains(item));
    lemma_present_holds(found, item);
    let k: int = found.index_of(Some(item));
    assert(found[k] == Some(item));
    let selected = choose|selected: Map<u32, api::ItemListings>| #[trigger]
        is_selection(recipes, ids[k], all, selected) && is_crafting_profit(
            ids[k],
            recipes,
            selected,
            options,
            false,
            search,
            steps,
            Ok((Some(item), None)),
        );
    law_outcome_is_sound(ids[k], recipes, selected, options, false, search, steps, item, None);
    assert(ids.contains(ids[k]));
}

/// Under an id stands the last value that has it, and no id without a value.
pub proof fn law_last_value_wins<T>(values: Seq<T>, ids: Seq<u32>, i: int, id: u32)
    requires
        ids.len() == values.len(),
    ensures
        0 <= i < values.len() && (forall|j: int| i < j < ids.len() ==> ids[j] != ids[i])
            ==> last_of_each_id(values, ids).contains_key(ids[i]) && last_of_each_id(
            values,
            ids,
        )[ids[i]] == values[i],
        last_of_each_id(values, ids).contains_key(id) <==> exists|j: int|
            0 <= j < ids.len() && #[trigger] ids[j] == id,
        last_of_each_id(values, ids).contains_key(id) ==> exists|j: int|
            0 <= j < ids.len() && #[trigger] ids[j] == id && last_of_each_id(values, ids)[id]
                == values[j],
    decreases values.len(),
{
    if values.len() > 0 {
        let n: int = values.len() - 1;
        let v = values.drop_last();
        let w = ids.drop_last();
        law_last_value_wins(v, w, i, id);
        assert(ids.last() == ids[n] && values.last() == values[n]);
        if 0 <= i < n && (forall|j: int| i < j < ids.len() ==> ids[j] != ids[i]) {
            assert(ids[n] != ids[i]);
            assert forall|j: int| i < j < w.len() implies w[j] != w[i] by {
                assert(w[j] == ids[j] && w[i] == ids[i]);
            }
        }
        if id != ids.last() {
            if last_of_each_id(values, ids).contains_key(id) {
                let j: int = choose|j: int|
                    0 <= j < w.len() && #[trigger] w[j] == id && last_of_each_id(v, w)[id] == v[j];
                assert(ids[j] == id);
            }
            if exists|j: int| 0 <= j < ids.len() && #[trigger] ids[j] == id {
                let j: int = choose|j: int| 0 <= j < ids.len() && #[trigger] ids[j] == id;
                assert(w[j] == id);
            }
        }
    }
}

/// Learning is asked for exactly the unknown recipes of what is crafted on the way.
pub proof fn law_unknown_recipes_are_named(
    ids: Seq<u32>,
    crafted: Map<u32, u32>,
    recipes: Map<u32, Recipe>,
    unknown: Set<u32>,
    recipe_id: u32,
)
    requires
        are_crafted_ids(ids, crafted),
    ensures
        unknown_recipes_of(ids, recipes, unknown).contains(recipe_id) <==> unknown.contains(
            recipe_id,
        ) && exists|id: u32| #[trigger]
            crafted.contains_key(id) && recipes.contains_key(id) && recipes[id].id == Some(
                recipe_id,
            ),
{
    lemma_unknown_recipes_are(ids, recipes, unknown, recipe_id);
    if exists|k: int|
        0 <= k < ids.len() && recipes.contains_key(#[trigger] ids[k]) && recipes[ids[k]].id == Some(
            recipe_id,
        ) {
        let k: int = choose|k: int|
            0 <= k < ids.len() && recipes.contains_key(#[trigger] ids[k]) && recipes[ids[k]].id
                == Some(recipe_id);
        assert(ids.contains(ids[k]));
        assert(crafted.contains_key(ids[k]));
    }
    if exists|id: u32| #[trigger]
        crafted.contains_key(id) && recipes.contains_key(id) && recipes[id].id == Some(recipe_id) {
        let id = choose|id: u32| #[trigger]
            crafted.contains_key(id) && recipes.contains_key(id) && recipes[id].id == Some(
                recipe_id,
            );
        assert(ids.contains(id));
        let k: int = ids.index_of(id);
        assert(ids[k] == id);
    }
}

proof fn lemma_unknown_recipes_are(
    ids: Seq<u32>,
    recipes: Map<u32, Recipe>,
    unknown: Set<u32>,
    recipe_id: u32,
)
    ensures
        unknown_recipes_of(ids, recipes, unknown).contains(recipe_id) <==> unknown.contains(
            recipe_id,
        ) && exists|k: int|
            0 <= k < ids.len() && recipes.contains_key(#[trigger] ids[k]) && recipes[ids[k]].id
                == Some(recipe_id),
    decreases ids.len(),
{
    if ids.len() > 0 {
        let rest = ids.drop_last();
        let n: int = ids.len() - 1;
        let earlier = unknown_recipes_of(rest, recipes, unknown);
        lemma_unknown_recipes_are(rest, recipes, unknown, recipe_id);
        if recipes.contains_key(ids[n]) && recipes[ids[n]].id is Some {
            lemma_contains_push(earlier, recipes[ids[n]].id->0, recipe_id);
        }
        if exists|k: int|
            0 <= k < ids.len() && recipes.contains_key(#[trigger] ids[k]) && recipes[ids[k]].id
                == Some(recipe_id) {
            let k: int = choose|k: int|
                0 <= k < ids.len() && recipes.contains_key(#[trigger] ids[k]) && recipes[ids[k]].id
                    == Some(recipe_id);
            if k < n {
                assert(rest[k] == ids[k]);
            }
        }
        if exists|k: int|
            0 <= k < rest.len() && recipes.contains_key(#[trigger] rest[k]) && recipes[rest[k]].id
                == Some(recipe_id) {
            let k: int = choose|k: int|
                0 <= k < rest.len() && recipes.contains_key(#[trigger] rest[k])
                    && recipes[rest[k]].id == Some(recipe_id);
            assert(ids[k] == rest[k]);
        }
        assert(ids[n] == ids.last());
    }
}

/// An item whose key is listed for learning unlocks one of the recipes, and every such
/// item is listed.
pub proof fn law_unlocking_items_unlock(
    keys: Seq<u32>,
    items: Map<u32, Item>,
    recipes: Set<u32>,
    key: u32,
    unlocked: Vec<u32>,
    k: int,
)
    requires
        are_unlocking_keys(keys, items, recipes),
        items.contains_key(key),
        items[key].unlocks == Some(unlocked),
    ensures
        0 <= k < unlocked@.len() && recipes.contains(unlocked@[k]) ==> keys.contains(key),
        keys.contains(key) ==> exists|j: int|
            0 <= j < unlocked@.len() && recipes.contains(#[trigger] unlocked@[j]),
{
    if 0 <= k < unlocked@.len() && recipes.contains(unlocked@[k]) {
        let r = unlocked@[k];
        assert(unlocks(items[key], r));
    }
    if keys.contains(key) {
        let r = choose|r: u32| #[trigger] unlocks(items[key], r) && recipes.contains(r);
        let j: int = unlocked@.index_of(r);
        assert(unlocked@[j] == r);
    }
}

/// The margin of a batch is the number that was set, less a multiple of two to the 32nd
/// that brings it among the signed numbers of 32 bits.
pub proof fn law_margin_is_a_signed_number(profit_threshold: i64) -> (wraps: int)
    ensures
        margin_of(profit_threshold) == (profit_threshold - wraps * 0x1_0000_0000) as real,
        -0x8000_0000 <= profit_threshold - wraps * 0x1_0000_0000 <= 0x7fff_ffff,
        i32::MIN <= profit_threshold <= i32::MAX ==> wraps == 0,
{
    let low: i32 = profit_threshold as i32;
    assert((profit_threshold - (profit_threshold as i32)) % 0x1_0000_0000 == 0) by (bit_vector);
    let wraps: int = (profit_threshold - low) / 0x1_0000_0000;
    wraps
}

/// Where nothing was made there is nothing to report. What was made is reported unless
/// it earns nothing, and with a margin below zero even then.
pub proof fn law_what_was_made_is_reported(totals: Totals, margin: real)
    ensures
        totals.count == 0 ==> !has_outcome(totals, margin),
        totals.count > 0 && margin < 0 as real ==> has_outcome(totals, margin),
        totals.count > 0 && totals.profit > 0 as real ==> has_outcome(totals, margin),
        totals.count > 0 && totals.profit < 0 as real ==> has_outcome(totals, margin),
        totals.profit == 0 as real && margin >= 0 as real ==> !has_outcome(totals, margin),
{
}

/// A craft makes as many units as its recipe says, and one where there is none.
pub proof fn law_crafts_make_a_batch(recipes: Map<u32, Recipe>, item_id: u32, recipe: Recipe)
    ensures
        batch_of(recipes.insert(item_id, recipe), item_id) == recipe.output_item_count,
        batch_of(recipes.remove(item_id), item_id) == 1,
{
}

} // verus!
