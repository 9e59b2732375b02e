//! The analysis from the databases and the market to the list of items that
//! are worth crafting.

use crate::api;
use crate::crafting::{CraftedItems, EstimatedCraftingCost, PreciseCraftingCost};
use crate::item::Item;
use crate::listings::ItemListings;
use crate::order::{contains_id, sorted_distinct};
use crate::profit::{
    find_profitable_items, is_candidate, is_part_of, is_profit_list, last_of_each_id,
    law_last_value_wins, margin_of,
    profitable_item_list, vec_to_map, ProfitableItem,
};
use crate::recipe::{
    has_ingredient, is_ingredient_path, is_transitive_ingredient, leads_to,
    lemma_ingredient_has_a_maker, Discipline, Recipe,
};
use crate::simulation::{CraftingOptions, RunError};
use std::collections::{BTreeMap, HashMap, HashSet};
use std::time::Instant;
use vstd::prelude::*;
use vstd::string::*;

verus! {

/// Everything the analysis needs: the databases of items and recipes, and the
/// recipes that the account has unlocked, where they are known.
pub struct Analysis {
    pub items_map: HashMap<u32, Item>,
    pub recipes_map: HashMap<u32, Recipe>,
    pub known_recipes: Option<HashSet<u32>>,
}

/// Recipes and items that are left out of the analysis.
#[derive(Clone, Debug)]
pub struct Blacklists {
    pub recipes: Option<Vec<u32>>,
    pub items: Option<Vec<u32>>,
}

/// What is said where the recipes of the account cannot be had.
pub fn account_warning(error: &str) -> (s: String)
    ensures
        s@ == "API error fetching recipe unlocks: "@ + error@,
{
    String::from_str("API error fetching recipe unlocks: ").concat(error)
}

/// What is said where the custom recipes cannot be had.
pub fn custom_warning(error: &str) -> (s: String)
    ensures
        s@ == "Failed to fetch custom recipes: "@ + error@,
{
    String::from_str("Failed to fetch custom recipes: ").concat(error)
}

/// The databases of a run, with the recipes that the account is known to have.
pub struct Databases<K, A, C, I> {
    pub known_recipes: Option<K>,
    pub official: Vec<A>,
    pub custom: Vec<C>,
    pub items: Vec<I>,
}

/// Puts together what was loaded. Without the official recipes or the items there
/// is no run. Without the custom recipes it goes on with none of them, and where
/// the recipes of the account were not asked for or cannot be had they are not
/// known.
pub fn loaded<K, A, C, I>(
    account: Option<Result<K, String>>,
    official: Result<Vec<A>, String>,
    custom: Result<Vec<C>, String>,
    items: Result<Vec<I>, String>,
) -> (res: Result<Databases<K, A, C, I>, String>)
    ensures
        match (official, items) {
            (Err(e), _) => res == Err::<Databases<K, A, C, I>, String>(e),
            (Ok(_), Err(e)) => res == Err::<Databases<K, A, C, I>, String>(e),
            (Ok(recipes), Ok(list)) => {
                &&& res matches Ok(d)
                &&& d.known_recipes == (match account {
                    Some(Ok(known)) => Some(known),
                    _ => None,
                })
                &&& d.official == recipes
                &&& d.items == list
                &&& match custom {
                    Ok(more) => d.custom == more,
                    Err(_) => d.custom@ == Seq::<C>::empty(),
                }
            },
        },
{
    let official = match official {
        Ok(recipes) => recipes,
        Err(e) => return Err(e),
    };
    let items = match items {
        Ok(items) => items,
        Err(e) => return Err(e),
    };
    let custom = match custom {
        Ok(recipes) => recipes,
        Err(_) => Vec::new(),
    };
    let known_recipes = match account {
        Some(Ok(known)) => Some(known),
        _ => None,
    };
    Ok(Databases { known_recipes, official, custom, items })
}

/// A recipe is left out: its id is on the list of recipes, or one of its
/// ingredients on the list of items.
pub open spec fn is_blacklisted(recipe: Recipe, lists: Blacklists) -> bool {
    ||| (match (lists.recipes, recipe.id) {
        (Some(ids), Some(id)) => ids@.contains(id),
        _ => false,
    })
    ||| (match lists.items {
        Some(ids) => exists|id: u32| #[trigger] has_ingredient(recipe, id) && ids@.contains(id),
        None => false,
    })
}

impl Blacklists {
    /// Whether the recipe is left out.
    pub fn leave_out(&self, recipe: &Recipe) -> (b: bool)
        ensures
            b == is_blacklisted(*recipe, *self),
    {
        if let (Some(ids), Some(id)) = (&self.recipes, recipe.id) {
            if contains_id(ids, id) {
                return true;
            }
        }
        if let Some(ids) = &self.items {
            let mut i: usize = 0;
            while i < recipe.ingredients.len()
                invariant
                    i <= recipe.ingredients.len(),
                    self.items == Some(*ids),
                    forall|j: int|
                        0 <= j < i ==> !ids@.contains((#[trigger] recipe.ingredients@[j]).item_id),
                decreases recipe.ingredients.len() - i,
            {
                if contains_id(ids, recipe.ingredients[i].item_id) {
                    assert(has_ingredient(*recipe, recipe.ingredients@[i as int].item_id));
                    return true;
                }
                i += 1;
            }
        }
        false
    }
}

/// The recipes that are not left out.
pub open spec fn allowed(recipes: Seq<Recipe>, lists: Blacklists) -> Seq<Recipe> {
    recipes.filter(|r: Recipe| !is_blacklisted(r, lists))
}

/// The recipes that belong to a discipline. One without cannot be crafted or
/// discovered: the database marks recipes like that that are no longer in use.
pub open spec fn craftable(recipes: Seq<Recipe>) -> Seq<Recipe> {
    recipes.filter(|r: Recipe| r.disciplines@.len() > 0)
}

/// The items that the recipes make.
pub open spec fn outputs(recipes: Seq<Recipe>) -> Seq<u32> {
    recipes.map_values(|r: Recipe| r.output_item_id)
}

fn allowed_recipes(recipes: Vec<Recipe>, lists: &Blacklists) -> (res: Vec<Recipe>)
    ensures
        res@ == allowed(recipes@, *lists),
{
    let ghost all = recipes@;
    let mut res: Vec<Recipe> = Vec::new();
    reveal(Seq::filter);
    assert(allowed(all.take(0), *lists) =~= Seq::empty());
    for recipe in it: recipes
        invariant
            it.seq() == all,
            all == recipes@,
            res@ == allowed(all.take(it.index() as int), *lists),
    {
        proof {
            reveal(Seq::filter);
            assert(all.take(it.index() + 1).drop_last() =~= all.take(it.index() as int));
            assert(all.take(it.index() + 1).last() == recipe);
        }
        if !lists.leave_out(&recipe) {
            res.push(recipe);
        }
    }
    assert(all.take(all.len() as int) =~= all);
    res
}

/// The recipes that belong to a discipline.
pub fn craftable_recipes(recipes: Vec<Recipe>) -> (res: Vec<Recipe>)
    ensures
        res@ == craftable(recipes@),
{
    let ghost all = recipes@;
    let mut res: Vec<Recipe> = Vec::new();
    reveal(Seq::filter);
    assert(craftable(all.take(0)) =~= Seq::empty());
    for recipe in it: recipes
        invariant
            it.seq() == all,
            all == recipes@,
            res@ == craftable(all.take(it.index() as int)),
    {
        proof {
            reveal(Seq::filter);
            assert(all.take(it.index() + 1).drop_last() =~= all.take(it.index() as int));
            assert(all.take(it.index() + 1).last() == recipe);
        }
        if recipe.disciplines.len() > 0 {
            res.push(recipe);
        }
    }
    assert(all.take(all.len() as int) =~= all);
    res
}

/// All recipes, in the order in which later ones replace earlier ones for the
/// same item: the community's, then the official ones, then the built-in ones.
/// The built-in ones are never left out.
pub open spec fn all_recipes(
    custom: Seq<Recipe>,
    official: Seq<Recipe>,
    builtin: Seq<Recipe>,
    lists: Blacklists,
) -> Seq<Recipe> {
    allowed(custom, lists) + allowed(craftable(official), lists) + builtin
}

/// Puts the recipes under the items that they make. An official recipe is
/// preferred over one of the community, and a built-in one over both.
pub fn merge_recipes(
    custom: Vec<Recipe>,
    official: Vec<Recipe>,
    builtin: Vec<Recipe>,
    lists: &Blacklists,
) -> (map: HashMap<u32, Recipe>)
    ensures
        map@ == last_of_each_id(
            all_recipes(custom@, official@, builtin@, *lists),
            outputs(all_recipes(custom@, official@, builtin@, *lists)),
        ),
        map@ == merged_recipes(custom@, official@, builtin@, *lists),
        forall|r: Recipe| #[trigger]
            builtin@.contains(r) ==> map@.contains_key(r.output_item_id) && builtin@.contains(
                map@[r.output_item_id],
            ),
        forall|r: Recipe| #[trigger]
            official@.contains(r) && r.disciplines@.len() > 0 && !is_blacklisted(r, *lists)
                ==> map@.contains_key(r.output_item_id) && (builtin@.contains(
                map@[r.output_item_id],
            ) || official@.contains(map@[r.output_item_id])),
        forall|r: Recipe| #[trigger]
            custom@.contains(r) && !is_blacklisted(r, *lists) ==> map@.contains_key(
                r.output_item_id,
            ),
{
    let ghost (given_custom, given_official, given_builtin) = (custom@, official@, builtin@);
    let ghost all = all_recipes(custom@, official@, builtin@, *lists);
    let mut recipes = allowed_recipes(custom, lists);
    let mut official = allowed_recipes(craftable_recipes(official), lists);
    let mut builtin = builtin;
    recipes.append(&mut official);
    recipes.append(&mut builtin);
    assert(recipes@ =~= all);
    let output_of = |r: &Recipe| -> (id: u32)
        ensures
            id == r.output_item_id,
        { r.output_item_id };
    let map = vec_to_map(recipes, output_of);
    proof {
        let ids = choose|ids: Seq<u32>| #[trigger]
            crate::profit::are_ids_of(output_of, all, ids) && map@ == last_of_each_id(all, ids);
        assert(ids =~= outputs(all));
        assert forall|r: Recipe| #[trigger] given_builtin.contains(r) implies map@.contains_key(
            r.output_item_id,
        ) && given_builtin.contains(map@[r.output_item_id]) by {
            law_official_recipes_are_preferred(
                given_custom,
                given_official,
                given_builtin,
                *lists,
                given_builtin.index_of(r),
            );
        }
        assert forall|r: Recipe| #[trigger]
            given_official.contains(r) && r.disciplines@.len() > 0 && !is_blacklisted(
                r,
                *lists,
            ) implies map@.contains_key(r.output_item_id) && (given_builtin.contains(
            map@[r.output_item_id],
        ) || given_official.contains(map@[r.output_item_id])) by {
            law_official_recipes_are_preferred(
                given_custom,
                given_official,
                given_builtin,
                *lists,
                given_official.index_of(r),
            );
        }
        assert forall|r: Recipe| #[trigger]
            given_custom.contains(r) && !is_blacklisted(r, *lists) implies map@.contains_key(
            r.output_item_id,
        ) by {
            law_official_recipes_are_preferred(
                given_custom,
                given_official,
                given_builtin,
                *lists,
                given_custom.index_of(r),
            );
        }
    }
    map
}

/// Takes the recipes for the items out of the map.
pub fn remove_recipes(recipes_map: &mut HashMap<u32, Recipe>, ids: &Vec<u32>)
    ensures
        final(recipes_map)@ == old(recipes_map)@.remove_keys(ids@.to_set()),
{
    let ghost start = recipes_map@;
    let mut i: usize = 0;
    assert(recipes_map@ =~= start.remove_keys(ids@.take(0).to_set()));
    while i < ids.len()
        invariant
            i <= ids.len(),
            recipes_map@ == start.remove_keys(ids@.take(i as int).to_set()),
        decreases ids.len() - i,
    {
        recipes_map.remove(&ids[i]);
        proof {
            assert(ids@.take(i + 1) =~= ids@.take(i as int).push(ids@[i as int]));
            let before = ids@.take(i as int);
            assert forall|x: u32| #[trigger] before.push(ids@[i as int]).contains(x)
                <==> before.contains(x) || x == ids@[i as int] by {
                crate::profit::lemma_contains_push(before, ids@[i as int], x);
            }
            assert(recipes_map@ =~= start.remove_keys(ids@.take(i + 1).to_set()));
        }
        i += 1;
    }
    assert(ids@.take(i as int) =~= ids@);
}

/// How many seconds a snapshot of the market is used. The trading post itself
/// reports data that is up to five minutes old.
pub const MARKET_SNAPSHOT_TTL_SECS: u64 = 300;

#[verifier::external_type_specification]
#[verifier::external_body]
pub struct ExInstant(std::time::Instant);

/// Everything that the analysis reads of the market, from one download.
pub struct MarketSnapshot {
    pub prices: HashMap<u32, api::Price>,
    pub listings: HashMap<u32, api::ItemListings>,
    /// Margin that the download was made for. A lower margin only ever adds
    /// items, so the snapshot serves every run with this margin or a higher one.
    pub threshold: i64,
    pub fetched_at: Instant,
}

/// Whole seconds since an instant, by [`std::time::Instant::elapsed`]. Nothing
/// is said of the result: it depends on the clock.
#[verifier::external_body]
fn seconds_since(instant: &Instant) -> (seconds: u64) {
    instant.elapsed().as_secs()
}

/// A snapshot made for the margin `fetched_for` serves a run with the margin
/// `threshold` when it is `age` seconds old.
pub open spec fn serves(fetched_for: i64, threshold: i64, age: u64) -> bool {
    fetched_for <= threshold && age < MARKET_SNAPSHOT_TTL_SECS
}

/// Whether a snapshot made for the margin `fetched_for` serves a run with the
/// margin `threshold` when it is `age` whole seconds old.
pub fn covers_at_age(fetched_for: i64, threshold: i64, age: u64) -> (b: bool)
    ensures
        b == serves(fetched_for, threshold, age),
{
    fetched_for <= threshold && age < MARKET_SNAPSHOT_TTL_SECS
}

impl MarketSnapshot {
    /// Whether the snapshot is fresh enough, and was made for a low enough
    /// margin, to serve a run.
    pub fn covers(&self, threshold: i64) -> (b: bool)
        ensures
            exists|age: u64| b == #[trigger] serves(self.threshold, threshold, age),
            b ==> self.threshold <= threshold,
    {
        let age: u64 = seconds_since(&self.fetched_at);
        let b = covers_at_age(self.threshold, threshold, age);
        assert(b == serves(self.threshold, threshold, age));
        b
    }
}

/// A snapshot that serves a run serves every run with a higher margin, and did
/// so at any earlier time.
pub proof fn law_cover_extends(fetched_for: i64, low: i64, high: i64, early: u64, late: u64)
    requires
        low <= high,
        early <= late,
        serves(fetched_for, low, late),
    ensures
        serves(fetched_for, high, early),
{
}

/// The items that promise a profit, each once.
pub open spec fn are_candidates(
    ids: Seq<u32>,
    analysis: Analysis,
    snapshot: MarketSnapshot,
    estimates: Map<u32, EstimatedCraftingCost>,
    filter: Option<Vec<Discipline>>,
    options: CraftingOptions,
) -> bool {
    &&& ids.no_duplicates()
    &&& forall|id: u32| #[trigger]
        ids.contains(id) <==> is_candidate(
            snapshot.prices@,
            analysis.recipes_map@,
            analysis.items_map@,
            estimates,
            filter,
            margin_of(options.profit_threshold),
            options.patient,
            id,
        )
}

/// Computes the list from a snapshot, without a download. There is none when
/// the snapshot lacks the order book of an item that promises a profit.
///
/// Order books of ingredients may be missing: what cannot be traded has none.
pub fn compute_profitable_items<Q, S>(
    analysis: &Analysis,
    snapshot: &MarketSnapshot,
    estimates: &HashMap<u32, EstimatedCraftingCost>,
    filter_disciplines: &Option<Vec<Discipline>>,
    options: CraftingOptions,
    search: &Q,
    steps: &S,
) -> (res: Result<Option<Vec<ProfitableItem>>, RunError>) where
    Q: Fn(
        u32,
        &BTreeMap<u32, ItemListings>,
        &CraftedItems,
    ) -> Option<PreciseCraftingCost> + Sync,
    S: Fn(&CraftedItems) -> u32 + Sync,

    requires
        forall|id: u32, books: &BTreeMap<u32, ItemListings>, crafted: &CraftedItems|
            call_requires(*search, (id, books, crafted)),
        forall|crafted: &CraftedItems| call_requires(*steps, (crafted,)),
    ensures
        exists|ids: Seq<u32>| #[trigger]
            are_candidates(
                ids,
                *analysis,
                *snapshot,
                estimates@,
                *filter_disciplines,
                options,
            ) && match res {
                Ok(None) => exists|i: int|
                    0 <= i < ids.len() && !snapshot.listings@.contains_key(#[trigger] ids[i]),
                Ok(Some(list)) => (forall|i: int|
                    0 <= i < ids.len() ==> snapshot.listings@.contains_key(#[trigger] ids[i]))
                    && is_profit_list(
                    ids,
                    analysis.recipes_map@,
                    snapshot.listings@,
                    options,
                    *search,
                    *steps,
                    Ok(list),
                ),
                Err(e) => (forall|i: int|
                    0 <= i < ids.len() ==> snapshot.listings@.contains_key(#[trigger] ids[i]))
                    && is_profit_list(
                    ids,
                    analysis.recipes_map@,
                    snapshot.listings@,
                    options,
                    *search,
                    *steps,
                    Err(e),
                ),
            },
{
    let (ids, _) = find_profitable_items(
        &snapshot.prices,
        &analysis.recipes_map,
        &analysis.items_map,
        estimates,
        filter_disciplines,
        options.profit_threshold,
        options.patient,
    );
    assert(are_candidates(
        ids@,
        *analysis,
        *snapshot,
        estimates@,
        *filter_disciplines,
        options,
    ));
    let mut i: usize = 0;
    while i < ids.len()
        invariant
            i <= ids.len(),
            are_candidates(
                ids@,
                *analysis,
                *snapshot,
                estimates@,
                *filter_disciplines,
                options,
            ),
            forall|j: int| 0 <= j < i ==> snapshot.listings@.contains_key(#[trigger] ids@[j]),
        decreases ids.len() - i,
    {
        if !snapshot.listings.contains_key(&ids[i]) {
            assert(!snapshot.listings@.contains_key(ids@[i as int]));
            return Ok(None);
        }
        i += 1;
    }
    match profitable_item_list(
        &snapshot.listings,
        &ids,
        &analysis.recipes_map,
        options,
        search,
        steps,
    ) {
        Ok(list) => Ok(Some(list)),
        Err(e) => Err(e),
    }
}

/// Above this many ids all prices are asked for, which takes fewer requests
/// than asking for the ids in batches.
pub const TARGETED_PRICES_MAX_IDS: usize = 20_000;

/// Item `id` can matter to an estimate: a recipe makes it, or leads to it.
pub open spec fn is_relevant(recipes: Map<u32, Recipe>, id: u32) -> bool {
    exists|item_id: u32| #[trigger]
        recipes.contains_key(item_id) && is_part_of(recipes, item_id, id)
}

/// All items that can matter to an estimate, each once, in ascending order.
pub open spec fn are_relevant_ids(ids: Seq<u32>, recipes: Map<u32, Recipe>) -> bool {
    &&& forall|i: int, j: int|
        0 <= i < j < ids.len() ==> (#[trigger] ids[i]) < (#[trigger] ids[j])
    &&& forall|id: u32| #[trigger] ids.contains(id) <==> is_relevant(recipes, id)
}

/// All items whose price an estimate can need: what the recipes make, and all
/// transitive ingredients.
pub fn relevant_price_ids(recipes_map: &HashMap<u32, Recipe>) -> (ids: Vec<u32>)
    ensures
        are_relevant_ids(ids@, recipes_map@),
{
    let ghost recipes = recipes_map@;
    let mut ids: Vec<u32> = Vec::new();
    for entry in it: recipes_map.iter()
        invariant
            recipes == recipes_map@,
            forall|i: int|
                0 <= i < it.seq().len() ==> recipes.contains_key(*(#[trigger] it.seq()[i]).0)
                    && recipes[*it.seq()[i].0] == *it.seq()[i].1,
            forall|id: u32| #[trigger] ids@.contains(id) ==> is_relevant(recipes, id),
            forall|i: int, id: u32|
                0 <= i < it.index() && #[trigger] is_part_of(recipes, *it.seq()[i].0, id)
                    ==> ids@.contains(id),
    {
        let output: u32 = *entry.0;
        let ghost earlier = ids@;
        ids.push(output);
        let ghost pushed = ids@;
        entry.1.collect_ingredient_ids(recipes_map, &mut ids);
        proof {
            let added = ids@.skip(pushed.len() as int);
            assert(ids@ =~= pushed + added);
            assert forall|id: u32| #[trigger] ids@.contains(id) <==> earlier.contains(id)
                || is_part_of(recipes, output, id) by {
                crate::profit::lemma_contains_append(pushed, added, id);
                crate::profit::lemma_contains_push(earlier, output, id);
            }
        }
    }
    proof {
        assert forall|id: u32| is_relevant(recipes, id) implies #[trigger] ids@.contains(id) by {
            let item_id = choose|item_id: u32| #[trigger]
                recipes.contains_key(item_id) && is_part_of(recipes, item_id, id);
            assert(recipes.contains_key(item_id));
        }
    }
    sorted_distinct(ids)
}

/// Which prices to ask for.
#[derive(Clone, Debug)]
pub enum PriceRequest {
    /// Those of the ids.
    Ids(Vec<u32>),
    /// All of them.
    Everything,
}

/// Decides which prices to ask for: those that an estimate can need, unless
/// they are too many.
pub fn price_request(recipes_map: &HashMap<u32, Recipe>) -> (request: PriceRequest)
    ensures
        match request {
            PriceRequest::Ids(ids) => are_relevant_ids(ids@, recipes_map@) && ids@.len()
                <= TARGETED_PRICES_MAX_IDS,
            PriceRequest::Everything => exists|ids: Seq<u32>| #[trigger]
                are_relevant_ids(ids, recipes_map@) && ids.len() > TARGETED_PRICES_MAX_IDS,
        },
{
    let ids = relevant_price_ids(recipes_map);
    assert(are_relevant_ids(ids@, recipes_map@));
    if ids.len() <= TARGETED_PRICES_MAX_IDS {
        PriceRequest::Ids(ids)
    } else {
        PriceRequest::Everything
    }
}

/// Only the prices of relevant items decide which items promise a profit. So
/// asking for those alone loses nothing.
pub proof fn law_other_prices_do_not_matter(
    prices: Map<u32, api::Price>,
    all: Map<u32, api::Price>,
    recipes: Map<u32, Recipe>,
    items: Map<u32, Item>,
    estimates: Map<u32, EstimatedCraftingCost>,
    filter: Option<Vec<Discipline>>,
    margin: real,
    patient: bool,
    id: u32,
)
    requires
        forall|x: u32| #[trigger]
            is_relevant(recipes, x) ==> (prices.contains_key(x) <==> all.contains_key(x)) && (
            all.contains_key(x) ==> prices[x] == all[x]),
    ensures
        is_candidate(prices, recipes, items, estimates, filter, margin, patient, id)
            == is_candidate(all, recipes, items, estimates, filter, margin, patient, id),
{
    if recipes.contains_key(id) {
        assert(is_part_of(recipes, id, id));
        assert(is_relevant(recipes, id));
    }
}

/// No recipe that comes from the community or from the official database is kept if
/// its id is on the list of recipes, or if any of its ingredients is on the list of
/// items, wherever it stands. What no list speaks of is kept.
pub proof fn law_blacklists_are_kept(recipe: Recipe, lists: Blacklists, i: int, k: int)
    ensures
        lists.items matches Some(ids) && 0 <= i < recipe.ingredients@.len() && 0 <= k < ids@.len()
            && ids@[k] == recipe.ingredients@[i].item_id ==> is_blacklisted(recipe, lists),
        lists.recipes matches Some(ids) && 0 <= k < ids@.len() && recipe.id == Some(ids@[k])
            ==> is_blacklisted(recipe, lists),
        is_blacklisted(recipe, lists) ==> (lists.recipes matches Some(ids) && (recipe.id
            matches Some(id) && ids@.contains(id))) || (lists.items matches Some(ids) && exists|
            j: int,
        |
            0 <= j < recipe.ingredients@.len() && ids@.contains(
                (#[trigger] recipe.ingredients@[j]).item_id,
            )),
{
    if let Some(ids) = lists.items {
        if 0 <= i < recipe.ingredients@.len() && 0 <= k < ids@.len() && ids@[k]
            == recipe.ingredients@[i].item_id {
            assert(has_ingredient(recipe, ids@[k]));
            assert(ids@.contains(ids@[k]));
        }
        if exists|id: u32| #[trigger] has_ingredient(recipe, id) && ids@.contains(id) {
            let id = choose|id: u32| #[trigger] has_ingredient(recipe, id) && ids@.contains(id);
            let j: int = choose|j: int|
                0 <= j < recipe.ingredients@.len() && (#[trigger] recipe.ingredients@[j]).item_id
                    == id;
            assert(ids@.contains(recipe.ingredients@[j].item_id));
        }
    }
}

/// The merged recipes.
pub open spec fn merged_recipes(
    custom: Seq<Recipe>,
    official: Seq<Recipe>,
    builtin: Seq<Recipe>,
    lists: Blacklists,
) -> Map<u32, Recipe> {
    last_of_each_id(
        all_recipes(custom, official, builtin, lists),
        outputs(all_recipes(custom, official, builtin, lists)),
    )
}

proof fn lemma_filtered_holds(recipes: Seq<Recipe>, keep: spec_fn(Recipe) -> bool, r: Recipe)
    ensures
        recipes.filter(keep).contains(r) <==> recipes.contains(r) && keep(r),
    decreases recipes.len(),
{
    if recipes.contains(r) && keep(r) {
        recipes.lemma_filter_contains(keep, recipes.index_of(r));
    }
    if recipes.filter(keep).contains(r) {
        let i: int = recipes.filter(keep).index_of(r);
        recipes.lemma_filter_pred(keep, i);
        recipes.lemma_filter_contains_rev(keep, r);
    }
}

/// No recipe of the community or of the official database in the merged map uses an
/// item on the list of items, or stands on the list of recipes. A recipe stands under
/// the item that it makes. One out of the official database belongs to a discipline.
/// Each recipe in the map was given.
pub proof fn law_merged_recipes_are_allowed(
    custom: Seq<Recipe>,
    official: Seq<Recipe>,
    builtin: Seq<Recipe>,
    lists: Blacklists,
    id: u32,
)
    requires
        merged_recipes(custom, official, builtin, lists).contains_key(id),
    ensures
        ({
            let r = merged_recipes(custom, official, builtin, lists)[id];
            &&& r.output_item_id == id
            &&& builtin.contains(r) || custom.contains(r) || official.contains(r)
                && r.disciplines@.len() > 0
            &&& !builtin.contains(r) ==> {
                &&& lists.items matches Some(ids) ==> forall|i: int|
                    0 <= i < r.ingredients@.len() ==> !ids@.contains(
                        (#[trigger] r.ingredients@[i]).item_id,
                    )
                &&& lists.recipes matches Some(ids) ==> (r.id matches Some(x) ==> !ids@.contains(x))
            }
        }),
{
    let all = all_recipes(custom, official, builtin, lists);
    let ids = outputs(all);
    law_last_value_wins(all, ids, 0, id);
    let r = merged_recipes(custom, official, builtin, lists)[id];
    let j: int = choose|j: int|
        0 <= j < ids.len() && #[trigger] ids[j] == id && last_of_each_id(all, ids)[id] == all[j];
    let keep = |x: Recipe| !is_blacklisted(x, lists);
    let named = |x: Recipe| x.disciplines@.len() > 0;
    let a = allowed(custom, lists);
    let b = allowed(craftable(official), lists);
    lemma_filtered_holds(custom, keep, r);
    lemma_filtered_holds(craftable(official), keep, r);
    lemma_filtered_holds(official, named, r);
    if j < a.len() {
        assert(a[j] == r);
        assert(a.contains(r));
    } else if j < a.len() + b.len() {
        assert(b[j - a.len()] == r);
        assert(b.contains(r));
    } else {
        assert(builtin[j - a.len() - b.len()] == r);
    }
    if !builtin.contains(r) {
        if let Some(list) = lists.items {
            assert forall|i: int| 0 <= i < r.ingredients@.len() implies !list@.contains(
                (#[trigger] r.ingredients@[i]).item_id,
            ) by {
                let x = r.ingredients@[i].item_id;
                if list@.contains(x) {
                    law_blacklists_are_kept(r, lists, i, list@.index_of(x));
                }
            }
        }
        if let (Some(list), Some(x)) = (lists.recipes, r.id) {
            if list@.contains(x) {
                law_blacklists_are_kept(r, lists, 0, list@.index_of(x));
            }
        }
    }
}

/// Of recipes for the same item a built-in one comes first, then one of the official
/// database, then one of the community; of built-in ones the last. None is lost that no
/// list speaks of, and the only one for an item is the one that is kept.
pub proof fn law_official_recipes_are_preferred(
    custom: Seq<Recipe>,
    official: Seq<Recipe>,
    builtin: Seq<Recipe>,
    lists: Blacklists,
    i: int,
)
    ensures
        ({
            let map = merged_recipes(custom, official, builtin, lists);
            &&& 0 <= i < builtin.len() ==> map.contains_key(builtin[i].output_item_id)
                && builtin.contains(map[builtin[i].output_item_id])
            &&& 0 <= i < builtin.len() && (forall|j: int|
                i < j < builtin.len() ==> (#[trigger] builtin[j]).output_item_id
                    != builtin[i].output_item_id) ==> map[builtin[i].output_item_id] == builtin[i]
            &&& 0 <= i < official.len() && official[i].disciplines@.len() > 0 && !is_blacklisted(
                official[i],
                lists,
            ) ==> {
                let id = official[i].output_item_id;
                map.contains_key(id) && (builtin.contains(map[id]) || official.contains(map[id]))
            }
            &&& 0 <= i < official.len() && official[i].disciplines@.len() > 0 && !is_blacklisted(
                official[i],
                lists,
            ) && (forall|j: int|
                0 <= j < builtin.len() ==> (#[trigger] builtin[j]).output_item_id
                    != official[i].output_item_id) && (forall|j: int|
                0 <= j < official.len() && j != i ==> (#[trigger] official[j]).output_item_id
                    != official[i].output_item_id) ==> map[official[i].output_item_id]
                == official[i]
            &&& 0 <= i < custom.len() && !is_blacklisted(custom[i], lists) ==> map.contains_key(
                custom[i].output_item_id,
            )
        }),
{
    let all = all_recipes(custom, official, builtin, lists);
    let ids = outputs(all);
    let a = allowed(custom, lists);
    let b = allowed(craftable(official), lists);
    let n: int = (a.len() + b.len()) as int;
    let keep = |x: Recipe| !is_blacklisted(x, lists);
    let named = |x: Recipe| x.disciplines@.len() > 0;
    if 0 <= i < builtin.len() {
        assert(all[n + i] == builtin[i]);
        let id = builtin[i].output_item_id;
        assert(ids[n + i] == id);
        let k = lemma_last_position(ids, n + i);
        law_last_value_wins(all, ids, k, id);
        assert(all[k] == builtin[k - n]);
        if forall|j: int|
            i < j < builtin.len() ==> (#[trigger] builtin[j]).output_item_id
                != builtin[i].output_item_id {
            if k > n + i {
                assert(builtin[k - n].output_item_id == ids[k]);
            }
        }
    }
    if 0 <= i < official.len() && official[i].disciplines@.len() > 0 && !is_blacklisted(
        official[i],
        lists,
    ) {
        let r = official[i];
        assert(official.contains(r));
        lemma_filtered_holds(official, named, r);
        lemma_filtered_holds(craftable(official), keep, r);
        let p: int = a.len() + b.index_of(r);
        assert(all[p] == r);
        assert(ids[p] == r.output_item_id);
        let k = lemma_last_position(ids, p);
        law_last_value_wins(all, ids, k, r.output_item_id);
        if k < n {
            let s = b[k - a.len()];
            assert(all[k] == s);
            assert(b.contains(s));
            lemma_filtered_holds(craftable(official), keep, s);
            lemma_filtered_holds(official, named, s);
            assert(official[official.index_of(s)] == s);
            assert(s.output_item_id == ids[k]);
        } else {
            assert(all[k] == builtin[k - n]);
            assert(builtin[k - n].output_item_id == ids[k]);
        }
    }
    if 0 <= i < custom.len() && !is_blacklisted(custom[i], lists) {
        let r = custom[i];
        assert(custom.contains(r));
        lemma_filtered_holds(custom, keep, r);
        let p: int = a.index_of(r);
        assert(all[p] == r);
        assert(ids[p] == r.output_item_id);
        law_last_value_wins(all, ids, p, r.output_item_id);
    }
}

proof fn lemma_last_position(ids: Seq<u32>, i: int) -> (k: int)
    requires
        0 <= i < ids.len(),
    ensures
        i <= k < ids.len(),
        ids[k] == ids[i],
        forall|j: int| k < j < ids.len() ==> ids[j] != ids[k],
    decreases ids.len() - i,
{
    if exists|j: int| i < j < ids.len() && ids[j] == ids[i] {
        let j: int = choose|j: int| i < j < ids.len() && ids[j] == ids[i];
        lemma_last_position(ids, j)
    } else {
        i
    }
}

/// A snapshot serves for five minutes, to the second, and for no lower margin than it
/// was made for.
pub proof fn law_snapshot_lasts_five_minutes(fetched_for: i64, threshold: i64, age: u64)
    ensures
        serves(fetched_for, threshold, age) <==> age < 5 * 60 && threshold >= fetched_for,
{
}

/// Prices are asked for of every item that a recipe makes, of its ingredients, and
/// with each ingredient of those of its recipe.
pub proof fn law_prices_are_asked_for(
    ids: Seq<u32>,
    recipes: Map<u32, Recipe>,
    maker: u32,
    k: int,
    i: int,
)
    requires
        are_relevant_ids(ids, recipes),
    ensures
        recipes.contains_key(maker) ==> ids.contains(maker),
        recipes.contains_key(maker) && 0 <= k < recipes[maker].ingredients@.len() ==> ids.contains(
            recipes[maker].ingredients@[k].item_id,
        ),
        0 <= i < ids.len() ==> recipes.contains_key(ids[i]) || exists|m: u32, l: int|
            recipes.contains_key(m) && 0 <= l < recipes[m].ingredients@.len() && (
            #[trigger] recipes[m].ingredients@[l]).item_id == ids[i],
{
    if recipes.contains_key(maker) {
        assert(is_part_of(recipes, maker, maker));
        assert(is_relevant(recipes, maker));
        if 0 <= k < recipes[maker].ingredients@.len() {
            let x = recipes[maker].ingredients@[k].item_id;
            assert(has_ingredient(recipes[maker], x));
            assert(is_ingredient_path(recipes, recipes[maker], seq![x]));
            assert(seq![x].last() == x);
            assert(is_transitive_ingredient(recipes, recipes[maker], x));
            assert(is_part_of(recipes, maker, x));
            assert(is_relevant(recipes, x));
        }
    }
    if 0 <= i < ids.len() && !recipes.contains_key(ids[i]) {
        let x = ids[i];
        assert(ids.contains(x));
        let m = choose|m: u32| #[trigger] recipes.contains_key(m) && is_part_of(recipes, m, x);
        lemma_ingredient_has_a_maker(recipes, recipes[m], x);
        if has_ingredient(recipes[m], x) {
            let l: int = choose|l: int|
                0 <= l < recipes[m].ingredients@.len() && (
                #[trigger] recipes[m].ingredients@[l]).item_id == x;
            assert(recipes[m].ingredients@[l].item_id == x);
        } else {
            let o = choose|o: u32| #[trigger]
                is_transitive_ingredient(recipes, recipes[m], o) && leads_to(recipes, o, x);
            let l: int = choose|l: int|
                0 <= l < recipes[o].ingredients@.len() && (
                #[trigger] recipes[o].ingredients@[l]).item_id == x;
            assert(recipes[o].ingredients@[l].item_id == x);
        }
    }
}

} // verus!
