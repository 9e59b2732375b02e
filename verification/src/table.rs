//! Which items the table shows, and in which order.

use crate::columns::SortColumn;
use crate::item::Item;
use crate::money::{law_whole_copper_rounds_towards_zero, whole};
use crate::order::{
    arranged, is_stable_order, is_stable_sort, is_weak_order, precedes, stable_sort,
};
use crate::profit::{batch_of, ProfitableItem};
use crate::recipe::{Discipline, Recipe};
use crate::text::{is_text_before, lemma_text_order, lowercased, text_before, to_lower};
use std::collections::{HashMap, HashSet};
use vstd::prelude::*;
use vstd::string::*;

verus! {

/// Name of an item as it is shown.
pub open spec fn shown_name(items: Map<u32, Item>, id: u32) -> Seq<char> {
    if items.contains_key(id) {
        items[id].display_name@
    } else {
        "???"@
    }
}

/// Name of an item as it is shown.
pub fn item_name(items_map: &HashMap<u32, Item>, id: u32) -> (name: String)
    ensures
        name@ == shown_name(items_map@, id),
{
    match items_map.get(&id) {
        Some(item) => item.display_name.clone(),
        None => String::from_str("???"),
    }
}

/// What a minimum profit is compared with.
#[derive(Clone, Copy, Debug, PartialEq, Eq, Structural)]
pub enum ProfitMeasure {
    /// The profit of all units.
    Total,
    /// The profit of one unit.
    PerItem,
    /// The profit of one craft, which makes a full batch.
    PerCraft,
}

/// Which items are shown.
#[derive(Clone, Debug)]
pub struct ItemFilter {
    pub favorites_only: bool,
    /// Where there is none, all disciplines are shown.
    pub disciplines: Vec<Discipline>,
    /// Whole copper that an item has to earn.
    pub min_profit: Option<i32>,
    pub measure: ProfitMeasure,
    /// Whether the profit on the cost has to be high enough.
    pub by_percentage: bool,
    /// Whether an item has to sell fast enough.
    pub by_velocity: bool,
}

/// What is known of an item beside what crafting it comes to.
#[derive(Clone, Debug)]
pub struct RowFacts {
    /// Name as it is shown.
    pub name: String,
    /// Disciplines as they are shown.
    pub disciplines: String,
    /// Whether the profit on the cost is high enough.
    pub percentage_enough: bool,
    /// Whether the item sells fast enough, where it is known how fast it sells.
    pub velocity_enough: Option<bool>,
    /// Rank of the item by the velocity that the table is sorted by, where it is
    /// known.
    pub velocity_rank: Option<i64>,
}

/// Whole copper of the profit by a measure.
pub open spec fn measured_profit(item: ProfitableItem, measure: ProfitMeasure, batch: u32) -> int {
    let profit = item.profit@;
    match measure {
        ProfitMeasure::Total => whole(profit),
        ProfitMeasure::PerItem => whole(profit * (1u32 as real) / (item.count as real)),
        ProfitMeasure::PerCraft => whole(profit * (batch as real) / (item.count as real)),
    }
}

/// The item belongs to one of the disciplines, or there are none.
pub open spec fn in_disciplines(
    id: u32,
    recipes: Map<u32, Recipe>,
    disciplines: Seq<Discipline>,
) -> bool {
    ||| disciplines.len() == 0
    ||| recipes.contains_key(id) && exists|d: Discipline| #[trigger]
        disciplines.contains(d) && recipes[id].disciplines@.contains(d)
}

/// The item is shown. One that is not known to sell fast enough never is, where
/// it has to.
pub open spec fn is_shown(
    item: ProfitableItem,
    facts: RowFacts,
    recipes: Map<u32, Recipe>,
    favorites: Set<u32>,
    filter: ItemFilter,
) -> bool {
    &&& item.count > 0
    &&& filter.favorites_only ==> favorites.contains(item.id)
    &&& in_disciplines(item.id, recipes, filter.disciplines@)
    &&& filter.min_profit matches Some(min) ==> measured_profit(
        item,
        filter.measure,
        batch_of(recipes, item.id),
    ) >= min
    &&& filter.by_percentage ==> facts.percentage_enough
    &&& filter.by_velocity ==> facts.velocity_enough == Some(true)
}

/// Whole copper of the profit by a measure.
fn profit_by(item: &ProfitableItem, measure: ProfitMeasure, batch: u32) -> (copper: i128)
    requires
        item.count > 0,
    ensures
        copper == measured_profit(*item, measure, batch),
{
    match measure {
        ProfitMeasure::Total => item.profit.to_copper_value() as i128,
        ProfitMeasure::PerItem => item.profit.copper_share(1, item.count),
        ProfitMeasure::PerCraft => item.profit.copper_share(batch, item.count),
    }
}

/// Whether the item is shown.
pub fn passes_filters(
    item: &ProfitableItem,
    facts: &RowFacts,
    recipes_map: &HashMap<u32, Recipe>,
    favorites: &HashSet<u32>,
    filter: &ItemFilter,
) -> (b: bool)
    ensures
        b == is_shown(*item, *facts, recipes_map@, favorites@, *filter),
{
    if item.count == 0 {
        return false;
    }
    if filter.by_percentage && !facts.percentage_enough {
        return false;
    }
    if filter.by_velocity {
        match facts.velocity_enough {
            Some(true) => {},
            _ => {
                return false;
            },
        }
    }
    if filter.favorites_only && !favorites.contains(&item.id) {
        return false;
    }
    if filter.disciplines.len() > 0 {
        match recipes_map.get(&item.id) {
            Some(recipe) => {
                if !recipe.has_any_discipline(&filter.disciplines) {
                    return false;
                }
            },
            None => {
                return false;
            },
        }
    }
    if let Some(min) = filter.min_profit {
        let batch: u32 = match recipes_map.get(&item.id) {
            Some(recipe) => recipe.output_item_count,
            None => 1,
        };
        if profit_by(item, filter.measure, batch) < (min as i128) {
            return false;
        }
    }
    true
}

/// A row of the table, with what it is sorted by.
#[derive(Clone, Debug)]
pub struct ListRow {
    /// Where the item stands in the list of all items.
    pub position: usize,
    pub favorite: bool,
    pub number: i128,
    pub text: String,
}

/// Number that a column sorts an item by. A velocity that is not known is lower
/// than any that is.
pub open spec fn sort_number(item: ProfitableItem, facts: RowFacts, column: SortColumn) -> int {
    match column {
        SortColumn::Name => 0,
        SortColumn::Disciplines => 0,
        SortColumn::ItemId => item.id as int,
        SortColumn::TotalProfit => whole(item.profit@),
        SortColumn::ProfitPerItem => whole(
            item.profit@ * (1u32 as real) / (item.count as real),
        ),
        SortColumn::ProfitPerStep => if item.crafting_steps == 0 {
            0
        } else {
            whole(item.profit@ * (1u32 as real) / (item.crafting_steps as real))
        },
        _ => match facts.velocity_rank {
            Some(rank) => rank as int,
            None => i64::MIN - 1,
        },
    }
}

/// Text that a column sorts an item by.
pub open spec fn sort_text(facts: RowFacts, column: SortColumn) -> Seq<char> {
    match column {
        SortColumn::Name => lowercased(facts.name@),
        SortColumn::Disciplines => facts.disciplines@,
        _ => ""@,
    }
}

/// The row of an item.
pub open spec fn is_row_of(
    row: ListRow,
    position: int,
    item: ProfitableItem,
    facts: RowFacts,
    favorites: Set<u32>,
    column: SortColumn,
) -> bool {
    &&& row.position == position
    &&& row.favorite == favorites.contains(item.id)
    &&& row.number == sort_number(item, facts, column)
    &&& row.text@ == sort_text(facts, column)
}

/// Order of rows by what they are sorted by.
pub open spec fn row_value_before(a: ListRow, b: ListRow) -> bool {
    a.number < b.number || a.number == b.number && text_before(a.text@, b.text@)
}

/// Order of rows: favourites stay on top, whichever way the rest is sorted.
pub open spec fn row_order(desc: bool) -> spec_fn(ListRow, ListRow) -> bool {
    |a: ListRow, b: ListRow|
        if a.favorite != b.favorite {
            a.favorite
        } else if desc {
            row_value_before(b, a)
        } else {
            row_value_before(a, b)
        }
}

proof fn lemma_row_value_order(a: ListRow, b: ListRow, c: ListRow)
    ensures
        !row_value_before(a, a),
        row_value_before(a, b) && row_value_before(b, c) ==> row_value_before(a, c),
        row_value_before(a, c) ==> row_value_before(a, b) || row_value_before(b, c),
{
    lemma_text_order(a.text@, b.text@, c.text@);
}

/// The order of rows leaves nothing but ties open.
pub proof fn law_row_order_is_an_order(desc: bool)
    ensures
        is_weak_order(row_order(desc)),
{
    let less = row_order(desc);
    assert forall|a: ListRow| !#[trigger] less(a, a) by {
        lemma_row_value_order(a, a, a);
    }
    assert forall|a: ListRow, b: ListRow, c: ListRow| #[trigger]
        less(a, b) && #[trigger] less(b, c) implies less(a, c) by {
        lemma_row_value_order(a, b, c);
        lemma_row_value_order(c, b, a);
    }
    assert forall|a: ListRow, b: ListRow, c: ListRow| #[trigger] less(a, c) implies #[trigger] less(
        a,
        b,
    ) || less(b, c) by {
        lemma_row_value_order(a, b, c);
        lemma_row_value_order(c, b, a);
    }
}

/// The items that are shown, in the order of the list.
pub open spec fn shown_positions(
    items: Seq<ProfitableItem>,
    facts: Seq<RowFacts>,
    recipes: Map<u32, Recipe>,
    favorites: Set<u32>,
    filter: ItemFilter,
) -> Seq<int>
    decreases items.len(),
{
    if items.len() == 0 {
        Seq::empty()
    } else {
        let earlier = shown_positions(items.drop_last(), facts, recipes, favorites, filter);
        if is_shown(items.last(), facts[items.len() - 1], recipes, favorites, filter) {
            earlier.push(items.len() - 1)
        } else {
            earlier
        }
    }
}

/// The rows of the items that are shown.
pub open spec fn are_rows(
    rows: Seq<ListRow>,
    items: Seq<ProfitableItem>,
    facts: Seq<RowFacts>,
    recipes: Map<u32, Recipe>,
    favorites: Set<u32>,
    filter: ItemFilter,
    column: SortColumn,
) -> bool {
    let shown = shown_positions(items, facts, recipes, favorites, filter);
    &&& rows.len() == shown.len()
    &&& forall|i: int|
        0 <= i < rows.len() ==> is_row_of(
            #[trigger] rows[i],
            shown[i],
            items[shown[i]],
            facts[shown[i]],
            favorites,
            column,
        )
}

/// Where the items of the rows stand in the list of all items.
pub open spec fn row_positions(rows: Seq<ListRow>) -> Seq<usize> {
    rows.map_values(|r: ListRow| r.position)
}

fn row_of(
    position: usize,
    item: &ProfitableItem,
    facts: &RowFacts,
    favorites: &HashSet<u32>,
    column: SortColumn,
) -> (row: ListRow)
    requires
        item.count > 0,
    ensures
        is_row_of(row, position as int, *item, *facts, favorites@, column),
{
    let number: i128 = match column {
        SortColumn::Name => 0,
        SortColumn::Disciplines => 0,
        SortColumn::ItemId => item.id as i128,
        SortColumn::TotalProfit => item.profit.to_copper_value() as i128,
        SortColumn::ProfitPerItem => item.profit.copper_share(1, item.count),
        SortColumn::ProfitPerStep => if item.crafting_steps == 0 {
            0
        } else {
            item.profit.copper_share(1, item.crafting_steps)
        },
        _ => match facts.velocity_rank {
            Some(rank) => rank as i128,
            None => (i64::MIN as i128) - 1,
        },
    };
    let text = match column {
        SortColumn::Name => to_lower(facts.name.as_str()),
        SortColumn::Disciplines => facts.disciplines.clone(),
        _ => String::from_str(""),
    };
    ListRow { position, favorite: favorites.contains(&item.id), number, text }
}

fn rows_of(
    items: &Vec<ProfitableItem>,
    facts: &Vec<RowFacts>,
    recipes_map: &HashMap<u32, Recipe>,
    favorites: &HashSet<u32>,
    filter: &ItemFilter,
    column: SortColumn,
) -> (rows: Vec<ListRow>)
    requires
        facts@.len() == items@.len(),
    ensures
        are_rows(rows@, items@, facts@, recipes_map@, favorites@, *filter, column),
{
    let mut rows: Vec<ListRow> = Vec::new();
    let mut i: usize = 0;
    assert(items@.take(0) =~= Seq::empty());
    while i < items.len()
        invariant
            i <= items.len(),
            facts@.len() == items@.len(),
            are_rows(
                rows@,
                items@.take(i as int),
                facts@,
                recipes_map@,
                favorites@,
                *filter,
                column,
            ),
        decreases items.len() - i,
    {
        let ghost before = rows@;
        let ghost earlier = items@.take(i as int);
        let ghost now = items@.take(i + 1);
        proof {
            assert(now.drop_last() =~= earlier);
            assert(now.last() == items@[i as int]);
            lemma_shown_in_range(earlier, facts@, recipes_map@, favorites@, *filter);
        }
        let ghost shown = shown_positions(
            earlier,
            facts@,
            recipes_map@,
            favorites@,
            *filter,
        );
        if passes_filters(&items[i], &facts[i], recipes_map, favorites, filter) {
            rows.push(row_of(i, &items[i], &facts[i], favorites, column));
        }
        proof {
            let shown_now = shown_positions(now, facts@, recipes_map@, favorites@, *filter);
            assert forall|k: int| 0 <= k < rows@.len() implies is_row_of(
                #[trigger] rows@[k],
                shown_now[k],
                now[shown_now[k]],
                facts@[shown_now[k]],
                favorites@,
                column,
            ) by {
                if k < before.len() {
                    assert(rows@[k] == before[k]);
                    assert(shown_now[k] == shown[k]);
                    assert(now[shown[k]] == earlier[shown[k]]);
                }
            }
        }
        i += 1;
    }
    assert(items@.take(i as int) =~= items@);
    rows
}

proof fn lemma_shown_in_range(
    items: Seq<ProfitableItem>,
    facts: Seq<RowFacts>,
    recipes: Map<u32, Recipe>,
    favorites: Set<u32>,
    filter: ItemFilter,
)
    ensures
        forall|k: int|
            0 <= k < shown_positions(items, facts, recipes, favorites, filter).len() ==> 0
                <= #[trigger] shown_positions(items, facts, recipes, favorites, filter)[k]
                < items.len(),
    decreases items.len(),
{
    if items.len() > 0 {
        let earlier = shown_positions(items.drop_last(), facts, recipes, favorites, filter);
        let shown = shown_positions(items, facts, recipes, favorites, filter);
        lemma_shown_in_range(items.drop_last(), facts, recipes, favorites, filter);
        assert forall|k: int| 0 <= k < shown.len() implies 0 <= #[trigger] shown[k]
            < items.len() by {
            if k < earlier.len() {
                assert(shown[k] == earlier[k]);
            }
        }
    }
}

/// The items that are shown, in the order in which they are shown.
pub open spec fn is_table(
    order: Seq<usize>,
    items: Seq<ProfitableItem>,
    facts: Seq<RowFacts>,
    recipes: Map<u32, Recipe>,
    favorites: Set<u32>,
    filter: ItemFilter,
    column: SortColumn,
    desc: bool,
) -> bool {
    exists|rows: Seq<ListRow>, sorted: Seq<ListRow>|
        are_rows(rows, items, facts, recipes, favorites, filter, column) && #[trigger]
            is_stable_sort(rows, row_order(desc), sorted) && order == row_positions(sorted)
}

/// Finds the items that are shown, in the order in which they are shown: the
/// favourites first, and each part sorted by the column.
pub fn shown_order(
    items: &Vec<ProfitableItem>,
    facts: &Vec<RowFacts>,
    recipes_map: &HashMap<u32, Recipe>,
    favorites: &HashSet<u32>,
    filter: &ItemFilter,
    column: SortColumn,
    desc: bool,
) -> (order: Vec<usize>)
    requires
        facts@.len() == items@.len(),
    ensures
        is_table(
            order@,
            items@,
            facts@,
            recipes_map@,
            favorites@,
            *filter,
            column,
            desc,
        ),
{
    let rows = rows_of(items, facts, recipes_map, favorites, filter, column);
    let ghost all = rows@;
    let ghost less = row_order(desc);
    let before = |a: &ListRow, b: &ListRow| -> (r: bool)
        ensures
            r == row_order(desc)(*a, *b),
        { is_row_before(a, b, desc) };
    proof {
        law_row_order_is_an_order(desc);
    }
    let sorted = stable_sort(rows, &before, Ghost(less));
    let mut order: Vec<usize> = Vec::new();
    let mut i: usize = 0;
    while i < sorted.len()
        invariant
            i <= sorted.len(),
            order@ == row_positions(sorted@).take(i as int),
        decreases sorted.len() - i,
    {
        order.push(sorted[i].position);
        i += 1;
        assert(order@ =~= row_positions(sorted@).take(i as int));
    }
    proof {
        assert(order@ =~= row_positions(sorted@));
        assert(is_stable_sort(all, row_order(desc), sorted@));
    }
    order
}

fn is_value_before(a: &ListRow, b: &ListRow) -> (r: bool)
    ensures
        r == row_value_before(*a, *b),
{
    a.number < b.number || a.number == b.number && is_text_before(
        a.text.as_str(),
        b.text.as_str(),
    )
}

fn is_row_before(a: &ListRow, b: &ListRow, desc: bool) -> (r: bool)
    ensures
        r == row_order(desc)(*a, *b),
{
    if a.favorite != b.favorite {
        a.favorite
    } else if desc {
        is_value_before(b, a)
    } else {
        is_value_before(a, b)
    }
}

proof fn lemma_shown_positions(
    items: Seq<ProfitableItem>,
    facts: Seq<RowFacts>,
    recipes: Map<u32, Recipe>,
    favorites: Set<u32>,
    filter: ItemFilter,
    k: int,
)
    ensures
        shown_positions(items, facts, recipes, favorites, filter).contains(k) <==> 0 <= k
            < items.len() && is_shown(items[k], facts[k], recipes, favorites, filter),
    decreases items.len(),
{
    if items.len() > 0 {
        let earlier = shown_positions(items.drop_last(), facts, recipes, favorites, filter);
        let shown = shown_positions(items, facts, recipes, favorites, filter);
        lemma_shown_positions(items.drop_last(), facts, recipes, favorites, filter, k);
        if shown.len() > earlier.len() {
            assert(shown[earlier.len() as int] == items.len() - 1);
        }
        if earlier.contains(k) {
            let i: int = choose|i: int| 0 <= i < earlier.len() && earlier[i] == k;
            assert(shown[i] == k);
        }
        if shown.contains(k) && k != items.len() - 1 {
            let i: int = choose|i: int| 0 <= i < shown.len() && shown[i] == k;
            assert(earlier[i] == k);
        }
    }
}

proof fn lemma_shown_ascend(
    items: Seq<ProfitableItem>,
    facts: Seq<RowFacts>,
    recipes: Map<u32, Recipe>,
    favorites: Set<u32>,
    filter: ItemFilter,
    i: int,
    j: int,
)
    requires
        0 <= i < j < shown_positions(items, facts, recipes, favorites, filter).len(),
    ensures
        shown_positions(items, facts, recipes, favorites, filter)[i] < shown_positions(
            items,
            facts,
            recipes,
            favorites,
            filter,
        )[j],
    decreases items.len(),
{
    let earlier = shown_positions(items.drop_last(), facts, recipes, favorites, filter);
    let shown = shown_positions(items, facts, recipes, favorites, filter);
    lemma_shown_in_range(items.drop_last(), facts, recipes, favorites, filter);
    assert(shown[i] == earlier[i]);
    if j < earlier.len() {
        assert(shown[j] == earlier[j]);
        lemma_shown_ascend(items.drop_last(), facts, recipes, favorites, filter, i, j);
    }
}

/// The table lists every item that passes the filters, once, and no other.
pub proof fn law_table_holds_what_is_shown(
    order: Seq<usize>,
    items: Seq<ProfitableItem>,
    facts: Seq<RowFacts>,
    recipes: Map<u32, Recipe>,
    favorites: Set<u32>,
    filter: ItemFilter,
    column: SortColumn,
    desc: bool,
)
    requires
        is_table(order, items, facts, recipes, favorites, filter, column, desc),
    ensures
        order.no_duplicates(),
        forall|k: usize| #[trigger]
            order.contains(k) <==> k < items.len() && is_shown(
                items[k as int],
                facts[k as int],
                recipes,
                favorites,
                filter,
            ),
{
    let (rows, sorted) = choose|rows: Seq<ListRow>, sorted: Seq<ListRow>|
        are_rows(rows, items, facts, recipes, favorites, filter, column) && #[trigger]
            is_stable_sort(rows, row_order(desc), sorted) && order == row_positions(sorted);
    let shown = shown_positions(items, facts, recipes, favorites, filter);
    let p = choose|p: Seq<usize>| #[trigger]
        is_stable_order(rows, row_order(desc), p) && sorted == arranged(rows, p);
    assert forall|i: int| 0 <= i < order.len() implies (#[trigger] order[i]) as int
        == shown[p[i] as int] by {
        assert(sorted[i] == rows[p[i] as int]);
    }
    assert forall|i: int, j: int| 0 <= i < order.len() && 0 <= j < order.len() && i
        != j implies order[i] != order[j] by {
        assert(p[i] != p[j]);
        if p[i] < p[j] {
            lemma_shown_ascend(items, facts, recipes, favorites, filter, p[i] as int, p[j] as int);
        } else {
            lemma_shown_ascend(items, facts, recipes, favorites, filter, p[j] as int, p[i] as int);
        }
    }
    assert forall|k: usize| #[trigger] order.contains(k) <==> k < items.len() && is_shown(
        items[k as int],
        facts[k as int],
        recipes,
        favorites,
        filter,
    ) by {
        lemma_shown_positions(items, facts, recipes, favorites, filter, k as int);
        if order.contains(k) {
            let i: int = choose|i: int| 0 <= i < order.len() && order[i] == k;
            assert(shown[p[i] as int] == k);
        }
        if shown.contains(k as int) {
            let m: int = choose|m: int| 0 <= m < shown.len() && shown[m] == k as int;
            crate::order::lemma_position_found(p, rows.len(), m);
            let i: int = choose|i: int| 0 <= i < p.len() && p[i] as int == m;
            assert(order[i] == k);
        }
    }
}

/// No item that is no favourite stands above one that is, whatever the table is
/// sorted by.
pub proof fn law_favorites_are_pinned(
    order: Seq<usize>,
    items: Seq<ProfitableItem>,
    facts: Seq<RowFacts>,
    recipes: Map<u32, Recipe>,
    favorites: Set<u32>,
    filter: ItemFilter,
    column: SortColumn,
    desc: bool,
    i: int,
    j: int,
)
    requires
        is_table(order, items, facts, recipes, favorites, filter, column, desc),
        0 <= i < j < order.len(),
    ensures
        favorites.contains(items[order[j] as int].id) ==> favorites.contains(
            items[order[i] as int].id,
        ),
{
    let (rows, sorted) = choose|rows: Seq<ListRow>, sorted: Seq<ListRow>|
        are_rows(rows, items, facts, recipes, favorites, filter, column) && #[trigger]
            is_stable_sort(rows, row_order(desc), sorted) && order == row_positions(sorted);
    let less = row_order(desc);
    let p = choose|p: Seq<usize>| #[trigger]
        is_stable_order(rows, less, p) && sorted == arranged(rows, p);
    assert(sorted[i] == rows[p[i] as int]);
    assert(sorted[j] == rows[p[j] as int]);
    assert(precedes(rows, less, p[i], p[j]));
    assert(less(sorted[i], sorted[j]) || !less(sorted[j], sorted[i]));
}

/// A column sorts one item before another.
pub open spec fn sorts_before(
    items: Seq<ProfitableItem>,
    facts: Seq<RowFacts>,
    column: SortColumn,
    a: int,
    b: int,
) -> bool {
    let x = sort_number(items[a], facts[a], column);
    let y = sort_number(items[b], facts[b], column);
    x < y || x == y && text_before(sort_text(facts[a], column), sort_text(facts[b], column))
}

/// Among the favourites, and among the other items, the table goes by the column.
/// Items that the column does not tell apart stand as in the list.
pub proof fn law_rows_go_by_the_column(
    order: Seq<usize>,
    items: Seq<ProfitableItem>,
    facts: Seq<RowFacts>,
    recipes: Map<u32, Recipe>,
    favorites: Set<u32>,
    filter: ItemFilter,
    column: SortColumn,
    desc: bool,
    i: int,
    j: int,
)
    requires
        is_table(order, items, facts, recipes, favorites, filter, column, desc),
        0 <= i < j < order.len(),
        favorites.contains(items[order[i] as int].id) == favorites.contains(
            items[order[j] as int].id,
        ),
    ensures
        !desc ==> !sorts_before(items, facts, column, order[j] as int, order[i] as int),
        desc ==> !sorts_before(items, facts, column, order[i] as int, order[j] as int),
        sorts_before(items, facts, column, order[i] as int, order[j] as int) || sorts_before(
            items,
            facts,
            column,
            order[j] as int,
            order[i] as int,
        ) || order[i] < order[j],
{
    let (rows, sorted) = choose|rows: Seq<ListRow>, sorted: Seq<ListRow>|
        are_rows(rows, items, facts, recipes, favorites, filter, column) && #[trigger]
            is_stable_sort(rows, row_order(desc), sorted) && order == row_positions(sorted);
    let less = row_order(desc);
    let p = choose|p: Seq<usize>| #[trigger]
        is_stable_order(rows, less, p) && sorted == arranged(rows, p);
    let a = rows[p[i] as int];
    let b = rows[p[j] as int];
    assert(sorted[i] == a && sorted[j] == b);
    assert(precedes(rows, less, p[i], p[j]));
    assert(a.position == order[i] && b.position == order[j]);
    lemma_row_value_order(a, b, a);
    lemma_row_value_order(b, a, b);
    if p[i] < p[j] {
        lemma_shown_ascend(items, facts, recipes, favorites, filter, p[i] as int, p[j] as int);
    }
}

proof fn lemma_nothing_before_nothing()
    ensures
        !text_before(""@, ""@),
{
    reveal_strlit("");
}

/// Sorted by the total profit, no row earns less than the one below it, or in the
/// other direction the one above it, in whole copper.
pub proof fn law_total_profit_sorts_by_profit(
    order: Seq<usize>,
    items: Seq<ProfitableItem>,
    facts: Seq<RowFacts>,
    recipes: Map<u32, Recipe>,
    favorites: Set<u32>,
    filter: ItemFilter,
    desc: bool,
    i: int,
    j: int,
)
    requires
        is_table(order, items, facts, recipes, favorites, filter, SortColumn::TotalProfit, desc),
        0 <= i < j < order.len(),
        favorites.contains(items[order[i] as int].id) == favorites.contains(
            items[order[j] as int].id,
        ),
    ensures
        desc ==> whole(items[order[i] as int].profit@) >= whole(items[order[j] as int].profit@),
        !desc ==> whole(items[order[i] as int].profit@) <= whole(items[order[j] as int].profit@),
{
    law_rows_go_by_the_column(order, items, facts, recipes, favorites, filter, SortColumn::TotalProfit, desc, i, j);
    law_table_holds_what_is_shown(order, items, facts, recipes, favorites, filter, SortColumn::TotalProfit, desc);
    assert(order.contains(order[i]) && order.contains(order[j]));
    reveal_strlit("");
    lemma_nothing_before_nothing();
}

/// Sorted by the profit of an item, rows go by their profit shared out over the units
/// made, in whole copper.
pub proof fn law_profit_per_item_sorts_by_unit(
    order: Seq<usize>,
    items: Seq<ProfitableItem>,
    facts: Seq<RowFacts>,
    recipes: Map<u32, Recipe>,
    favorites: Set<u32>,
    filter: ItemFilter,
    desc: bool,
    i: int,
    j: int,
)
    requires
        is_table(order, items, facts, recipes, favorites, filter, SortColumn::ProfitPerItem, desc),
        0 <= i < j < order.len(),
        favorites.contains(items[order[i] as int].id) == favorites.contains(
            items[order[j] as int].id,
        ),
    ensures
        ({
            let a = items[order[i] as int];
            let b = items[order[j] as int];
            let x = whole(a.profit@ / (a.count as real));
            let y = whole(b.profit@ / (b.count as real));
            &&& a.count > 0 && b.count > 0
            &&& desc ==> x >= y
            &&& !desc ==> x <= y
        }),
{
    law_rows_go_by_the_column(order, items, facts, recipes, favorites, filter, SortColumn::ProfitPerItem, desc, i, j);
    law_table_holds_what_is_shown(order, items, facts, recipes, favorites, filter, SortColumn::ProfitPerItem, desc);
    assert(order.contains(order[i]) && order.contains(order[j]));
    reveal_strlit("");
    lemma_nothing_before_nothing();
}

/// Sorted by the profit of a step, rows go by their profit shared out over the crafting
/// steps, in whole copper.
pub proof fn law_profit_per_step_sorts_by_step(
    order: Seq<usize>,
    items: Seq<ProfitableItem>,
    facts: Seq<RowFacts>,
    recipes: Map<u32, Recipe>,
    favorites: Set<u32>,
    filter: ItemFilter,
    desc: bool,
    i: int,
    j: int,
)
    requires
        is_table(order, items, facts, recipes, favorites, filter, SortColumn::ProfitPerStep, desc),
        0 <= i < j < order.len(),
        favorites.contains(items[order[i] as int].id) == favorites.contains(
            items[order[j] as int].id,
        ),
        items[order[i] as int].crafting_steps > 0,
        items[order[j] as int].crafting_steps > 0,
    ensures
        ({
            let a = items[order[i] as int];
            let b = items[order[j] as int];
            let x = whole(a.profit@ / (a.crafting_steps as real));
            let y = whole(b.profit@ / (b.crafting_steps as real));
            &&& desc ==> x >= y
            &&& !desc ==> x <= y
        }),
{
    law_rows_go_by_the_column(order, items, facts, recipes, favorites, filter, SortColumn::ProfitPerStep, desc, i, j);
    law_table_holds_what_is_shown(order, items, facts, recipes, favorites, filter, SortColumn::ProfitPerStep, desc);
    assert(order.contains(order[i]) && order.contains(order[j]));
    reveal_strlit("");
    lemma_nothing_before_nothing();
}

/// Sorted by the id, rows go by it.
pub proof fn law_item_id_sorts_by_id(
    order: Seq<usize>,
    items: Seq<ProfitableItem>,
    facts: Seq<RowFacts>,
    recipes: Map<u32, Recipe>,
    favorites: Set<u32>,
    filter: ItemFilter,
    desc: bool,
    i: int,
    j: int,
)
    requires
        is_table(order, items, facts, recipes, favorites, filter, SortColumn::ItemId, desc),
        0 <= i < j < order.len(),
        favorites.contains(items[order[i] as int].id) == favorites.contains(
            items[order[j] as int].id,
        ),
    ensures
        desc ==> items[order[i] as int].id >= items[order[j] as int].id,
        !desc ==> items[order[i] as int].id <= items[order[j] as int].id,
{
    law_rows_go_by_the_column(order, items, facts, recipes, favorites, filter, SortColumn::ItemId, desc, i, j);
    law_table_holds_what_is_shown(order, items, facts, recipes, favorites, filter, SortColumn::ItemId, desc);
    assert(order.contains(order[i]) && order.contains(order[j]));
    reveal_strlit("");
    lemma_nothing_before_nothing();
}

/// Sorted by name, rows go by the names in small letters; sorted by disciplines, by
/// the disciplines as they are shown.
pub proof fn law_texts_sort_by_their_letters(
    order: Seq<usize>,
    items: Seq<ProfitableItem>,
    facts: Seq<RowFacts>,
    recipes: Map<u32, Recipe>,
    favorites: Set<u32>,
    filter: ItemFilter,
    desc: bool,
    i: int,
    j: int,
    column: SortColumn,
)
    requires
        is_table(order, items, facts, recipes, favorites, filter, column, desc),
        0 <= i < j < order.len(),
        favorites.contains(items[order[i] as int].id) == favorites.contains(
            items[order[j] as int].id,
        ),
        column == SortColumn::Name || column == SortColumn::Disciplines,
    ensures
        ({
            let a = facts[order[i] as int];
            let b = facts[order[j] as int];
            let x = if column == SortColumn::Name {
                lowercased(a.name@)
            } else {
                a.disciplines@
            };
            let y = if column == SortColumn::Name {
                lowercased(b.name@)
            } else {
                b.disciplines@
            };
            &&& desc ==> !text_before(x, y)
            &&& !desc ==> !text_before(y, x)
        }),
{
    law_rows_go_by_the_column(order, items, facts, recipes, favorites, filter, column, desc, i, j);
}

/// Sorted by a velocity, rows go by it, and one that is not known counts as the lowest.
pub proof fn law_velocities_sort_by_rank(
    order: Seq<usize>,
    items: Seq<ProfitableItem>,
    facts: Seq<RowFacts>,
    recipes: Map<u32, Recipe>,
    favorites: Set<u32>,
    filter: ItemFilter,
    desc: bool,
    i: int,
    j: int,
    column: SortColumn,
)
    requires
        is_table(order, items, facts, recipes, favorites, filter, column, desc),
        0 <= i < j < order.len(),
        favorites.contains(items[order[i] as int].id) == favorites.contains(
            items[order[j] as int].id,
        ),
        column == SortColumn::Vel6h || column == SortColumn::Vel12h || column == SortColumn::Vel24h
            || column == SortColumn::Vel7d || column == SortColumn::Vel2w || column
            == SortColumn::Vel1m || column == SortColumn::Vel3m || column == SortColumn::Vel6m
            || column == SortColumn::Vel1y || column == SortColumn::Vel2y,
    ensures
        match (facts[order[i] as int].velocity_rank, facts[order[j] as int].velocity_rank) {
            (Some(x), Some(y)) => if desc {
                x >= y
            } else {
                x <= y
            },
            (Some(_), None) => desc,
            (None, Some(_)) => !desc,
            (None, None) => true,
        },
{
    law_rows_go_by_the_column(order, items, facts, recipes, favorites, filter, column, desc, i, j);
    law_table_holds_what_is_shown(order, items, facts, recipes, favorites, filter, column, desc);
    assert(order.contains(order[i]) && order.contains(order[j]));
    reveal_strlit("");
    lemma_nothing_before_nothing();
}

/// What an item earns by a measure: all of it, its share of one unit, or its share of
/// one craft of the recipe.
pub open spec fn earned(item: ProfitableItem, measure: ProfitMeasure, recipes: Map<u32, Recipe>) -> real {
    let units_per_craft = if recipes.contains_key(item.id) {
        recipes[item.id].output_item_count as real
    } else {
        1 as real
    };
    match measure {
        ProfitMeasure::Total => item.profit@,
        ProfitMeasure::PerItem => item.profit@ / (item.count as real),
        ProfitMeasure::PerCraft => item.profit@ / (item.count as real) * units_per_craft,
    }
}

/// Every row has units, earns at least the minimum that is asked for by its measure,
/// belongs to a discipline that was picked, is a favourite, pays well enough on its
/// cost and is known to sell fast enough, as far as the filters ask for it.
pub proof fn law_shown_items_pass_every_filter(
    item: ProfitableItem,
    facts: RowFacts,
    recipes: Map<u32, Recipe>,
    favorites: Set<u32>,
    filter: ItemFilter,
)
    requires
        is_shown(item, facts, recipes, favorites, filter),
    ensures
        item.count > 0,
        filter.favorites_only ==> favorites.contains(item.id),
        filter.disciplines@.len() > 0 ==> recipes.contains_key(item.id) && exists|k: int, l: int|
            0 <= k < filter.disciplines@.len() && 0 <= l < recipes[item.id].disciplines@.len() && (
            #[trigger] filter.disciplines@[k]) == (#[trigger] recipes[item.id].disciplines@[l]),
        filter.min_profit matches Some(min) ==> if min > 0 {
            earned(item, filter.measure, recipes) >= (min as int) as real
        } else {
            earned(item, filter.measure, recipes) > (min - 1) as real
        },
        filter.by_percentage ==> facts.percentage_enough,
        filter.by_velocity ==> facts.velocity_enough == Some(true),
{
    lemma_measure_is_what_is_earned(item, filter.measure, recipes);
    if let Some(min) = filter.min_profit {
        law_whole_copper_rounds_towards_zero(earned(item, filter.measure, recipes), min as int);
    }
    if filter.disciplines@.len() > 0 {
        let d = choose|d: Discipline| #[trigger]
            filter.disciplines@.contains(d) && recipes[item.id].disciplines@.contains(d);
        let k: int = filter.disciplines@.index_of(d);
        let l: int = recipes[item.id].disciplines@.index_of(d);
        assert(filter.disciplines@[k] == recipes[item.id].disciplines@[l]);
    }
}

/// An item with units that passes each filter that is asked for is shown.
pub proof fn law_items_that_pass_are_shown(
    item: ProfitableItem,
    facts: RowFacts,
    recipes: Map<u32, Recipe>,
    favorites: Set<u32>,
    filter: ItemFilter,
    k: int,
    l: int,
)
    requires
        item.count > 0,
        filter.favorites_only ==> favorites.contains(item.id),
        filter.disciplines@.len() > 0 ==> recipes.contains_key(item.id) && 0 <= k
            < filter.disciplines@.len() && 0 <= l < recipes[item.id].disciplines@.len()
            && filter.disciplines@[k] == recipes[item.id].disciplines@[l],
        filter.min_profit matches Some(min) ==> earned(item, filter.measure, recipes)
            >= (min as int) as real,
        filter.by_percentage ==> facts.percentage_enough,
        filter.by_velocity ==> facts.velocity_enough == Some(true),
    ensures
        is_shown(item, facts, recipes, favorites, filter),
{
    lemma_measure_is_what_is_earned(item, filter.measure, recipes);
    if let Some(min) = filter.min_profit {
        law_whole_copper_rounds_towards_zero(earned(item, filter.measure, recipes), min as int);
    }
    if filter.disciplines@.len() > 0 {
        let d = filter.disciplines@[k];
        assert(recipes[item.id].disciplines@[l] == d);
        assert(filter.disciplines@.contains(d) && recipes[item.id].disciplines@.contains(d));
    }
}

proof fn lemma_measure_is_what_is_earned(
    item: ProfitableItem,
    measure: ProfitMeasure,
    recipes: Map<u32, Recipe>,
)
    requires
        item.count > 0,
    ensures
        measured_profit(item, measure, batch_of(recipes, item.id)) == whole(
            earned(item, measure, recipes),
        ),
{
    let p = item.profit@;
    let c = item.count as real;
    let b = batch_of(recipes, item.id) as real;
    assert(p * b / c == p / c * b) by (nonlinear_arith)
        requires
            c > 0 as real,
    ;
}

/// An item is shown under the name that tells it apart from others of its name, and
/// under none other than question marks where it is not known.
pub proof fn law_items_are_shown_by_display_name(items: Map<u32, Item>, id: u32, item: Item)
    ensures
        shown_name(items.insert(id, item), id) == item.display_name@,
        shown_name(items.remove(id), id) == "???"@,
{
}

} // verus!
