//! Lines of the shopping list and of the list of items.

use crate::api;
use crate::crafting::{Leftover, PurchasedIngredient, Source};
use crate::item::{unlocks, Item, Rarity, VendorOffer};
use crate::listings::coin;
use crate::money::{
    amount_text, before_fees, fits, law_whole_copper_rounds_towards_zero, sum_of, whole,
    with_listing_fee, Money,
};
use crate::order::{
    arranged, is_stable_order, is_stable_sort, lemma_position_found, lemma_sort_keeps_values, precedes,
    stable_sort,
};
use crate::profit::ProfitableItem;
use crate::recipe::{Recipe, RecipeIngredient};
use crate::simulation::{batches_of, Shopping, ShoppingList};
use crate::table::{item_name, shown_name};
use crate::text::{
    align_left, align_right, decimal, join, join_texts, law_aligned_text_fills_the_width,
    left_aligned, replace_char, replaced,
    right_aligned, signed_decimal, texts, to_decimal, to_signed_decimal,
};
use std::collections::{BTreeMap, HashMap};
use vstd::prelude::*;
use vstd::string::*;

verus! {

/// Units that one inventory slot holds.
pub const ITEM_STACK_SIZE: u32 = 250;

/// Range of prices that the product fetches, the best one first.
pub open spec fn price_range_text(max: real, min: real) -> Seq<char> {
    if max == min {
        amount_text(min)
    } else {
        amount_text(max) + " to "@ + amount_text(min)
    }
}

/// Range of prices that the product fetches.
pub fn price_message(max_sell: &Money, min_sell: &Money) -> (s: String)
    ensures
        s@ == price_range_text(max_sell@, min_sell@),
{
    if max_sell.equals(min_sell) {
        min_sell.render()
    } else {
        max_sell.render().concat(" to ").concat(min_sell.render().as_str())
    }
}

/// Whole copper of the profit of a step.
pub open spec fn step_copper(item: ProfitableItem) -> int {
    if item.crafting_steps == 0 {
        0
    } else {
        whole(item.profit@ * (1u32 as real) / (item.crafting_steps as real))
    }
}

/// Headline of an item: how many are made, and what that earns. `percentage` is
/// the profit on the cost.
pub open spec fn headline(item: ProfitableItem, name: Seq<char>, percentage: Seq<char>) -> Seq<
    char,
> {
    decimal(item.count as nat) + " x "@ + name + " = "@ + amount_text(whole(item.profit@) as real)
        + " profit ("@ + signed_decimal(step_copper(item)) + " / step, "@ + percentage + "%)"@
}

/// Whole copper as it is shown.
fn render_copper(copper: i64) -> (s: String)
    ensures
        s@ == amount_text(copper as real),
{
    Money::whole_copper(copper).render()
}

/// Headline of an item.
pub fn headline_of(item: &ProfitableItem, name: &str, percentage: &str) -> (s: String)
    ensures
        s@ == headline(*item, name@, percentage@),
{
    let step: i128 = if item.crafting_steps == 0 {
        0
    } else {
        item.profit.copper_share(1, item.crafting_steps)
    };
    to_decimal(item.count as u64).concat(" x ").concat(name).concat(" = ").concat(
        render_copper(item.profit.to_copper_value()).as_str(),
    ).concat(" profit (").concat(to_signed_decimal(step).as_str()).concat(
        " / step, ",
    ).concat(percentage).concat("%)")
}

/// Where the product is sold, the money that has to be laid out, and the price
/// that covers the cost.
pub open spec fn selling_text(item: ProfitableItem) -> Seq<char> {
    "Sell at: "@ + price_range_text(item.max_sell@, item.min_sell@) + ", Money Required: "@
        + amount_text(with_listing_fee(item.crafting_cost@)) + ", Breakeven price: "@ + amount_text(
        item.breakeven@,
    )
}

/// Where the product is sold, the money that has to be laid out, and the price
/// that covers the cost.
pub fn selling_line(item: &ProfitableItem) -> (s: String)
    ensures
        s@ == selling_text(*item),
{
    proof {
        let x: real = item.crafting_cost@;
        assert(x * (21u32 as real) / (20u32 as real) == with_listing_fee(x));
    }
    String::from_str("Sell at: ").concat(
        price_message(&item.max_sell, &item.min_sell).as_str(),
    ).concat(", Money Required: ").concat(item.crafting_cost.render_share(21, 20).as_str()).concat(
        ", Breakeven price: ",
    ).concat(item.breakeven.render().as_str())
}

/// An ingredient of the shopping list.
#[derive(Clone, Copy, Debug, PartialEq, Eq, Structural)]
pub struct ShoppingEntry {
    pub item_id: u32,
    pub source: Source,
    pub ingredient: PurchasedIngredient,
}

/// The entries of a shopping list, each once.
pub open spec fn are_entries(entries: Seq<ShoppingEntry>, list: Shopping) -> bool {
    &&& forall|i: int|
        0 <= i < entries.len() ==> list.entry(
            (#[trigger] entries[i]).item_id,
            entries[i].source,
        ) == Some(batches_of(entries[i].ingredient))
    &&& forall|id: u32, source: Source|
        (#[trigger] list.entry(id, source)) is Some ==> exists|i: int|
            0 <= i < entries.len() && (#[trigger] entries[i]).item_id == id && entries[i].source
                == source
    &&& forall|i: int, j: int|
        0 <= i < j < entries.len() ==> (#[trigger] entries[i]).item_id != (#[trigger]
        entries[j]).item_id || entries[i].source != entries[j].source
}

/// The entries from one source, each once.
spec fn are_entries_from(
    entries: Seq<ShoppingEntry>,
    source: Source,
    map: Map<u32, PurchasedIngredient>,
) -> bool {
    &&& forall|i: int|
        0 <= i < entries.len() ==> (#[trigger] entries[i]).source == source && map.contains_key(
            entries[i].item_id,
        ) && map[entries[i].item_id] == entries[i].ingredient
    &&& forall|id: u32| #[trigger]
        map.contains_key(id) ==> exists|i: int|
            0 <= i < entries.len() && (#[trigger] entries[i]).item_id == id
    &&& forall|i: int, j: int|
        0 <= i < j < entries.len() ==> (#[trigger] entries[i]).item_id != (#[trigger]
        entries[j]).item_id
}

fn entries_from(map: &BTreeMap<u32, PurchasedIngredient>, source: Source) -> (entries: Vec<
    ShoppingEntry,
>)
    ensures
        are_entries_from(entries@, source, map@),
{
    let ghost all = map@;
    let mut entries: Vec<ShoppingEntry> = Vec::new();
    for entry in it: map.iter()
        invariant
            all == map@,
            it.seq().no_duplicates(),
            forall|i: int|
                0 <= i < it.seq().len() ==> all.contains_key(*(#[trigger] it.seq()[i]).0)
                    && all[*it.seq()[i].0] == *it.seq()[i].1,
            entries@.len() == it.index(),
            forall|i: int|
                0 <= i < entries@.len() ==> (#[trigger] entries@[i]).item_id == *it.seq()[i].0
                    && entries@[i].ingredient == *it.seq()[i].1 && entries@[i].source == source,
            forall|i: int|
                0 <= i < entries@.len() ==> entries@[i].item_id == *(#[trigger] it.seq()[i]).0,
    {
        entries.push(ShoppingEntry { item_id: *entry.0, source, ingredient: *entry.1 });
    }
    proof {
        assert forall|id: u32| #[trigger] all.contains_key(id) implies exists|i: int|
            0 <= i < entries@.len() && (#[trigger] entries@[i]).item_id == id by {}
    }
    entries
}

/// Order of the sources on a shopping list: the trading post first, vendors
/// last.
pub open spec fn source_rank(source: Source) -> int {
    match source {
        Source::TradingPost => 0,
        Source::Crafting => 1,
        Source::Vendor => 2,
    }
}

/// Order of a shopping list: by source, then the most units, the highest cost
/// and the highest id first.
pub open spec fn shopping_order() -> spec_fn(ShoppingEntry, ShoppingEntry) -> bool {
    |a: ShoppingEntry, b: ShoppingEntry|
        {
            let p = a.ingredient;
            let q = b.ingredient;
            if a.source != b.source {
                source_rank(a.source) < source_rank(b.source)
            } else if p.count != q.count {
                p.count > q.count
            } else if p.total_cost@ != q.total_cost@ {
                p.total_cost@ > q.total_cost@
            } else {
                a.item_id > b.item_id
            }
        }
}

fn rank_of(source: Source) -> (rank: u8)
    ensures
        rank == source_rank(source),
{
    match source {
        Source::TradingPost => 0,
        Source::Crafting => 1,
        Source::Vendor => 2,
    }
}

fn is_entry_before(a: &ShoppingEntry, b: &ShoppingEntry) -> (r: bool)
    ensures
        r == shopping_order()(*a, *b),
{
    let p = &a.ingredient;
    let q = &b.ingredient;
    if a.source != b.source {
        rank_of(a.source) < rank_of(b.source)
    } else if p.count != q.count {
        p.count > q.count
    } else if !p.total_cost.equals(&q.total_cost) {
        q.total_cost.less_than(&p.total_cost)
    } else {
        a.item_id > b.item_id
    }
}

/// The entries of a shopping list, in order.
pub open spec fn is_shopping_plan(plan: Seq<ShoppingEntry>, list: Shopping) -> bool {
    exists|entries: Seq<ShoppingEntry>| #[trigger]
        are_entries(entries, list) && is_stable_sort(entries, shopping_order(), plan)
}

proof fn lemma_joined_entries(
    list: ShoppingList,
    a: Seq<ShoppingEntry>,
    b: Seq<ShoppingEntry>,
    c: Seq<ShoppingEntry>,
)
    requires
        are_entries_from(a, Source::TradingPost, list.trading_post@),
        are_entries_from(b, Source::Crafting, list.crafting@),
        are_entries_from(c, Source::Vendor, list.vendor@),
    ensures
        are_entries(a + b + c, list@),
{
    let all = a + b + c;
    assert forall|i: int| 0 <= i < all.len() implies list@.entry(
        (#[trigger] all[i]).item_id,
        all[i].source,
    ) == Some(batches_of(all[i].ingredient)) by {
        if i < a.len() {
            assert(all[i] == a[i]);
        } else if i < a.len() + b.len() {
            assert(all[i] == b[i - a.len()]);
        } else {
            assert(all[i] == c[i - a.len() - b.len()]);
        }
    }
    assert forall|id: u32, source: Source|
        (#[trigger] list@.entry(id, source)) is Some implies exists|i: int|
        0 <= i < all.len() && (#[trigger] all[i]).item_id == id && all[i].source == source by {
        match source {
            Source::TradingPost => {
                assert(list.trading_post@.contains_key(id));
                let k: int = choose|k: int| 0 <= k < a.len() && (#[trigger] a[k]).item_id == id;
                assert(all[k] == a[k]);
            },
            Source::Crafting => {
                assert(list.crafting@.contains_key(id));
                let k: int = choose|k: int| 0 <= k < b.len() && (#[trigger] b[k]).item_id == id;
                assert(all[a.len() + k] == b[k]);
            },
            Source::Vendor => {
                assert(list.vendor@.contains_key(id));
                let k: int = choose|k: int| 0 <= k < c.len() && (#[trigger] c[k]).item_id == id;
                assert(all[a.len() + b.len() + k] == c[k]);
            },
        }
    }
    assert forall|i: int, j: int| 0 <= i < j < all.len() implies (#[trigger] all[i]).item_id != (
    #[trigger] all[j]).item_id || all[i].source != all[j].source by {
        if i < a.len() {
            assert(all[i] == a[i]);
        } else if i < a.len() + b.len() {
            assert(all[i] == b[i - a.len()]);
        } else {
            assert(all[i] == c[i - a.len() - b.len()]);
        }
        if j < a.len() {
            assert(all[j] == a[j]);
        } else if j < a.len() + b.len() {
            assert(all[j] == b[j - a.len()]);
        } else {
            assert(all[j] == c[j - a.len() - b.len()]);
        }
    }
}

/// The entries of a shopping list, in order.
pub fn shopping_plan(list: &ShoppingList) -> (plan: Vec<ShoppingEntry>)
    ensures
        is_shopping_plan(plan@, list@),
{
    let mut entries = entries_from(&list.trading_post, Source::TradingPost);
    let mut crafting = entries_from(&list.crafting, Source::Crafting);
    let mut vendor = entries_from(&list.vendor, Source::Vendor);
    proof {
        lemma_joined_entries(*list, entries@, crafting@, vendor@);
    }
    entries.append(&mut crafting);
    entries.append(&mut vendor);
    let ghost all = entries@;
    let ghost less = shopping_order();
    let before = |a: &ShoppingEntry, b: &ShoppingEntry| -> (r: bool)
        ensures
            r == shopping_order()(*a, *b),
        { is_entry_before(a, b) };
    let plan = stable_sort(entries, &before, Ghost(less));
    assert(are_entries(all, list@) && is_stable_sort(all, shopping_order(), plan@));
    plan
}

/// Units that are bought at a time: what the vendor sells together, or a stack.
pub open spec fn purchase_size(source: Source, vendor: Option<VendorOffer>) -> u32 {
    if source == Source::Vendor {
        match vendor {
            Some(offer) => offer.batch,
            None => 1,
        }
    } else {
        ITEM_STACK_SIZE
    }
}

/// `count` units bought `size` at a time fill more than one purchase.
pub open spec fn takes_several(count: u32, size: u32) -> bool {
    size > 1 && count > size
}

/// `count` units, with how many purchases of `size` they are.
pub open spec fn count_text(count: u32, size: u32) -> Seq<char> {
    if takes_several(count, size) {
        decimal(count as nat) + " ("@ + decimal((count / size) as nat) + " x "@ + decimal(
            size as nat,
        ) + (if count % size != 0 {
            " + "@ + decimal((count % size) as nat)
        } else {
            ""@
        }) + ")"@
    } else {
        decimal(count as nat)
    }
}

/// Inventory slots that `count` units fill.
pub open spec fn slots_for(count: u32, size: u32) -> nat {
    if takes_several(count, size) {
        ((count + ITEM_STACK_SIZE - 1) / (ITEM_STACK_SIZE as int)) as nat
    } else {
        1
    }
}

fn purchase_size_of(source: Source, vendor: &Option<VendorOffer>) -> (size: u32)
    ensures
        size == purchase_size(source, *vendor),
{
    if source == Source::Vendor {
        match vendor {
            Some(offer) => offer.batch,
            None => 1,
        }
    } else {
        ITEM_STACK_SIZE
    }
}

/// `count` units, with how many purchases of `size` they are.
pub fn count_message(count: u32, size: u32) -> (s: String)
    ensures
        s@ == count_text(count, size),
{
    if size > 1 && count > size {
        let rest: u32 = count % size;
        let more = if rest != 0 {
            String::from_str(" + ").concat(to_decimal(rest as u64).as_str())
        } else {
            String::from_str("")
        };
        to_decimal(count as u64).concat(" (").concat(to_decimal((count / size) as u64).as_str())
            .concat(" x ").concat(to_decimal(size as u64).as_str()).concat(more.as_str()).concat(
            ")",
        )
    } else {
        to_decimal(count as u64)
    }
}

/// Inventory slots that `count` units fill.
pub fn inventory_slots(count: u32, size: u32) -> (slots: u64)
    ensures
        slots == slots_for(count, size),
{
    if size > 1 && count > size {
        (count as u64 + ITEM_STACK_SIZE as u64 - 1) / (ITEM_STACK_SIZE as u64)
    } else {
        1
    }
}

/// Inventory slots that the first `n` entries and the product fill at most.
pub open spec fn slots_needed(
    plan: Seq<ShoppingEntry>,
    items: Map<u32, Item>,
    n: nat,
) -> nat
    decreases n,
{
    if n == 0 {
        1
    } else {
        let e = plan[n - 1];
        slots_needed(plan, items, (n - 1) as nat) + slots_for(
            e.ingredient.count,
            purchase_size(e.source, vendor_of(items, e.item_id)),
        )
    }
}

/// Offer of a vendor for an item.
pub open spec fn vendor_of(items: Map<u32, Item>, id: u32) -> Option<VendorOffer> {
    if items.contains_key(id) {
        items[id].vendor
    } else {
        None
    }
}

fn vendor_offer(items_map: &HashMap<u32, Item>, id: u32) -> (offer: Option<VendorOffer>)
    ensures
        offer == vendor_of(items_map@, id),
{
    match items_map.get(&id) {
        Some(item) => item.vendor_cost(),
        None => None,
    }
}

/// Inventory slots that a shopping list and the product fill at most.
pub fn max_inventory_slots(plan: &Vec<ShoppingEntry>, items_map: &HashMap<u32, Item>) -> (slots:
    u128)
    ensures
        slots == slots_needed(plan@, items_map@, plan@.len()),
{
    let mut slots: u128 = 1;
    let mut i: usize = 0;
    while i < plan.len()
        invariant
            i <= plan.len(),
            slots == slots_needed(plan@, items_map@, i as nat),
            slots <= 1 + i * 0x1_0000_0000,
        decreases plan.len() - i,
    {
        let e = plan[i];
        let size: u32 = purchase_size_of(e.source, &vendor_offer(items_map, e.item_id));
        let more: u64 = inventory_slots(e.ingredient.count, size);
        assert(more <= 0x1_0000_0000);
        assert(i * 0x1_0000_0000 <= 0xffff_ffff_ffff_ffff * 0x1_0000_0000);
        slots = slots + more as u128;
        i += 1;
    }
    slots
}

/// Where an ingredient comes from and what it costs.
pub open spec fn source_text(e: ShoppingEntry, vendor: Option<VendorOffer>) -> Seq<char> {
    let p = e.ingredient;
    match e.source {
        Source::TradingPost => " (at "@ + amount_text(p.min_price@) + (if p.max_price@
            == p.min_price@ {
            ""@
        } else {
            " to "@ + amount_text(p.max_price@)
        }) + ") Subtotal: "@ + amount_text(p.total_cost@),
        Source::Vendor => match vendor {
            Some(offer) => " (vendor: "@ + (if offer.batch > 1 {
                amount_text(offer.cost@ * (offer.batch as real) / (1u32 as real)) + " per "@
                    + decimal(offer.batch as nat)
            } else {
                amount_text(offer.cost@)
            }) + ") Subtotal: "@ + amount_text(
                offer.cost@ * (p.count as real) / (1u32 as real),
            ),
            None => ""@,
        },
        Source::Crafting => ""@,
    }
}

fn source_message(e: &ShoppingEntry, vendor: &Option<VendorOffer>) -> (s: String)
    ensures
        s@ == source_text(*e, *vendor),
{
    let p = &e.ingredient;
    match e.source {
        Source::TradingPost => {
            let range = if p.max_price.equals(&p.min_price) {
                String::from_str("")
            } else {
                String::from_str(" to ").concat(p.max_price.render().as_str())
            };
            String::from_str(" (at ").concat(p.min_price.render().as_str()).concat(
                range.as_str(),
            ).concat(") Subtotal: ").concat(p.total_cost.render().as_str())
        },
        Source::Vendor => match vendor {
            Some(offer) => {
                let price = if offer.batch > 1 {
                    offer.cost.render_share(offer.batch, 1).concat(" per ").concat(
                        to_decimal(offer.batch as u64).as_str(),
                    )
                } else {
                    offer.cost.render()
                };
                String::from_str(" (vendor: ").concat(price.as_str()).concat(
                    ") Subtotal: ",
                ).concat(offer.cost.render_share(p.count, 1).as_str())
            },
            None => String::from_str(""),
        },
        Source::Crafting => String::from_str(""),
    }
}

/// Line of the shopping list.
pub open spec fn shopping_text(e: ShoppingEntry, items: Map<u32, Item>) -> Seq<char> {
    let vendor = vendor_of(items, e.item_id);
    count_text(e.ingredient.count, purchase_size(e.source, vendor)) + " "@ + shown_name(
        items,
        e.item_id,
    ) + source_text(e, vendor)
}

/// Line of the shopping list. There is none for what a vendor sells when the
/// item is not known.
pub fn shopping_line(e: &ShoppingEntry, items_map: &HashMap<u32, Item>) -> (line: Option<String>)
    ensures
        match line {
            Some(s) => s@ == shopping_text(*e, items_map@) && (e.source == Source::Vendor
                ==> items_map@.contains_key(e.item_id)),
            None => e.source == Source::Vendor && !items_map@.contains_key(e.item_id),
        },
{
    if e.source == Source::Vendor && !items_map.contains_key(&e.item_id) {
        return None;
    }
    let vendor = vendor_offer(items_map, e.item_id);
    let size: u32 = purchase_size_of(e.source, &vendor);
    Some(
        count_message(e.ingredient.count, size).concat(" ").concat(
            item_name(items_map, e.item_id).as_str(),
        ).concat(source_message(e, &vendor).as_str()),
    )
}

/// Address of a page that shows how to craft `count` units of an item.
pub open spec fn steps_address(count: u32, item_id: u32) -> Seq<char> {
    "https://gw2efficiency.com/crafting/calculator/a~1!b~1!c~1!d~"@ + decimal(count as nat) + "-"@
        + decimal(item_id as nat)
}

/// Address of a page that shows how to craft `count` units of an item.
pub fn crafting_steps_url(count: u32, item_id: u32) -> (s: String)
    ensures
        s@ == steps_address(count, item_id),
{
    String::from_str("https://gw2efficiency.com/crafting/calculator/a~1!b~1!c~1!d~").concat(
        to_decimal(count as u64).as_str(),
    ).concat("-").concat(to_decimal(item_id as u64).as_str())
}

/// Units of the ingredients that so many crafts use up.
pub open spec fn ingredient_texts(
    ingredients: Seq<RecipeIngredient>,
    crafts: nat,
    items: Map<u32, Item>,
) -> Seq<Seq<char>> {
    ingredients.map_values(
        |i: RecipeIngredient|
            decimal(i.count as nat * crafts) + " "@ + shown_name(items, i.item_id),
    )
}

/// A step of the crafting: what is made, and from what.
pub open spec fn step_text(
    item_id: u32,
    count: u32,
    batch: u32,
    ingredients: Seq<RecipeIngredient>,
    items: Map<u32, Item>,
) -> Seq<char> {
    let crafts = (count / batch) as nat;
    (if batch > 1 {
        decimal(crafts) + " (makes "@ + decimal(count as nat) + ")"@
    } else {
        decimal(count as nat)
    }) + " "@ + shown_name(items, item_id) + " from "@ + join(
        ingredient_texts(ingredients, crafts, items),
        " "@,
    )
}

/// A step of the crafting: `count` units of an item, made `batch` at a time.
pub fn crafting_step_line(
    item_id: u32,
    count: u32,
    batch: u32,
    ingredients: &Vec<RecipeIngredient>,
    items_map: &HashMap<u32, Item>,
) -> (s: String)
    requires
        batch > 0,
    ensures
        s@ == step_text(item_id, count, batch, ingredients@, items_map@),
{
    let crafts: u32 = count / batch;
    let ghost n = crafts as nat;
    let mut parts: Vec<String> = Vec::new();
    let mut i: usize = 0;
    assert(texts(parts@) =~= ingredient_texts(ingredients@.take(0), n, items_map@));
    while i < ingredients.len()
        invariant
            i <= ingredients.len(),
            n == crafts,
            texts(parts@) == ingredient_texts(ingredients@.take(i as int), n, items_map@),
        decreases ingredients.len() - i,
    {
        let ghost before = parts@;
        let ingredient = ingredients[i];
        proof {
            assert(0 <= ingredient.count * crafts <= 0xffff_ffff * 0xffff_ffff)
                by (nonlinear_arith)
                requires
                    0 <= ingredient.count <= 0xffff_ffff,
                    0 <= crafts <= 0xffff_ffff,
            ;
        }
        let units: u64 = (ingredient.count as u64) * (crafts as u64);
        let part = to_decimal(units).concat(" ").concat(
            item_name(items_map, ingredient.item_id).as_str(),
        );
        let ghost text = part@;
        parts.push(part);
        proof {
            assert(texts(parts@) =~= texts(before).push(text));
            assert(ingredient_texts(ingredients@.take(i + 1), n, items_map@) =~= ingredient_texts(
                ingredients@.take(i as int),
                n,
                items_map@,
            ).push(text));
        }
        i += 1;
    }
    assert(ingredients@.take(i as int) =~= ingredients@);
    let made = if batch > 1 {
        to_decimal(crafts as u64).concat(" (makes ").concat(
            to_decimal(count as u64).as_str(),
        ).concat(")")
    } else {
        to_decimal(count as u64)
    };
    made.concat(" ").concat(item_name(items_map, item_id).as_str()).concat(" from ").concat(
        join_texts(&parts, " ").as_str(),
    )
}

/// What is left over of an item.
pub open spec fn leftover_text(id: u32, leftover: Leftover, items: Map<u32, Item>) -> Seq<char> {
    decimal(leftover.count as nat) + " "@ + shown_name(items, id) + ", breakeven: "@ + amount_text(
        before_fees(leftover.unit_cost@),
    ) + " each"@
}

/// What is left over of an item, and the price that covers its cost.
pub fn leftover_line(id: u32, leftover: &Leftover, items_map: &HashMap<u32, Item>) -> (s: String)
    ensures
        s@ == leftover_text(id, *leftover, items_map@),
{
    proof {
        let x: real = leftover.unit_cost@;
        assert(x * (20u32 as real) / (17u32 as real) == before_fees(x));
    }
    to_decimal(leftover.count as u64).concat(" ").concat(
        item_name(items_map, id).as_str(),
    ).concat(", breakeven: ").concat(leftover.unit_cost.render_share(20, 17).as_str()).concat(
        " each",
    )
}

/// An item that unlocks a recipe, with its price where it is on the market.
pub open spec fn unlocking_text(item: Item, prices: Map<u32, api::Price>) -> Seq<char> {
    item.name@ + (if prices.contains_key(item.id) {
        ", buy for "@ + amount_text(coin(prices[item.id].sells.unit_price) as real)
    } else {
        ""@
    })
}

/// The items under the keys, with their prices.
pub open spec fn unlocking_texts(
    keys: Seq<u32>,
    items: Map<u32, Item>,
    prices: Map<u32, api::Price>,
) -> Seq<Seq<char>> {
    keys.map_values(|k: u32| unlocking_text(items[k], prices))
}

/// The keys of the items that unlock a recipe, in ascending order.
pub open spec fn are_keys_unlocking(keys: Seq<u32>, items: Map<u32, Item>, recipe_id: u32) -> bool {
    &&& forall|i: int, j: int|
        0 <= i < j < keys.len() ==> (#[trigger] keys[i]) < (#[trigger] keys[j])
    &&& forall|k: u32| #[trigger]
        keys.contains(k) <==> items.contains_key(k) && unlocks(items[k], recipe_id)
}

/// How to learn a recipe.
pub open spec fn how_to_learn(
    recipe_id: u32,
    keys: Seq<u32>,
    items: Map<u32, Item>,
    prices: Map<u32, api::Price>,
) -> Seq<char> {
    let names = join(unlocking_texts(keys, items, prices), " or "@);
    if names.len() > 0 {
        names
    } else {
        "Recipe "@ + decimal(recipe_id as nat) + " is not available!"@
    }
}

fn keys_unlocking(items_map: &HashMap<u32, Item>, recipe_id: u32) -> (keys: Vec<u32>)
    ensures
        are_keys_unlocking(keys@, items_map@, recipe_id),
{
    let ghost items = items_map@;
    let mut keys: Vec<u32> = Vec::new();
    for entry in it: items_map.iter()
        invariant
            items == items_map@,
            forall|i: int|
                0 <= i < it.seq().len() ==> items.contains_key(*(#[trigger] it.seq()[i]).0)
                    && items[*it.seq()[i].0] == *it.seq()[i].1,
            forall|k: u32| #[trigger]
                keys@.contains(k) ==> items.contains_key(k) && unlocks(items[k], recipe_id),
            forall|i: int|
                0 <= i < it.index() && unlocks(items[*(#[trigger] it.seq()[i]).0], recipe_id)
                    ==> keys@.contains(*it.seq()[i].0),
    {
        if entry.1.unlocks_recipe(recipe_id) {
            let ghost before = keys@;
            keys.push(*entry.0);
            proof {
                assert forall|k: u32| #[trigger] keys@.contains(k) <==> before.contains(k) || k
                    == *entry.0 by {
                    crate::profit::lemma_contains_push(before, *entry.0, k);
                }
            }
        }
    }
    proof {
        assert forall|k: u32| items.contains_key(k) && unlocks(
            items[k],
            recipe_id,
        ) implies #[trigger] keys@.contains(k) by {
            assert(items.contains_key(k));
        }
    }
    crate::order::sorted_distinct(keys)
}

fn unlocking_message(item: &Item, prices: &HashMap<u32, api::Price>) -> (s: String)
    ensures
        s@ == unlocking_text(*item, prices@),
{
    match prices.get(&item.id) {
        Some(price) => {
            let copper: i32 = price.sells.unit_price as i32;
            item.name.clone().concat(", buy for ").concat(
                Money::from_copper(copper).render().as_str(),
            )
        },
        None => item.name.clone().concat(""),
    }
}

/// How to learn a recipe: what unlocks it, in the order of the items.
pub fn recipe_source_line(
    recipe_id: u32,
    items_map: &HashMap<u32, Item>,
    prices: &HashMap<u32, api::Price>,
) -> (s: String)
    ensures
        exists|keys: Seq<u32>| #[trigger]
            are_keys_unlocking(keys, items_map@, recipe_id) && s@ == how_to_learn(
                recipe_id,
                keys,
                items_map@,
                prices@,
            ),
{
    let keys = keys_unlocking(items_map, recipe_id);
    let mut parts: Vec<String> = Vec::new();
    let mut i: usize = 0;
    assert(texts(parts@) =~= unlocking_texts(keys@.take(0), items_map@, prices@));
    while i < keys.len()
        invariant
            i <= keys.len(),
            are_keys_unlocking(keys@, items_map@, recipe_id),
            texts(parts@) == unlocking_texts(keys@.take(i as int), items_map@, prices@),
        decreases keys.len() - i,
    {
        let ghost before = parts@;
        assert(keys@.contains(keys@[i as int]));
        if let Some(item) = items_map.get(&keys[i]) {
            let part = unlocking_message(item, prices);
            let ghost text = part@;
            parts.push(part);
            proof {
                assert(texts(parts@) =~= texts(before).push(text));
                assert(unlocking_texts(keys@.take(i + 1), items_map@, prices@)
                    =~= unlocking_texts(keys@.take(i as int), items_map@, prices@).push(text));
            }
        }
        i += 1;
    }
    assert(keys@.take(i as int) =~= keys@);
    let names = join_texts(&parts, " or ");
    let len: usize = crate::text::chars_of(names.as_str()).len();
    if len > 0 {
        names
    } else {
        String::from_str("Recipe ").concat(to_decimal(recipe_id as u64).as_str()).concat(
            " is not available!",
        )
    }
}

/// What is said of recipes that are not known to be unlocked. `lines` say how to
/// learn each of them.
pub open spec fn unknown_recipes_text(account_known: bool, lines: Seq<Seq<char>>) -> Seq<char> {
    "You "@ + (if account_known {
        "can not"@
    } else {
        "may not be able to"@
    }) + " craft this yet. Required recipes"@ + (if lines.len() > 1 {
        "s"@
    } else {
        ""@
    }) + ":\n"@ + join(lines, "\n"@)
}

/// What is said of recipes that are not known to be unlocked.
pub fn unknown_recipes_message(account_known: bool, lines: &Vec<String>) -> (s: String)
    ensures
        s@ == unknown_recipes_text(account_known, texts(lines@)),
{
    let able = if account_known {
        "can not"
    } else {
        "may not be able to"
    };
    let plural = if lines.len() > 1 {
        "s"
    } else {
        ""
    };
    String::from_str("You ").concat(able).concat(" craft this yet. Required recipes").concat(
        plural,
    ).concat(":\n").concat(join_texts(lines, "\n").as_str())
}

/// A line of the list of items.
#[derive(Clone, Debug)]
pub struct OutputRow {
    pub name: String,
    pub disciplines: String,
    pub item_id: u32,
    pub unknown_recipes: Vec<u32>,
    pub total_profit: String,
    pub number_required: u32,
    pub profit_per_item: i128,
    pub crafting_steps: u32,
    pub profit_per_step: i128,
}

/// The line of an item.
pub open spec fn is_output_row(
    row: OutputRow,
    item: ProfitableItem,
    name: Seq<char>,
    disciplines: Seq<char>,
    unknown: Seq<u32>,
) -> bool {
    &&& row.name@ == name
    &&& row.disciplines@ == disciplines
    &&& row.item_id == item.id
    &&& row.unknown_recipes@ == unknown
    &&& row.total_profit@ == amount_text(item.profit@)
    &&& row.number_required == item.count
    &&& row.profit_per_item == whole(item.profit@ * (1u32 as real) / (item.count as real))
    &&& row.crafting_steps == item.crafting_steps
    &&& row.profit_per_step == step_copper(item)
}

/// The line of an item. There is none for an item of which nothing is made.
pub fn output_row(
    item: &ProfitableItem,
    name: &str,
    disciplines: &str,
    unknown_recipes: &Vec<u32>,
) -> (row: Option<OutputRow>)
    ensures
        match row {
            Some(r) => item.count > 0 && is_output_row(
                r,
                *item,
                name@,
                disciplines@,
                unknown_recipes@,
            ),
            None => item.count == 0,
        },
{
    if item.count == 0 {
        return None;
    }
    Some(
        OutputRow {
            name: String::from_str(name),
            disciplines: String::from_str(disciplines),
            item_id: item.id,
            unknown_recipes: unknown_recipes.clone(),
            total_profit: item.profit.render(),
            number_required: item.count,
            profit_per_item: item.profit.copper_share(1, item.count),
            crafting_steps: item.crafting_steps,
            profit_per_step: if item.crafting_steps == 0 {
                0
            } else {
                item.profit.copper_share(1, item.crafting_steps)
            },
        },
    )
}

/// Ten texts in columns, the first four aligned left and the others right.
pub open spec fn in_columns(cells: Seq<Seq<char>>) -> Seq<char> {
    left_aligned(cells[0], 50) + " "@ + left_aligned(cells[1], 15) + " "@ + left_aligned(
        cells[2],
        15,
    ) + " "@ + left_aligned(cells[3], 20) + " "@ + right_aligned(cells[4], 15) + " "@
        + right_aligned(cells[5], 15) + " "@ + right_aligned(cells[6], 15) + " "@ + right_aligned(
        cells[7],
        15,
    ) + " "@ + right_aligned(cells[8], 15) + " "@ + right_aligned(cells[9], 15)
}

fn align_columns(cells: &Vec<String>) -> (s: String)
    requires
        cells@.len() == 10,
    ensures
        s@ == in_columns(texts(cells@)),
{
    align_left(cells[0].as_str(), 50).concat(" ").concat(
        align_left(cells[1].as_str(), 15).as_str(),
    ).concat(" ").concat(align_left(cells[2].as_str(), 15).as_str()).concat(" ").concat(
        align_left(cells[3].as_str(), 20).as_str(),
    ).concat(" ").concat(align_right(cells[4].as_str(), 15).as_str()).concat(" ").concat(
        align_right(cells[5].as_str(), 15).as_str(),
    ).concat(" ").concat(align_right(cells[6].as_str(), 15).as_str()).concat(" ").concat(
        align_right(cells[7].as_str(), 15).as_str(),
    ).concat(" ").concat(align_right(cells[8].as_str(), 15).as_str()).concat(" ").concat(
        align_right(cells[9].as_str(), 15).as_str(),
    )
}

/// Headings of the list.
pub open spec fn list_headings() -> Seq<Seq<char>> {
    seq![
        "Name"@,
        "Disciplines"@,
        "Item id"@,
        "Req. Recipe Ids"@,
        "Total profit"@,
        "No. required"@,
        "Profit / item"@,
        "Crafting steps"@,
        "Profit / step"@,
        "Profit on cost"@,
    ]
}

/// Headings of the list, in columns.
pub fn list_header() -> (s: String)
    ensures
        s@ == in_columns(list_headings()),
{
    let cells = vec![
        String::from_str("Name"),
        String::from_str("Disciplines"),
        String::from_str("Item id"),
        String::from_str("Req. Recipe Ids"),
        String::from_str("Total profit"),
        String::from_str("No. required"),
        String::from_str("Profit / item"),
        String::from_str("Crafting steps"),
        String::from_str("Profit / step"),
        String::from_str("Profit on cost"),
    ];
    assert(texts(cells@) =~= list_headings());
    align_columns(&cells)
}

/// What the list says of an item. `percentage` is the profit on the cost.
pub open spec fn list_cells(row: OutputRow, percentage: Seq<char>) -> Seq<Seq<char>> {
    seq![
        row.name@,
        row.disciplines@,
        decimal(row.item_id as nat),
        join(crate::request::decimals(row.unknown_recipes@), ","@),
        row.total_profit@,
        decimal(row.number_required as nat) + " item"@ + (if row.number_required > 1 {
            "s"@
        } else {
            ""@
        }),
        signed_decimal(row.profit_per_item as int) + " / item"@,
        decimal(row.crafting_steps as nat) + " steps"@,
        signed_decimal(row.profit_per_step as int) + " / step"@,
        percentage + "%"@,
    ]
}

/// Line of the list.
pub fn list_line(row: &OutputRow, percentage: &str) -> (s: String)
    ensures
        s@ == in_columns(list_cells(*row, percentage@)),
{
    let plural = if row.number_required > 1 {
        "s"
    } else {
        ""
    };
    let cells = vec![
        row.name.clone(),
        row.disciplines.clone(),
        to_decimal(row.item_id as u64),
        join_texts(&crate::request::to_decimals(&row.unknown_recipes), ","),
        row.total_profit.clone(),
        to_decimal(row.number_required as u64).concat(" item").concat(plural),
        to_signed_decimal(row.profit_per_item).concat(" / item"),
        to_decimal(row.crafting_steps as u64).concat(" steps"),
        to_signed_decimal(row.profit_per_step).concat(" / step"),
        String::from_str(percentage).concat("%"),
    ];
    assert(texts(cells@) =~= list_cells(*row, percentage@));
    align_columns(&cells)
}

/// Headings of the file that a list is written to.
pub open spec fn export_headings() -> Seq<Seq<char>> {
    seq![
        "Name"@,
        "Disciplines"@,
        "Item ID"@,
        "Unknown recipes"@,
        "Total profit"@,
        "No. required"@,
        "Profit / item"@,
        "Crafting steps"@,
        "Profit / step"@,
        "Profit on cost"@,
    ]
}

/// Headings of the file that a list is written to.
pub fn export_header() -> (cells: Vec<String>)
    ensures
        texts(cells@) == export_headings(),
{
    let cells = vec![
        String::from_str("Name"),
        String::from_str("Disciplines"),
        String::from_str("Item ID"),
        String::from_str("Unknown recipes"),
        String::from_str("Total profit"),
        String::from_str("No. required"),
        String::from_str("Profit / item"),
        String::from_str("Crafting steps"),
        String::from_str("Profit / step"),
        String::from_str("Profit on cost"),
    ];
    assert(texts(cells@) =~= export_headings());
    cells
}

/// What the file says of an item.
pub open spec fn export_cells(row: OutputRow, percentage: Seq<char>) -> Seq<Seq<char>> {
    seq![
        row.name@,
        row.disciplines@,
        decimal(row.item_id as nat),
        join(crate::request::decimals(row.unknown_recipes@), ","@),
        row.total_profit@,
        decimal(row.number_required as nat),
        signed_decimal(row.profit_per_item as int),
        decimal(row.crafting_steps as nat),
        signed_decimal(row.profit_per_step as int),
        percentage,
    ]
}

/// Line of the file.
pub fn export_line(row: &OutputRow, percentage: &str) -> (cells: Vec<String>)
    ensures
        texts(cells@) == export_cells(*row, percentage@),
{
    let cells = vec![
        row.name.clone(),
        row.disciplines.clone(),
        to_decimal(row.item_id as u64),
        join_texts(&crate::request::to_decimals(&row.unknown_recipes), ","),
        row.total_profit.clone(),
        to_decimal(row.number_required as u64),
        to_signed_decimal(row.profit_per_item),
        to_decimal(row.crafting_steps as u64),
        to_signed_decimal(row.profit_per_step),
        String::from_str(percentage),
    ];
    assert(texts(cells@) =~= export_cells(*row, percentage@));
    cells
}

/// Order of items by their profit in whole copper, highest first.
pub open spec fn more_copper() -> spec_fn(ProfitableItem, ProfitableItem) -> bool {
    |a: ProfitableItem, b: ProfitableItem| whole(a.profit@) > whole(b.profit@)
}

/// Positions of the items in the order of the file: the highest profit first.
pub fn export_order(items: &Vec<ProfitableItem>) -> (order: Vec<usize>)
    ensures
        crate::order::is_stable_order(items@, more_copper(), order@),
{
    let ghost less = more_copper();
    let before = |a: &ProfitableItem, b: &ProfitableItem| -> (r: bool)
        ensures
            r == more_copper()(*a, *b),
        { a.profit.to_copper_value() > b.profit.to_copper_value() };
    crate::order::stable_order(items, &before, Ghost(less))
}

/// Profits of the items.
pub open spec fn profits_of(items: Seq<ProfitableItem>) -> Seq<Money> {
    items.map_values(|i: ProfitableItem| i.profit)
}

/// Profit of all items, where it and the sums on the way to it can be held.
pub fn total_profit(items: &Vec<ProfitableItem>) -> (total: Option<Money>)
    ensures
        match total {
            Some(m) => m@ == sum_of(profits_of(items@)),
            None => exists|i: int|
                0 <= i <= items@.len() && !fits(sum_of(#[trigger] profits_of(items@).take(i))),
        },
{
    let mut profits: Vec<Money> = Vec::new();
    let mut i: usize = 0;
    while i < items.len()
        invariant
            i <= items.len(),
            profits@ == profits_of(items@).take(i as int),
        decreases items.len() - i,
    {
        profits.push(items[i].profit);
        i += 1;
        assert(profits@ =~= profits_of(items@).take(i as int));
    }
    assert(profits@ =~= profits_of(items@));
    Money::sum(&profits)
}

/// Best offers that are shown on each side of an order book.
pub const SHOWN_OFFERS: usize = 5;

/// Order of offers: the lowest price first for asks, the highest for bids.
pub open spec fn offer_order(asks: bool) -> spec_fn(api::Listing, api::Listing) -> bool {
    |a: api::Listing, b: api::Listing|
        if asks {
            a.unit_price < b.unit_price
        } else {
            a.unit_price > b.unit_price
        }
}

/// An offer as it is shown.
pub open spec fn offer_text(offer: api::Listing) -> Seq<char> {
    amount_text(coin(offer.unit_price) as real) + " x"@ + decimal(offer.quantity as nat)
}

/// The offers as they are shown.
pub open spec fn offer_texts(offers: Seq<api::Listing>) -> Seq<Seq<char>> {
    offers.map_values(|o: api::Listing| offer_text(o))
}

/// The best offers of one side of an order book.
pub open spec fn are_best_offers(
    lines: Seq<Seq<char>>,
    side: Seq<api::Listing>,
    asks: bool,
) -> bool {
    exists|sorted: Seq<api::Listing>| #[trigger]
        is_stable_sort(side, offer_order(asks), sorted) && lines == offer_texts(
            sorted.take(if sorted.len() <= SHOWN_OFFERS {
                sorted.len() as int
            } else {
                SHOWN_OFFERS as int
            }),
        )
}

/// The best offers of one side of an order book, the best one first.
pub fn best_offers(side: &Vec<api::Listing>, asks: bool) -> (lines: Vec<String>)
    ensures
        are_best_offers(texts(lines@), side@, asks),
{
    let mut offers: Vec<api::Listing> = Vec::new();
    let mut i: usize = 0;
    while i < side.len()
        invariant
            i <= side.len(),
            offers@ == side@.take(i as int),
        decreases side.len() - i,
    {
        offers.push(side[i]);
        i += 1;
        assert(offers@ =~= side@.take(i as int));
    }
    assert(offers@ =~= side@);
    let ghost less = offer_order(asks);
    let before = |a: &api::Listing, b: &api::Listing| -> (r: bool)
        ensures
            r == offer_order(asks)(*a, *b),
        {
            if asks {
                a.unit_price < b.unit_price
            } else {
                a.unit_price > b.unit_price
            }
        };
    let sorted = stable_sort(offers, &before, Ghost(less));
    let shown: usize = if sorted.len() <= SHOWN_OFFERS {
        sorted.len()
    } else {
        SHOWN_OFFERS
    };
    let mut lines: Vec<String> = Vec::new();
    let mut k: usize = 0;
    assert(texts(lines@) =~= offer_texts(sorted@.take(0)));
    while k < shown
        invariant
            k <= shown <= sorted.len(),
            texts(lines@) == offer_texts(sorted@.take(k as int)),
        decreases shown - k,
    {
        let ghost earlier = lines@;
        let copper: i32 = sorted[k].unit_price as i32;
        let line = Money::from_copper(copper).render().concat(" x").concat(
            to_decimal(sorted[k].quantity as u64).as_str(),
        );
        let ghost text = line@;
        lines.push(line);
        proof {
            assert(texts(lines@) =~= texts(earlier).push(text));
            assert(offer_texts(sorted@.take(k + 1)) =~= offer_texts(sorted@.take(k as int)).push(
                text,
            ));
        }
        k += 1;
    }
    assert(is_stable_sort(side@, offer_order(asks), sorted@));
    lines
}

/// Name of an item in an address.
pub open spec fn name_in_url(name: Seq<char>) -> Seq<char> {
    replaced(name, ' ', "%20"@)
}

/// Addresses of the pages of an item: its article in the wiki, a crafting
/// calculator, and a market site.
pub struct ItemLinks {
    pub wiki: String,
    pub calculator: String,
    pub market: String,
}

/// Addresses of the pages of an item. The calculator shows how to craft one.
pub fn item_links(id: u32, name: &str) -> (links: ItemLinks)
    ensures
        links.wiki@ == "https://wiki.guildwars2.com/wiki/"@ + name_in_url(name@),
        links.calculator@ == "https://gw2efficiency.com/crafting/calculator/a~1!b~1!c~1!d~1-"@
            + decimal(id as nat),
        links.market@ == "https://www.gw2bltc.com/en/item/"@ + decimal(id as nat),
{
    let encoded = replace_char(name, ' ', "%20");
    let number = to_decimal(id as u64);
    ItemLinks {
        wiki: String::from_str("https://wiki.guildwars2.com/wiki/").concat(encoded.as_str()),
        calculator: String::from_str(
            "https://gw2efficiency.com/crafting/calculator/a~1!b~1!c~1!d~1-",
        ).concat(number.as_str()),
        market: String::from_str("https://www.gw2bltc.com/en/item/").concat(number.as_str()),
    }
}

/// Colour of a rarity: its red, green and blue parts.
pub open spec fn color_of(rarity: Rarity) -> (u8, u8, u8) {
    match rarity {
        Rarity::Junk => (0xAA, 0xAA, 0xAA),
        Rarity::Basic => (0xFF, 0xFF, 0xFF),
        Rarity::Fine => (0x62, 0xA4, 0xDA),
        Rarity::Masterwork => (0x33, 0xCC, 0x33),
        Rarity::Rare => (0xF6, 0xD6, 0x4A),
        Rarity::Exotic => (0xBA, 0x5C, 0xFF),
        Rarity::Ascended => (0xFB, 0x3E, 0x8D),
        Rarity::Legendary => (0xFF, 0x84, 0x00),
    }
}

/// Colour of a rarity: its red, green and blue parts.
pub fn rarity_color(rarity: &Rarity) -> (color: (u8, u8, u8))
    ensures
        color == color_of(*rarity),
{
    match rarity {
        Rarity::Junk => (0xAA, 0xAA, 0xAA),
        Rarity::Basic => (0xFF, 0xFF, 0xFF),
        Rarity::Fine => (0x62, 0xA4, 0xDA),
        Rarity::Masterwork => (0x33, 0xCC, 0x33),
        Rarity::Rare => (0xF6, 0xD6, 0x4A),
        Rarity::Exotic => (0xBA, 0x5C, 0xFF),
        Rarity::Ascended => (0xFB, 0x3E, 0x8D),
        Rarity::Legendary => (0xFF, 0x84, 0x00),
    }
}

/// A range of prices starts with the best and ends with the worst, and is one price
/// where they are the same.
pub proof fn law_range_runs_from_best_to_worst(max: real, min: real)
    ensures
        amount_text(max).is_prefix_of(price_range_text(max, min)),
        amount_text(min).is_suffix_of(price_range_text(max, min)),
        price_range_text(max, max) == amount_text(max),
        max != min ==> price_range_text(max, min).len() == amount_text(max).len() + 4 + amount_text(
            min,
        ).len(),
{
    reveal_strlit(" to ");
    let text = price_range_text(max, min);
    let a = amount_text(max);
    let b = amount_text(min);
    assert(text.subrange(0, a.len() as int) =~= a);
    assert(text.subrange(text.len() - b.len(), text.len() as int) =~= b);
}

/// The whole copper of a step, taken for every step, never exceeds the profit, and
/// falls short of it by less than a copper for each step. Without steps it is nothing.
pub proof fn law_steps_share_the_profit(item: ProfitableItem)
    ensures
        item.crafting_steps == 0 ==> step_copper(item) == 0,
        item.crafting_steps > 0 && item.profit@ >= 0 as real ==> {
            let told = (step_copper(item) as real) * (item.crafting_steps as real);
            told <= item.profit@ && item.profit@ - told < item.crafting_steps as real
        },
        item.crafting_steps > 0 && item.profit@ <= 0 as real ==> {
            let told = (step_copper(item) as real) * (item.crafting_steps as real);
            told >= item.profit@ && told - item.profit@ < item.crafting_steps as real
        },
{
    if item.crafting_steps > 0 {
        lemma_whole_share(item.profit@, item.crafting_steps, step_copper(item));
    }
}

proof fn lemma_whole_share(profit: real, parts: u32, share: int)
    requires
        parts > 0,
        share == whole(profit * (1u32 as real) / (parts as real)),
    ensures
        profit >= 0 as real ==> (share as real) * (parts as real) <= profit && profit - (
        share as real) * (parts as real) < parts as real,
        profit <= 0 as real ==> (share as real) * (parts as real) >= profit && (share as real) * (
        parts as real) - profit < parts as real,
{
    let n: real = parts as real;
    let v: real = profit * (1u32 as real) / n;
    let w: real = share as real;
    law_whole_copper_rounds_towards_zero(v, 0);
    assert(v * n == profit) by (nonlinear_arith)
        requires
            v == profit * (1u32 as real) / n,
            n > 0 as real,
    ;
    if profit >= 0 as real {
        assert(v >= 0 as real) by (nonlinear_arith)
            requires
                v * n == profit,
                profit >= 0 as real,
                n > 0 as real,
        ;
        assert(w * n <= profit && profit - w * n < n) by (nonlinear_arith)
            requires
                v * n == profit,
                w <= v,
                v - w < 1 as real,
                n > 0 as real,
        ;
    }
    if profit <= 0 as real {
        assert(v <= 0 as real) by (nonlinear_arith)
            requires
                v * n == profit,
                profit <= 0 as real,
                n > 0 as real,
        ;
        assert(w * n >= profit && w * n - profit < n) by (nonlinear_arith)
            requires
                v * n == profit,
                w >= v,
                w - v < 1 as real,
                n > 0 as real,
        ;
    }
}

/// The headline starts with how many units are made of what, and ends with the profit
/// on the cost.
#[verifier::spinoff_prover]
pub proof fn law_headline_tells_count_and_profit(
    item: ProfitableItem,
    name: Seq<char>,
    percentage: Seq<char>,
)
    ensures
        (decimal(item.count as nat) + " x "@ + name + " = "@ + amount_text(
            whole(item.profit@) as real,
        )).is_prefix_of(headline(item, name, percentage)),
        (signed_decimal(step_copper(item)) + " / step, "@ + percentage + "%)"@).is_suffix_of(
            headline(item, name, percentage),
        ),
{
    let text = headline(item, name, percentage);
    let a = decimal(item.count as nat) + " x "@ + name + " = "@ + amount_text(
        whole(item.profit@) as real,
    );
    let b = signed_decimal(step_copper(item)) + " / step, "@ + percentage + "%)"@;
    assert(text =~= a + " profit ("@ + b);
    assert(text.subrange(0, a.len() as int) =~= a);
    assert(text.subrange(text.len() - b.len(), text.len() as int) =~= b);
}

/// The line on selling starts with the prices, the best first, and ends with the price
/// that covers the cost. The money between them is the cost and a twentieth of it.
#[verifier::spinoff_prover]
pub proof fn law_selling_tells_prices_and_money(item: ProfitableItem, money: real)
    requires
        money == item.crafting_cost@ + item.crafting_cost@ * (5 as real) / (100 as real),
    ensures
        ("Sell at: "@ + amount_text(item.max_sell@)).is_prefix_of(selling_text(item)),
        ((if item.max_sell@ == item.min_sell@ {
            ""@
        } else {
            " to "@ + amount_text(item.min_sell@)
        }) + ", Money Required: "@ + amount_text(money) + ", Breakeven price: "@ + amount_text(
            item.breakeven@,
        )).is_suffix_of(selling_text(item)),
{
    let text = selling_text(item);
    let a = "Sell at: "@ + amount_text(item.max_sell@);
    let b = (if item.max_sell@ == item.min_sell@ {
        ""@
    } else {
        " to "@ + amount_text(item.min_sell@)
    }) + ", Money Required: "@ + amount_text(money) + ", Breakeven price: "@ + amount_text(
        item.breakeven@,
    );
    reveal_strlit("");
    assert(money == with_listing_fee(item.crafting_cost@));
    assert(text =~= a + b);
    assert(text.subrange(0, a.len() as int) =~= a);
    assert(text.subrange(text.len() - b.len(), text.len() as int) =~= b);
}

/// A shopping list has what is bought on the market first, what is crafted next, and
/// what vendors sell last. Within each the most units come first, among equals the
/// dearest, and among those the highest id.
pub proof fn law_shopping_goes_by_source_and_count(
    plan: Seq<ShoppingEntry>,
    list: Shopping,
    i: int,
    j: int,
)
    requires
        is_shopping_plan(plan, list),
        0 <= i < j < plan.len(),
    ensures
        plan[j].source == Source::TradingPost ==> plan[i].source == Source::TradingPost,
        plan[i].source == Source::Vendor ==> plan[j].source == Source::Vendor,
        plan[i].source == plan[j].source ==> {
            ||| plan[i].ingredient.count > plan[j].ingredient.count
            ||| plan[i].ingredient.count == plan[j].ingredient.count
                && plan[i].ingredient.total_cost@ > plan[j].ingredient.total_cost@
            ||| plan[i].ingredient.count == plan[j].ingredient.count
                && plan[i].ingredient.total_cost@ == plan[j].ingredient.total_cost@
                && plan[i].item_id > plan[j].item_id
        },
{
    let less = shopping_order();
    let entries = choose|entries: Seq<ShoppingEntry>| #[trigger]
        are_entries(entries, list) && is_stable_sort(entries, less, plan);
    let p = choose|p: Seq<usize>| #[trigger]
        is_stable_order(entries, less, p) && plan == arranged(entries, p);
    assert(precedes(entries, less, p[i], p[j]));
    assert(p[i] != p[j]);
    let a = entries[p[i] as int];
    let b = entries[p[j] as int];
    assert(plan[i] == a && plan[j] == b);
    assert(a.item_id != b.item_id || a.source != b.source);
    assert(less(a, b) || !less(b, a));
}

/// A shopping list has a line for each ingredient and source of it, with what was
/// bought there, and for nothing else.
pub proof fn law_shopping_names_all_ingredients(
    plan: Seq<ShoppingEntry>,
    list: Shopping,
    id: u32,
    source: Source,
    i: int,
)
    requires
        is_shopping_plan(plan, list),
    ensures
        list.entry(id, source) is Some ==> exists|k: int|
            0 <= k < plan.len() && (#[trigger] plan[k]).item_id == id && plan[k].source == source,
        0 <= i < plan.len() ==> list.entry(plan[i].item_id, plan[i].source) == Some(
            batches_of(plan[i].ingredient),
        ),
{
    let less = shopping_order();
    let entries = choose|entries: Seq<ShoppingEntry>| #[trigger]
        are_entries(entries, list) && is_stable_sort(entries, less, plan);
    lemma_sort_keeps_values(entries, less, plan);
    if list.entry(id, source) is Some {
        let k: int = choose|k: int|
            0 <= k < entries.len() && (#[trigger] entries[k]).item_id == id && entries[k].source
                == source;
        assert(entries.contains(entries[k]));
        assert(plan.contains(entries[k]));
        let at: int = plan.index_of(entries[k]);
        assert(plan[at].item_id == id && plan[at].source == source);
    }
    if 0 <= i < plan.len() {
        assert(plan.contains(plan[i]));
        let k: int = entries.index_of(plan[i]);
        assert(entries[k] == plan[i]);
    }
}

/// So many full purchases of a size, and a rest.
pub open spec fn purchases_text(count: nat, full: nat, size: nat, rest: nat) -> Seq<char> {
    decimal(count) + " ("@ + decimal(full) + " x "@ + decimal(size) + (if rest > 0 {
        " + "@ + decimal(rest)
    } else {
        ""@
    }) + ")"@
}

/// Full purchases and the rest make up the units, and the rest fills no purchase.
pub proof fn law_purchases_make_up_the_units(count: u32, size: u32)
    ensures
        size > 1 && count > size ==> exists|full: nat, rest: nat|
            full * size + rest == count && rest < size && full >= 1 && count_text(count, size)
                == #[trigger] purchases_text(count as nat, full, size as nat, rest),
        size <= 1 || count <= size ==> count_text(count, size) == decimal(count as nat),
{
    if size > 1 && count > size {
        let full: nat = (count / size) as nat;
        let rest: nat = (count % size) as nat;
        assert(full * size + rest == count && rest < size && full >= 1) by (nonlinear_arith)
            requires
                full == count / size,
                rest == count % size,
                count > size,
                size > 1,
        ;
        assert(count_text(count, size) == purchases_text(count as nat, full, size as nat, rest));
    }
}

/// Units that take several purchases fit into their slots, 250 to a slot, and would
/// not fit into one less. All others take one slot.
pub proof fn law_slots_hold_the_units(count: u32, size: u32)
    ensures
        size > 1 && count > size ==> 250 * (slots_for(count, size) - 1) < count <= 250 * slots_for(
            count,
            size,
        ),
        size <= 1 || count <= size ==> slots_for(count, size) == 1,
{
}

/// What a vendor sells is bought in the vendor's batches, and everything else in stacks
/// of 250.
pub proof fn law_purchases_are_batches_or_stacks(source: Source, vendor: Option<VendorOffer>)
    ensures
        source != Source::Vendor ==> purchase_size(source, vendor) == 250,
        source == Source::Vendor ==> (vendor matches Some(offer) ==> purchase_size(source, vendor)
            == offer.batch),
        source == Source::Vendor && vendor is None ==> purchase_size(source, vendor) == 1,
{
}

/// One slot is for the product, and each ingredient adds its own.
pub proof fn law_slots_add_up(plan: Seq<ShoppingEntry>, items: Map<u32, Item>, e: ShoppingEntry)
    ensures
        slots_needed(Seq::empty(), items, 0) == 1,
        slots_needed(plan.push(e), items, plan.len() + 1) == slots_needed(plan, items, plan.len())
            + slots_for(
            e.ingredient.count,
            purchase_size(e.source, vendor_of(items, e.item_id)),
        ),
        slots_needed(plan, items, plan.len()) >= plan.len() + 1,
{
    lemma_slots_of_prefix(plan, plan.push(e), items, plan.len());
    lemma_slot_each(plan, items, plan.len());
}

proof fn lemma_slots_of_prefix(
    plan: Seq<ShoppingEntry>,
    longer: Seq<ShoppingEntry>,
    items: Map<u32, Item>,
    n: nat,
)
    requires
        n <= plan.len(),
        plan.is_prefix_of(longer),
    ensures
        slots_needed(plan, items, n) == slots_needed(longer, items, n),
    decreases n,
{
    if n > 0 {
        lemma_slots_of_prefix(plan, longer, items, (n - 1) as nat);
        assert(longer.subrange(0, plan.len() as int)[n - 1] == longer[n - 1]);
    }
}

proof fn lemma_slot_each(plan: Seq<ShoppingEntry>, items: Map<u32, Item>, n: nat)
    ensures
        slots_needed(plan, items, n) >= n + 1,
    decreases n,
{
    if n > 0 {
        lemma_slot_each(plan, items, (n - 1) as nat);
        let e = plan[n - 1];
        law_slots_hold_the_units(
            e.ingredient.count,
            purchase_size(e.source, vendor_of(items, e.item_id)),
        );
    }
}

/// The line on an ingredient from the market gives the lowest price and, where they
/// differ, the highest, and ends with what it costs in all. That on one from a vendor
/// gives the price of a batch, and ends with the price of all units. One that is
/// crafted has no price.
#[verifier::spinoff_prover]
#[verifier::rlimit(30)]
pub proof fn law_ingredients_are_priced(e: ShoppingEntry, vendor: Option<VendorOffer>)
    ensures
        e.source == Source::TradingPost ==> (" (at "@ + amount_text(
            e.ingredient.min_price@,
        )).is_prefix_of(source_text(e, vendor)) && ((if e.ingredient.max_price@
            != e.ingredient.min_price@ {
            " to "@ + amount_text(e.ingredient.max_price@)
        } else {
            ""@
        }) + ") Subtotal: "@ + amount_text(e.ingredient.total_cost@)).is_suffix_of(
            source_text(e, vendor),
        ),
        e.source == Source::Vendor ==> (vendor matches Some(offer) ==> (") Subtotal: "@
            + amount_text(offer.cost@ * (e.ingredient.count as real))).is_suffix_of(
            source_text(e, vendor),
        ) && (" (vendor: "@ + (if offer.batch > 1 {
            amount_text(offer.cost@ * (offer.batch as real))
        } else {
            amount_text(offer.cost@)
        })).is_prefix_of(source_text(e, vendor))),
        e.source == Source::Crafting ==> source_text(e, vendor).len() == 0,
{
    reveal_strlit("");
    let text = source_text(e, vendor);
    let p = e.ingredient;
    if e.source == Source::TradingPost {
        let a = " (at "@ + amount_text(p.min_price@);
        let b = (if p.max_price@ != p.min_price@ {
            " to "@ + amount_text(p.max_price@)
        } else {
            ""@
        }) + ") Subtotal: "@ + amount_text(p.total_cost@);
        assert(text =~= a + b);
        assert(text.subrange(0, a.len() as int) =~= a);
        assert(text.subrange(text.len() - b.len(), text.len() as int) =~= b);
    } else if e.source == Source::Vendor && vendor is Some {
        let offer = vendor->0;
        let all: real = offer.cost@ * (p.count as real);
        let each: real = offer.cost@ * (offer.batch as real);
        assert(all / (1u32 as real) == all);
        assert(each / (1u32 as real) == each);
        let a = " (vendor: "@ + (if offer.batch > 1 {
            amount_text(each)
        } else {
            amount_text(offer.cost@)
        });
        let per = if offer.batch > 1 {
            " per "@ + decimal(offer.batch as nat)
        } else {
            ""@
        };
        let b = ") Subtotal: "@ + amount_text(all);
        assert(text =~= a + per + b);
        assert(text.subrange(0, a.len() as int) =~= a);
        assert(text.subrange(text.len() - b.len(), text.len() as int) =~= b);
    }
}

/// The units that a step uses of an ingredient are to those that it makes as the
/// ingredient's count is to the batch, where whole batches are made.
#[verifier::spinoff_prover]
pub proof fn law_steps_use_whole_batches(
    item_id: u32,
    count: u32,
    batch: u32,
    ingredients: Seq<RecipeIngredient>,
    items: Map<u32, Item>,
    i: int,
)
    requires
        batch > 0,
        count % batch == 0,
        0 <= i < ingredients.len(),
    ensures
        exists|crafts: nat, units: nat|
            {
                &&& crafts * batch == count
                &&& units * batch == ingredients[i].count * count
                &&& ingredient_texts(ingredients, crafts, items)[i] == #[trigger] decimal(units)
                    + " "@ + shown_name(items, ingredients[i].item_id)
                &&& (shown_name(items, item_id) + " from "@ + join(
                    #[trigger] ingredient_texts(ingredients, crafts, items),
                    " "@,
                )).is_suffix_of(step_text(item_id, count, batch, ingredients, items))
            },
{
    let crafts: nat = (count / batch) as nat;
    let each: nat = ingredients[i].count as nat;
    let units: nat = each * crafts;
    assert(crafts * batch == count && units * batch == each * count) by (nonlinear_arith)
        requires
            crafts == count / batch,
            count % batch == 0,
            batch > 0,
            units == each * crafts,
    ;
    assert(ingredient_texts(ingredients, crafts, items)[i] == decimal(units) + " "@ + shown_name(
        items,
        ingredients[i].item_id,
    ));
    let text = step_text(item_id, count, batch, ingredients, items);
    let b = shown_name(items, item_id) + " from "@ + join(
        ingredient_texts(ingredients, crafts, items),
        " "@,
    );
    assert(text.subrange(text.len() - b.len(), text.len() as int) =~= b);
}

/// The price that is given for leftovers covers their cost: 85 percent of it is the
/// cost of a unit.
pub proof fn law_leftovers_break_even(
    id: u32,
    leftover: Leftover,
    items: Map<u32, Item>,
    price: real,
)
    requires
        price * (85 as real) / (100 as real) == leftover.unit_cost@,
    ensures
        leftover_text(id, leftover, items) == decimal(leftover.count as nat) + " "@ + shown_name(
            items,
            id,
        ) + ", breakeven: "@ + amount_text(price) + " each"@,
{
    assert(before_fees(leftover.unit_cost@) == price);
}

/// An item that unlocks a recipe is named, with its lowest offer where it is on the
/// market.
pub proof fn law_unlocking_items_are_priced(item: Item, prices: Map<u32, api::Price>)
    ensures
        item.name@.is_prefix_of(unlocking_text(item, prices)),
        !prices.contains_key(item.id) ==> unlocking_text(item, prices) == item.name@,
        prices.contains_key(item.id) ==> amount_text(
            coin(prices[item.id].sells.unit_price) as real,
        ).is_suffix_of(unlocking_text(item, prices)),
{
    reveal_strlit("");
    let text = unlocking_text(item, prices);
    assert(text.subrange(0, item.name@.len() as int) =~= item.name@);
    if prices.contains_key(item.id) {
        let b = amount_text(coin(prices[item.id].sells.unit_price) as real);
        assert(text.subrange(text.len() - b.len(), text.len() as int) =~= b);
    } else {
        assert(text =~= item.name@);
    }
}

/// A recipe that no item unlocks is not available, and one that a single item unlocks
/// is learned from that item.
pub proof fn law_recipes_are_learned_from_items(
    recipe_id: u32,
    keys: Seq<u32>,
    items: Map<u32, Item>,
    prices: Map<u32, api::Price>,
)
    requires
        are_keys_unlocking(keys, items, recipe_id),
    ensures
        (forall|k: u32| #[trigger] items.contains_key(k) ==> !unlocks(items[k], recipe_id))
            ==> how_to_learn(recipe_id, keys, items, prices) == "Recipe "@ + decimal(
            recipe_id as nat,
        ) + " is not available!"@,
        keys.len() == 1 && items[keys[0]].name@.len() > 0 ==> items.contains_key(keys[0])
            && unlocks(items[keys[0]], recipe_id) && how_to_learn(recipe_id, keys, items, prices)
            == unlocking_text(items[keys[0]], prices),
{
    if forall|k: u32| #[trigger] items.contains_key(k) ==> !unlocks(items[k], recipe_id) {
        if keys.len() > 0 {
            assert(keys.contains(keys[0]));
        }
        assert(unlocking_texts(keys, items, prices).len() == 0);
    }
    if keys.len() == 1 {
        assert(keys.contains(keys[0]));
        let parts = unlocking_texts(keys, items, prices);
        assert(parts[0] == unlocking_text(items[keys[0]], prices));
        assert(parts.drop_last().len() == 0);
        reveal_with_fuel(join, 2);
    }
}

/// A line of the list gives the profit shared by the units, and by the steps: taken for
/// each of them it comes within a copper each of the profit.
pub proof fn law_rows_share_the_profit(
    row: OutputRow,
    item: ProfitableItem,
    name: Seq<char>,
    disciplines: Seq<char>,
    unknown: Seq<u32>,
)
    requires
        is_output_row(row, item, name, disciplines, unknown),
        item.count > 0,
        item.profit@ >= 0 as real,
    ensures
        row.item_id == item.id,
        row.number_required == item.count,
        row.crafting_steps == item.crafting_steps,
        row.total_profit@ == amount_text(item.profit@),
        (row.profit_per_item as real) * (row.number_required as real) <= item.profit@,
        item.profit@ - (row.profit_per_item as real) * (row.number_required as real)
            < row.number_required as real,
        row.crafting_steps > 0 ==> (row.profit_per_step as real) * (row.crafting_steps as real)
            <= item.profit@,
        row.crafting_steps > 0 ==> item.profit@ - (row.profit_per_step as real) * (
        row.crafting_steps as real) < row.crafting_steps as real,
        row.crafting_steps == 0 ==> row.profit_per_step == 0,
{
    lemma_whole_share(item.profit@, item.count, row.profit_per_item as int);
    law_steps_share_the_profit(item);
}

/// Cells that fit stand at the same places of every line, one space apart.
#[verifier::spinoff_prover]
pub proof fn law_columns_line_up(cells: Seq<Seq<char>>)
    requires
        cells.len() == 10,
        cells[0].len() <= 50,
        cells[1].len() <= 15,
        cells[2].len() <= 15,
        cells[3].len() <= 20,
        forall|i: int| 4 <= i < 10 ==> (#[trigger] cells[i]).len() <= 15,
    ensures
        in_columns(cells).len() == 199,
        cells[0].is_prefix_of(in_columns(cells)),
        in_columns(cells).subrange(51, 51int + cells[1].len()) == cells[1],
        in_columns(cells).subrange(67, 67int + cells[2].len()) == cells[2],
        in_columns(cells).subrange(83, 83int + cells[3].len()) == cells[3],
        in_columns(cells).subrange(119 - cells[4].len(), 119) == cells[4],
        in_columns(cells).subrange(135 - cells[5].len(), 135) == cells[5],
        in_columns(cells).subrange(151 - cells[6].len(), 151) == cells[6],
        in_columns(cells).subrange(167 - cells[7].len(), 167) == cells[7],
        in_columns(cells).subrange(183 - cells[8].len(), 183) == cells[8],
        in_columns(cells).subrange(199 - cells[9].len(), 199) == cells[9],
{
    reveal_strlit(" ");
    law_aligned_text_fills_the_width(cells[0], 50);
    law_aligned_text_fills_the_width(cells[1], 15);
    law_aligned_text_fills_the_width(cells[2], 15);
    law_aligned_text_fills_the_width(cells[3], 20);
    law_aligned_text_fills_the_width(cells[4], 15);
    law_aligned_text_fills_the_width(cells[5], 15);
    law_aligned_text_fills_the_width(cells[6], 15);
    law_aligned_text_fills_the_width(cells[7], 15);
    law_aligned_text_fills_the_width(cells[8], 15);
    law_aligned_text_fills_the_width(cells[9], 15);
    let line = in_columns(cells);
    assert(line.subrange(0, 50) =~= left_aligned(cells[0], 50));
    assert(line.subrange(51, 66) =~= left_aligned(cells[1], 15));
    assert(line.subrange(67, 82) =~= left_aligned(cells[2], 15));
    assert(line.subrange(83, 103) =~= left_aligned(cells[3], 20));
    assert(line.subrange(104, 119) =~= right_aligned(cells[4], 15));
    assert(line.subrange(120, 135) =~= right_aligned(cells[5], 15));
    assert(line.subrange(136, 151) =~= right_aligned(cells[6], 15));
    assert(line.subrange(152, 167) =~= right_aligned(cells[7], 15));
    assert(line.subrange(168, 183) =~= right_aligned(cells[8], 15));
    assert(line.subrange(184, 199) =~= right_aligned(cells[9], 15));
    lemma_left_part(line, cells[0], 0, 50);
    assert(line.subrange(0, cells[0].len() as int) =~= cells[0]);
    lemma_left_part(line, cells[1], 51, 66);
    lemma_left_part(line, cells[2], 67, 82);
    lemma_left_part(line, cells[3], 83, 103);
    lemma_right_part(line, cells[4], 104, 119);
    lemma_right_part(line, cells[5], 120, 135);
    lemma_right_part(line, cells[6], 136, 151);
    lemma_right_part(line, cells[7], 152, 167);
    lemma_right_part(line, cells[8], 168, 183);
    lemma_right_part(line, cells[9], 184, 199);
}

proof fn lemma_left_part(line: Seq<char>, cell: Seq<char>, from: int, to: int)
    requires
        0 <= from <= to <= line.len(),
        cell.is_prefix_of(line.subrange(from, to)),
    ensures
        line.subrange(from, from + cell.len()) == cell,
{
    assert(line.subrange(from, from + cell.len()) =~= line.subrange(from, to).subrange(
        0,
        cell.len() as int,
    ));
}

proof fn lemma_right_part(line: Seq<char>, cell: Seq<char>, from: int, to: int)
    requires
        0 <= from <= to <= line.len(),
        cell.is_suffix_of(line.subrange(from, to)),
    ensures
        line.subrange(to - cell.len(), to) == cell,
{
    assert(line.subrange(to - cell.len(), to) =~= line.subrange(from, to).subrange(
        to - from - cell.len(),
        to - from,
    ));
}

/// What a cell of the list and of the file says is what the heading over it names.
pub proof fn law_cells_stand_under_their_heading(row: OutputRow, percentage: Seq<char>)
    ensures
        ({
            let list = list_cells(row, percentage);
            let file = export_cells(row, percentage);
            &&& list_headings().len() == 10 && list.len() == 10
            &&& export_headings().len() == 10 && file.len() == 10
            &&& list_headings()[0] == "Name"@ && list[0] == row.name@
            &&& export_headings()[0] == "Name"@ && file[0] == row.name@
            &&& list_headings()[1] == "Disciplines"@ && list[1] == row.disciplines@
            &&& export_headings()[1] == "Disciplines"@ && file[1] == row.disciplines@
            &&& list_headings()[2] == "Item id"@ && list[2] == decimal(row.item_id as nat)
            &&& export_headings()[2] == "Item ID"@ && file[2] == decimal(row.item_id as nat)
            &&& list_headings()[3] == "Req. Recipe Ids"@ && list[3] == join(crate::request::decimals(row.unknown_recipes@), ","@)
            &&& export_headings()[3] == "Unknown recipes"@ && file[3] == join(crate::request::decimals(row.unknown_recipes@), ","@)
            &&& list_headings()[4] == "Total profit"@ && list[4] == row.total_profit@
            &&& export_headings()[4] == "Total profit"@ && file[4] == row.total_profit@
            &&& list_headings()[5] == "No. required"@ && decimal(row.number_required as nat).is_prefix_of(list[5])
            &&& export_headings()[5] == "No. required"@ && file[5] == decimal(row.number_required as nat)
            &&& list_headings()[6] == "Profit / item"@ && list[6] == signed_decimal(row.profit_per_item as int) + " / item"@
            &&& export_headings()[6] == "Profit / item"@ && file[6] == signed_decimal(row.profit_per_item as int)
            &&& list_headings()[7] == "Crafting steps"@ && list[7] == decimal(row.crafting_steps as nat) + " steps"@
            &&& export_headings()[7] == "Crafting steps"@ && file[7] == decimal(row.crafting_steps as nat)
            &&& list_headings()[8] == "Profit / step"@ && list[8] == signed_decimal(row.profit_per_step as int) + " / step"@
            &&& export_headings()[8] == "Profit / step"@ && file[8] == signed_decimal(row.profit_per_step as int)
            &&& list_headings()[9] == "Profit on cost"@ && list[9] == percentage + "%"@
            &&& export_headings()[9] == "Profit on cost"@ && file[9] == percentage
        }),
{
    let a = decimal(row.number_required as nat);
    let b = list_cells(row, percentage)[5];
    assert(b.subrange(0, a.len() as int) =~= a);
}

/// The file has the items with the most whole copper first, and those with as much in
/// the order of the list. Every item is there once.
pub proof fn law_export_goes_by_profit(
    items: Seq<ProfitableItem>,
    order: Seq<usize>,
    i: int,
    j: int,
)
    requires
        is_stable_order(items, more_copper(), order),
        0 <= i < j < order.len(),
    ensures
        order.len() == items.len(),
        order[i] != order[j],
        order[i] < items.len() && order[j] < items.len(),
        whole(items[order[i] as int].profit@) >= whole(items[order[j] as int].profit@),
        whole(items[order[i] as int].profit@) == whole(items[order[j] as int].profit@)
            ==> order[i] < order[j],
{
    assert(precedes(items, more_copper(), order[i], order[j]));
}

/// The profit of all items is that of all but one and that one's, whichever is left
/// out last.
pub proof fn law_profits_add_up(items: Seq<ProfitableItem>, item: ProfitableItem)
    ensures
        sum_of(profits_of(Seq::empty())) == 0 as real,
        sum_of(profits_of(items.push(item))) == sum_of(profits_of(items)) + item.profit@,
{
    assert(profits_of(items.push(item)).drop_last() =~= profits_of(items));
    assert(profits_of(items.push(item)).last() == item.profit);
    assert(profits_of(Seq::empty()).len() == 0);
}

/// Of an order book at most five offers are shown, and all where there are no more.
/// They go from the best to the worst, and no offer that is left out is better.
pub proof fn law_best_offers_are_shown(
    lines: Seq<Seq<char>>,
    side: Seq<api::Listing>,
    asks: bool,
    i: int,
    k: int,
)
    requires
        are_best_offers(lines, side, asks),
        0 <= i < lines.len(),
        0 <= k < side.len(),
    ensures
        lines.len() == (if side.len() < 5 {
            side.len()
        } else {
            5
        }),
        exists|offer: api::Listing|
            side.contains(offer) && lines[i] == #[trigger] offer_text(offer) && ((exists|j: int|
                0 <= j <= i && lines[j] == offer_text(side[k])) || (if asks {
                offer.unit_price <= side[k].unit_price
            } else {
                offer.unit_price >= side[k].unit_price
            })),
{
    let less = offer_order(asks);
    let sorted = choose|sorted: Seq<api::Listing>| #[trigger]
        is_stable_sort(side, less, sorted) && lines == offer_texts(
            sorted.take(if sorted.len() <= SHOWN_OFFERS {
                sorted.len() as int
            } else {
                SHOWN_OFFERS as int
            }),
        );
    let p = choose|p: Seq<usize>| #[trigger]
        is_stable_order(side, less, p) && sorted == arranged(side, p);
    lemma_position_found(p, side.len(), k);
    let at: int = p.index_of(k as usize);
    assert(p[at] == k);
    let offer = sorted[i];
    assert(offer == side[p[i] as int]);
    assert(side.contains(offer));
    assert(lines[i] == offer_text(offer));
    if at <= i {
        assert(sorted[at] == side[k]);
        assert(lines[at] == offer_text(side[k]));
    } else {
        assert(precedes(side, less, p[i], p[at]));
        assert(less(offer, side[k]) || !less(side[k], offer));
    }
}

/// The name of an item stands in an address without any space, and is otherwise as it
/// was.
pub proof fn law_addresses_hold_no_space(name: Seq<char>)
    ensures
        !name_in_url(name).contains(' '),
        !name.contains(' ') ==> name_in_url(name) == name,
    decreases name.len(),
{
    reveal_strlit("%20");
    if name.len() > 0 {
        let rest = name.drop_last();
        law_addresses_hold_no_space(rest);
        if !name.contains(' ') {
            assert(name[name.len() - 1] != ' ');
            assert forall|i: int| 0 <= i < rest.len() implies rest[i] != ' ' by {
                assert(name[i] == rest[i]);
            }
            assert(rest + seq![name.last()] =~= name);
        }
        let added = if name.last() == ' ' {
            "%20"@
        } else {
            seq![name.last()]
        };
        assert(name_in_url(name) == name_in_url(rest) + added);
        assert forall|i: int| 0 <= i < name_in_url(name).len() implies name_in_url(name)[i]
            != ' ' by {
            if i < name_in_url(rest).len() {
                assert(name_in_url(rest).contains(name_in_url(rest)[i]));
            }
        }
    }
}

/// The address of the steps ends in the item behind the number of units.
pub proof fn law_steps_address_names_count_and_item(count: u32, item_id: u32)
    ensures
        ("d~"@ + decimal(count as nat) + "-"@ + decimal(item_id as nat)).is_suffix_of(
            steps_address(count, item_id),
        ),
{
    reveal_strlit("https://gw2efficiency.com/crafting/calculator/a~1!b~1!c~1!d~");
    reveal_strlit("d~");
    let text = steps_address(count, item_id);
    let b = "d~"@ + decimal(count as nat) + "-"@ + decimal(item_id as nat);
    assert(text.subrange(text.len() - b.len(), text.len() as int) =~= b);
}

/// Colours, each as one number.
pub proof fn law_rarities_have_their_color(rarity: Rarity)
    ensures
        ({
            let c = color_of(rarity);
            c.0 * 0x1_00_00 + c.1 * 0x1_00 + c.2
        }) == (match rarity {
            Rarity::Junk => 0xAA_AA_AAint,
            Rarity::Basic => 0xFF_FF_FFint,
            Rarity::Fine => 0x62_A4_DAint,
            Rarity::Masterwork => 0x33_CC_33int,
            Rarity::Rare => 0xF6_D6_4Aint,
            Rarity::Exotic => 0xBA_5C_FFint,
            Rarity::Ascended => 0xFB_3E_8Dint,
            Rarity::Legendary => 0xFF_84_00int,
        }),
{
}

/// Recipes that are missing are told as certain exactly if the account is known, and
/// each of them has its line.
#[verifier::spinoff_prover]
pub proof fn law_missing_recipes_are_told(account_known: bool, lines: Seq<Seq<char>>)
    ensures
        (if account_known {
            "You can not craft"@
        } else {
            "You may not be able to craft"@
        }).is_prefix_of(unknown_recipes_text(account_known, lines)),
        ((if lines.len() > 1 {
            "s:\n"@
        } else {
            ":\n"@
        }) + join(lines, "\n"@)).is_suffix_of(unknown_recipes_text(account_known, lines)),
{
    reveal_strlit("You ");
    reveal_strlit("can not");
    reveal_strlit("may not be able to");
    reveal_strlit(" craft this yet. Required recipes");
    reveal_strlit("You can not craft");
    reveal_strlit("You may not be able to craft");
    reveal_strlit("s");
    reveal_strlit("");
    reveal_strlit(":\n");
    reveal_strlit("s:\n");
    let text = unknown_recipes_text(account_known, lines);
    let a = if account_known {
        "You can not craft"@
    } else {
        "You may not be able to craft"@
    };
    let b = (if lines.len() > 1 {
        "s:\n"@
    } else {
        ":\n"@
    }) + join(lines, "\n"@);
    assert(text.subrange(0, a.len() as int) =~= a);
    assert(text.subrange(text.len() - b.len(), text.len() as int) =~= b);
}

} // verus!
