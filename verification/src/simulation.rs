//! Simulation of crafting an item batch by batch until it stops paying.
//!
//! Each round asks for the cheapest way to make one more batch, sells the batch
//! into the order book and buys what the batch used up. How the cheapest way is
//! found is left to the caller: a round is exact for every answer.

use crate::api;
use crate::crafting::{CraftedItems, PreciseCraftingCost, Purchase, PurchasedIngredient, Source};
use crate::listings::{
    can_fill, can_sell, coin, coin_total, fill, first_units, highest,
    law_cost_lies_in_the_price_range, law_costs_add_up, law_trade_leaves_the_other_units,
    law_trades_compose, lemma_highest_is_part_of_total, lemma_range, levels_left, levels_of, lowest, proceeds, total, units,
    ItemListings, Listing,
};
use crate::money::{fits, lemma_fits, Money};
use std::collections::{BTreeMap, HashMap};
use vstd::prelude::*;

verus! {

/// How much is crafted at most.
#[derive(Clone, Copy, Debug, PartialEq, Eq, Structural)]
pub enum CountLimit {
    Unlimited,
    /// So many units of the product.
    Items(u32),
    /// So many crafts, each of which makes a full batch.
    Crafts(u32),
}

/// Settings of a simulation.
#[derive(Clone, Copy, Debug, PartialEq, Eq, Structural)]
pub struct CraftingOptions {
    /// Price that every unit fetches, in place of the order book.
    pub value: Option<u32>,
    /// Best price to report for a product without an order book.
    pub threshold: Option<u32>,
    pub count_limit: CountLimit,
    /// Copper that a batch has to earn. Below zero it is a loss to put up with.
    pub profit_threshold: i64,
    /// Whether to place orders and wait, in place of taking what is on offer.
    pub patient: bool,
}

impl CraftingOptions {
    /// Copper that a batch has to earn.
    pub open spec fn margin(self) -> real {
        ((self.profit_threshold as i32) as int) as real
    }
}

/// Why a simulation cannot go on.
#[derive(Clone, Copy, Debug, PartialEq, Eq, Structural)]
pub enum RunError {
    /// There is no order book for the item.
    MissingListings(u32),
    /// The order book has fewer units of the item than were to be bought.
    CannotBuy(u32),
    /// A number left its range: an amount, a count, or the units of a level.
    OutOfRange,
}

/// Both sides of an order book.
#[verifier::ext_equal]
pub struct Book {
    pub buys: Seq<Listing>,
    pub sells: Seq<Listing>,
}

impl Book {
    /// Side that a sale is filled from.
    pub open spec fn sale_side(self, patient: bool) -> Seq<Listing> {
        if patient {
            self.sells
        } else {
            self.buys
        }
    }

    /// Side that a purchase is filled from.
    pub open spec fn purchase_side(self, patient: bool) -> Seq<Listing> {
        if patient {
            self.buys
        } else {
            self.sells
        }
    }

    /// The book when `count` units have been sold.
    pub open spec fn after_sale(self, count: nat, patient: bool) -> Book {
        if patient {
            Book { buys: self.buys, sells: levels_left(self.sells, count) }
        } else {
            Book { buys: levels_left(self.buys, count), sells: self.sells }
        }
    }

    /// The book when `count` units have been bought.
    pub open spec fn after_purchase(self, count: nat, patient: bool) -> Book {
        if patient {
            Book { buys: levels_left(self.buys, count), sells: self.sells }
        } else {
            Book { buys: self.buys, sells: levels_left(self.sells, count) }
        }
    }
}

/// Both sides of a book.
pub open spec fn book_of(listings: ItemListings) -> Book {
    Book { buys: listings.buys@, sells: listings.sells@ }
}

/// Both sides of each book.
pub open spec fn books_of(listings: Map<u32, ItemListings>) -> Map<u32, Book> {
    listings.map_values(|l: ItemListings| book_of(l))
}

/// Both sides of each book that the trading post reported.
pub open spec fn reported_books(listings: Map<u32, api::ItemListings>) -> Map<u32, Book> {
    listings.map_values(
        |l: api::ItemListings| Book { buys: levels_of(l.buys@), sells: levels_of(l.sells@) },
    )
}

/// No purchase is pending in any of the books.
pub open spec fn nothing_reserved(listings: Map<u32, ItemListings>) -> bool {
    forall|id: u32| #[trigger]
        listings.contains_key(id) ==> listings[id].pending_buy_quantity == 0
            && listings[id].pending_sell_quantity == 0
}

/// Purchases of one ingredient from one source: the units, the range of prices
/// and the cost.
#[verifier::ext_equal]
pub struct Batches {
    pub count: nat,
    pub min_price: real,
    pub max_price: real,
    pub total_cost: real,
}

/// What has been recorded for an ingredient.
pub open spec fn batches_of(p: PurchasedIngredient) -> Batches {
    Batches {
        count: p.count as nat,
        min_price: p.min_price@,
        max_price: p.max_price@,
        total_cost: p.total_cost@,
    }
}

/// What is recorded for an ingredient after `count` more units at `cost`, the
/// cheapest of them at the price `lowest` and the dearest at `highest`.
pub open spec fn with_batch(
    earlier: Option<Batches>,
    count: nat,
    cost: u32,
    lowest: u32,
    highest: u32,
) -> Batches {
    let p = match earlier {
        Some(p) => p,
        None => Batches {
            count: 0,
            min_price: 0 as real,
            max_price: 0 as real,
            total_cost: 0 as real,
        },
    };
    let low = coin(lowest) as real;
    let high = coin(highest) as real;
    Batches {
        count: p.count + count,
        min_price: if p.count == 0 || low < p.min_price {
            low
        } else {
            p.min_price
        },
        max_price: if p.count == 0 || p.max_price < high {
            high
        } else {
            p.max_price
        },
        total_cost: p.total_cost + coin(cost) as real,
    }
}

/// Ingredients to get hold of, by source.
#[derive(Clone, Debug)]
pub struct ShoppingList {
    pub crafting: BTreeMap<u32, PurchasedIngredient>,
    pub trading_post: BTreeMap<u32, PurchasedIngredient>,
    pub vendor: BTreeMap<u32, PurchasedIngredient>,
}

/// What has been recorded for each ingredient, by source.
#[verifier::ext_equal]
pub struct Shopping {
    pub crafting: Map<u32, Batches>,
    pub trading_post: Map<u32, Batches>,
    pub vendor: Map<u32, Batches>,
}

impl Shopping {
    /// What has been recorded for the ingredients from a source.
    pub open spec fn of(self, source: Source) -> Map<u32, Batches> {
        match source {
            Source::Crafting => self.crafting,
            Source::TradingPost => self.trading_post,
            Source::Vendor => self.vendor,
        }
    }

    /// With other records for the ingredients from a source.
    pub open spec fn with(self, source: Source, entries: Map<u32, Batches>) -> Shopping {
        match source {
            Source::Crafting => Shopping { crafting: entries, ..self },
            Source::TradingPost => Shopping { trading_post: entries, ..self },
            Source::Vendor => Shopping { vendor: entries, ..self },
        }
    }

    /// What has been recorded for an ingredient.
    pub open spec fn entry(self, id: u32, source: Source) -> Option<Batches> {
        if self.of(source).contains_key(id) {
            Some(self.of(source)[id])
        } else {
            None
        }
    }
}

/// What each record holds.
pub open spec fn entries_of(m: Map<u32, PurchasedIngredient>) -> Map<u32, Batches> {
    m.map_values(|p: PurchasedIngredient| batches_of(p))
}

impl View for ShoppingList {
    type V = Shopping;

    open spec fn view(&self) -> Shopping {
        Shopping {
            crafting: entries_of(self.crafting@),
            trading_post: entries_of(self.trading_post@),
            vendor: entries_of(self.vendor@),
        }
    }
}

/// Adds a batch to the record of an ingredient, where the record can hold it.
fn record_batch(
    entries: &mut BTreeMap<u32, PurchasedIngredient>,
    id: u32,
    count: u32,
    cost: u32,
    lowest: u32,
    highest: u32,
) -> (ok: bool)
    ensures
        ({
            let before = entries_of(old(entries)@);
            let earlier = if before.contains_key(id) {
                Some(before[id])
            } else {
                None
            };
            let now = with_batch(earlier, count as nat, cost, lowest, highest);
            &&& ok == (now.count <= u32::MAX && fits(now.total_cost))
            &&& ok ==> entries_of(final(entries)@) == before.insert(id, now)
        }),
{
    let ghost before = entries_of(entries@);
    let earlier: PurchasedIngredient = match entries.get(&id) {
        Some(p) => *p,
        None => PurchasedIngredient {
            count: 0,
            min_price: Money::zero(),
            max_price: Money::zero(),
            total_cost: Money::zero(),
        },
    };
    let batch_min = Money::from_copper(lowest as i32);
    let batch_max = Money::from_copper(highest as i32);
    let total = match earlier.total_cost.checked_plus(Money::from_copper(cost as i32)) {
        Some(total) => total,
        None => return false,
    };
    if count > u32::MAX - earlier.count {
        return false;
    }
    let now = PurchasedIngredient {
        count: earlier.count + count,
        min_price: if earlier.count == 0 {
            batch_min
        } else {
            earlier.min_price.min(batch_min)
        },
        max_price: if earlier.count == 0 {
            batch_max
        } else {
            earlier.max_price.max(batch_max)
        },
        total_cost: total,
    };
    entries.insert(id, now);
    assert(entries_of(entries@) =~= before.insert(id, batches_of(now)));
    true
}

impl ShoppingList {
    /// Nothing to get hold of yet.
    pub fn empty() -> (list: ShoppingList)
        ensures
            list@ == (Shopping {
                crafting: Map::empty(),
                trading_post: Map::empty(),
                vendor: Map::empty(),
            }),
    {
        let list = ShoppingList {
            crafting: BTreeMap::new(),
            trading_post: BTreeMap::new(),
            vendor: BTreeMap::new(),
        };
        assert(entries_of(Map::empty()) =~= Map::empty());
        list
    }

    /// Adds a batch, where the record of the ingredient can hold it.
    fn record(
        &mut self,
        id: u32,
        source: Source,
        count: u32,
        cost: u32,
        lowest: u32,
        highest: u32,
    ) -> (ok: bool)
        ensures
            ({
                let now = with_batch(
                    old(self)@.entry(id, source),
                    count as nat,
                    cost,
                    lowest,
                    highest,
                );
                &&& ok == (now.count <= u32::MAX && fits(now.total_cost))
                &&& ok ==> final(self)@ == old(self)@.with(
                    source,
                    old(self)@.of(source).insert(id, now),
                )
            }),
    {
        match source {
            Source::Crafting => record_batch(
                &mut self.crafting,
                id,
                count,
                cost,
                lowest,
                highest,
            ),
            Source::TradingPost => record_batch(
                &mut self.trading_post,
                id,
                count,
                cost,
                lowest,
                highest,
            ),
            Source::Vendor => record_batch(&mut self.vendor, id, count, cost, lowest, highest),
        }
    }
}

/// The books and the shopping list while purchases are made.
#[verifier::ext_equal]
pub struct Stock {
    pub books: Map<u32, Book>,
    /// Nothing is recorded where no list is kept.
    pub shopping: Option<Shopping>,
}

/// The shopping list with one more batch.
pub open spec fn recorded(
    shopping: Option<Shopping>,
    p: Purchase,
    cost: u32,
    lowest: u32,
    highest: u32,
) -> Result<Option<Shopping>, RunError> {
    match shopping {
        None => Ok(None),
        Some(list) => {
            let now = with_batch(
                list.entry(p.item_id, p.source),
                p.count as nat,
                cost,
                lowest,
                highest,
            );
            if now.count <= u32::MAX && fits(now.total_cost) {
                Ok(Some(list.with(p.source, list.of(p.source).insert(p.item_id, now))))
            } else {
                Err(RunError::OutOfRange)
            }
        },
    }
}

/// One purchase. Only what comes from the trading post has a price here.
pub open spec fn purchase(stock: Stock, p: Purchase, patient: bool) -> Result<Stock, RunError> {
    if p.source == Source::TradingPost {
        if !stock.books.contains_key(p.item_id) {
            Err(RunError::MissingListings(p.item_id))
        } else {
            let book = stock.books[p.item_id];
            let side = book.purchase_side(patient);
            if !can_fill(side, p.count as nat) {
                Err(RunError::OutOfRange)
            } else {
                match fill(side, p.count as nat) {
                    None => Err(RunError::CannotBuy(p.item_id)),
                    Some((cost, _, _)) => match recorded(
                        stock.shopping,
                        p,
                        cost as u32,
                        lowest(first_units(units(side), p.count as nat)),
                        highest(first_units(units(side), p.count as nat)),
                    ) {
                        Ok(shopping) => Ok(
                            Stock {
                                books: stock.books.insert(
                                    p.item_id,
                                    book.after_purchase(p.count as nat, patient),
                                ),
                                shopping,
                            },
                        ),
                        Err(e) => Err(e),
                    },
                }
            }
        }
    } else {
        match recorded(stock.shopping, p, 0, 0, 0) {
            Ok(shopping) => Ok(Stock { books: stock.books, shopping }),
            Err(e) => Err(e),
        }
    }
}

/// The first `n` purchases, one after the other.
pub open spec fn purchases_made(
    stock: Stock,
    purchases: Seq<Purchase>,
    n: nat,
    patient: bool,
) -> Result<Stock, RunError>
    decreases n,
{
    if n == 0 {
        Ok(stock)
    } else {
        match purchases_made(stock, purchases, (n - 1) as nat, patient) {
            Ok(s) => purchase(s, purchases[n - 1], patient),
            Err(e) => Err(e),
        }
    }
}

proof fn lemma_failure_stays(
    stock: Stock,
    purchases: Seq<Purchase>,
    i: nat,
    n: nat,
    patient: bool,
)
    requires
        i <= n,
        purchases_made(stock, purchases, i, patient) is Err,
    ensures
        purchases_made(stock, purchases, n, patient) == purchases_made(
            stock,
            purchases,
            i,
            patient,
        ),
    decreases n,
{
    if i < n {
        lemma_failure_stays(stock, purchases, i, (n - 1) as nat, patient);
    }
}

/// Makes one purchase.
fn make_purchase(
    books: &mut BTreeMap<u32, ItemListings>,
    shopping: &mut Option<ShoppingList>,
    p: Purchase,
    patient: bool,
) -> (res: Result<(), RunError>)
    ensures
        nothing_reserved(old(books)@) ==> nothing_reserved(final(books)@),
        match (
            res,
            purchase(
                Stock { books: books_of(old(books)@), shopping: shopping_of(*old(shopping)) },
                p,
                patient,
            ),
        ) {
            (Ok(_), Ok(stock)) => stock.books == books_of(final(books)@) && stock.shopping
                == shopping_of(*final(shopping)),
            (Err(e), Err(f)) => e == f,
            _ => false,
        },
{
    let ghost start = books_of(books@);
    let mut cost: u32 = 0;
    let mut range: (u32, u32) = (0, 0);
    if let Source::TradingPost = p.source {
        let mut listing = match books.remove(&p.item_id) {
            Some(listing) => listing,
            None => return Err(RunError::MissingListings(p.item_id)),
        };
        let ghost book = book_of(listing);
        if !listing.purchase_is_possible(p.count, patient) {
            return Err(RunError::OutOfRange);
        }
        range = listing.price_range(p.count, patient);
        cost = match listing.buy_with_mode(p.count, patient) {
            Some(bought) => bought.0,
            None => return Err(RunError::CannotBuy(p.item_id)),
        };
        assert(book_of(listing) =~= book.after_purchase(p.count as nat, patient));
        books.insert(p.item_id, listing);
        assert(books_of(books@) =~= start.insert(p.item_id, book_of(listing)));
    }
    let kept: Option<ShoppingList> = shopping.take();
    if let Some(list) = kept {
        let mut list = list;
        if !list.record(p.item_id, p.source, p.count, cost, range.0, range.1) {
            return Err(RunError::OutOfRange);
        }
        *shopping = Some(list);
    }
    Ok(())
}

/// What the shopping list has recorded.
pub open spec fn shopping_of(list: Option<ShoppingList>) -> Option<Shopping> {
    match list {
        Some(list) => Some(list@),
        None => None,
    }
}

/// What the rounds so far add up to.
#[derive(Clone, Debug)]
pub struct Tally {
    pub profit: Money,
    pub crafting_cost: Money,
    /// Units made.
    pub count: u32,
    /// Rounds made.
    pub crafts: u32,
    /// Price of the last unit sold.
    pub min_sell: u32,
    /// Cost of a unit of the last batch.
    pub unit_cost: Money,
    pub crafted: CraftedItems,
    /// What was bought, where a list is kept.
    pub shopping: Option<ShoppingList>,
}

/// A simulation between two rounds.
#[derive(Clone, Debug)]
pub struct CraftingRun {
    pub item_id: u32,
    /// Units that one craft makes.
    pub batch: u32,
    pub options: CraftingOptions,
    pub books: BTreeMap<u32, ItemListings>,
    pub tally: Tally,
}

/// What the rounds so far add up to.
#[verifier::ext_equal]
pub struct Totals {
    pub profit: real,
    pub crafting_cost: real,
    pub count: nat,
    pub crafts: nat,
    pub min_sell: u32,
    pub unit_cost: real,
    pub crafted: CraftedItems,
    pub shopping: Option<Shopping>,
}

impl View for Tally {
    type V = Totals;

    open spec fn view(&self) -> Totals {
        Totals {
            profit: self.profit@,
            crafting_cost: self.crafting_cost@,
            count: self.count as nat,
            crafts: self.crafts as nat,
            min_sell: self.min_sell,
            unit_cost: self.unit_cost@,
            crafted: self.crafted,
            shopping: shopping_of(self.shopping),
        }
    }
}

/// A simulation between two rounds.
#[verifier::ext_equal]
pub struct RunState {
    pub item_id: u32,
    pub batch: u32,
    pub options: CraftingOptions,
    pub books: Map<u32, Book>,
    pub totals: Totals,
}

impl View for CraftingRun {
    type V = RunState;

    open spec fn view(&self) -> RunState {
        RunState {
            item_id: self.item_id,
            batch: self.batch,
            options: self.options,
            books: books_of(self.books@),
            totals: self.tally@,
        }
    }
}

/// How a round ends.
pub enum Round {
    /// The batch was made.
    Made(RunState),
    /// The batch does not pay, or cannot be made or sold.
    Stopped,
    /// The batch cannot be accounted for.
    Failed(RunError),
}

/// What selling a batch brings in, with the price of its last unit, and the
/// books afterwards. There is no sale where the book has too few units.
pub open spec fn sale_of_batch(run: RunState) -> Result<
    Option<(real, u32, Map<u32, Book>)>,
    RunError,
> {
    match run.options.value {
        Some(price) => Ok(Some(((coin(price) * run.batch) as real, price, run.books))),
        None => if !run.books.contains_key(run.item_id) {
            Err(RunError::MissingListings(run.item_id))
        } else {
            let book = run.books[run.item_id];
            let side = book.sale_side(run.options.patient);
            if !can_sell(side, run.batch as nat) {
                Err(RunError::OutOfRange)
            } else {
                match proceeds(side, run.batch as nat) {
                    None => Ok(None),
                    Some((revenue, last)) => Ok(
                        Some(
                            (
                                revenue,
                                last,
                                run.books.insert(
                                    run.item_id,
                                    book.after_sale(run.batch as nat, run.options.patient),
                                ),
                            ),
                        ),
                    ),
                }
            }
        },
    }
}

/// The numbers that making a batch at `cost` adds up to can all be held.
pub open spec fn totals_fit(run: RunState, cost: real) -> bool {
    let t = run.totals;
    &&& fits(t.crafting_cost + cost)
    &&& t.count + run.batch <= u32::MAX
    &&& t.crafts < u32::MAX
    &&& run.batch > 0
    &&& fits(cost / (run.batch as real))
}

/// One round, given the cheapest way to make the batch.
///
/// A batch pays when the sale brings in the cost and the margin. Below a margin
/// of zero the running total has to stay above it too.
pub open spec fn round(run: RunState, found: Option<PreciseCraftingCost>) -> Round {
    match found {
        Some(way) if way.source == Source::Crafting => {
            let cost = way.cost@;
            let margin = run.options.margin();
            let t = run.totals;
            match sale_of_batch(run) {
                Err(e) => Round::Failed(e),
                Ok(None) => Round::Stopped,
                Ok(Some((revenue, last, books))) => {
                    let profit = t.profit + (revenue - cost);
                    if !fits(cost + margin) {
                        Round::Failed(RunError::OutOfRange)
                    } else if revenue < cost + margin {
                        Round::Stopped
                    } else if !fits(revenue - cost) || !fits(profit) {
                        Round::Failed(RunError::OutOfRange)
                    } else if margin < 0 as real && profit <= margin {
                        Round::Stopped
                    } else if !totals_fit(run, cost) {
                        Round::Failed(RunError::OutOfRange)
                    } else {
                        match purchases_made(
                            Stock { books, shopping: t.shopping },
                            way.purchases@,
                            way.purchases@.len(),
                            run.options.patient,
                        ) {
                            Err(e) => Round::Failed(e),
                            Ok(stock) => Round::Made(
                                RunState {
                                    books: stock.books,
                                    totals: Totals {
                                        profit,
                                        crafting_cost: t.crafting_cost + cost,
                                        count: t.count + run.batch as nat,
                                        crafts: t.crafts + 1,
                                        min_sell: last,
                                        unit_cost: cost / (run.batch as real),
                                        crafted: way.items,
                                        shopping: stock.shopping,
                                    },
                                    ..run
                                },
                            ),
                        }
                    }
                },
            }
        },
        _ => Round::Stopped,
    }
}

/// One more batch would exceed the limit.
pub open spec fn at_limit(run: RunState) -> bool {
    match run.options.count_limit {
        CountLimit::Unlimited => false,
        CountLimit::Items(limit) => run.totals.count + run.batch > limit,
        CountLimit::Crafts(limit) => run.totals.crafts + 1 > limit,
    }
}

/// How a round ends.
pub enum Progress {
    /// The batch was made.
    Made(CraftingRun),
    /// The batch does not pay, or cannot be made or sold.
    Stopped(Tally),
}

/// What selling a batch has brought in.
struct Sale {
    revenue: Money,
    last: u32,
}

/// Sells a batch.
fn sell_batch(
    books: &mut BTreeMap<u32, ItemListings>,
    item_id: u32,
    batch: u32,
    options: &CraftingOptions,
    Ghost(run): Ghost<RunState>,
) -> (res: Result<Option<Sale>, RunError>)
    requires
        run.books == books_of(old(books)@),
        run.item_id == item_id,
        run.batch == batch,
        run.options == *options,
    ensures
        nothing_reserved(old(books)@) ==> nothing_reserved(final(books)@),
        match (res, sale_of_batch(run)) {
            (Ok(Some(sale)), Ok(Some((revenue, last, after)))) => sale.revenue@ == revenue
                && sale.last == last && books_of(final(books)@) == after,
            (Ok(None), Ok(None)) => true,
            (Err(e), Err(f)) => e == f,
            _ => false,
        },
{
    if let Some(price) = options.value {
        let each = Money::from_copper(price as i32);
        proof {
            let v: int = coin(price) * batch;
            assert(-0x8000_0000 * 0xffff_ffff <= v <= 0x8000_0000 * 0xffff_ffff)
                by (nonlinear_arith)
                requires
                    v == coin(price) * batch,
                    -0x8000_0000 <= coin(price) <= 0x8000_0000,
                    0 <= batch <= 0xffff_ffff,
            ;
            lemma_fits(v, 1);
            assert(each@ * (batch as real) == v as real) by (nonlinear_arith)
                requires
                    each@ == coin(price) as real,
                    v == coin(price) * batch,
            ;
        }
        return Ok(Some(Sale { revenue: each.times(batch), last: price }));
    }
    let ghost start = books_of(books@);
    let mut listing = match books.remove(&item_id) {
        Some(listing) => listing,
        None => return Err(RunError::MissingListings(item_id)),
    };
    let ghost book = book_of(listing);
    if !listing.sale_is_possible(batch, options.patient) {
        return Err(RunError::OutOfRange);
    }
    match listing.sell_with_mode(batch, options.patient) {
        Some(sold) => {
            assert(book_of(listing) =~= book.after_sale(batch as nat, options.patient));
            books.insert(item_id, listing);
            assert(books_of(books@) =~= start.insert(item_id, book_of(listing)));
            Ok(Some(Sale { revenue: sold.0, last: sold.1 }))
        },
        None => Ok(None),
    }
}

/// Makes all purchases of a batch.
fn make_purchases(
    books: &mut BTreeMap<u32, ItemListings>,
    shopping: &mut Option<ShoppingList>,
    purchases: &Vec<Purchase>,
    patient: bool,
) -> (res: Result<(), RunError>)
    ensures
        nothing_reserved(old(books)@) ==> nothing_reserved(final(books)@),
        match (
            res,
            purchases_made(
                Stock { books: books_of(old(books)@), shopping: shopping_of(*old(shopping)) },
                purchases@,
                purchases@.len(),
                patient,
            ),
        ) {
            (Ok(_), Ok(stock)) => stock.books == books_of(final(books)@) && stock.shopping
                == shopping_of(*final(shopping)),
            (Err(e), Err(f)) => e == f,
            _ => false,
        },
{
    let ghost start = Stock { books: books_of(books@), shopping: shopping_of(*shopping) };
    let ghost calm = nothing_reserved(books@);
    let mut i: usize = 0;
    while i < purchases.len()
        invariant
            i <= purchases.len(),
            calm == nothing_reserved(old(books)@),
            calm ==> nothing_reserved(books@),
            start == (Stock {
                books: books_of(old(books)@),
                shopping: shopping_of(*old(shopping)),
            }),
            purchases_made(start, purchases@, i as nat, patient) == Ok::<Stock, RunError>(
                Stock { books: books_of(books@), shopping: shopping_of(*shopping) },
            ),
        decreases purchases.len() - i,
    {
        let made = make_purchase(books, shopping, purchases[i], patient);
        if let Err(e) = made {
            proof {
                assert(purchases_made(start, purchases@, (i + 1) as nat, patient) is Err);
                lemma_failure_stays(
                    start,
                    purchases@,
                    (i + 1) as nat,
                    purchases@.len(),
                    patient,
                );
            }
            return Err(e);
        }
        i += 1;
    }
    Ok(())
}

impl CraftingRun {
    /// A simulation before its first round.
    pub fn start(
        item_id: u32,
        batch: u32,
        listings: &HashMap<u32, api::ItemListings>,
        options: CraftingOptions,
        keep_list: bool,
    ) -> (run: CraftingRun)
        ensures
            is_start(run, item_id, batch, listings@, options, keep_list),
    {
        let mut books: BTreeMap<u32, ItemListings> = BTreeMap::new();
        let ghost all = listings@;
        for entry in it: listings.iter()
            invariant
                all == listings@,
                nothing_reserved(books@),
                it.seq().no_duplicates(),
                forall|i: int|
                    0 <= i < it.seq().len() ==> all.contains_key(*(#[trigger] it.seq()[i]).0)
                        && all[*it.seq()[i].0] == *it.seq()[i].1,
                forall|id: u32| #[trigger] books@.contains_key(id) ==> all.contains_key(id),
                forall|i: int|
                    0 <= i < it.index() ==> books@.contains_key(*(#[trigger] it.seq()[i]).0),
                forall|id: u32| #[trigger]
                    books@.contains_key(id) ==> book_of(books@[id]) == reported_books(all)[id],
        {
            let id: u32 = *entry.0;
            let listing = ItemListings::from(entry.1);
            assert(book_of(listing) =~= reported_books(all)[id]);
            books.insert(id, listing);
        }
        proof {
            assert forall|id: u32| #[trigger] all.contains_key(id) implies books@.contains_key(
                id,
            ) by {}
            assert(books_of(books@) =~= reported_books(all));
        }
        CraftingRun {
            item_id,
            batch,
            options,
            books,
            tally: Tally {
                profit: Money::zero(),
                crafting_cost: Money::zero(),
                count: 0,
                crafts: 0,
                min_sell: 0,
                unit_cost: Money::zero(),
                crafted: CraftedItems::none(),
                shopping: if keep_list {
                    Some(ShoppingList::empty())
                } else {
                    None
                },
            },
        }
    }

    /// Whether one more batch would exceed the limit.
    pub fn limit_reached(&self) -> (b: bool)
        ensures
            b == at_limit(self@),
    {
        match self.options.count_limit {
            CountLimit::Unlimited => false,
            CountLimit::Items(limit) => self.tally.count as u64 + self.batch as u64 > limit as u64,
            CountLimit::Crafts(limit) => self.tally.crafts >= limit,
        }
    }

    /// One round, given the cheapest way to make the batch.
    pub fn advance(self, found: Option<PreciseCraftingCost>) -> (res: Result<Progress, RunError>)
        ensures
            match (res, round(self@, found)) {
                (Ok(Progress::Made(run)), Round::Made(state)) => run@ == state && (nothing_reserved(
                    self.books@,
                ) ==> nothing_reserved(run.books@)),
                (Ok(Progress::Stopped(tally)), Round::Stopped) => tally == self.tally,
                (Err(e), Round::Failed(f)) => e == f,
                _ => false,
            },
    {
        let ghost state = self@;
        let CraftingRun { item_id, batch, options, books, tally } = self;
        let way = match found {
            Some(way) => way,
            None => return Ok(Progress::Stopped(tally)),
        };
        if way.source != Source::Crafting {
            return Ok(Progress::Stopped(tally));
        }
        let mut books = books;
        let sale = match sell_batch(&mut books, item_id, batch, &options, Ghost(state)) {
            Err(e) => return Err(e),
            Ok(None) => return Ok(Progress::Stopped(tally)),
            Ok(Some(sale)) => sale,
        };
        let margin = Money::from_copper(options.profit_threshold as i32);
        let needed = match way.cost.checked_plus(margin) {
            None => return Err(RunError::OutOfRange),
            Some(needed) => needed,
        };
        if sale.revenue.less_than(&needed) {
            return Ok(Progress::Stopped(tally));
        }
        let gain = match sale.revenue.checked_minus(way.cost) {
            None => return Err(RunError::OutOfRange),
            Some(gain) => gain,
        };
        let profit = match tally.profit.checked_plus(gain) {
            None => return Err(RunError::OutOfRange),
            Some(profit) => profit,
        };
        if margin.less_than(&Money::zero()) && !margin.less_than(&profit) {
            return Ok(Progress::Stopped(tally));
        }
        let crafting_cost = match tally.crafting_cost.checked_plus(way.cost) {
            None => return Err(RunError::OutOfRange),
            Some(cost) => cost,
        };
        if batch == 0 || batch > u32::MAX - tally.count || tally.crafts == u32::MAX {
            return Err(RunError::OutOfRange);
        }
        let unit_cost = match way.cost.checked_divided_by(batch) {
            None => return Err(RunError::OutOfRange),
            Some(cost) => cost,
        };
        let mut shopping = tally.shopping;
        let bought = make_purchases(&mut books, &mut shopping, &way.purchases, options.patient);
        if let Err(e) = bought {
            return Err(e);
        }
        let run = CraftingRun {
            item_id,
            batch,
            options,
            books,
            tally: Tally {
                profit,
                crafting_cost,
                count: tally.count + batch,
                crafts: tally.crafts + 1,
                min_sell: sale.last,
                unit_cost,
                crafted: way.items,
                shopping,
            },
        };
        Ok(Progress::Made(run))
    }
}

/// A simulation before its first round: no unit of any order book is reserved.
pub open spec fn is_start(
    first: CraftingRun,
    item_id: u32,
    batch: u32,
    listings: Map<u32, api::ItemListings>,
    options: CraftingOptions,
    keep_list: bool,
) -> bool {
    let run = first@;
    &&& nothing_reserved(first.books@)
    &&& run.item_id == item_id
    &&& run.batch == batch
    &&& run.options == options
    &&& run.books == reported_books(listings)
    &&& run.totals.profit == 0 as real
    &&& run.totals.crafting_cost == 0 as real
    &&& run.totals.count == 0
    &&& run.totals.crafts == 0
    &&& run.totals.min_sell == 0
    &&& run.totals.unit_cost == 0 as real
    &&& run.totals.crafted.crafted@ == Map::<u32, u32>::empty()
    &&& run.totals.crafted.leftovers@ == Map::<u32, crate::crafting::Leftover>::empty()
    &&& run.totals.shopping == (if keep_list {
        Some(
            Shopping { crafting: Map::empty(), trading_post: Map::empty(), vendor: Map::empty() },
        )
    } else {
        None
    })
}

/// From one round to the next: the limit is not reached, `found` is an answer
/// of `search`, with it the batch is made, and nothing is left reserved.
pub open spec fn is_step<Q>(
    search: Q,
    run: CraftingRun,
    found: Option<PreciseCraftingCost>,
    next: CraftingRun,
) -> bool where
    Q: Fn(u32, &BTreeMap<u32, ItemListings>, &CraftedItems) -> Option<PreciseCraftingCost>,
 {
    &&& !at_limit(run@)
    &&& call_ensures(search, (run.item_id, &run.books, &run.tally.crafted), found)
    &&& round(run@, found) == Round::Made(next@)
    &&& nothing_reserved(run.books@) ==> nothing_reserved(next.books@)
}

/// The rounds of a simulation, with the answers of `search` that led from one
/// to the next.
pub open spec fn is_history<Q>(
    search: Q,
    runs: Seq<CraftingRun>,
    found: Seq<Option<PreciseCraftingCost>>,
) -> bool where
    Q: Fn(u32, &BTreeMap<u32, ItemListings>, &CraftedItems) -> Option<PreciseCraftingCost>,
 {
    &&& runs.len() == found.len() + 1
    &&& forall|i: int|
        0 <= i < found.len() ==> is_step(search, runs[i], #[trigger] found[i], runs[i + 1])
}

/// The simulation ends here: the limit is reached, or `search` has an answer
/// that stops it.
pub open spec fn ends<Q>(search: Q, run: CraftingRun) -> bool where
    Q: Fn(u32, &BTreeMap<u32, ItemListings>, &CraftedItems) -> Option<PreciseCraftingCost>,
 {
    ||| at_limit(run@)
    ||| exists|found: Option<PreciseCraftingCost>| #[trigger]
        call_ensures(search, (run.item_id, &run.books, &run.tally.crafted), found) && round(run@, found)
            == Round::Stopped
}

/// The simulation fails here: `search` has an answer that cannot be accounted
/// for.
pub open spec fn fails<Q>(search: Q, run: CraftingRun, e: RunError) -> bool where
    Q: Fn(u32, &BTreeMap<u32, ItemListings>, &CraftedItems) -> Option<PreciseCraftingCost>,
 {
    &&& !at_limit(run@)
    &&& exists|found: Option<PreciseCraftingCost>| #[trigger]
        call_ensures(search, (run.item_id, &run.books, &run.tally.crafted), found) && round(run@, found)
            == Round::Failed(e)
}

/// Rounds from the start of a simulation up to `last`.
pub open spec fn leads_up_to<Q>(
    search: Q,
    first: CraftingRun,
    last: CraftingRun,
) -> bool where
    Q: Fn(u32, &BTreeMap<u32, ItemListings>, &CraftedItems) -> Option<PreciseCraftingCost>,
 {
    exists|runs: Seq<CraftingRun>, found: Seq<Option<PreciseCraftingCost>>|
        #[trigger] is_history(search, runs, found) && runs[0] == first && runs.last() == last
}

impl CraftingRun {
    /// Makes batches until the limit is reached, or a batch does not pay or
    /// cannot be made or sold.
    pub fn finish<Q>(self, search: &Q) -> (res: Result<Tally, RunError>) where
        Q: Fn(u32, &BTreeMap<u32, ItemListings>, &CraftedItems) -> Option<PreciseCraftingCost>,

        requires
            forall|id: u32, books: &BTreeMap<u32, ItemListings>, crafted: &CraftedItems|
                call_requires(*search, (id, books, crafted)),
        ensures
            match res {
                Ok(tally) => exists|last: CraftingRun| #[trigger]
                    leads_up_to(*search, self, last) && ends(*search, last) && tally
                        == last.tally,
                Err(e) => exists|last: CraftingRun| #[trigger]
                    leads_up_to(*search, self, last) && fails(*search, last, e),
            },
    {
        let ghost first = self;
        let ghost mut runs: Seq<CraftingRun> = seq![self];
        let ghost mut answers: Seq<Option<PreciseCraftingCost>> = Seq::empty();
        let mut run = self;
        assert(is_history(*search, runs, answers));
        while !run.limit_reached()
            invariant
                forall|id: u32, books: &BTreeMap<u32, ItemListings>, crafted: &CraftedItems|
                    call_requires(*search, (id, books, crafted)),
                is_history(*search, runs, answers),
                first == self,
                runs[0] == first,
                runs.last() == run,
            decreases u32::MAX - run.tally.crafts,
        {
            let found = search(run.item_id, &run.books, &run.tally.crafted);
            let ghost here = run;
            let ghost answer = found;
            proof {
                assert(leads_up_to(*search, first, here));
            }
            match run.advance(found) {
                Err(e) => {
                    assert(fails(*search, here, e));
                    return Err(e);
                },
                Ok(Progress::Stopped(tally)) => {
                    assert(ends(*search, here));
                    return Ok(tally);
                },
                Ok(Progress::Made(next)) => {
                    proof {
                        let more = runs.push(next);
                        let more_answers = answers.push(answer);
                        assert forall|i: int| 0 <= i < more_answers.len() implies is_step(
                            *search,
                            more[i],
                            #[trigger] more_answers[i],
                            more[i + 1],
                        ) by {
                            if i < answers.len() {
                                assert(is_step(*search, runs[i], answers[i], runs[i + 1]));
                            }
                        }
                        runs = more;
                        answers = more_answers;
                    }
                    run = next;
                },
            }
        }
        assert(leads_up_to(*search, first, run));
        Ok(run.tally)
    }
}

/// What holds of a simulation between any two rounds: every craft made a full
/// batch, the limit was kept, and the profit is no loss, or with a margin below
/// zero lies above it.
pub open spec fn is_sound(run: RunState) -> bool {
    let margin = run.options.margin();
    &&& run.totals.count == run.totals.crafts * run.batch
    &&& margin >= 0 as real ==> run.totals.profit >= (run.totals.crafts as real) * margin
    &&& margin < 0 as real ==> run.totals.profit > margin
    &&& match run.options.count_limit {
        CountLimit::Unlimited => true,
        CountLimit::Items(limit) => run.totals.count <= limit || run.totals.count == 0,
        CountLimit::Crafts(limit) => run.totals.crafts <= limit,
    }
}

/// A round changes neither the item nor the settings, and keeps the simulation
/// sound.
pub proof fn law_round_keeps_soundness(
    run: RunState,
    found: Option<PreciseCraftingCost>,
    next: RunState,
)
    requires
        is_sound(run),
        !at_limit(run),
        round(run, found) == Round::Made(next),
    ensures
        is_sound(next),
        next.item_id == run.item_id,
        next.batch == run.batch,
        next.options == run.options,
        next.totals.crafts == run.totals.crafts + 1,
        next.totals.profit - run.totals.profit >= run.options.margin(),
        next.totals.profit + next.totals.crafting_cost >= run.totals.profit
            + run.totals.crafting_cost + (found->0).cost@ + run.options.margin(),
{
    let crafts = run.totals.crafts;
    let margin = run.options.margin();
    assert((crafts + 1) * run.batch == crafts * run.batch + run.batch) by (nonlinear_arith);
    assert(((crafts + 1) as real) * margin == (crafts as real) * margin + margin)
        by (nonlinear_arith);
}

/// Every simulation is sound from its start on.
pub proof fn law_simulation_is_sound<Q>(
    search: Q,
    first: CraftingRun,
    last: CraftingRun,
    item_id: u32,
    batch: u32,
    listings: Map<u32, api::ItemListings>,
    options: CraftingOptions,
    keep_list: bool,
) where Q: Fn(u32, &BTreeMap<u32, ItemListings>, &CraftedItems) -> Option<PreciseCraftingCost>
    requires
        is_start(first, item_id, batch, listings, options, keep_list),
        leads_up_to(search, first, last),
    ensures
        is_sound(last@),
        last@.item_id == item_id,
        last@.batch == batch,
        last@.options == options,
{
    let (runs, found) = choose|
        runs: Seq<CraftingRun>,
        found: Seq<Option<PreciseCraftingCost>>,
    | #[trigger]
        is_history(search, runs, found) && runs[0] == first && runs.last() == last;
    assert(is_sound(first@)) by {
        assert(0 * first@.batch == 0);
        assert((0 as real) * options.margin() == 0 as real);
    }
    lemma_history_is_sound(search, runs, found, found.len() as int);
}

proof fn lemma_history_is_sound<Q>(
    search: Q,
    runs: Seq<CraftingRun>,
    found: Seq<Option<PreciseCraftingCost>>,
    i: int,
) where Q: Fn(u32, &BTreeMap<u32, ItemListings>, &CraftedItems) -> Option<PreciseCraftingCost>
    requires
        is_history(search, runs, found),
        is_sound(runs[0]@),
        0 <= i <= found.len(),
    ensures
        is_sound(runs[i]@),
        runs[i]@.item_id == runs[0]@.item_id,
        runs[i]@.batch == runs[0]@.batch,
        runs[i]@.options == runs[0]@.options,
    decreases i,
{
    if i > 0 {
        lemma_history_is_sound(search, runs, found, i - 1);
        assert(is_step(search, runs[i - 1], found[i - 1], runs[i - 1 + 1]));
        law_round_keeps_soundness(runs[i - 1]@, found[i - 1], runs[i]@);
    }
}

/// The simulation with another margin.
pub open spec fn with_margin(run: RunState, copper: i64) -> RunState {
    RunState { options: CraftingOptions { profit_threshold: copper, ..run.options }, ..run }
}

/// A batch that pays at a margin of zero or more is made at every lower margin
/// too, with the same outcome. So a wider simulation never stops before a
/// strict one. The only exception is a margin that cannot be added to the cost.
pub proof fn law_lower_margin_goes_on(
    run: RunState,
    found: Option<PreciseCraftingCost>,
    next: RunState,
    lower: i64,
)
    requires
        is_sound(run),
        run.options.margin() >= 0 as real,
        with_margin(run, lower).options.margin() <= run.options.margin(),
        found is Some ==> fits((found->0).cost@ + with_margin(run, lower).options.margin()),
        round(run, found) == Round::Made(next),
    ensures
        round(with_margin(run, lower), found) == Round::Made(with_margin(next, lower)),
        at_limit(with_margin(run, lower)) == at_limit(run),
{
    let crafts = run.totals.crafts;
    let margin = run.options.margin();
    assert((crafts as real) * margin >= 0 as real) by (nonlinear_arith)
        requires
            margin >= 0 as real,
            crafts >= 0,
    ;
    let other = with_margin(run, lower);
    assert(sale_of_batch(other) == sale_of_batch(run));
    assert(totals_fit(other, (found->0).cost@) == totals_fit(run, (found->0).cost@));
}

/// Two records of what was crafted hold the same.
pub open spec fn same_items(a: CraftedItems, b: CraftedItems) -> bool {
    a.crafted@ == b.crafted@ && a.leftovers@ == b.leftovers@
}

/// Two answers of a search say the same.
pub open spec fn same_answer(
    a: Option<PreciseCraftingCost>,
    b: Option<PreciseCraftingCost>,
) -> bool {
    match (a, b) {
        (Some(p), Some(q)) => {
            &&& p.source == q.source
            &&& p.cost@ == q.cost@
            &&& p.purchases@ == q.purchases@
            &&& same_items(p.items, q.items)
        },
        (None, None) => true,
        _ => false,
    }
}

/// The search goes by the offers in the order books and by what was crafted
/// alone, and always answers the same.
pub open spec fn is_steady<Q>(search: Q) -> bool where
    Q: Fn(u32, &BTreeMap<u32, ItemListings>, &CraftedItems) -> Option<PreciseCraftingCost>,
 {
    forall|
        id: u32,
        books: &BTreeMap<u32, ItemListings>,
        crafted: &CraftedItems,
        found: Option<PreciseCraftingCost>,
        other_books: &BTreeMap<u32, ItemListings>,
        other_crafted: &CraftedItems,
        other_found: Option<PreciseCraftingCost>,
    |
        #[trigger] call_ensures(search, (id, books, crafted), found) && #[trigger] call_ensures(
            search,
            (id, other_books, other_crafted),
            other_found,
        ) && books_of(books@) == books_of(other_books@) && nothing_reserved(books@)
            && nothing_reserved(other_books@) && same_items(*crafted, *other_crafted)
            ==> same_answer(found, other_found)
}

/// Two simulations stand at the same point, the second with another margin.
spec fn is_level_with(strict: CraftingRun, wide: CraftingRun, lower: i64) -> bool {
    let a = strict@;
    let b = wide@;
    &&& nothing_reserved(strict.books@)
    &&& nothing_reserved(wide.books@)
    &&& same_items(strict.tally.crafted, wide.tally.crafted)
    &&& b == (RunState {
        totals: Totals { crafted: b.totals.crafted, ..a.totals },
        ..with_margin(a, lower)
    })
}

proof fn lemma_rounds_stay_level<Q>(
    search: Q,
    strict: CraftingRun,
    found: Option<PreciseCraftingCost>,
    strict_next: CraftingRun,
    wide: CraftingRun,
    wide_found: Option<PreciseCraftingCost>,
    wide_next: CraftingRun,
    lower: i64,
) where Q: Fn(u32, &BTreeMap<u32, ItemListings>, &CraftedItems) -> Option<PreciseCraftingCost>
    requires
        is_steady(search),
        is_level_with(strict, wide, lower),
        is_step(search, strict, found, strict_next),
        is_step(search, wide, wide_found, wide_next),
    ensures
        is_level_with(strict_next, wide_next, lower),
{
    assert(same_answer(found, wide_found));
    assert(sale_of_batch(wide@) == sale_of_batch(strict@));
}

proof fn lemma_wide_does_not_end<Q>(
    search: Q,
    strict: CraftingRun,
    found: Option<PreciseCraftingCost>,
    strict_next: CraftingRun,
    wide: CraftingRun,
    lower: i64,
) where Q: Fn(u32, &BTreeMap<u32, ItemListings>, &CraftedItems) -> Option<PreciseCraftingCost>
    requires
        is_steady(search),
        is_sound(strict@),
        strict@.options.margin() >= 0 as real,
        wide@.options.margin() <= strict@.options.margin(),
        is_level_with(strict, wide, lower),
        is_step(search, strict, found, strict_next),
    ensures
        !ends(search, wide),
{
    let crafts = strict@.totals.crafts;
    let margin = strict@.options.margin();
    assert((crafts as real) * margin >= 0 as real) by (nonlinear_arith)
        requires
            margin >= 0 as real,
            crafts >= 0,
    ;
    assert(sale_of_batch(wide@) == sale_of_batch(strict@));
    assert forall|other: Option<PreciseCraftingCost>| #[trigger]
        call_ensures(
            search,
            (wide.item_id, &wide.books, &wide.tally.crafted),
            other,
        ) implies round(wide@, other) != Round::Stopped by {
        assert(same_answer(found, other));
    }
}

proof fn lemma_histories_stay_level<Q>(
    search: Q,
    strict: Seq<CraftingRun>,
    found: Seq<Option<PreciseCraftingCost>>,
    wide: Seq<CraftingRun>,
    wide_found: Seq<Option<PreciseCraftingCost>>,
    lower: i64,
    i: int,
) where Q: Fn(u32, &BTreeMap<u32, ItemListings>, &CraftedItems) -> Option<PreciseCraftingCost>
    requires
        is_steady(search),
        is_history(search, strict, found),
        is_history(search, wide, wide_found),
        is_level_with(strict[0], wide[0], lower),
        0 <= i <= found.len(),
        i <= wide_found.len(),
    ensures
        is_level_with(strict[i], wide[i], lower),
    decreases i,
{
    if i > 0 {
        lemma_histories_stay_level(search, strict, found, wide, wide_found, lower, i - 1);
        assert(is_step(search, strict[i - 1], found[i - 1], strict[i - 1 + 1]));
        assert(is_step(search, wide[i - 1], wide_found[i - 1], wide[i - 1 + 1]));
        lemma_rounds_stay_level(
            search,
            strict[i - 1],
            found[i - 1],
            strict[i],
            wide[i - 1],
            wide_found[i - 1],
            wide[i],
            lower,
        );
    }
}

proof fn lemma_history_counts_crafts<Q>(
    search: Q,
    runs: Seq<CraftingRun>,
    found: Seq<Option<PreciseCraftingCost>>,
    i: int,
) where Q: Fn(u32, &BTreeMap<u32, ItemListings>, &CraftedItems) -> Option<PreciseCraftingCost>
    requires
        is_history(search, runs, found),
        0 <= i <= found.len(),
    ensures
        runs[i]@.totals.crafts == runs[0]@.totals.crafts + i,
    decreases i,
{
    if i > 0 {
        lemma_history_counts_crafts(search, runs, found, i - 1);
        assert(is_step(search, runs[i - 1], found[i - 1], runs[i - 1 + 1]));
    }
}

proof fn lemma_profit_grows<Q>(
    search: Q,
    runs: Seq<CraftingRun>,
    found: Seq<Option<PreciseCraftingCost>>,
    i: int,
    j: int,
) where Q: Fn(u32, &BTreeMap<u32, ItemListings>, &CraftedItems) -> Option<PreciseCraftingCost>
    requires
        is_history(search, runs, found),
        runs[0]@.options.margin() >= 0 as real,
        0 <= i <= j <= found.len(),
    ensures
        runs[i]@.totals.profit <= runs[j]@.totals.profit,
        runs[j]@.options == runs[0]@.options,
    decreases j,
{
    if j > 0 {
        lemma_profit_grows(
            search,
            runs,
            found,
            if i < j {
                i
            } else {
                i - 1
            },
            j - 1,
        );
        assert(is_step(search, runs[j - 1], found[j - 1], runs[j - 1 + 1]));
    }
}

/// A simulation with a lower margin that comes to its end makes every batch that
/// a strict one makes, where the search is steady. As long as the margin is not
/// below zero, it earns no less.
pub proof fn law_wider_simulation_makes_as_much<Q>(
    search: Q,
    strict: CraftingRun,
    strict_last: CraftingRun,
    wide: CraftingRun,
    wide_last: CraftingRun,
    item_id: u32,
    batch: u32,
    listings: Map<u32, api::ItemListings>,
    options: CraftingOptions,
    lower: i64,
    keep_list: bool,
) where Q: Fn(u32, &BTreeMap<u32, ItemListings>, &CraftedItems) -> Option<PreciseCraftingCost>
    requires
        is_steady(search),
        options.margin() >= 0 as real,
        (CraftingOptions { profit_threshold: lower, ..options }).margin() <= options.margin(),
        is_start(strict, item_id, batch, listings, options, keep_list),
        is_start(
            wide,
            item_id,
            batch,
            listings,
            (CraftingOptions { profit_threshold: lower, ..options }),
            keep_list,
        ),
        leads_up_to(search, strict, strict_last),
        leads_up_to(search, wide, wide_last),
        ends(search, wide_last),
    ensures
        wide_last@.totals.crafts >= strict_last@.totals.crafts,
        wide_last@.totals.count >= strict_last@.totals.count,
        (CraftingOptions { profit_threshold: lower, ..options }).margin() >= 0 as real ==>
            wide_last@.totals.profit >= strict_last@.totals.profit,
{
    let (runs, found) = choose|
        runs: Seq<CraftingRun>,
        found: Seq<Option<PreciseCraftingCost>>,
    | #[trigger]
        is_history(search, runs, found) && runs[0] == strict && runs.last() == strict_last;
    let (wide_runs, wide_found) = choose|
        runs: Seq<CraftingRun>,
        found: Seq<Option<PreciseCraftingCost>>,
    | #[trigger]
        is_history(search, runs, found) && runs[0] == wide && runs.last() == wide_last;
    let m: int = wide_found.len() as int;
    let n: int = found.len() as int;
    lemma_starts_are_level(strict, wide, item_id, batch, listings, options, lower, keep_list);
    law_simulation_is_sound(
        search,
        strict,
        strict_last,
        item_id,
        batch,
        listings,
        options,
        keep_list,
    );
    law_simulation_is_sound(
        search,
        wide,
        wide_last,
        item_id,
        batch,
        listings,
        (CraftingOptions { profit_threshold: lower, ..options }),
        keep_list,
    );
    if m < n {
        lemma_history_is_sound(search, runs, found, m);
        lemma_histories_stay_level(search, runs, found, wide_runs, wide_found, lower, m);
        assert(is_step(search, runs[m], found[m], runs[m + 1]));
        lemma_wide_does_not_end(search, runs[m], found[m], runs[m + 1], wide_runs[m], lower);
    }
    lemma_histories_stay_level(search, runs, found, wide_runs, wide_found, lower, n);
    if wide@.options.margin() >= 0 as real {
        lemma_profit_grows(search, wide_runs, wide_found, n, m);
    }
    lemma_history_counts_crafts(search, runs, found, n);
    lemma_history_counts_crafts(search, wide_runs, wide_found, m);
    assert(n * batch <= m * batch) by (nonlinear_arith)
        requires
            n <= m,
            batch >= 0,
    ;
}

/// The margin can be added to the cost of every batch that a simulation comes to.
pub open spec fn margin_can_be_added<Q>(search: Q, first: CraftingRun) -> bool where
    Q: Fn(u32, &BTreeMap<u32, ItemListings>, &CraftedItems) -> Option<PreciseCraftingCost>,
 {
    forall|run: CraftingRun, found: Option<PreciseCraftingCost>|
        #[trigger] leads_up_to(search, first, run) && #[trigger] call_ensures(
            search,
            (run.item_id, &run.books, &run.tally.crafted),
            found,
        ) && found is Some ==> fits((found->0).cost@ + first.options.margin())
}

/// From `crafts` batches on, every round that a simulation comes to can be
/// accounted for.
pub open spec fn is_accountable_from<Q>(search: Q, first: CraftingRun, crafts: nat) -> bool where
    Q: Fn(u32, &BTreeMap<u32, ItemListings>, &CraftedItems) -> Option<PreciseCraftingCost>,
 {
    forall|run: CraftingRun, found: Option<PreciseCraftingCost>|
        #[trigger] leads_up_to(search, first, run) && run@.totals.crafts >= crafts && !at_limit(
            run@,
        ) && #[trigger] call_ensures(
            search,
            (run.item_id, &run.books, &run.tally.crafted),
            found,
        ) ==> !(round(run@, found) is Failed)
}

proof fn lemma_wide_makes_the_batch<Q>(
    search: Q,
    strict: CraftingRun,
    found: Option<PreciseCraftingCost>,
    strict_next: CraftingRun,
    wide: CraftingRun,
    wide_found: Option<PreciseCraftingCost>,
    lower: i64,
) where Q: Fn(u32, &BTreeMap<u32, ItemListings>, &CraftedItems) -> Option<PreciseCraftingCost>
    requires
        is_steady(search),
        is_sound(strict@),
        strict@.options.margin() >= 0 as real,
        wide@.options.margin() <= strict@.options.margin(),
        wide_found is Some ==> fits((wide_found->0).cost@ + wide@.options.margin()),
        is_level_with(strict, wide, lower),
        is_step(search, strict, found, strict_next),
        call_ensures(search, (wide.item_id, &wide.books, &wide.tally.crafted), wide_found),
    ensures
        round(wide@, wide_found) is Made,
{
    let crafts = strict@.totals.crafts;
    let margin = strict@.options.margin();
    assert((crafts as real) * margin >= 0 as real) by (nonlinear_arith)
        requires
            margin >= 0 as real,
            crafts >= 0,
    ;
    assert(same_answer(found, wide_found));
    assert(sale_of_batch(wide@) == sale_of_batch(strict@));
    assert(totals_fit(wide@, (wide_found->0).cost@) == totals_fit(strict@, (found->0).cost@));
}

/// A simulation with a lower margin does not fail in a round that a strict one
/// makes. So it does not fail at all where the rounds that it makes beyond can be
/// accounted for.
pub proof fn law_wider_simulation_does_not_fail<Q>(
    search: Q,
    strict: CraftingRun,
    strict_last: CraftingRun,
    wide: CraftingRun,
    wide_last: CraftingRun,
    item_id: u32,
    batch: u32,
    listings: Map<u32, api::ItemListings>,
    options: CraftingOptions,
    lower: i64,
    keep_list: bool,
    e: RunError,
) where Q: Fn(u32, &BTreeMap<u32, ItemListings>, &CraftedItems) -> Option<PreciseCraftingCost>
    requires
        is_steady(search),
        options.margin() >= 0 as real,
        (CraftingOptions { profit_threshold: lower, ..options }).margin() <= options.margin(),
        margin_can_be_added(search, wide),
        is_start(strict, item_id, batch, listings, options, keep_list),
        is_start(
            wide,
            item_id,
            batch,
            listings,
            (CraftingOptions { profit_threshold: lower, ..options }),
            keep_list,
        ),
        leads_up_to(search, strict, strict_last),
        leads_up_to(search, wide, wide_last),
    ensures
        wide_last@.totals.crafts < strict_last@.totals.crafts ==> !fails(search, wide_last, e),
        is_accountable_from(search, wide, strict_last@.totals.crafts) ==> !fails(
            search,
            wide_last,
            e,
        ),
{
    let (runs, found) = choose|
        runs: Seq<CraftingRun>,
        found: Seq<Option<PreciseCraftingCost>>,
    | #[trigger]
        is_history(search, runs, found) && runs[0] == strict && runs.last() == strict_last;
    let (wide_runs, wide_found) = choose|
        runs: Seq<CraftingRun>,
        found: Seq<Option<PreciseCraftingCost>>,
    | #[trigger]
        is_history(search, runs, found) && runs[0] == wide && runs.last() == wide_last;
    let m: int = wide_found.len() as int;
    let n: int = found.len() as int;
    lemma_history_counts_crafts(search, runs, found, n);
    lemma_history_counts_crafts(search, wide_runs, wide_found, m);
    if m < n {
        lemma_starts_are_level(strict, wide, item_id, batch, listings, options, lower, keep_list);
        lemma_history_is_sound(search, runs, found, m);
        lemma_histories_stay_level(search, runs, found, wide_runs, wide_found, lower, m);
        assert(is_step(search, runs[m], found[m], runs[m + 1]));
        assert forall|other: Option<PreciseCraftingCost>| #[trigger]
            call_ensures(
                search,
                (wide_last.item_id, &wide_last.books, &wide_last.tally.crafted),
                other,
            ) implies round(wide_last@, other) is Made by {
            lemma_wide_makes_the_batch(
                search,
                runs[m],
                found[m],
                runs[m + 1],
                wide_last,
                other,
                lower,
            );
        }
    }
}

proof fn lemma_starts_are_level(
    strict: CraftingRun,
    wide: CraftingRun,
    item_id: u32,
    batch: u32,
    listings: Map<u32, api::ItemListings>,
    options: CraftingOptions,
    lower: i64,
    keep_list: bool,
)
    requires
        is_start(strict, item_id, batch, listings, options, keep_list),
        is_start(
            wide,
            item_id,
            batch,
            listings,
            (CraftingOptions { profit_threshold: lower, ..options }),
            keep_list,
        ),
    ensures
        is_level_with(strict, wide, lower),
        options.margin() >= 0 as real ==> is_sound(strict@),
{
    assert(wide@ =~= (RunState {
        totals: Totals { crafted: wide@.totals.crafted, ..strict@.totals },
        ..with_margin(strict@, lower)
    }));
    assert(0 * batch == 0);
    assert((0 as real) * options.margin() == 0 as real);
}

/// After the same number of batches, a simulation with another margin has the same
/// totals.
pub proof fn lemma_same_crafts_same_totals<Q>(
    search: Q,
    strict: CraftingRun,
    strict_last: CraftingRun,
    wide: CraftingRun,
    wide_last: CraftingRun,
    item_id: u32,
    batch: u32,
    listings: Map<u32, api::ItemListings>,
    options: CraftingOptions,
    lower: i64,
    keep_list: bool,
) where Q: Fn(u32, &BTreeMap<u32, ItemListings>, &CraftedItems) -> Option<PreciseCraftingCost>
    requires
        is_steady(search),
        is_start(strict, item_id, batch, listings, options, keep_list),
        is_start(
            wide,
            item_id,
            batch,
            listings,
            (CraftingOptions { profit_threshold: lower, ..options }),
            keep_list,
        ),
        leads_up_to(search, strict, strict_last),
        leads_up_to(search, wide, wide_last),
        wide_last@.totals.crafts == strict_last@.totals.crafts,
    ensures
        wide_last@.totals == (Totals {
            crafted: wide_last@.totals.crafted,
            ..strict_last@.totals
        }),
        at_limit(wide_last@) == at_limit(strict_last@),
{
    let (runs, found) = choose|
        runs: Seq<CraftingRun>,
        found: Seq<Option<PreciseCraftingCost>>,
    | #[trigger]
        is_history(search, runs, found) && runs[0] == strict && runs.last() == strict_last;
    let (wide_runs, wide_found) = choose|
        runs: Seq<CraftingRun>,
        found: Seq<Option<PreciseCraftingCost>>,
    | #[trigger]
        is_history(search, runs, found) && runs[0] == wide && runs.last() == wide_last;
    let m: int = wide_found.len() as int;
    let n: int = found.len() as int;
    lemma_history_counts_crafts(search, runs, found, n);
    lemma_history_counts_crafts(search, wide_runs, wide_found, m);
    lemma_starts_are_level(strict, wide, item_id, batch, listings, options, lower, keep_list);
    lemma_histories_stay_level(search, runs, found, wide_runs, wide_found, lower, n);
}

/// Where the limit ends a strict simulation, it ends one with a lower margin too,
/// with the same totals: the wider one makes no batch beyond.
pub proof fn law_limit_ends_the_wider_simulation<Q>(
    search: Q,
    strict: CraftingRun,
    strict_last: CraftingRun,
    wide: CraftingRun,
    wide_last: CraftingRun,
    item_id: u32,
    batch: u32,
    listings: Map<u32, api::ItemListings>,
    options: CraftingOptions,
    lower: i64,
    keep_list: bool,
) where Q: Fn(u32, &BTreeMap<u32, ItemListings>, &CraftedItems) -> Option<PreciseCraftingCost>
    requires
        is_steady(search),
        is_start(strict, item_id, batch, listings, options, keep_list),
        is_start(
            wide,
            item_id,
            batch,
            listings,
            (CraftingOptions { profit_threshold: lower, ..options }),
            keep_list,
        ),
        leads_up_to(search, strict, strict_last),
        leads_up_to(search, wide, wide_last),
        at_limit(strict_last@),
    ensures
        wide_last@.totals.crafts <= strict_last@.totals.crafts,
        wide_last@.totals.crafts == strict_last@.totals.crafts ==> at_limit(wide_last@)
            && wide_last@.totals == (Totals {
            crafted: wide_last@.totals.crafted,
            ..strict_last@.totals
        }),
{
    let (runs, found) = choose|
        runs: Seq<CraftingRun>,
        found: Seq<Option<PreciseCraftingCost>>,
    | #[trigger]
        is_history(search, runs, found) && runs[0] == strict && runs.last() == strict_last;
    let (wide_runs, wide_found) = choose|
        runs: Seq<CraftingRun>,
        found: Seq<Option<PreciseCraftingCost>>,
    | #[trigger]
        is_history(search, runs, found) && runs[0] == wide && runs.last() == wide_last;
    let m: int = wide_found.len() as int;
    let n: int = found.len() as int;
    lemma_history_counts_crafts(search, runs, found, n);
    lemma_history_counts_crafts(search, wide_runs, wide_found, m);
    lemma_starts_are_level(strict, wide, item_id, batch, listings, options, lower, keep_list);
    if m >= n {
        lemma_histories_stay_level(search, runs, found, wide_runs, wide_found, lower, n);
        if m > n {
            assert(is_step(search, wide_runs[n], wide_found[n], wide_runs[n + 1]));
        }
    }
}

/// A simulation keeps a shopping list to its end, or never does.
pub proof fn lemma_list_is_kept<Q>(search: Q, first: CraftingRun, last: CraftingRun) where
    Q: Fn(u32, &BTreeMap<u32, ItemListings>, &CraftedItems) -> Option<PreciseCraftingCost>,

    requires
        leads_up_to(search, first, last),
    ensures
        last@.totals.shopping is Some <==> first@.totals.shopping is Some,
{
    let (runs, found) = choose|
        runs: Seq<CraftingRun>,
        found: Seq<Option<PreciseCraftingCost>>,
    | #[trigger]
        is_history(search, runs, found) && runs[0] == first && runs.last() == last;
    lemma_list_is_kept_in_history(search, runs, found, found.len() as int);
}

proof fn lemma_list_is_kept_in_history<Q>(
    search: Q,
    runs: Seq<CraftingRun>,
    found: Seq<Option<PreciseCraftingCost>>,
    i: int,
) where Q: Fn(u32, &BTreeMap<u32, ItemListings>, &CraftedItems) -> Option<PreciseCraftingCost>
    requires
        is_history(search, runs, found),
        0 <= i <= found.len(),
    ensures
        runs[i]@.totals.shopping is Some <==> runs[0]@.totals.shopping is Some,
    decreases i,
{
    if i > 0 {
        lemma_list_is_kept_in_history(search, runs, found, i - 1);
        assert(is_step(search, runs[i - 1], found[i - 1], runs[i - 1 + 1]));
        let way = found[i - 1]->0;
        let run = runs[i - 1]@;
        match sale_of_batch(run) {
            Ok(Some((revenue, last, books))) => {
                lemma_purchases_keep_list(
                    Stock { books, shopping: run.totals.shopping },
                    way.purchases@,
                    way.purchases@.len(),
                    run.options.patient,
                );
            },
            _ => {},
        }
    }
}

proof fn lemma_purchases_keep_list(
    stock: Stock,
    purchases: Seq<Purchase>,
    n: nat,
    patient: bool,
)
    ensures
        purchases_made(stock, purchases, n, patient) matches Ok(s) ==> (s.shopping is Some
            <==> stock.shopping is Some),
    decreases n,
{
    if n > 0 {
        lemma_purchases_keep_list(stock, purchases, (n - 1) as nat, patient);
    }
}

/// A batch that buys no unit of the item on the trading post.
pub open spec fn leaves_alone(way: PreciseCraftingCost, item_id: u32) -> bool {
    forall|k: int|
        0 <= k < way.purchases@.len() ==> (#[trigger] way.purchases@[k]).item_id != item_id
            || way.purchases@[k].source != Source::TradingPost
}

proof fn lemma_purchases_leave_book(
    stock: Stock,
    purchases: Seq<Purchase>,
    n: nat,
    patient: bool,
    id: u32,
)
    requires
        n <= purchases.len(),
        forall|k: int|
            0 <= k < purchases.len() ==> (#[trigger] purchases[k]).item_id != id
                || purchases[k].source != Source::TradingPost,
    ensures
        purchases_made(stock, purchases, n, patient) matches Ok(s) ==> (s.books.contains_key(id)
            <==> stock.books.contains_key(id)) && s.books[id] == stock.books[id],
    decreases n,
{
    if n > 0 {
        lemma_purchases_leave_book(stock, purchases, (n - 1) as nat, patient, id);
        assert(purchases[n - 1].item_id != id || purchases[n - 1].source != Source::TradingPost);
    }
}

/// What the sale of the units made so far has brought in, the price of the last
/// one, and the units that are left, are those of one sale of all of them.
pub open spec fn is_accounted(run: RunState, side: Seq<Listing>) -> bool {
    let t = run.totals;
    &&& run.books.contains_key(run.item_id)
    &&& run.books[run.item_id].sale_side(run.options.patient) == levels_left(side, t.count)
    &&& match proceeds(side, t.count) {
        Some((revenue, last)) => t.profit + t.crafting_cost == revenue && (t.count > 0 ==> t.min_sell
            == last),
        None => false,
    }
}

proof fn lemma_round_is_accounted(
    run: RunState,
    found: Option<PreciseCraftingCost>,
    next: RunState,
    side: Seq<Listing>,
)
    requires
        is_accounted(run, side),
        run.options.value is None,
        found is Some ==> leaves_alone(found->0, run.item_id),
        round(run, found) == Round::Made(next),
    ensures
        is_accounted(next, side),
{
    let way = found->0;
    let t = run.totals;
    let book = run.books[run.item_id];
    let left = book.sale_side(run.options.patient);
    let batch = run.batch as nat;
    match sale_of_batch(run) {
        Ok(Some((revenue, last, books))) => {
            lemma_purchases_leave_book(
                Stock { books, shopping: t.shopping },
                way.purchases@,
                way.purchases@.len(),
                run.options.patient,
                run.item_id,
            );
            law_trade_leaves_the_other_units(side, t.count);
            assert(batch <= units(left).len());
            law_costs_add_up(side, t.count, batch);
            law_trades_compose(side, t.count, batch);
            assert(units(left).take(batch as int).last() == units(side).take(
                (t.count + batch) as int,
            ).last());
            assert(next.books[run.item_id].sale_side(run.options.patient) == levels_left(
                left,
                batch,
            ));
        },
        _ => {},
    }
}

/// The profit and the cost of a simulation add up to what selling all its units
/// from the order book brings in, best offers first, where the product itself
/// is never bought on the way.
pub proof fn law_profit_is_revenue_less_cost<Q>(
    search: Q,
    runs: Seq<CraftingRun>,
    found: Seq<Option<PreciseCraftingCost>>,
    i: int,
) where
    Q: Fn(u32, &BTreeMap<u32, ItemListings>, &CraftedItems) -> Option<PreciseCraftingCost>,

    requires
        is_history(search, runs, found),
        0 <= i <= found.len(),
        runs[0]@.totals.count == 0,
        runs[0]@.totals.profit + runs[0]@.totals.crafting_cost == 0 as real,
        runs[0]@.options.value is None,
        runs[0]@.books.contains_key(runs[0]@.item_id),
        forall|k: int|
            0 <= k < found.len() && (#[trigger] found[k]) is Some ==> leaves_alone(
                found[k]->0,
                runs[0]@.item_id,
            ),
    ensures
        is_accounted(
            runs[i]@,
            runs[0]@.books[runs[0]@.item_id].sale_side(runs[0]@.options.patient),
        ),
        runs[i]@.item_id == runs[0]@.item_id,
        runs[i]@.options == runs[0]@.options,
    decreases i,
{
    let side = runs[0]@.books[runs[0]@.item_id].sale_side(runs[0]@.options.patient);
    if i == 0 {
        assert(units(side).take(0) =~= Seq::empty());
    } else {
        law_profit_is_revenue_less_cost(search, runs, found, i - 1);
        assert(is_step(search, runs[i - 1], found[i - 1], runs[i - 1 + 1]));
        lemma_round_is_accounted(runs[i - 1]@, found[i - 1], runs[i]@, side);
    }
}

/// Units of an ingredient that the first `n` purchases obtain from a source.
pub open spec fn units_bought(
    purchases: Seq<Purchase>,
    n: nat,
    id: u32,
    source: Source,
) -> nat
    decreases n,
{
    if n == 0 {
        0
    } else {
        let p = purchases[n - 1];
        units_bought(purchases, (n - 1) as nat, id, source) + (if p.item_id == id && p.source
            == source {
            p.count as nat
        } else {
            0
        })
    }
}

/// Units of an ingredient that a shopping list holds.
pub open spec fn units_listed(shopping: Option<Shopping>, id: u32, source: Source) -> nat {
    match shopping {
        Some(list) => match list.entry(id, source) {
            Some(b) => b.count,
            None => 0,
        },
        None => 0,
    }
}

/// Purchases add to the shopping list exactly the units that they obtain.
pub proof fn law_list_holds_what_was_bought(
    stock: Stock,
    purchases: Seq<Purchase>,
    n: nat,
    patient: bool,
    id: u32,
    source: Source,
)
    requires
        stock.shopping is Some,
        n <= purchases.len(),
        purchases_made(stock, purchases, n, patient) is Ok,
    ensures
        units_listed(
            (purchases_made(stock, purchases, n, patient)->Ok_0).shopping,
            id,
            source,
        ) == units_listed(stock.shopping, id, source) + units_bought(purchases, n, id, source),
    decreases n,
{
    if n > 0 {
        lemma_purchases_keep_list(stock, purchases, (n - 1) as nat, patient);
        law_list_holds_what_was_bought(stock, purchases, (n - 1) as nat, patient, id, source);
    }
}

/// The recorded prices bound what a unit cost: there are units, and together they
/// cost no less than so many at the lowest price, and no more than so many at the
/// highest.
pub open spec fn has_true_range(b: Batches) -> bool {
    &&& b.count > 0
    &&& b.min_price <= b.max_price
    &&& b.min_price * (b.count as real) <= b.total_cost
    &&& b.total_cost <= b.max_price * (b.count as real)
}

/// Every record of a shopping list has a true range.
pub open spec fn has_true_ranges(list: Shopping) -> bool {
    forall|id: u32, source: Source|
        (#[trigger] list.entry(id, source)) matches Some(b) ==> has_true_range(b)
}

/// Copper that a purchase costs on the trading post.
pub open spec fn cost_of(stock: Stock, p: Purchase, patient: bool) -> nat {
    if p.source == Source::TradingPost && stock.books.contains_key(p.item_id) {
        total(first_units(units(stock.books[p.item_id].purchase_side(patient)), p.count as nat))
    } else {
        0
    }
}

/// Each of the first `n` purchases gets at least one unit, and costs no more
/// copper than a signed 32-bit number can tell.
pub open spec fn are_ordinary(
    stock: Stock,
    purchases: Seq<Purchase>,
    n: nat,
    patient: bool,
) -> bool {
    forall|k: int|
        0 <= k < n ==> (#[trigger] purchases[k]).count > 0 && (purchases_made(
            stock,
            purchases,
            k as nat,
            patient,
        ) matches Ok(s) ==> cost_of(s, purchases[k], patient) <= i32::MAX)
}

proof fn lemma_batch_keeps_range(
    earlier: Option<Batches>,
    count: nat,
    cost: u32,
    low: u32,
    high: u32,
)
    requires
        earlier matches Some(b) ==> has_true_range(b),
        count > 0,
        cost <= i32::MAX,
        low <= high,
        low * count <= cost,
        cost <= high * count,
        high <= i32::MAX,
    ensures
        has_true_range(with_batch(earlier, count, cost, low, high)),
{
    let now = with_batch(earlier, count, cost, low, high);
    let l = coin(low) as real;
    let h = coin(high) as real;
    let c = coin(cost) as real;
    let n = count as real;
    assert(coin(low) == low && coin(high) == high && coin(cost) == cost);
    assert(l * n <= c) by (nonlinear_arith)
        requires
            low * count <= cost,
            l == low as int as real,
            c == cost as int as real,
            n == count as int as real,
    ;
    assert(c <= h * n) by (nonlinear_arith)
        requires
            cost <= high * count,
            h == high as int as real,
            c == cost as int as real,
            n == count as int as real,
    ;
    if let Some(p) = earlier {
        let m = p.count as real;
        assert(now.count as real == m + n);
        assert(now.min_price * (m + n) <= p.min_price * m + l * n) by (nonlinear_arith)
            requires
                now.min_price <= p.min_price,
                now.min_price <= l,
                m >= 0 as real,
                n >= 0 as real,
        ;
        assert(now.max_price * (m + n) >= p.max_price * m + h * n) by (nonlinear_arith)
            requires
                now.max_price >= p.max_price,
                now.max_price >= h,
                m >= 0 as real,
                n >= 0 as real,
        ;
    }
}

proof fn lemma_purchase_keeps_ranges(stock: Stock, p: Purchase, patient: bool)
    requires
        stock.shopping matches Some(list) ==> has_true_ranges(list),
        p.count > 0,
        cost_of(stock, p, patient) <= i32::MAX,
    ensures
        purchase(stock, p, patient) matches Ok(s) ==> (s.shopping matches Some(list)
            ==> has_true_ranges(list)),
{
    if let (Ok(s), Some(list)) = (purchase(stock, p, patient), stock.shopping) {
        let earlier = list.entry(p.item_id, p.source);
        let count = p.count as nat;
        let side = stock.books[p.item_id].purchase_side(patient);
        let paid = first_units(units(side), count);
        let (cost, low, high) = if p.source == Source::TradingPost {
            (total(paid) as u32, lowest(paid), highest(paid))
        } else {
            (0u32, 0u32, 0u32)
        };
        if p.source == Source::TradingPost {
            law_cost_lies_in_the_price_range(paid);
            assert(paid.len() == count);
            assert(high <= i32::MAX) by {
                lemma_highest_is_part_of_total(paid);
            }
        } else {
            assert(low * count == 0 && high * count == 0) by (nonlinear_arith)
                requires
                    low == 0,
                    high == 0,
            ;
        }
        lemma_batch_keeps_range(earlier, count, cost, low, high);
        let now = with_batch(earlier, count, cost, low, high);
        let after = list.with(p.source, list.of(p.source).insert(p.item_id, now));
        assert(s.shopping == Some(after));
        assert forall|id: u32, source: Source|
            (#[trigger] after.entry(id, source)) matches Some(b) implies has_true_range(
            after.entry(id, source)->0,
        ) by {
            if id == p.item_id && source == p.source {
                assert(after.entry(id, source) == Some(now));
            } else {
                assert(after.entry(id, source) == list.entry(id, source));
            }
        }
    }
}

/// The prices that a shopping list records for an ingredient are the range of
/// what its units cost, over all batches.
pub proof fn law_list_keeps_true_ranges(
    stock: Stock,
    purchases: Seq<Purchase>,
    n: nat,
    patient: bool,
)
    requires
        stock.shopping matches Some(list) ==> has_true_ranges(list),
        n <= purchases.len(),
        are_ordinary(stock, purchases, n, patient),
    ensures
        purchases_made(stock, purchases, n, patient) matches Ok(s) ==> (s.shopping matches Some(
            list,
        ) ==> has_true_ranges(list)),
    decreases n,
{
    if n > 0 {
        let k: nat = (n - 1) as nat;
        law_list_keeps_true_ranges(stock, purchases, k, patient);
        assert(purchases[k as int].count > 0);
        if let Ok(s) = purchases_made(stock, purchases, k, patient) {
            lemma_purchase_keeps_ranges(s, purchases[k as int], patient);
        }
    }
}

/// The purchases of a round are ordinary, where the batch can be sold.
pub open spec fn buys_ordinarily(run: RunState, found: Option<PreciseCraftingCost>) -> bool {
    match (sale_of_batch(run), found) {
        (Ok(Some((_, _, books))), Some(way)) => are_ordinary(
            Stock { books, shopping: run.totals.shopping },
            way.purchases@,
            way.purchases@.len(),
            run.options.patient,
        ),
        _ => true,
    }
}

/// The purchases of every round that a simulation can come to are ordinary.
pub open spec fn always_buys_ordinarily<Q>(search: Q, first: CraftingRun) -> bool where
    Q: Fn(u32, &BTreeMap<u32, ItemListings>, &CraftedItems) -> Option<PreciseCraftingCost>,
 {
    forall|run: CraftingRun, found: Option<PreciseCraftingCost>|
        #[trigger] leads_up_to(search, first, run) && #[trigger] call_ensures(
            search,
            (run.item_id, &run.books, &run.tally.crafted),
            found,
        ) ==> buys_ordinarily(run@, found)
}

proof fn lemma_history_keeps_ranges<Q>(
    search: Q,
    runs: Seq<CraftingRun>,
    found: Seq<Option<PreciseCraftingCost>>,
    i: int,
) where Q: Fn(u32, &BTreeMap<u32, ItemListings>, &CraftedItems) -> Option<PreciseCraftingCost>
    requires
        is_history(search, runs, found),
        0 <= i <= found.len(),
        always_buys_ordinarily(search, runs[0]),
        runs[0]@.totals.shopping matches Some(list) ==> has_true_ranges(list),
    ensures
        runs[i]@.totals.shopping matches Some(list) ==> has_true_ranges(list),
    decreases i,
{
    if i > 0 {
        let k: int = i - 1;
        lemma_history_keeps_ranges(search, runs, found, k);
        assert(is_step(search, runs[k], found[k], runs[k + 1]));
        let earlier = runs.take(k + 1);
        let answers = found.take(k);
        assert(is_history(search, earlier, answers)) by {
            assert forall|j: int| 0 <= j < answers.len() implies is_step(
                search,
                earlier[j],
                #[trigger] answers[j],
                earlier[j + 1],
            ) by {
                assert(is_step(search, runs[j], found[j], runs[j + 1]));
            }
        }
        assert(earlier[0] == runs[0] && earlier.last() == runs[k]);
        assert(leads_up_to(search, runs[0], runs[k]));
        let run = runs[k]@;
        let way = found[k]->0;
        if let Ok(Some((revenue, last, books))) = sale_of_batch(run) {
            law_list_keeps_true_ranges(
                Stock { books, shopping: run.totals.shopping },
                way.purchases@,
                way.purchases@.len(),
                run.options.patient,
            );
        }
    }
}

/// The prices that the shopping list of a simulation records are the range of
/// what the units cost, from its start to its end.
pub proof fn law_simulation_keeps_true_ranges<Q>(
    search: Q,
    first: CraftingRun,
    last: CraftingRun,
    item_id: u32,
    batch: u32,
    listings: Map<u32, api::ItemListings>,
    options: CraftingOptions,
    keep_list: bool,
) where Q: Fn(u32, &BTreeMap<u32, ItemListings>, &CraftedItems) -> Option<PreciseCraftingCost>
    requires
        is_start(first, item_id, batch, listings, options, keep_list),
        leads_up_to(search, first, last),
        always_buys_ordinarily(search, first),
    ensures
        last@.totals.shopping matches Some(list) ==> has_true_ranges(list),
{
    let (runs, found) = choose|
        runs: Seq<CraftingRun>,
        found: Seq<Option<PreciseCraftingCost>>,
    | #[trigger]
        is_history(search, runs, found) && runs[0] == first && runs.last() == last;
    lemma_history_keeps_ranges(search, runs, found, found.len() as int);
}

/// Sum of the costs that the answers of a search name.
pub open spec fn sum_of_costs(found: Seq<Option<PreciseCraftingCost>>) -> real
    decreases found.len(),
{
    if found.len() == 0 {
        0 as real
    } else {
        sum_of_costs(found.drop_last()) + (match found.last() {
            Some(way) => way.cost@,
            None => 0 as real,
        })
    }
}

/// The rounds of a simulation add up: the costs are those that the search named,
/// each round makes one batch, and what was crafted is what the last answer says. A
/// unit of the last batch costs its share of that batch. At a fixed value each unit
/// brings in the value.
pub proof fn law_rounds_add_up<Q>(
    search: Q,
    runs: Seq<CraftingRun>,
    found: Seq<Option<PreciseCraftingCost>>,
    i: int,
) where
    Q: Fn(u32, &BTreeMap<u32, ItemListings>, &CraftedItems) -> Option<PreciseCraftingCost>,

    requires
        is_history(search, runs, found),
        0 <= i <= found.len(),
        runs[0]@.totals.count == 0,
        runs[0]@.totals.crafts == 0,
        runs[0]@.totals.profit == 0 as real,
        runs[0]@.totals.crafting_cost == 0 as real,
    ensures
        runs[i]@.item_id == runs[0]@.item_id,
        runs[i]@.batch == runs[0]@.batch,
        runs[i]@.options == runs[0]@.options,
        runs[i]@.totals.crafts == i,
        runs[i]@.totals.count == i * runs[0]@.batch,
        runs[i]@.totals.crafting_cost == sum_of_costs(found.take(i)),
        i > 0 ==> found[i - 1] is Some && {
            let way = found[i - 1]->0;
            &&& way.source == Source::Crafting
            &&& runs[0]@.batch > 0
            &&& runs[i]@.totals.unit_cost * (runs[0]@.batch as real) == way.cost@
            &&& runs[i]@.totals.crafted == way.items
        },
        runs[0]@.options.value matches Some(price) ==> runs[i]@.totals.profit
            + runs[i]@.totals.crafting_cost == (coin(price) * (i * runs[0]@.batch)) as real && (i
            > 0 ==> runs[i]@.totals.min_sell == price),
    decreases i,
{
    let batch: int = runs[0]@.batch as int;
    if i == 0 {
        assert(found.take(0) =~= Seq::empty());
        assert(0 * batch == 0);
        if let Some(price) = runs[0]@.options.value {
            assert(coin(price) * 0 == 0);
        }
    } else {
        law_rounds_add_up(search, runs, found, i - 1);
        assert(is_step(search, runs[i - 1], found[i - 1], runs[i - 1 + 1]));
        assert(found.take(i).drop_last() =~= found.take(i - 1));
        let way = found[i - 1]->0;
        let cost = way.cost@;
        assert(i * batch == (i - 1) * batch + batch) by (nonlinear_arith);
        assert((cost / (batch as real)) * (batch as real) == cost) by (nonlinear_arith)
            requires
                batch > 0,
        ;
        if let Some(price) = runs[0]@.options.value {
            let c = coin(price);
            assert(c * (i * batch) == c * ((i - 1) * batch) + c * batch) by (nonlinear_arith)
                requires
                    i * batch == (i - 1) * batch + batch,
            ;
        }
    }
}

/// Offers that a batch is sold to: the bids, or with patience the asks.
pub open spec fn offers_for_sale(run: RunState) -> Seq<u32> {
    units(
        if run.options.patient {
            run.books[run.item_id].sells
        } else {
            run.books[run.item_id].buys
        },
    )
}

/// A round that stops the simulation has a reason: there is no way to craft a batch,
/// there are too few offers for it, it would not earn the margin, or all batches
/// together would come down to a margin below zero. Of an offer 85% are kept.
pub proof fn law_stop_has_a_reason(run: RunState, found: Option<PreciseCraftingCost>)
    requires
        round(run, found) == Round::Stopped,
        found is Some,
        (found->0).source == Source::Crafting,
    ensures
        ({
            let cost = (found->0).cost@;
            let margin = ((run.options.profit_threshold as i32) as int) as real;
            let offers = offers_for_sale(run);
            let revenue = match run.options.value {
                Some(price) => (coin(price) * run.batch) as real,
                None => (coin_total(offers.take(run.batch as int)) as real) * (85 as real) / (
                100 as real),
            };
            ||| run.options.value is None && offers.len() < run.batch
            ||| revenue < cost + margin
            ||| margin < 0 as real && run.totals.profit + revenue - cost <= margin
        }),
{
}

/// A round that is made earns the margin with its own batch. Of an offer 85% are
/// kept.
pub proof fn law_batch_earns_the_margin(
    run: RunState,
    found: Option<PreciseCraftingCost>,
    next: RunState,
)
    requires
        round(run, found) == Round::Made(next),
    ensures
        found is Some,
        ({
            let cost = (found->0).cost@;
            let margin = ((run.options.profit_threshold as i32) as int) as real;
            let offers = offers_for_sale(run);
            let revenue = match run.options.value {
                Some(price) => (coin(price) * run.batch) as real,
                None => (coin_total(offers.take(run.batch as int)) as real) * (85 as real) / (
                100 as real),
            };
            &&& run.options.value is None ==> run.batch <= offers.len()
            &&& revenue >= cost + margin
            &&& next.totals.profit == run.totals.profit + revenue - cost
            &&& margin < 0 as real ==> next.totals.profit > margin
            &&& next.totals.crafting_cost == run.totals.crafting_cost + cost
            &&& run.options.value is None ==> (run.batch > 0 ==> next.totals.min_sell
                == offers[run.batch - 1])
        }),
{
    let offers = offers_for_sale(run);
    if run.options.value is None && run.batch > 0 {
        assert(offers.take(run.batch as int).last() == offers[run.batch - 1]);
    }
}

/// A simulation goes on as long as a further batch keeps to the limit, and no
/// longer. Where units are counted a batch has to fit whole.
pub proof fn law_limit_is_used_up(run: RunState)
    ensures
        run.options.count_limit == CountLimit::Unlimited ==> !at_limit(run),
        run.options.count_limit matches CountLimit::Crafts(limit) ==> (at_limit(run) <==> limit
            <= run.totals.crafts),
        run.options.count_limit matches CountLimit::Items(limit) ==> (at_limit(run) <==> limit
            < run.totals.count + run.batch),
{
}

/// A sale takes the best offers of one side, and leaves everything else: of the bids
/// when instant, of the asks when patient.
pub proof fn law_sale_takes_the_best_offers(run: RunState, id: u32)
    requires
        run.options.value is None,
    ensures
        sale_of_batch(run) matches Ok(Some((revenue, last, books))) ==> {
            let n = run.batch as int;
            let before = run.books[run.item_id];
            let after = books[run.item_id];
            &&& books.contains_key(run.item_id) && run.books.contains_key(run.item_id)
            &&& id != run.item_id ==> books.contains_key(id) == run.books.contains_key(id)
                && books[id] == run.books[id]
            &&& !run.options.patient ==> n <= units(before.buys).len() && units(after.buys)
                == units(before.buys).skip(n) && after.sells == before.sells
            &&& run.options.patient ==> n <= units(before.sells).len() && units(after.sells)
                == units(before.sells).skip(n) && after.buys == before.buys
        },
{
    let before = run.books[run.item_id];
    law_trade_leaves_the_other_units(before.buys, run.batch as nat);
    law_trade_leaves_the_other_units(before.sells, run.batch as nat);
}

/// Prices of the units that a purchase gets on the trading post: the best asks, or
/// with patience the best bids.
pub open spec fn prices_paid(stock: Stock, p: Purchase, patient: bool) -> Seq<u32> {
    units(
        if patient {
            stock.books[p.item_id].buys
        } else {
            stock.books[p.item_id].sells
        },
    ).take(p.count as int)
}

/// A purchase on the trading post takes the best offers of one side, and leaves
/// everything else: of the asks when instant, of the bids when patient. Any other
/// purchase leaves the order books alone.
pub proof fn law_purchase_takes_the_best_offers(stock: Stock, p: Purchase, patient: bool, id: u32)
    ensures
        purchase(stock, p, patient) matches Ok(s) ==> {
            let n = p.count as int;
            let before = stock.books[p.item_id];
            let after = s.books[p.item_id];
            &&& id != p.item_id || p.source != Source::TradingPost ==> s.books.contains_key(id)
                == stock.books.contains_key(id) && s.books[id] == stock.books[id]
            &&& p.source == Source::TradingPost ==> stock.books.contains_key(p.item_id)
                && s.books.contains_key(p.item_id)
            &&& p.source == Source::TradingPost && !patient ==> n <= units(before.sells).len()
                && units(after.sells) == units(before.sells).skip(n) && after.buys == before.buys
            &&& p.source == Source::TradingPost && patient ==> n <= units(before.buys).len()
                && units(after.buys) == units(before.buys).skip(n) && after.sells == before.sells
        },
{
    let before = stock.books[p.item_id];
    law_trade_leaves_the_other_units(before.buys, p.count as nat);
    law_trade_leaves_the_other_units(before.sells, p.count as nat);
}

/// A purchase adds its units and what they cost to the record of the ingredient, and
/// leaves all other records. Every price that was paid lies between the recorded
/// ones, and these were paid, now or before. What does not come from the trading post
/// costs nothing.
pub proof fn law_purchase_is_recorded(
    stock: Stock,
    p: Purchase,
    patient: bool,
    id: u32,
    source: Source,
)
    requires
        stock.shopping is Some,
        p.count > 0,
        p.source == Source::TradingPost ==> total(prices_paid(stock, p, patient)) <= i32::MAX,
    ensures
        purchase(stock, p, patient) matches Ok(s) ==> s.shopping is Some && {
            let list = stock.shopping->0;
            let now = (s.shopping->0).entry(p.item_id, p.source);
            let old_count = match list.entry(p.item_id, p.source) {
                Some(b) => b.count,
                None => 0,
            };
            let old_cost = match list.entry(p.item_id, p.source) {
                Some(b) => b.total_cost,
                None => 0 as real,
            };
            let paid = prices_paid(stock, p, patient);
            &&& (id != p.item_id || source != p.source) ==> (s.shopping->0).entry(id, source)
                == list.entry(id, source)
            &&& now matches Some(b) && {
                &&& b.count == old_count + p.count
                &&& p.source != Source::TradingPost ==> b.total_cost == old_cost
                &&& p.source == Source::TradingPost ==> {
                    &&& b.total_cost == old_cost + (total(paid) as int) as real
                    &&& forall|i: int|
                        0 <= i < paid.len() ==> b.min_price <= (#[trigger] paid[i] as int) as real
                            <= b.max_price
                    &&& was_paid(b.min_price, paid) || old_count > 0 && b.min_price
                        == list.entry(p.item_id, p.source)->0.min_price
                    &&& was_paid(b.max_price, paid) || old_count > 0 && b.max_price
                        == list.entry(p.item_id, p.source)->0.max_price
                    &&& old_count > 0 ==> b.min_price <= list.entry(
                        p.item_id,
                        p.source,
                    )->0.min_price && b.max_price >= list.entry(p.item_id, p.source)->0.max_price
                }
            }
        },
{
    if let Ok(s) = purchase(stock, p, patient) {
        let list = stock.shopping->0;
        let paid = prices_paid(stock, p, patient);
        if p.source == Source::TradingPost {
            let side = stock.books[p.item_id].purchase_side(patient);
            assert(first_units(units(side), p.count as nat) == paid);
            assert(paid.len() == p.count);
            lemma_range(paid);
            lemma_highest_is_part_of_total(paid);
            let low: int = paid.index_of(lowest(paid));
            let high: int = paid.index_of(highest(paid));
            assert(paid[low] == lowest(paid) && paid[high] == highest(paid));
            assert(was_paid((lowest(paid) as int) as real, paid));
            assert(was_paid((highest(paid) as int) as real, paid));
        }
    }
}

/// One of the units was paid that much.
pub open spec fn was_paid(price: real, paid: Seq<u32>) -> bool {
    exists|i: int| 0 <= i < paid.len() && price == (#[trigger] paid[i] as int) as real
}

/// A simulation starts from the reported offers, in their order, with nothing made,
/// earned or bought.
pub proof fn law_simulation_starts_from_the_report(
    first: CraftingRun,
    item_id: u32,
    batch: u32,
    listings: Map<u32, api::ItemListings>,
    options: CraftingOptions,
    keep_list: bool,
    id: u32,
    k: int,
)
    requires
        is_start(first, item_id, batch, listings, options, keep_list),
    ensures
        first@.books.contains_key(id) == listings.contains_key(id),
        listings.contains_key(id) ==> {
            &&& first@.books[id].buys.len() == listings[id].buys@.len()
            &&& first@.books[id].sells.len() == listings[id].sells@.len()
            &&& 0 <= k < listings[id].buys@.len() ==> first@.books[id].buys[k].unit_price
                == listings[id].buys@[k].unit_price && first@.books[id].buys[k].quantity
                == listings[id].buys@[k].quantity
            &&& 0 <= k < listings[id].sells@.len() ==> first@.books[id].sells[k].unit_price
                == listings[id].sells@[k].unit_price && first@.books[id].sells[k].quantity
                == listings[id].sells@[k].quantity
        },
        first@.totals.count == 0 && first@.totals.crafts == 0,
        first@.totals.profit == 0 as real && first@.totals.crafting_cost == 0 as real,
        first@.totals.shopping is Some <==> keep_list,
        first@.totals.shopping matches Some(list) ==> list.crafting.dom().is_empty()
            && list.trading_post.dom().is_empty() && list.vendor.dom().is_empty(),
{
}

/// A purchase fails for want of an order book exactly if the item is to come from the
/// trading post and has none, and for want of units exactly if the book has too few. A
/// sale fails for want of a book exactly if no price is set and there is none.
pub proof fn law_failures_have_a_reason(
    stock: Stock,
    p: Purchase,
    patient: bool,
    run: RunState,
    id: u32,
)
    ensures
        purchase(stock, p, patient) == Err::<Stock, RunError>(RunError::MissingListings(id))
            <==> p.source == Source::TradingPost && id == p.item_id && !stock.books.contains_key(id),
        purchase(stock, p, patient) == Err::<Stock, RunError>(RunError::CannotBuy(id)) <==> {
            let side = if patient {
                stock.books[id].buys
            } else {
                stock.books[id].sells
            };
            &&& p.source == Source::TradingPost && id == p.item_id && stock.books.contains_key(id)
            &&& can_fill(side, p.count as nat)
            &&& units(side).len() < p.count
        },
        p.source != Source::TradingPost && stock.shopping is None ==> purchase(stock, p, patient)
            == Ok::<Stock, RunError>(stock),
        sale_of_batch(run) == Err::<Option<(real, u32, Map<u32, Book>)>, RunError>(
            RunError::MissingListings(id),
        ) <==> run.options.value is None && id == run.item_id && !run.books.contains_key(id),
{
}

/// Purchases are made one after the other, each from what those before it have left.
/// After one that fails none is made.
pub proof fn law_purchases_are_made_in_turn(
    stock: Stock,
    purchases: Seq<Purchase>,
    n: nat,
    patient: bool,
)
    requires
        n < purchases.len(),
    ensures
        purchases_made(stock, purchases, 0, patient) == Ok::<Stock, RunError>(stock),
        purchases_made(stock, purchases, n, patient) matches Ok(left) ==> purchases_made(
            stock,
            purchases,
            n + 1,
            patient,
        ) == purchase(left, purchases[n as int], patient),
        purchases_made(stock, purchases, n, patient) matches Err(e) ==> purchases_made(
            stock,
            purchases,
            n + 1,
            patient,
        ) == Err::<Stock, RunError>(e),
{
}

} // verus!
