//! Order books of the trading post.
//!
//! Each side of a book is a list of price levels with the best offer last, so
//! that it can be popped. A side is modelled as the sequence of its units, the
//! unit that is traded first standing first.

use crate::api;
use crate::money::{after_fees, fits, Money};
use vstd::prelude::*;

verus! {

/// Units on offer at one price.
#[derive(Clone, Copy, Debug, PartialEq, Eq, Structural)]
pub struct Listing {
    pub unit_price: u32,
    pub quantity: u32,
}

/// Order book of one item.
#[derive(Clone, Debug)]
pub struct ItemListings {
    pub id: u32,
    pub buys: Vec<Listing>,
    pub sells: Vec<Listing>,
    pub pending_buy_quantity: u32,
    pub pending_sell_quantity: u32,
}

/// `count` units at one price.
pub open spec fn level_units(price: u32, count: nat) -> Seq<u32> {
    Seq::new(count, |i: int| price)
}

/// Prices of the units of a side, best offer first.
pub open spec fn units(levels: Seq<Listing>) -> Seq<u32>
    decreases levels.len(),
{
    if levels.len() == 0 {
        Seq::empty()
    } else {
        level_units(levels.last().unit_price, levels.last().quantity as nat) + units(
            levels.drop_last(),
        )
    }
}

/// Sum of the prices.
pub open spec fn total(prices: Seq<u32>) -> nat
    decreases prices.len(),
{
    if prices.len() == 0 {
        0
    } else {
        prices[0] as nat + total(prices.drop_first())
    }
}

/// Copper that a price stands for: the 32-bit pattern read as a signed number.
pub open spec fn coin(price: u32) -> int {
    (price as i32) as int
}

/// Sum of the coin that the prices stand for.
pub open spec fn coin_total(prices: Seq<u32>) -> int
    decreases prices.len(),
{
    if prices.len() == 0 {
        0
    } else {
        coin(prices[0]) + coin_total(prices.drop_first())
    }
}

/// First price that is not zero, or zero where there is none.
pub open spec fn first_price(prices: Seq<u32>) -> u32
    decreases prices.len(),
{
    if prices.len() == 0 {
        0
    } else if prices[0] != 0 {
        prices[0]
    } else {
        first_price(prices.drop_first())
    }
}

/// Price of the last unit, or zero where there is none.
pub open spec fn last_price(prices: Seq<u32>) -> u32 {
    if prices.len() == 0 {
        0
    } else {
        prices.last()
    }
}

/// Lowest of the prices, or zero where there is none.
pub open spec fn lowest(prices: Seq<u32>) -> u32
    decreases prices.len(),
{
    if prices.len() == 0 {
        0
    } else if prices.len() == 1 || prices.last() < lowest(prices.drop_last()) {
        prices.last()
    } else {
        lowest(prices.drop_last())
    }
}

/// Highest of the prices, or zero where there is none.
pub open spec fn highest(prices: Seq<u32>) -> u32
    decreases prices.len(),
{
    if prices.len() == 0 {
        0
    } else if prices.len() == 1 || prices.last() > highest(prices.drop_last()) {
        prices.last()
    } else {
        highest(prices.drop_last())
    }
}

/// The first `count` of the units, or all where there are fewer.
pub open spec fn first_units(prices: Seq<u32>, count: nat) -> Seq<u32> {
    prices.take(if count <= prices.len() {
        count as int
    } else {
        prices.len() as int
    })
}

/// The `count` units behind the first `skip` ones, as far as there are any.
pub open spec fn units_behind(prices: Seq<u32>, skip: nat, count: nat) -> Seq<u32> {
    if skip >= prices.len() {
        Seq::empty()
    } else {
        first_units(prices.skip(skip as int), count)
    }
}

/// The levels that are left when `count` units have been traded.
pub open spec fn levels_left(levels: Seq<Listing>, count: nat) -> Seq<Listing>
    decreases levels.len(),
{
    if count == 0 || levels.len() == 0 {
        levels
    } else if levels.last().quantity > count {
        levels.drop_last().push(
            Listing {
                unit_price: levels.last().unit_price,
                quantity: (levels.last().quantity - count) as u32,
            },
        )
    } else {
        levels_left(levels.drop_last(), (count - levels.last().quantity) as nat)
    }
}

/// None of the levels that `count` units reach is empty.
pub open spec fn no_empty_level(levels: Seq<Listing>, count: nat) -> bool
    decreases levels.len(),
{
    if count == 0 || levels.len() == 0 {
        true
    } else {
        levels.last().quantity > 0 && (levels.last().quantity >= count || no_empty_level(
            levels.drop_last(),
            (count - levels.last().quantity) as nat,
        ))
    }
}

pub proof fn lemma_total_append(a: Seq<u32>, b: Seq<u32>)
    ensures
        total(a + b) == total(a) + total(b),
        coin_total(a + b) == coin_total(a) + coin_total(b),
    decreases a.len(),
{
    if a.len() == 0 {
        assert(a + b =~= b);
    } else {
        assert((a + b).drop_first() =~= a.drop_first() + b);
        lemma_total_append(a.drop_first(), b);
    }
}

proof fn lemma_level_total(price: u32, count: nat)
    ensures
        total(level_units(price, count)) == price * count,
        coin_total(level_units(price, count)) == coin(price) * count,
    decreases count,
{
    if count > 0 {
        assert(level_units(price, count).drop_first() =~= level_units(price, (count - 1) as nat));
        lemma_level_total(price, (count - 1) as nat);
        assert(price * count == price * (count - 1) + price) by (nonlinear_arith);
        assert(coin(price) * count == coin(price) * (count - 1) + coin(price)) by (nonlinear_arith);
    } else {
        assert(price * count == 0 && coin(price) * count == 0) by (nonlinear_arith)
            requires
                count == 0,
        ;
    }
}

proof fn lemma_first_price_append(a: Seq<u32>, b: Seq<u32>)
    ensures
        first_price(a + b) == (if first_price(a) != 0 {
            first_price(a)
        } else {
            first_price(b)
        }),
    decreases a.len(),
{
    if a.len() == 0 {
        assert(a + b =~= b);
    } else {
        assert((a + b).drop_first() =~= a.drop_first() + b);
        lemma_first_price_append(a.drop_first(), b);
    }
}

proof fn lemma_level_first_price(price: u32, count: nat)
    ensures
        first_price(level_units(price, count)) == (if count > 0 {
            price
        } else {
            0
        }),
    decreases count,
{
    if count > 0 {
        assert(level_units(price, count).drop_first() =~= level_units(price, (count - 1) as nat));
        lemma_level_first_price(price, (count - 1) as nat);
    }
}

/// The lowest and the highest price are prices, and all others lie between.
pub proof fn lemma_range(prices: Seq<u32>)
    requires
        prices.len() > 0,
    ensures
        prices.contains(lowest(prices)),
        prices.contains(highest(prices)),
        forall|i: int|
            0 <= i < prices.len() ==> lowest(prices) <= #[trigger] prices[i] <= highest(prices),
    decreases prices.len(),
{
    let n: int = prices.len() - 1;
    assert(prices[n] == prices.last());
    if n > 0 {
        let rest = prices.drop_last();
        lemma_range(rest);
        let i: int = rest.index_of(lowest(rest));
        let j: int = rest.index_of(highest(rest));
        assert(prices[i] == lowest(rest) && prices[j] == highest(rest));
        assert forall|k: int| 0 <= k < prices.len() implies lowest(prices) <= #[trigger] prices[k]
            <= highest(prices) by {
            if k < n {
                assert(prices[k] == rest[k]);
            }
        }
    }
}

/// Bounds that are prices themselves are the lowest and the highest price.
proof fn lemma_range_is_unique(prices: Seq<u32>, low: u32, high: u32)
    requires
        prices.contains(low),
        prices.contains(high),
        forall|i: int| 0 <= i < prices.len() ==> low <= #[trigger] prices[i] <= high,
    ensures
        lowest(prices) == low,
        highest(prices) == high,
{
    lemma_range(prices);
    let i: int = prices.index_of(low);
    let j: int = prices.index_of(high);
    let k: int = prices.index_of(lowest(prices));
    let l: int = prices.index_of(highest(prices));
    assert(prices[i] == low && prices[j] == high);
    assert(prices[k] == lowest(prices) && prices[l] == highest(prices));
}

/// The lowest and the highest price with more units of one price behind.
proof fn lemma_range_of_more(prices: Seq<u32>, price: u32, count: nat)
    requires
        count > 0,
    ensures
        lowest(prices + level_units(price, count)) == (if prices.len() == 0 || price < lowest(
            prices,
        ) {
            price
        } else {
            lowest(prices)
        }),
        highest(prices + level_units(price, count)) == (if prices.len() == 0 || price > highest(
            prices,
        ) {
            price
        } else {
            highest(prices)
        }),
{
    let all = prices + level_units(price, count);
    assert(all[prices.len() as int] == price);
    let mut low = price;
    let mut high = price;
    if prices.len() > 0 {
        lemma_range(prices);
        let i: int = prices.index_of(lowest(prices));
        let j: int = prices.index_of(highest(prices));
        assert(all[i] == lowest(prices) && all[j] == highest(prices));
        if lowest(prices) <= price {
            low = lowest(prices);
        }
        if highest(prices) >= price {
            high = highest(prices);
        }
    }
    assert forall|k: int| 0 <= k < all.len() implies low <= #[trigger] all[k] <= high by {
        if k < prices.len() {
            assert(all[k] == prices[k]);
        } else {
            assert(all[k] == price);
        }
    }
    lemma_range_is_unique(all, low, high);
}

/// Even the dearest unit costs no more than all of them.
pub proof fn lemma_highest_is_part_of_total(prices: Seq<u32>)
    ensures
        highest(prices) <= total(prices),
    decreases prices.len(),
{
    if prices.len() > 0 {
        let rest = prices.drop_last();
        lemma_highest_is_part_of_total(rest);
        assert(prices =~= rest + level_units(prices.last(), 1));
        lemma_total_append(rest, level_units(prices.last(), 1));
        lemma_level_total(prices.last(), 1);
    }
}

/// Units cost no less than so many of the lowest price, and no more than so
/// many of the highest.
pub proof fn law_cost_lies_in_the_price_range(prices: Seq<u32>)
    ensures
        lowest(prices) <= highest(prices),
        lowest(prices) * prices.len() <= total(prices) <= highest(prices) * prices.len(),
    decreases prices.len(),
{
    if prices.len() > 0 {
        let rest = prices.drop_last();
        let last = prices.last();
        let n: nat = rest.len();
        law_cost_lies_in_the_price_range(rest);
        assert(prices =~= rest + level_units(last, 1));
        lemma_total_append(rest, level_units(last, 1));
        lemma_level_total(last, 1);
        lemma_range_of_more(rest, last, 1);
        let low = lowest(prices);
        let high = highest(prices);
        if n == 0 {
            assert(low * (n + 1) == low && high * (n + 1) == high) by (nonlinear_arith)
                requires
                    n == 0,
            ;
        } else {
            assert(low * (n + 1) <= lowest(rest) * n + last) by (nonlinear_arith)
                requires
                    low <= lowest(rest),
                    low <= last,
            ;
            assert(high * (n + 1) >= highest(rest) * n + last) by (nonlinear_arith)
                requires
                    high >= highest(rest),
                    high >= last,
            ;
        }
    }
}

/// More units cost more.
proof fn lemma_total_grows(prices: Seq<u32>, i: int, j: int)
    requires
        0 <= i <= j <= prices.len(),
    ensures
        total(prices.take(i)) <= total(prices.take(j)),
{
    assert(prices.take(j) =~= prices.take(i) + prices.subrange(i, j));
    lemma_total_append(prices.take(i), prices.subrange(i, j));
}

proof fn lemma_coin_bound(prices: Seq<u32>)
    ensures
        -0x8000_0000 * prices.len() <= coin_total(prices) <= 0x8000_0000 * prices.len(),
    decreases prices.len(),
{
    if prices.len() > 0 {
        lemma_coin_bound(prices.drop_first());
    }
}

/// What taking `n` units of the best level does to the units.
proof fn lemma_take_from_level(levels: Seq<Listing>, n: nat)
    requires
        levels.len() > 0,
        n <= levels.last().quantity,
    ensures
        units(levels).len() >= n,
        units(levels).take(n as int) == level_units(levels.last().unit_price, n),
        n < levels.last().quantity ==> units(levels).skip(n as int) == units(
            levels_left(levels, n),
        ),
        n == levels.last().quantity ==> units(levels).skip(n as int) == units(levels.drop_last()),
{
    let price: u32 = levels.last().unit_price;
    let q: nat = levels.last().quantity as nat;
    assert(units(levels).take(n as int) =~= level_units(price, n));
    if n == levels.last().quantity {
        assert(units(levels).skip(n as int) =~= units(levels.drop_last()));
    } else if n > 0 {
        let left = levels_left(levels, n);
        assert(left.drop_last() =~= levels.drop_last());
        assert(units(levels).skip(n as int) =~= units(left));
    } else {
        assert(units(levels).skip(0) =~= units(levels));
    }
}

/// Fills `count` units from the best level on. Returns the cost, the first
/// price paid and the last price paid.
fn fill_cost(levels: &mut Vec<Listing>, count: u32) -> (res: Option<(u32, u32, u32)>)
    requires
        no_empty_level(old(levels)@, count as nat),
        total(first_units(units(old(levels)@), count as nat)) <= u32::MAX,
    ensures
        final(levels)@ == levels_left(old(levels)@, count as nat),
        match res {
            Some((cost, first, last)) => {
                let paid = units(old(levels)@).take(count as int);
                &&& count <= units(old(levels)@).len()
                &&& cost == total(paid)
                &&& first == first_price(paid)
                &&& last == last_price(paid)
            },
            None => count > units(old(levels)@).len(),
        },
{
    let ghost all = units(levels@);
    let ghost start = levels@;
    let mut left: u32 = count;
    let mut cost: u32 = 0;
    let mut first: u32 = 0;
    let mut last: u32 = 0;
    let ghost mut done: int = 0;
    assert(all.skip(0) =~= all);
    assert(all.take(0) =~= Seq::empty());
    while left > 0
        invariant
            start == old(levels)@,
            all == units(start),
            0 <= done <= all.len(),
            left == count - done,
            no_empty_level(levels@, left as nat),
            levels_left(levels@, left as nat) == levels_left(start, count as nat),
            units(levels@) == all.skip(done),
            total(first_units(all, count as nat)) <= u32::MAX,
            cost == total(all.take(done)),
            first == first_price(all.take(done)),
            last == last_price(all.take(done)),
        decreases left,
    {
        let ghost before = levels@;
        match levels.pop() {
            None => {
                assert(all.skip(done).len() == 0);
                return None;
            },
            Some(top) => {
                let n: u32 = if top.quantity < left {
                    top.quantity
                } else {
                    left
                };
                proof {
                    assert(before.drop_last() =~= levels@);
                    assert(before.last() == top);
                    lemma_take_from_level(before, n as nat);
                    let part = level_units(top.unit_price, n as nat);
                    assert(all.take(done + n) =~= all.take(done) + part) by {
                        assert(all.skip(done).take(n as int) == part);
                        assert(all.take(done + n) =~= all.take(done) + all.skip(done).take(n as int));
                    }
                    lemma_total_append(all.take(done), part);
                    lemma_level_total(top.unit_price, n as nat);
                    lemma_first_price_append(all.take(done), part);
                    lemma_level_first_price(top.unit_price, n as nat);
                    let reach: int = if count <= all.len() {
                        count as int
                    } else {
                        all.len() as int
                    };
                    lemma_total_grows(all, done + n, reach);
                    assert(all.skip(done).skip(n as int) =~= all.skip(done + n));
                    assert(n as int * top.unit_price as int == top.unit_price * n)
                        by (nonlinear_arith);
                }
                let step: u32 = ((n as u64) * (top.unit_price as u64)) as u32;
                cost = cost + step;
                if first == 0 {
                    first = top.unit_price;
                }
                last = top.unit_price;
                if top.quantity > n {
                    levels.push(
                        Listing { unit_price: top.unit_price, quantity: top.quantity - n },
                    );
                }
                left = left - n;
                proof {
                    done = done + n;
                }
            },
        }
    }
    Some((cost, first, last))
}

/// Fills `count` units from the best level on. Returns the coin that changes
/// hands and the last price.
fn fill_coin(levels: &mut Vec<Listing>, count: u32) -> (res: Option<(i64, u32)>)
    requires
        no_empty_level(old(levels)@, count as nat),
    ensures
        final(levels)@ == levels_left(old(levels)@, count as nat),
        match res {
            Some((coins, last)) => {
                let paid = units(old(levels)@).take(count as int);
                &&& count <= units(old(levels)@).len()
                &&& coins == coin_total(paid)
                &&& last == last_price(paid)
            },
            None => count > units(old(levels)@).len(),
        },
{
    let ghost all = units(levels@);
    let ghost start = levels@;
    let mut left: u32 = count;
    let mut coins: i64 = 0;
    let mut last: u32 = 0;
    let ghost mut done: int = 0;
    assert(all.skip(0) =~= all);
    assert(all.take(0) =~= Seq::empty());
    while left > 0
        invariant
            start == old(levels)@,
            all == units(start),
            0 <= done <= all.len(),
            left == count - done,
            no_empty_level(levels@, left as nat),
            levels_left(levels@, left as nat) == levels_left(start, count as nat),
            units(levels@) == all.skip(done),
            coins == coin_total(all.take(done)),
            last == last_price(all.take(done)),
        decreases left,
    {
        let ghost before = levels@;
        match levels.pop() {
            None => {
                assert(all.skip(done).len() == 0);
                return None;
            },
            Some(top) => {
                let n: u32 = if top.quantity < left {
                    top.quantity
                } else {
                    left
                };
                let price: i32 = top.unit_price as i32;
                proof {
                    assert(before.drop_last() =~= levels@);
                    assert(before.last() == top);
                    lemma_take_from_level(before, n as nat);
                    let part = level_units(top.unit_price, n as nat);
                    assert(all.take(done + n) =~= all.take(done) + part) by {
                        assert(all.skip(done).take(n as int) == part);
                        assert(all.take(done + n) =~= all.take(done) + all.skip(done).take(n as int));
                    }
                    lemma_total_append(all.take(done), part);
                    lemma_level_total(top.unit_price, n as nat);
                    lemma_coin_bound(all.take(done + n));
                    lemma_coin_bound(part);
                    assert(all.skip(done).skip(n as int) =~= all.skip(done + n));
                    assert(price as int == coin(top.unit_price));
                    assert(n as int * price as int == coin(top.unit_price) * n)
                        by (nonlinear_arith)
                        requires
                            price as int == coin(top.unit_price),
                    ;
                }
                coins = coins + (n as i64) * (price as i64);
                last = top.unit_price;
                if top.quantity > n {
                    levels.push(
                        Listing { unit_price: top.unit_price, quantity: top.quantity - n },
                    );
                }
                left = left - n;
                proof {
                    done = done + n;
                }
            },
        }
    }
    Some((coins, last))
}

/// Cost of the `count` units behind the first `skip` ones.
pub open spec fn offer_total(levels: Seq<Listing>, skip: nat, count: nat) -> nat {
    total(units_behind(units(levels), skip, count))
}

/// The units behind those of the best level.
proof fn lemma_offer_step(levels: Seq<Listing>, skip: nat, count: nat)
    requires
        levels.len() > 0,
    ensures
        ({
            let top = levels.last();
            let rest = levels.drop_last();
            &&& units(levels).len() == top.quantity + units(rest).len()
            &&& skip >= top.quantity ==> offer_total(levels, skip, count) == offer_total(
                rest,
                (skip - top.quantity) as nat,
                count,
            )
            &&& skip < top.quantity && top.quantity - skip < count ==> offer_total(
                levels,
                skip,
                count,
            ) == top.unit_price * (top.quantity - skip) + offer_total(
                rest,
                0,
                (count - (top.quantity - skip)) as nat,
            )
            &&& skip < top.quantity && top.quantity - skip >= count ==> offer_total(
                levels,
                skip,
                count,
            ) == top.unit_price * count
        }),
{
    let top = levels.last();
    let rest = levels.drop_last();
    let q: nat = top.quantity as nat;
    let a = level_units(top.unit_price, q);
    let b = units(rest);
    let all = units(levels);
    assert(all == a + b);
    if skip >= q {
        if skip < all.len() {
            assert(all.skip(skip as int) =~= b.skip(skip - q));
        }
    } else {
        let m: nat = (q - skip) as nat;
        let part = level_units(top.unit_price, m);
        assert(all.skip(skip as int) =~= part + b);
        if m < count {
            let more = units_behind(b, 0, (count - m) as nat);
            assert(b.skip(0) =~= b);
            if b.len() == 0 {
                assert(units_behind(all, skip, count) =~= part);
                assert(more =~= Seq::empty());
                assert(part + more =~= part);
            } else {
                assert(units_behind(all, skip, count) =~= part + more);
            }
            lemma_total_append(part, more);
            lemma_level_total(top.unit_price, m);
        } else {
            assert(units_behind(all, skip, count) =~= level_units(top.unit_price, count));
            lemma_level_total(top.unit_price, count);
        }
    }
}

/// Cost of `quantity` units behind the first `pending` ones, where there are
/// that many.
fn offer_cost(levels: &Vec<Listing>, pending: u32, quantity: u32) -> (res: Option<u32>)
    requires
        quantity > 0,
        offer_total(levels@, pending as nat, quantity as nat) <= u32::MAX,
    ensures
        match res {
            Some(cost) => pending + quantity <= units(levels@).len() && cost == offer_total(
                levels@,
                pending as nat,
                quantity as nat,
            ),
            None => pending + quantity > units(levels@).len(),
        },
{
    let mut skip: u32 = pending;
    let mut left: u32 = quantity;
    let mut cost: u32 = 0;
    let mut i: usize = levels.len();
    assert(levels@.take(i as int) =~= levels@);
    while i > 0
        invariant
            i <= levels.len(),
            left > 0,
            offer_total(levels@, pending as nat, quantity as nat) <= u32::MAX,
            offer_total(levels@, pending as nat, quantity as nat) == cost + offer_total(
                levels@.take(i as int),
                skip as nat,
                left as nat,
            ),
            (pending + quantity <= units(levels@).len()) == (skip + left <= units(
                levels@.take(i as int),
            ).len()),
        decreases i,
    {
        let ghost side = levels@.take(i as int);
        i -= 1;
        let top: Listing = levels[i];
        proof {
            assert(side.last() == top);
            assert(side.drop_last() =~= levels@.take(i as int));
            lemma_offer_step(side, skip as nat, left as nat);
        }
        if skip >= top.quantity {
            skip = skip - top.quantity;
        } else {
            let open: u32 = top.quantity - skip;
            if open < left {
                assert(open as int * top.unit_price as int == top.unit_price * open)
                    by (nonlinear_arith);
                let step: u64 = (open as u64) * (top.unit_price as u64);
                cost = cost + step as u32;
                left = left - open;
                skip = 0;
            } else {
                assert(left as int * top.unit_price as int == top.unit_price * left)
                    by (nonlinear_arith);
                let step: u64 = (left as u64) * (top.unit_price as u64);
                return Some(cost + step as u32);
            }
        }
    }
    assert(units(levels@.take(0)).len() == 0);
    None
}

/// What filling `count` units of a side costs, with the first and the last
/// price paid, where the side has that many.
pub open spec fn fill(side: Seq<Listing>, count: nat) -> Option<(nat, u32, u32)> {
    let paid = units(side).take(count as int);
    if count <= units(side).len() {
        Some((total(paid), first_price(paid), last_price(paid)))
    } else {
        None
    }
}

/// What the seller keeps of `count` units traded on a side, with the last
/// price, where the side has that many.
pub open spec fn proceeds(side: Seq<Listing>, count: nat) -> Option<(real, u32)> {
    let paid = units(side).take(count as int);
    if count <= units(side).len() {
        Some((after_fees(coin_total(paid) as real), last_price(paid)))
    } else {
        None
    }
}

/// Cost of `count` units behind the first `skip` ones, where the side has that
/// many.
pub open spec fn offer(side: Seq<Listing>, skip: nat, count: nat) -> Option<nat> {
    if skip + count <= units(side).len() {
        Some(offer_total(side, skip, count))
    } else {
        None
    }
}

/// `count` units can be bought from a side: no level that they reach is empty,
/// and their cost is a 32-bit number.
pub open spec fn can_fill(side: Seq<Listing>, count: nat) -> bool {
    no_empty_level(side, count) && total(first_units(units(side), count)) <= u32::MAX
}

/// `count` units can be sold into a side: no level that they reach is empty,
/// and the proceeds are an amount that can be held.
pub open spec fn can_sell(side: Seq<Listing>, count: nat) -> bool {
    no_empty_level(side, count) && (proceeds(side, count) matches Some(p) ==> fits(p.0))
}

impl ItemListings {
    /// The book, side by side.
    pub open spec fn same_book(&self, other: &ItemListings) -> bool {
        &&& self.id == other.id
        &&& self.buys@ == other.buys@
        &&& self.sells@ == other.sells@
        &&& self.pending_buy_quantity == other.pending_buy_quantity
        &&& self.pending_sell_quantity == other.pending_sell_quantity
    }

    /// Side that a purchase is filled from: asks when instant, bids when
    /// patient.
    pub open spec fn purchase_side(&self, patient: bool) -> Seq<Listing> {
        if patient {
            self.buys@
        } else {
            self.sells@
        }
    }

    /// Side that a sale is filled from: bids when instant, asks when patient.
    pub open spec fn sale_side(&self, patient: bool) -> Seq<Listing> {
        if patient {
            self.sells@
        } else {
            self.buys@
        }
    }

    /// Units of the purchase side that are already reserved.
    pub open spec fn reserved(&self, patient: bool) -> nat {
        if patient {
            self.pending_sell_quantity as nat
        } else {
            self.pending_buy_quantity as nat
        }
    }

    /// Buys `count` units at the asks, cheapest first. Returns the cost, the
    /// first ask above zero and the last ask paid.
    pub fn buy(&mut self, count: u32) -> (res: Option<(u32, u32, u32)>)
        requires
            can_fill(old(self).sells@, count as nat),
        ensures
            match res {
                Some((cost, first, last)) => fill(old(self).sells@, count as nat) == Some(
                    (cost as nat, first, last),
                ),
                None => fill(old(self).sells@, count as nat) is None,
            },
            final(self).sells@ == levels_left(old(self).sells@, count as nat),
            final(self).buys@ == old(self).buys@,
            final(self).id == old(self).id,
            final(self).pending_buy_quantity == old(self).pending_buy_quantity,
            final(self).pending_sell_quantity == old(self).pending_sell_quantity,
    {
        fill_cost(&mut self.sells, count)
    }

    /// Sells `count` units into the bids, best first. Returns the revenue after
    /// fees and the lowest bid filled.
    pub fn sell(&mut self, count: u32) -> (res: Option<(Money, u32)>)
        requires
            can_sell(old(self).buys@, count as nat),
        ensures
            match res {
                Some((revenue, min)) => proceeds(old(self).buys@, count as nat) == Some(
                    (revenue@, min),
                ),
                None => proceeds(old(self).buys@, count as nat) is None,
            },
            final(self).buys@ == levels_left(old(self).buys@, count as nat),
            final(self).sells@ == old(self).sells@,
            final(self).id == old(self).id,
            final(self).pending_buy_quantity == old(self).pending_buy_quantity,
            final(self).pending_sell_quantity == old(self).pending_sell_quantity,
    {
        match fill_coin(&mut self.buys, count) {
            Some((coins, last)) => Some((Money::sale_revenue_of(coins), last)),
            None => None,
        }
    }

    /// Patient counterpart of `buy`: place buy orders, filling from the best
    /// bids down. Returns (cost, highest bid paid, lowest bid paid).
    pub fn buy_at_bid(&mut self, count: u32) -> (res: Option<(u32, u32, u32)>)
        requires
            can_fill(old(self).buys@, count as nat),
        ensures
            match res {
                Some((cost, first, last)) => fill(old(self).buys@, count as nat) == Some(
                    (cost as nat, first, last),
                ),
                None => fill(old(self).buys@, count as nat) is None,
            },
            final(self).buys@ == levels_left(old(self).buys@, count as nat),
            final(self).sells@ == old(self).sells@,
            final(self).id == old(self).id,
            final(self).pending_buy_quantity == old(self).pending_buy_quantity,
            final(self).pending_sell_quantity == old(self).pending_sell_quantity,
    {
        fill_cost(&mut self.buys, count)
    }

    /// Patient counterpart of `sell`: list at sell orders, filling from the
    /// cheapest asks up. Returns (revenue after fees, highest ask filled).
    pub fn sell_at_ask(&mut self, count: u32) -> (res: Option<(Money, u32)>)
        requires
            can_sell(old(self).sells@, count as nat),
        ensures
            match res {
                Some((revenue, max)) => proceeds(old(self).sells@, count as nat) == Some(
                    (revenue@, max),
                ),
                None => proceeds(old(self).sells@, count as nat) is None,
            },
            final(self).sells@ == levels_left(old(self).sells@, count as nat),
            final(self).buys@ == old(self).buys@,
            final(self).id == old(self).id,
            final(self).pending_buy_quantity == old(self).pending_buy_quantity,
            final(self).pending_sell_quantity == old(self).pending_sell_quantity,
    {
        match fill_coin(&mut self.sells, count) {
            Some((coins, last)) => Some((Money::sale_revenue_of(coins), last)),
            None => None,
        }
    }

    /// Revenue side dispatcher: instant sells into bids, patient lists at asks.
    pub fn sell_with_mode(&mut self, count: u32, patient: bool) -> (res: Option<(Money, u32)>)
        requires
            can_sell(old(self).sale_side(patient), count as nat),
        ensures
            match res {
                Some((revenue, last)) => proceeds(old(self).sale_side(patient), count as nat)
                    == Some((revenue@, last)),
                None => proceeds(old(self).sale_side(patient), count as nat) is None,
            },
            final(self).sale_side(patient) == levels_left(
                old(self).sale_side(patient),
                count as nat,
            ),
            final(self).purchase_side(patient) == old(self).purchase_side(patient),
            final(self).id == old(self).id,
            final(self).pending_buy_quantity == old(self).pending_buy_quantity,
            final(self).pending_sell_quantity == old(self).pending_sell_quantity,
    {
        if patient {
            self.sell_at_ask(count)
        } else {
            self.sell(count)
        }
    }

    /// Cost side dispatcher: instant buys at asks, patient places bids.
    pub fn buy_with_mode(&mut self, count: u32, patient: bool) -> (res: Option<(u32, u32, u32)>)
        requires
            can_fill(old(self).purchase_side(patient), count as nat),
        ensures
            match res {
                Some((cost, first, last)) => fill(old(self).purchase_side(patient), count as nat)
                    == Some((cost as nat, first, last)),
                None => fill(old(self).purchase_side(patient), count as nat) is None,
            },
            final(self).purchase_side(patient) == levels_left(
                old(self).purchase_side(patient),
                count as nat,
            ),
            final(self).sale_side(patient) == old(self).sale_side(patient),
            final(self).id == old(self).id,
            final(self).pending_buy_quantity == old(self).pending_buy_quantity,
            final(self).pending_sell_quantity == old(self).pending_sell_quantity,
    {
        if patient {
            self.buy_at_bid(count)
        } else {
            self.buy(count)
        }
    }

    /// Whether `count` units can be sold.
    pub fn sale_is_possible(&self, count: u32, patient: bool) -> (b: bool)
        ensures
            b == can_sell(self.sale_side(patient), count as nat),
    {
        if patient {
            can_sell_from(&self.sells, count)
        } else {
            can_sell_from(&self.buys, count)
        }
    }

    /// Whether `count` units can be bought.
    pub fn purchase_is_possible(&self, count: u32, patient: bool) -> (b: bool)
        ensures
            b == can_fill(self.purchase_side(patient), count as nat),
    {
        if patient {
            can_buy_from(&self.buys, count)
        } else {
            can_buy_from(&self.sells, count)
        }
    }

    /// Lowest and highest price of the first `count` units to buy.
    pub fn price_range(&self, count: u32, patient: bool) -> (range: (u32, u32))
        ensures
            range.0 == lowest(first_units(units(self.purchase_side(patient)), count as nat)),
            range.1 == highest(first_units(units(self.purchase_side(patient)), count as nat)),
    {
        if patient {
            range_of(&self.buys, count)
        } else {
            range_of(&self.sells, count)
        }
    }

    /// Cheapest total for buying `quantity` units at the asks, behind the units
    /// that pending instant purchases have reserved.
    pub fn lowest_sell_offer(&self, quantity: u32) -> (res: Option<u32>)
        requires
            quantity > 0,
            offer_total(self.sells@, self.pending_buy_quantity as nat, quantity as nat)
                <= u32::MAX,
        ensures
            match res {
                Some(cost) => offer(
                    self.sells@,
                    self.pending_buy_quantity as nat,
                    quantity as nat,
                ) == Some(cost as nat),
                None => offer(self.sells@, self.pending_buy_quantity as nat, quantity as nat)
                    is None,
            },
    {
        offer_cost(&self.sells, self.pending_buy_quantity, quantity)
    }

    /// Patient counterpart of `lowest_sell_offer`: cheapest total for placing
    /// buy orders, walking down from the best bids and skipping quantities
    /// already reserved by pending patient purchases.
    pub fn highest_buy_offer(&self, quantity: u32) -> (res: Option<u32>)
        requires
            quantity > 0,
            offer_total(self.buys@, self.pending_sell_quantity as nat, quantity as nat)
                <= u32::MAX,
        ensures
            match res {
                Some(cost) => offer(
                    self.buys@,
                    self.pending_sell_quantity as nat,
                    quantity as nat,
                ) == Some(cost as nat),
                None => offer(self.buys@, self.pending_sell_quantity as nat, quantity as nat)
                    is None,
            },
    {
        offer_cost(&self.buys, self.pending_sell_quantity, quantity)
    }

    /// Cost-estimate dispatcher: cheapest ask when instant, best bid when
    /// patient (both skipping quantities reserved by pending purchases).
    pub fn best_offer_with_mode(&self, quantity: u32, patient: bool) -> (res: Option<u32>)
        requires
            quantity > 0,
            offer_total(self.purchase_side(patient), self.reserved(patient), quantity as nat)
                <= u32::MAX,
        ensures
            match res {
                Some(cost) => offer(
                    self.purchase_side(patient),
                    self.reserved(patient),
                    quantity as nat,
                ) == Some(cost as nat),
                None => offer(self.purchase_side(patient), self.reserved(patient), quantity as nat)
                    is None,
            },
    {
        if patient {
            self.highest_buy_offer(quantity)
        } else {
            self.lowest_sell_offer(quantity)
        }
    }

    /// The book that the trading post reported, with nothing reserved.
    pub fn from(v: &api::ItemListings) -> (res: ItemListings)
        ensures
            res.id == v.id,
            res.buys@ == levels_of(v.buys@),
            res.sells@ == levels_of(v.sells@),
            res.pending_buy_quantity == 0,
            res.pending_sell_quantity == 0,
    {
        ItemListings {
            id: v.id,
            buys: convert_levels(&v.buys),
            sells: convert_levels(&v.sells),
            pending_buy_quantity: 0,
            pending_sell_quantity: 0,
        }
    }
}

fn can_buy_from(levels: &Vec<Listing>, count: u32) -> (b: bool)
    ensures
        b == can_fill(levels@, count as nat),
{
    let ghost all = units(levels@);
    let mut i: usize = levels.len();
    let mut left: u32 = count;
    let mut cost: u64 = 0;
    let ghost mut done: int = 0;
    proof {
        assert(levels@.take(levels.len() as int) =~= levels@);
        assert(all.skip(0) =~= all);
        assert(all.take(0) =~= Seq::empty());
    }
    while i > 0 && left > 0
        invariant
            i <= levels.len(),
            all == units(levels@),
            0 <= done <= all.len(),
            left == count - done,
            no_empty_level(levels@, count as nat) == no_empty_level(
                levels@.take(i as int),
                left as nat,
            ),
            units(levels@.take(i as int)) == all.skip(done),
            cost == total(all.take(done)),
            cost <= u32::MAX,
        decreases i,
    {
        let top: Listing = levels[i - 1];
        let ghost rest = levels@.take(i as int);
        if top.quantity == 0 {
            return false;
        }
        let n: u32 = if top.quantity < left {
            top.quantity
        } else {
            left
        };
        proof {
            assert(rest.last() == top);
            assert(rest.drop_last() =~= levels@.take(i - 1));
            lemma_take_from_level(rest, n as nat);
            let part = level_units(top.unit_price, n as nat);
            assert(all.take(done + n) =~= all.take(done) + all.skip(done).take(n as int));
            lemma_total_append(all.take(done), part);
            lemma_level_total(top.unit_price, n as nat);
            assert(top.unit_price * n <= 0xffff_ffff * 0xffff_ffff) by (nonlinear_arith)
                requires
                    0 <= top.unit_price <= 0xffff_ffff,
                    0 <= n <= 0xffff_ffff,
            ;
        }
        cost = cost + (top.unit_price as u64) * (n as u64);
        if cost > 0xffff_ffff {
            proof {
                let reach: int = if count <= all.len() {
                    count as int
                } else {
                    all.len() as int
                };
                lemma_total_grows(all, done + n, reach);
            }
            return false;
        }
        left -= n;
        proof {
            done = done + n;
            if n == top.quantity {
                assert(all.skip(done) =~= all.skip(done - n).skip(n as int));
            } else {
                assert(left == 0);
            }
        }
        if left == 0 {
            proof {
                assert(no_empty_level(rest, n as nat));
                assert(first_units(all, count as nat) == all.take(done));
            }
            return true;
        }
        i -= 1;
    }
    proof {
        if left > 0 {
            assert(levels@.take(0).len() == 0);
            assert(all.skip(done).len() == 0);
        }
        assert(first_units(all, count as nat) =~= all.take(done));
    }
    true
}

/// Lowest and highest price of the first `count` units.
fn range_of(levels: &Vec<Listing>, count: u32) -> (range: (u32, u32))
    ensures
        range.0 == lowest(first_units(units(levels@), count as nat)),
        range.1 == highest(first_units(units(levels@), count as nat)),
{
    let ghost all = units(levels@);
    let mut i: usize = levels.len();
    let mut left: u32 = count;
    let mut low: u32 = 0;
    let mut high: u32 = 0;
    let ghost mut done: int = 0;
    proof {
        assert(levels@.take(levels.len() as int) =~= levels@);
        assert(all.skip(0) =~= all);
        assert(all.take(0) =~= Seq::empty());
    }
    while i > 0 && left > 0
        invariant
            i <= levels.len(),
            all == units(levels@),
            0 <= done <= all.len(),
            left == count - done,
            left > 0 ==> units(levels@.take(i as int)) == all.skip(done),
            low == lowest(all.take(done)),
            high == highest(all.take(done)),
        decreases i,
    {
        let top: Listing = levels[i - 1];
        let ghost rest = levels@.take(i as int);
        let n: u32 = if top.quantity < left {
            top.quantity
        } else {
            left
        };
        proof {
            assert(rest.last() == top);
            assert(rest.drop_last() =~= levels@.take(i - 1));
            lemma_take_from_level(rest, n as nat);
            assert(all.take(done + n) =~= all.take(done) + all.skip(done).take(n as int));
            if n > 0 {
                lemma_range_of_more(all.take(done), top.unit_price, n as nat);
            }
        }
        if n > 0 {
            if left == count || top.unit_price < low {
                low = top.unit_price;
            }
            if left == count || top.unit_price > high {
                high = top.unit_price;
            }
        }
        left -= n;
        proof {
            done = done + n;
            if left > 0 {
                assert(all.skip(done) =~= all.skip(done - n).skip(n as int));
            }
        }
        i -= 1;
    }
    proof {
        if left > 0 {
            assert(levels@.take(0).len() == 0);
            assert(all.skip(done).len() == 0);
        }
        assert(first_units(all, count as nat) =~= all.take(done));
    }
    (low, high)
}

fn can_sell_from(levels: &Vec<Listing>, count: u32) -> (b: bool)
    ensures
        b == can_sell(levels@, count as nat),
{
    let ghost all = units(levels@);
    let mut i: usize = levels.len();
    let mut left: u32 = count;
    let mut coins: i64 = 0;
    let ghost mut done: int = 0;
    proof {
        assert(levels@.take(levels.len() as int) =~= levels@);
        assert(all.skip(0) =~= all);
        assert(all.take(0) =~= Seq::empty());
    }
    while i > 0 && left > 0
        invariant
            i <= levels.len(),
            all == units(levels@),
            0 <= done <= all.len(),
            left == count - done,
            no_empty_level(levels@, count as nat) == no_empty_level(
                levels@.take(i as int),
                left as nat,
            ),
            left > 0 ==> units(levels@.take(i as int)) == all.skip(done),
            coins == coin_total(all.take(done)),
        decreases i,
    {
        let top: Listing = levels[i - 1];
        let ghost rest = levels@.take(i as int);
        if top.quantity == 0 {
            return false;
        }
        let n: u32 = if top.quantity < left {
            top.quantity
        } else {
            left
        };
        proof {
            assert(rest.last() == top);
            assert(rest.drop_last() =~= levels@.take(i - 1));
            lemma_take_from_level(rest, n as nat);
            let part = level_units(top.unit_price, n as nat);
            assert(all.take(done + n) =~= all.take(done) + all.skip(done).take(n as int));
            lemma_total_append(all.take(done), part);
            lemma_level_total(top.unit_price, n as nat);
            lemma_coin_bound(all.take(done + n));
            lemma_coin_bound(part);
            assert(-0x8000_0000 * 0xffff_ffff <= coin(top.unit_price) * n <= 0x8000_0000
                * 0xffff_ffff) by (nonlinear_arith)
                requires
                    -0x8000_0000 <= coin(top.unit_price) <= 0x8000_0000,
                    0 <= n <= 0xffff_ffff,
            ;
        }
        coins = coins + (top.unit_price as i32 as i64) * (n as i64);
        left -= n;
        proof {
            done = done + n;
            if left > 0 {
                assert(all.skip(done) =~= all.skip(done - n).skip(n as int));
            } else {
                assert(no_empty_level(rest, n as nat));
                assert(no_empty_level(levels@.take(i - 1), 0));
            }
        }
        i -= 1;
    }
    if left > 0 {
        proof {
            assert(levels@.take(0).len() == 0);
            assert(all.skip(done).len() == 0);
        }
        return true;
    }
    assert(all.take(done) == all.take(count as int));
    match Money::checked_sale_revenue_of(coins) {
        Some(_) => true,
        None => false,
    }
}

/// Trading takes the first units of a side and leaves the others in their
/// order.
pub proof fn law_trade_leaves_the_other_units(side: Seq<Listing>, count: nat)
    ensures
        count <= units(side).len() ==> units(levels_left(side, count)) == units(side).skip(
            count as int,
        ),
        count > units(side).len() ==> units(levels_left(side, count)).len() == 0,
    decreases side.len(),
{
    if count == 0 || side.len() == 0 {
        assert(units(side).skip(0) =~= units(side));
    } else if side.last().quantity > count {
        lemma_take_from_level(side, count);
    } else {
        let q: nat = side.last().quantity as nat;
        lemma_take_from_level(side, q);
        law_trade_leaves_the_other_units(side.drop_last(), (count - q) as nat);
        if count <= units(side).len() {
            assert(units(side).skip(count as int) =~= units(side).skip(q as int).skip(count - q));
        }
    }
}

/// Trading in two goes leaves what trading in one go leaves.
pub proof fn law_trades_compose(side: Seq<Listing>, a: nat, b: nat)
    ensures
        levels_left(levels_left(side, a), b) == levels_left(side, a + b),
    decreases side.len(),
{
    if a == 0 || side.len() == 0 {
    } else if side.last().quantity > a {
        let left = levels_left(side, a);
        assert(left.drop_last() =~= side.drop_last());
        if b > 0 && side.last().quantity > a + b {
            assert(levels_left(left, b) =~= levels_left(side, a + b));
        }
    } else {
        law_trades_compose(side.drop_last(), (a - side.last().quantity) as nat, b);
    }
}

/// Buying in two goes costs what buying in one go costs.
pub proof fn law_costs_add_up(side: Seq<Listing>, a: nat, b: nat)
    requires
        a + b <= units(side).len(),
    ensures
        match (fill(side, a), fill(levels_left(side, a), b), fill(side, a + b)) {
            (Some(first), Some(second), Some(both)) => both.0 == first.0 + second.0,
            _ => false,
        },
        match (proceeds(side, a), proceeds(levels_left(side, a), b), proceeds(side, a + b)) {
            (Some(first), Some(second), Some(both)) => both.0 == first.0 + second.0,
            _ => false,
        },
{
    law_trade_leaves_the_other_units(side, a);
    let all = units(side);
    assert(all.take((a + b) as int) =~= all.take(a as int) + all.skip(a as int).take(b as int));
    lemma_total_append(all.take(a as int), all.skip(a as int).take(b as int));
}

/// An offer quotes what buying behind the reserved units costs.
pub proof fn law_offer_is_the_cost_behind_the_reserved_units(
    side: Seq<Listing>,
    skip: nat,
    count: nat,
)
    requires
        skip <= units(side).len(),
    ensures
        match (offer(side, skip, count), fill(levels_left(side, skip), count)) {
            (Some(cost), Some(filled)) => cost == filled.0,
            (None, None) => true,
            _ => false,
        },
{
    law_trade_leaves_the_other_units(side, skip);
    let all = units(side);
    if skip + count <= all.len() {
        if skip == all.len() {
            assert(units_behind(all, skip, count) =~= all.skip(skip as int).take(count as int));
        } else {
            assert(first_units(all.skip(skip as int), count) == all.skip(skip as int).take(
                count as int,
            ));
        }
    }
}

/// Prices of a side fall towards its end, where the best ask stands.
pub open spec fn is_ask_side(side: Seq<Listing>) -> bool {
    forall|i: int, j: int|
        0 <= i < j < side.len() ==> (#[trigger] side[j]).unit_price <= (#[trigger]
        side[i]).unit_price
}

/// A side with the best ask last trades its cheapest units first.
pub proof fn law_cheapest_units_first(side: Seq<Listing>)
    requires
        is_ask_side(side),
    ensures
        forall|i: int, j: int|
            0 <= i < j < units(side).len() ==> #[trigger] units(side)[i] <= #[trigger] units(
                side,
            )[j],
        forall|i: int|
            0 <= i < units(side).len() ==> side.len() > 0 && side.last().unit_price
                <= #[trigger] units(side)[i],
    decreases side.len(),
{
    if side.len() > 0 {
        let rest = side.drop_last();
        assert forall|i: int, j: int| 0 <= i < j < rest.len() implies (#[trigger]
        rest[j]).unit_price <= (#[trigger] rest[i]).unit_price by {
            assert(rest[i] == side[i] && rest[j] == side[j]);
        }
        law_cheapest_units_first(rest);
        if rest.len() > 0 {
            assert(rest.last() == side[side.len() - 2]);
        }
        let q: int = side.last().quantity as int;
        assert forall|i: int| 0 <= i < units(side).len() implies side.last().unit_price
            <= #[trigger] units(side)[i] by {
            if i >= q {
                assert(units(side)[i] == units(rest)[i - q]);
            }
        }
        assert forall|i: int, j: int| 0 <= i < j < units(side).len() implies #[trigger] units(
            side,
        )[i] <= #[trigger] units(side)[j] by {
            if i >= q {
                assert(units(side)[i] == units(rest)[i - q]);
                assert(units(side)[j] == units(rest)[j - q]);
            }
        }
    }
}

/// Prices of a side rise towards its end, where the best bid stands.
pub open spec fn is_bid_side(side: Seq<Listing>) -> bool {
    forall|i: int, j: int|
        0 <= i < j < side.len() ==> (#[trigger] side[i]).unit_price <= (#[trigger]
        side[j]).unit_price
}

/// A side with the best bid last trades its dearest units first.
pub proof fn law_dearest_units_first(side: Seq<Listing>)
    requires
        is_bid_side(side),
    ensures
        forall|i: int, j: int|
            0 <= i < j < units(side).len() ==> #[trigger] units(side)[i] >= #[trigger] units(
                side,
            )[j],
        forall|i: int|
            0 <= i < units(side).len() ==> side.len() > 0 && side.last().unit_price
                >= #[trigger] units(side)[i],
    decreases side.len(),
{
    if side.len() > 0 {
        let rest = side.drop_last();
        assert forall|i: int, j: int| 0 <= i < j < rest.len() implies (#[trigger]
        rest[i]).unit_price <= (#[trigger] rest[j]).unit_price by {
            assert(rest[i] == side[i] && rest[j] == side[j]);
        }
        law_dearest_units_first(rest);
        if rest.len() > 0 {
            assert(rest.last() == side[side.len() - 2]);
        }
        let q: int = side.last().quantity as int;
        assert forall|i: int| 0 <= i < units(side).len() implies side.last().unit_price
            >= #[trigger] units(side)[i] by {
            if i >= q {
                assert(units(side)[i] == units(rest)[i - q]);
            }
        }
        assert forall|i: int, j: int| 0 <= i < j < units(side).len() implies #[trigger] units(
            side,
        )[i] >= #[trigger] units(side)[j] by {
            if i >= q {
                assert(units(side)[i] == units(rest)[i - q]);
                assert(units(side)[j] == units(rest)[j - q]);
            }
        }
    }
}

/// Bids are filled from the highest price paid down to the lowest, and asks from
/// the lowest up to the highest, where nothing is on offer for free.
pub proof fn law_first_and_last_price_bound_the_others(side: Seq<Listing>, count: nat)
    requires
        0 < count <= units(side).len(),
    ensures
        is_bid_side(side) ==> (fill(side, count) matches Some((_, first, last)) && first == highest(
            units(side).take(count as int),
        ) && last == lowest(units(side).take(count as int))),
        is_ask_side(side) && units(side)[0] > 0 ==> (fill(side, count) matches Some((_, first, last))
            && first == lowest(units(side).take(count as int)) && last == highest(
            units(side).take(count as int),
        )),
{
    let paid = units(side).take(count as int);
    let n: int = count as int;
    assert(paid[0] == units(side)[0] && paid[n - 1] == units(side)[n - 1]);
    if is_bid_side(side) {
        law_dearest_units_first(side);
        lemma_range_is_unique(paid, paid[n - 1], paid[0]);
        if paid[0] == 0 {
            lemma_no_first_price(paid);
        }
    }
    if is_ask_side(side) && units(side)[0] > 0 {
        law_cheapest_units_first(side);
        lemma_range_is_unique(paid, paid[0], paid[n - 1]);
    }
}

proof fn lemma_no_first_price(prices: Seq<u32>)
    requires
        forall|i: int| 0 <= i < prices.len() ==> #[trigger] prices[i] == 0,
    ensures
        first_price(prices) == 0,
    decreases prices.len(),
{
    if prices.len() > 0 {
        lemma_no_first_price(prices.drop_first());
    }
}

/// The level that a reported one stands for.
pub open spec fn level_of(l: api::Listing) -> Listing {
    Listing { unit_price: l.unit_price, quantity: l.quantity }
}

/// The levels that reported ones stand for.
pub open spec fn levels_of(levels: Seq<api::Listing>) -> Seq<Listing> {
    Seq::new(levels.len(), |i: int| level_of(levels[i]))
}

fn convert_levels(levels: &Vec<api::Listing>) -> (res: Vec<Listing>)
    ensures
        res@ == levels_of(levels@),
{
    let mut res: Vec<Listing> = Vec::new();
    let mut i: usize = 0;
    while i < levels.len()
        invariant
            i <= levels.len(),
            res@ == levels_of(levels@).take(i as int),
        decreases levels.len() - i,
    {
        res.push(Listing { unit_price: levels[i].unit_price, quantity: levels[i].quantity });
        i += 1;
        assert(res@ =~= levels_of(levels@).take(i as int));
    }
    assert(levels_of(levels@).take(i as int) =~= levels_of(levels@));
    res
}

/// The offers of the last level come first, each unit at its price, and those of the
/// other levels behind them.
pub proof fn law_last_level_is_traded_first(levels: Seq<Listing>, level: Listing, i: int)
    ensures
        units(Seq::empty()).len() == 0,
        units(levels.push(level)).len() == level.quantity + units(levels).len(),
        0 <= i < level.quantity ==> units(levels.push(level))[i] == level.unit_price,
        0 <= i < units(levels).len() ==> units(levels.push(level))[level.quantity + i] == units(
            levels,
        )[i],
{
    assert(levels.push(level).drop_last() =~= levels);
}

/// A price stands for as much copper, unless it is too high for a signed number, and
/// then for that much less two to the 32nd. Sums grow by what is added.
pub proof fn law_prices_stand_for_copper(prices: Seq<u32>, price: u32)
    ensures
        price <= 0x7fff_ffff ==> coin(price) == price,
        price > 0x7fff_ffff ==> coin(price) == price - 0x1_0000_0000,
        total(Seq::empty()) == 0 && coin_total(Seq::empty()) == 0,
        total(prices.push(price)) == total(prices) + price,
        coin_total(prices.push(price)) == coin_total(prices) + coin(price),
{
    assert(price <= 0x7fff_ffffu32 ==> price as i32 == price) by (bit_vector);
    assert(price > 0x7fff_ffffu32 ==> price as i32 == price - 0x1_0000_0000) by (bit_vector);
    lemma_total_append(prices, seq![price]);
    assert(prices + seq![price] =~= prices.push(price));
    assert(seq![price].drop_first().len() == 0);
    assert(total(seq![price]) == price as nat + total(seq![price].drop_first()));
    assert(coin_total(seq![price]) == coin(price) + coin_total(seq![price].drop_first()));
}

/// The lowest and the highest price are prices, and no other is lower or higher.
pub proof fn law_range_holds_every_price(prices: Seq<u32>, i: int)
    requires
        0 <= i < prices.len(),
    ensures
        lowest(prices) <= prices[i] <= highest(prices),
        prices.contains(lowest(prices)) && prices.contains(highest(prices)),
{
    lemma_range(prices);
}

/// The first price is the first that is above zero, and none where all are for free.
/// The last price is that of the last unit.
pub proof fn law_first_price_is_above_zero(free: Seq<u32>, price: u32, rest: Seq<u32>)
    requires
        forall|i: int| 0 <= i < free.len() ==> #[trigger] free[i] == 0,
        price > 0,
    ensures
        first_price(free + seq![price] + rest) == price,
        first_price(free) == 0,
        last_price(rest.push(price)) == price,
    decreases free.len(),
{
    let all = free + seq![price] + rest;
    lemma_no_first_price(free);
    if free.len() > 0 {
        let fewer = free.drop_first();
        assert forall|i: int| 0 <= i < fewer.len() implies #[trigger] fewer[i] == 0 by {
            assert(fewer[i] == free[i + 1]);
        }
        law_first_price_is_above_zero(fewer, price, rest);
        assert(all.drop_first() =~= fewer + seq![price] + rest);
        assert(all[0] == free[0]);
    } else {
        assert(all[0] == price);
    }
}

/// One unit more costs its own price more, which is the last price paid, and the seller
/// keeps 85 percent of what it stands for.
pub proof fn law_each_unit_adds_its_price(side: Seq<Listing>, count: nat)
    requires
        count < units(side).len(),
    ensures
        fill(side, 0) matches Some((cost, _, _)) && cost == 0,
        match (fill(side, count), fill(side, count + 1)) {
            (Some((before, _, _)), Some((cost, _, last))) => cost == before + units(
                side,
            )[count as int] && last == units(side)[count as int],
            _ => false,
        },
        match (proceeds(side, count), proceeds(side, count + 1)) {
            (Some((before, _)), Some((revenue, last))) => (revenue - before) * (100 as real) == (
            coin(units(side)[count as int]) * 85) as real && last == units(side)[count as int],
            _ => false,
        },
        fill(side, units(side).len() + 1) is None,
        proceeds(side, units(side).len() + 1) is None,
{
    let all = units(side);
    let paid = all.take(count as int);
    let price = all[count as int];
    assert(all.take(count + 1int) =~= paid.push(price));
    law_prices_stand_for_copper(paid, price);
    assert(all.take(0).len() == 0);
    let a: real = coin_total(paid) as real;
    let c: real = coin(price) as real;
    assert(coin_total(paid.push(price)) as real == a + c);
    assert((coin(price) * 85) as real == c * (85 as real));
    assert((after_fees(a + c) - after_fees(a)) * (100 as real) == c * (85 as real));
}

/// An offer of one unit more costs the price of the unit behind those reserved and those
/// offered before. There is none beyond the last unit.
pub proof fn law_offers_stand_behind_the_reserved(side: Seq<Listing>, skip: nat, count: nat)
    requires
        skip + count < units(side).len(),
    ensures
        offer(side, skip, 0) == Some(0nat),
        offer(side, skip, count) matches Some(cost) && offer(side, skip, count + 1) == Some(
            (cost + units(side)[(skip + count) as int]) as nat,
        ),
        offer(side, skip, (units(side).len() - skip + 1) as nat) is None,
{
    let all = units(side);
    let behind = all.skip(skip as int);
    let price = all[(skip + count) as int];
    assert(behind.take(count + 1int) =~= behind.take(count as int).push(price));
    law_prices_stand_for_copper(behind.take(count as int), price);
    assert(behind.take(0).len() == 0);
}

/// Who is in no hurry buys where others bid and sells where others ask; who is buys
/// where they ask and sells where they bid.
pub proof fn law_sides_of_the_market_are_opposite(book: ItemListings)
    ensures
        book.purchase_side(true) == book.buys@ && book.purchase_side(false) == book.sells@,
        book.sale_side(true) == book.sells@ && book.sale_side(false) == book.buys@,
        book.reserved(true) == book.pending_sell_quantity && book.reserved(false)
            == book.pending_buy_quantity,
{
}

/// Units can be bought only if they cost no more than 32 bits hold, and never through a
/// level without units. With units on every level nothing else stands in the way.
pub proof fn law_empty_levels_stop_a_trade(side: Seq<Listing>, count: nat)
    ensures
        count > 0 && side.len() > 0 && side.last().quantity == 0 ==> !can_fill(side, count)
            && !can_sell(side, count),
        (forall|i: int| 0 <= i < side.len() ==> (#[trigger] side[i]).quantity > 0) ==> (can_fill(
            side,
            count,
        ) <==> total(first_units(units(side), count)) <= 0xffff_ffff),
        can_fill(side, count) && count <= units(side).len() ==> total(
            units(side).take(count as int),
        ) <= 0xffff_ffff,
{
    if forall|i: int| 0 <= i < side.len() ==> (#[trigger] side[i]).quantity > 0 {
        lemma_full_levels(side, count);
    }
}

proof fn lemma_full_levels(side: Seq<Listing>, count: nat)
    requires
        forall|i: int| 0 <= i < side.len() ==> (#[trigger] side[i]).quantity > 0,
    ensures
        no_empty_level(side, count),
    decreases side.len(),
{
    if side.len() > 0 && count > 0 && side.last().quantity < count {
        let rest = side.drop_last();
        assert forall|i: int| 0 <= i < rest.len() implies (#[trigger] rest[i]).quantity > 0 by {
            assert(rest[i] == side[i]);
        }
        lemma_full_levels(rest, (count - side.last().quantity) as nat);
    }
}

/// Reported levels keep their places, prices and quantities.
pub proof fn law_reported_levels_are_kept(levels: Seq<api::Listing>, i: int)
    requires
        0 <= i < levels.len(),
    ensures
        levels_of(levels).len() == levels.len(),
        levels_of(levels)[i].unit_price == levels[i].unit_price,
        levels_of(levels)[i].quantity == levels[i].quantity,
{
}

} // verus!
