//! Market data in the form in which the trading post reports it.

use vstd::prelude::*;

verus! {

/// Best offer on one side of the market.
#[derive(Clone, Copy, Debug, PartialEq, Eq, Structural)]
pub struct PriceInfo {
    pub unit_price: u32,
    pub quantity: u32,
}

/// Aggregated prices of one item.
#[derive(Clone, Copy, Debug, PartialEq, Eq, Structural)]
pub struct Price {
    pub id: u32,
    pub buys: PriceInfo,
    pub sells: PriceInfo,
}

/// Offers at one price: how many there are, and the units they add up to.
#[derive(Clone, Copy, Debug, PartialEq, Eq, Structural)]
pub struct Listing {
    pub listings: u32,
    pub unit_price: u32,
    pub quantity: u32,
}

/// Full order book of one item.
#[derive(Clone, Debug)]
pub struct ItemListings {
    pub id: u32,
    pub buys: Vec<Listing>,
    pub sells: Vec<Listing>,
}

impl ItemListings {
    /// The same book.
    pub open spec fn same_book(&self, other: &ItemListings) -> bool {
        &&& self.id == other.id
        &&& self.buys@ == other.buys@
        &&& self.sells@ == other.sells@
    }

    /// A copy of the book.
    pub fn duplicate(&self) -> (res: ItemListings)
        ensures
            res.same_book(self),
    {
        ItemListings { id: self.id, buys: copy_levels(&self.buys), sells: copy_levels(&self.sells) }
    }

    /// Turns both sides round. The trading post lists the best offers first;
    /// with the best offers last they can be popped.
    pub fn best_offers_last(&mut self)
        ensures
            final(self).id == old(self).id,
            final(self).buys@ == old(self).buys@.reverse(),
            final(self).sells@ == old(self).sells@.reverse(),
    {
        let buys = reversed(&self.buys);
        let sells = reversed(&self.sells);
        self.buys = buys;
        self.sells = sells;
    }
}

fn copy_levels(levels: &Vec<Listing>) -> (res: Vec<Listing>)
    ensures
        res@ == levels@,
{
    let mut res: Vec<Listing> = Vec::new();
    let mut i: usize = 0;
    while i < levels.len()
        invariant
            i <= levels.len(),
            res@ == levels@.take(i as int),
        decreases levels.len() - i,
    {
        res.push(levels[i]);
        i += 1;
        assert(res@ =~= levels@.take(i as int));
    }
    assert(levels@.take(i as int) =~= levels@);
    res
}

fn reversed(levels: &Vec<Listing>) -> (res: Vec<Listing>)
    ensures
        res@ == levels@.reverse(),
{
    let mut res: Vec<Listing> = Vec::new();
    let mut i: usize = levels.len();
    while i > 0
        invariant
            i <= levels.len(),
            res@ == levels@.reverse().take(levels.len() - i),
        decreases i,
    {
        i -= 1;
        res.push(levels[i]);
        assert(res@ =~= levels@.reverse().take(levels.len() - i));
    }
    assert(levels@.reverse().take(levels.len() - i) =~= levels@.reverse());
    res
}

} // verus!
