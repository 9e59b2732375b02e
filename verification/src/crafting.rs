//! What a search for the cheapest way to make an item reports.

use crate::money::Money;
use std::collections::BTreeMap;
use vstd::prelude::*;

verus! {

/// Where an item comes from.
#[derive(Clone, Copy, Debug, PartialEq, Eq, Hash, Structural)]
pub enum Source {
    Crafting,
    TradingPost,
    Vendor,
}

/// Cheapest way to obtain an item at aggregated prices.
#[derive(Clone, Copy, Debug, PartialEq, Eq, Structural)]
pub struct EstimatedCraftingCost {
    pub source: Source,
    pub cost: Money,
}

/// Units of an ingredient that a plan obtains from one source.
#[derive(Clone, Copy, Debug, PartialEq, Eq, Structural)]
pub struct Purchase {
    pub item_id: u32,
    pub count: u32,
    pub source: Source,
}

/// Units left over from crafts that make more than was needed.
#[derive(Clone, Copy, Debug, PartialEq, Eq, Structural)]
pub struct Leftover {
    pub count: u32,
    pub unit_cost: Money,
    pub source: Source,
}

/// Units crafted of each item on the way to the product, and what is left over
/// of them.
#[derive(Clone, Debug, PartialEq, Eq)]
pub struct CraftedItems {
    pub crafted: BTreeMap<u32, u32>,
    pub leftovers: BTreeMap<u32, Leftover>,
}

impl CraftedItems {
    /// Nothing crafted yet.
    pub fn none() -> (res: CraftedItems)
        ensures
            res.crafted@ == Map::<u32, u32>::empty(),
            res.leftovers@ == Map::<u32, Leftover>::empty(),
    {
        CraftedItems { crafted: BTreeMap::new(), leftovers: BTreeMap::new() }
    }
}

/// Cheapest way to make one more batch from what the order books offer: where
/// it comes from, what it costs, what it buys, and everything crafted so far
/// once it is made.
#[derive(Clone, Debug)]
pub struct PreciseCraftingCost {
    pub source: Source,
    pub cost: Money,
    pub purchases: Vec<Purchase>,
    pub items: CraftedItems,
}

/// Purchases of one ingredient from one source, over all batches.
#[derive(Clone, Copy, Debug, PartialEq, Eq, Structural)]
pub struct PurchasedIngredient {
    pub count: u32,
    pub min_price: Money,
    pub max_price: Money,
    pub total_cost: Money,
}

} // verus!
