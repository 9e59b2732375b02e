//! Items, as far as the analysis reads them.

use crate::money::Money;
use std::collections::HashSet;
use vstd::prelude::*;

verus! {

/// Rarity of an item.
#[derive(Clone, Copy, Debug, PartialEq, Eq, Hash, Structural)]
pub enum Rarity {
    Junk,
    Basic,
    Fine,
    Masterwork,
    Rare,
    Exotic,
    Ascended,
    Legendary,
}

/// What a vendor asks for one unit, and how many units are sold together.
#[derive(Clone, Copy, Debug, PartialEq, Eq, Structural)]
pub struct VendorOffer {
    pub cost: Money,
    pub batch: u32,
}

/// An item.
#[derive(Clone, Debug)]
pub struct Item {
    pub id: u32,
    /// Name as the game shows it.
    pub name: String,
    /// Name that tells items of one name apart.
    pub display_name: String,
    pub rarity: Rarity,
    /// Address of the picture of the item.
    pub icon: Option<String>,
    /// Whether the item is bound, so that it cannot be sold.
    pub restricted: bool,
    pub vendor: Option<VendorOffer>,
    /// Recipes that using up the item unlocks.
    pub unlocks: Option<Vec<u32>>,
}

/// Using up the item unlocks the recipe.
pub open spec fn unlocks(item: Item, recipe_id: u32) -> bool {
    match item.unlocks {
        Some(ids) => ids@.contains(recipe_id),
        None => false,
    }
}

/// Using up the item unlocks a recipe of the set.
pub open spec fn unlocks_one_of(item: Item, recipes: Set<u32>) -> bool {
    exists|recipe_id: u32| #[trigger] unlocks(item, recipe_id) && recipes.contains(recipe_id)
}

impl Item {
    /// Whether the item cannot be sold.
    pub fn is_restricted(&self) -> (b: bool)
        ensures
            b == self.restricted,
    {
        self.restricted
    }

    /// Rarity of the item.
    pub fn rarity(&self) -> (rarity: &Rarity)
        ensures
            *rarity == self.rarity,
    {
        &self.rarity
    }

    /// Offer of a vendor, where one sells the item.
    pub fn vendor_cost(&self) -> (offer: Option<VendorOffer>)
        ensures
            offer == self.vendor,
    {
        self.vendor
    }

    /// Whether using up the item unlocks the recipe.
    pub fn unlocks_recipe(&self, recipe_id: u32) -> (b: bool)
        ensures
            b == unlocks(*self, recipe_id),
    {
        match &self.unlocks {
            None => false,
            Some(ids) => {
                let mut i: usize = 0;
                while i < ids.len()
                    invariant
                        i <= ids.len(),
                        self.unlocks == Some(*ids),
                        forall|j: int| 0 <= j < i ==> ids@[j] != recipe_id,
                    decreases ids.len() - i,
                {
                    if ids[i] == recipe_id {
                        assert(ids@[i as int] == recipe_id);
                        return true;
                    }
                    i += 1;
                }
                false
            },
        }
    }

    /// Whether using up the item unlocks one of the recipes.
    pub fn unlocks_any(&self, recipes: &HashSet<u32>) -> (b: bool)
        ensures
            b == unlocks_one_of(*self, recipes@),
    {
        match &self.unlocks {
            None => false,
            Some(ids) => {
                let mut i: usize = 0;
                while i < ids.len()
                    invariant
                        i <= ids.len(),
                        self.unlocks == Some(*ids),
                        forall|j: int| 0 <= j < i ==> !recipes@.contains(#[trigger] ids@[j]),
                    decreases ids.len() - i,
                {
                    if recipes.contains(&ids[i]) {
                        assert(unlocks(*self, ids@[i as int]));
                        return true;
                    }
                    i += 1;
                }
                false
            },
        }
    }
}

} // verus!
