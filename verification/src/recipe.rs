//! Recipes and the ingredients that they lead to.

use crate::text::same_text;
use std::collections::{HashMap, HashSet};
use vstd::prelude::*;

verus! {

/// Crafting disciplines.
#[derive(Clone, Copy, Debug, PartialEq, Eq, Hash, Structural)]
pub enum Discipline {
    Artificer,
    Armorsmith,
    Chef,
    Huntsman,
    Jeweler,
    Leatherworker,
    Tailor,
    Weaponsmith,
    Scribe,
    Homesteader,
    Achievement,
}

/// Name of a discipline.
pub open spec fn discipline_name(discipline: Discipline) -> Seq<char> {
    match discipline {
        Discipline::Artificer => "Artificer"@,
        Discipline::Armorsmith => "Armorsmith"@,
        Discipline::Chef => "Chef"@,
        Discipline::Huntsman => "Huntsman"@,
        Discipline::Jeweler => "Jeweler"@,
        Discipline::Leatherworker => "Leatherworker"@,
        Discipline::Tailor => "Tailor"@,
        Discipline::Weaponsmith => "Weaponsmith"@,
        Discipline::Scribe => "Scribe"@,
        Discipline::Homesteader => "Homesteader"@,
        Discipline::Achievement => "Achievement"@,
    }
}

/// All disciplines.
pub open spec fn all_disciplines() -> Seq<Discipline> {
    seq![
        Discipline::Artificer,
        Discipline::Armorsmith,
        Discipline::Chef,
        Discipline::Huntsman,
        Discipline::Jeweler,
        Discipline::Leatherworker,
        Discipline::Tailor,
        Discipline::Weaponsmith,
        Discipline::Scribe,
        Discipline::Homesteader,
        Discipline::Achievement,
    ]
}

/// The discipline with the name, where there is one.
pub open spec fn discipline_named(name: Seq<char>) -> Option<Discipline> {
    if exists|d: Discipline| #[trigger] discipline_name(d) == name {
        Some(choose|d: Discipline| #[trigger] discipline_name(d) == name)
    } else {
        None
    }
}

/// Length and first letter of the name of a discipline.
spec fn name_mark(discipline: Discipline) -> (nat, char) {
    match discipline {
        Discipline::Artificer => (9, 'A'),
        Discipline::Armorsmith => (10, 'A'),
        Discipline::Chef => (4, 'C'),
        Discipline::Huntsman => (8, 'H'),
        Discipline::Jeweler => (7, 'J'),
        Discipline::Leatherworker => (13, 'L'),
        Discipline::Tailor => (6, 'T'),
        Discipline::Weaponsmith => (11, 'W'),
        Discipline::Scribe => (6, 'S'),
        Discipline::Homesteader => (11, 'H'),
        Discipline::Achievement => (11, 'A'),
    }
}

proof fn lemma_name_mark(discipline: Discipline)
    ensures
        name_mark(discipline) == (discipline_name(discipline).len(), discipline_name(
            discipline,
        )[0]),
{
    reveal_strlit("Artificer");
    reveal_strlit("Armorsmith");
    reveal_strlit("Chef");
    reveal_strlit("Huntsman");
    reveal_strlit("Jeweler");
    reveal_strlit("Leatherworker");
    reveal_strlit("Tailor");
    reveal_strlit("Weaponsmith");
    reveal_strlit("Scribe");
    reveal_strlit("Homesteader");
    reveal_strlit("Achievement");
    match discipline {
        Discipline::Artificer => assert("Artificer"@[0] == 'A'),
        Discipline::Armorsmith => assert("Armorsmith"@[0] == 'A'),
        Discipline::Chef => assert("Chef"@[0] == 'C'),
        Discipline::Huntsman => assert("Huntsman"@[0] == 'H'),
        Discipline::Jeweler => assert("Jeweler"@[0] == 'J'),
        Discipline::Leatherworker => assert("Leatherworker"@[0] == 'L'),
        Discipline::Tailor => assert("Tailor"@[0] == 'T'),
        Discipline::Weaponsmith => assert("Weaponsmith"@[0] == 'W'),
        Discipline::Scribe => assert("Scribe"@[0] == 'S'),
        Discipline::Homesteader => assert("Homesteader"@[0] == 'H'),
        Discipline::Achievement => assert("Achievement"@[0] == 'A'),
    }
}

/// No two disciplines share a name.
pub proof fn law_discipline_names_differ(a: Discipline, b: Discipline)
    requires
        discipline_name(a) == discipline_name(b),
    ensures
        a == b,
{
    lemma_name_mark(a);
    lemma_name_mark(b);
}

/// A discipline is found by its name.
pub proof fn lemma_discipline_named(d: Discipline)
    ensures
        discipline_named(discipline_name(d)) == Some(d),
{
    let name = discipline_name(d);
    let found = choose|e: Discipline| #[trigger] discipline_name(e) == name;
    assert(discipline_name(d) == name);
    law_discipline_names_differ(found, d);
}

impl Discipline {
    /// Name of the discipline.
    pub fn name(self) -> (text: &'static str)
        ensures
            text@ == discipline_name(self),
    {
        match self {
            Discipline::Artificer => "Artificer",
            Discipline::Armorsmith => "Armorsmith",
            Discipline::Chef => "Chef",
            Discipline::Huntsman => "Huntsman",
            Discipline::Jeweler => "Jeweler",
            Discipline::Leatherworker => "Leatherworker",
            Discipline::Tailor => "Tailor",
            Discipline::Weaponsmith => "Weaponsmith",
            Discipline::Scribe => "Scribe",
            Discipline::Homesteader => "Homesteader",
            Discipline::Achievement => "Achievement",
        }
    }

    /// All disciplines, in the order in which they are offered.
    pub fn all() -> (disciplines: Vec<Discipline>)
        ensures
            disciplines@ == all_disciplines(),
    {
        let disciplines = vec![
            Discipline::Artificer,
            Discipline::Armorsmith,
            Discipline::Chef,
            Discipline::Huntsman,
            Discipline::Jeweler,
            Discipline::Leatherworker,
            Discipline::Tailor,
            Discipline::Weaponsmith,
            Discipline::Scribe,
            Discipline::Homesteader,
            Discipline::Achievement,
        ];
        assert(disciplines@ =~= all_disciplines());
        disciplines
    }

    /// The discipline with the name, where there is one.
    pub fn parse(name: &str) -> (discipline: Option<Discipline>)
        ensures
            discipline == discipline_named(name@),
    {
        let all = Discipline::all();
        let mut i: usize = 0;
        while i < all.len()
            invariant
                all@ == all_disciplines(),
                i <= all.len(),
                forall|j: int| 0 <= j < i ==> discipline_name(#[trigger] all@[j]) != name@,
            decreases all.len() - i,
        {
            if same_text(all[i].name(), name) {
                proof {
                    lemma_discipline_named(all@[i as int]);
                }
                return Some(all[i]);
            }
            i += 1;
        }
        proof {
            assert forall|d: Discipline| #[trigger] discipline_name(d) != name@ by {
                lemma_discipline_listed(d);
                let k: int = choose|k: int|
                    0 <= k < all_disciplines().len() && all_disciplines()[k] == d;
                assert(discipline_name(all@[k]) != name@);
            }
        }
        None
    }
}

proof fn lemma_discipline_listed(d: Discipline)
    ensures
        all_disciplines().contains(d),
{
    let all = all_disciplines();
    assert(all[0] == Discipline::Artificer);
    assert(all[1] == Discipline::Armorsmith);
    assert(all[2] == Discipline::Chef);
    assert(all[3] == Discipline::Huntsman);
    assert(all[4] == Discipline::Jeweler);
    assert(all[5] == Discipline::Leatherworker);
    assert(all[6] == Discipline::Tailor);
    assert(all[7] == Discipline::Weaponsmith);
    assert(all[8] == Discipline::Scribe);
    assert(all[9] == Discipline::Homesteader);
    assert(all[10] == Discipline::Achievement);
}

/// How a recipe is learned.
#[derive(Clone, Copy, Debug, PartialEq, Eq, Hash, Structural)]
pub enum RecipeSource {
    Automatic,
    Discoverable,
    Purchasable,
    Achievement,
}

/// Units of an item that one craft uses up.
#[derive(Clone, Copy, Debug, PartialEq, Eq, Hash, Structural)]
pub struct RecipeIngredient {
    pub item_id: u32,
    pub count: u32,
}

/// A recipe. One without an id is in no account's list of unlocked recipes.
#[derive(Clone, Debug)]
pub struct Recipe {
    pub id: Option<u32>,
    pub output_item_id: u32,
    pub output_item_count: u32,
    pub disciplines: Vec<Discipline>,
    pub ingredients: Vec<RecipeIngredient>,
    pub source: RecipeSource,
}

/// `id` is an ingredient of the recipe.
pub open spec fn has_ingredient(recipe: Recipe, id: u32) -> bool {
    exists|i: int|
        0 <= i < recipe.ingredients@.len() && (#[trigger] recipe.ingredients@[i]).item_id == id
}

/// Item `a` has a recipe that uses item `b`.
pub open spec fn leads_to(recipes: Map<u32, Recipe>, a: u32, b: u32) -> bool {
    recipes.contains_key(a) && has_ingredient(recipes[a], b)
}

/// The path starts with an ingredient of `recipe`, and each of its items has a
/// recipe that uses the next one.
pub open spec fn is_ingredient_path(
    recipes: Map<u32, Recipe>,
    recipe: Recipe,
    path: Seq<u32>,
) -> bool {
    &&& path.len() > 0
    &&& has_ingredient(recipe, path[0])
    &&& forall|i: int| 0 < i < path.len() ==> leads_to(recipes, path[i - 1], #[trigger] path[i])
}

/// `id` is an ingredient of `recipe`, or of a recipe for one of its
/// ingredients, at any depth.
pub open spec fn is_transitive_ingredient(
    recipes: Map<u32, Recipe>,
    recipe: Recipe,
    id: u32,
) -> bool {
    exists|path: Seq<u32>| #[trigger]
        is_ingredient_path(recipes, recipe, path) && path.last() == id
}

/// The transitive ingredients of `recipe`, each once.
pub open spec fn lists_transitive_ingredients(
    recipes: Map<u32, Recipe>,
    recipe: Recipe,
    ids: Seq<u32>,
) -> bool {
    &&& ids.no_duplicates()
    &&& forall|id: u32| #[trigger]
        ids.contains(id) <==> is_transitive_ingredient(recipes, recipe, id)
}

proof fn lemma_distinct_ids(ids: Seq<u32>)
    requires
        ids.no_duplicates(),
    ensures
        ids.len() <= 0x1_0000_0000,
{
    let wide = ids.map_values(|x: u32| x as int);
    assert(wide.no_duplicates());
    wide.unique_seq_to_set();
    let range = vstd::set_lib::set_int_range(0, 0x1_0000_0000);
    vstd::set_lib::lemma_int_range(0, 0x1_0000_0000);
    assert(wide.to_set().subset_of(range)) by {
        assert forall|x: int| wide.to_set().contains(x) implies range.contains(x) by {
            let i: int = choose|i: int| 0 <= i < wide.len() && wide[i] == x;
            assert(wide[i] == ids[i] as int);
        }
    }
    vstd::set_lib::lemma_len_subset(wide.to_set(), range);
}

/// A list that holds the ingredients of `recipe`, and with each of its items
/// the ingredients of that item's recipe, holds every transitive ingredient.
proof fn lemma_closed_list_is_complete(
    recipes: Map<u32, Recipe>,
    recipe: Recipe,
    ids: Seq<u32>,
    path: Seq<u32>,
)
    requires
        forall|id: u32| has_ingredient(recipe, id) ==> #[trigger] ids.contains(id),
        forall|a: u32, b: u32|
            ids.contains(a) && #[trigger] leads_to(recipes, a, b) ==> ids.contains(b),
        is_ingredient_path(recipes, recipe, path),
    ensures
        ids.contains(path.last()),
    decreases path.len(),
{
    if path.len() > 1 {
        let shorter = path.drop_last();
        assert(is_ingredient_path(recipes, recipe, shorter)) by {
            assert forall|i: int| 0 < i < shorter.len() implies leads_to(
                recipes,
                shorter[i - 1],
                #[trigger] shorter[i],
            ) by {
                assert(path[i] == shorter[i]);
            }
        }
        lemma_closed_list_is_complete(recipes, recipe, ids, shorter);
        let last: int = path.len() - 1;
        assert(leads_to(recipes, path[last - 1], path[last]));
    }
}

pub proof fn lemma_path_extends(recipes: Map<u32, Recipe>, recipe: Recipe, a: u32, b: u32)
    requires
        is_transitive_ingredient(recipes, recipe, a),
        leads_to(recipes, a, b),
    ensures
        is_transitive_ingredient(recipes, recipe, b),
{
    let path = choose|path: Seq<u32>| #[trigger]
        is_ingredient_path(recipes, recipe, path) && path.last() == a;
    let longer = path.push(b);
    assert(is_ingredient_path(recipes, recipe, longer)) by {
        assert forall|i: int| 0 < i < longer.len() implies leads_to(
            recipes,
            longer[i - 1],
            #[trigger] longer[i],
        ) by {
            if i < path.len() {
                assert(path[i] == longer[i]);
            }
        }
    }
    assert(longer.last() == b);
}

impl Recipe {
    /// Whether the recipe belongs to the discipline.
    pub fn has_discipline(&self, discipline: Discipline) -> (b: bool)
        ensures
            b == self.disciplines@.contains(discipline),
    {
        let mut i: usize = 0;
        while i < self.disciplines.len()
            invariant
                i <= self.disciplines.len(),
                forall|j: int| 0 <= j < i ==> self.disciplines@[j] != discipline,
            decreases self.disciplines.len() - i,
        {
            if self.disciplines[i] == discipline {
                return true;
            }
            i += 1;
        }
        false
    }

    /// Whether the recipe belongs to one of the disciplines.
    pub fn has_any_discipline(&self, disciplines: &Vec<Discipline>) -> (b: bool)
        ensures
            b == exists|d: Discipline| #[trigger]
                disciplines@.contains(d) && self.disciplines@.contains(d),
    {
        let mut i: usize = 0;
        while i < disciplines.len()
            invariant
                i <= disciplines.len(),
                forall|j: int|
                    0 <= j < i ==> !self.disciplines@.contains(#[trigger] disciplines@[j]),
            decreases disciplines.len() - i,
        {
            if self.has_discipline(disciplines[i]) {
                assert(disciplines@.contains(disciplines@[i as int]));
                return true;
            }
            i += 1;
        }
        false
    }

    /// Adds the ingredients of the recipe that are not in the list yet.
    fn add_direct_ingredients(&self, found: &mut Vec<u32>, seen: &mut HashSet<u32>)
        requires
            old(found)@.no_duplicates(),
            old(seen)@ == old(found)@.to_set(),
        ensures
            final(found)@.no_duplicates(),
            final(seen)@ == final(found)@.to_set(),
            old(found)@.is_prefix_of(final(found)@),
            forall|id: u32| #[trigger]
                final(found)@.contains(id) <==> old(found)@.contains(id) || has_ingredient(
                    *self,
                    id,
                ),
    {
        let mut i: usize = 0;
        while i < self.ingredients.len()
            invariant
                i <= self.ingredients.len(),
                found@.no_duplicates(),
                seen@ == found@.to_set(),
                old(found)@.is_prefix_of(found@),
                forall|id: u32| #[trigger]
                    found@.contains(id) <==> old(found)@.contains(id) || exists|j: int|
                        0 <= j < i && (#[trigger] self.ingredients@[j]).item_id == id,
            decreases self.ingredients.len() - i,
        {
            let id: u32 = self.ingredients[i].item_id;
            let ghost before = found@;
            if !seen.contains(&id) {
                seen.insert(id);
                found.push(id);
                proof {
                    assert(!before.contains(id)) by {
                        if before.contains(id) {
                            assert(before.to_set().contains(id));
                        }
                    }
                    assert(found@ == before.push(id));
                    assert forall|x: u32| #[trigger] found@.contains(x) <==> before.contains(x) || x
                        == id by {
                        if before.contains(x) {
                            let k: int = choose|k: int| 0 <= k < before.len() && before[k] == x;
                            assert(found@[k] == x);
                        }
                        if x == id {
                            assert(found@[before.len() as int] == x);
                        }
                    }
                    assert(seen@ =~= found@.to_set());
                    assert(old(found)@.is_prefix_of(found@));
                }
            } else {
                assert(before.to_set().contains(id));
                assert(before.contains(id));
            }
            i += 1;
        }
    }

    /// Appends every transitive ingredient of the recipe, each once.
    pub fn collect_ingredient_ids(&self, recipes_map: &HashMap<u32, Recipe>, ids: &mut Vec<u32>)
        ensures
            old(ids)@.is_prefix_of(final(ids)@),
            lists_transitive_ingredients(
                recipes_map@,
                *self,
                final(ids)@.skip(old(ids)@.len() as int),
            ),
    {
        let ghost recipes = recipes_map@;
        let mut found: Vec<u32> = Vec::new();
        let mut seen: HashSet<u32> = HashSet::new();
        assert(seen@ =~= found@.to_set());
        self.add_direct_ingredients(&mut found, &mut seen);
        proof {
            assert forall|id: u32| #[trigger] found@.contains(id) implies is_transitive_ingredient(
                recipes,
                *self,
                id,
            ) by {
                assert(is_ingredient_path(recipes, *self, seq![id]));
                assert(seq![id].last() == id);
            }
        }
        let mut next: usize = 0;
        while next < found.len()
            invariant
                recipes == recipes_map@,
                next <= found.len(),
                found@.no_duplicates(),
                seen@ == found@.to_set(),
                forall|id: u32| has_ingredient(*self, id) ==> #[trigger] found@.contains(id),
                forall|id: u32| #[trigger]
                    found@.contains(id) ==> is_transitive_ingredient(recipes, *self, id),
                forall|i: int, b: u32|
                    0 <= i < next && #[trigger] leads_to(recipes, found@[i], b) ==> found@.contains(
                        b,
                    ),
            decreases 0x1_0000_0000 - next,
        {
            let id: u32 = found[next];
            let ghost before = found@;
            proof {
                lemma_distinct_ids(found@);
                assert(found@.contains(id));
            }
            if let Some(recipe) = recipes_map.get(&id) {
                recipe.add_direct_ingredients(&mut found, &mut seen);
                proof {
                    assert forall|x: u32| #[trigger]
                        found@.contains(x) implies is_transitive_ingredient(
                        recipes,
                        *self,
                        x,
                    ) by {
                        if !before.contains(x) {
                            assert(leads_to(recipes, id, x));
                            lemma_path_extends(recipes, *self, id, x);
                        }
                    }
                    assert forall|i: int, b: u32|
                        0 <= i < next + 1 && #[trigger] leads_to(
                            recipes,
                            found@[i],
                            b,
                        ) implies found@.contains(b) by {
                        assert(found@[i] == before[i]);
                        if i < next {
                            assert(before.contains(b));
                        }
                    }
                }
            }
            next += 1;
        }
        proof {
            assert forall|a: u32, b: u32|
                found@.contains(a) && #[trigger] leads_to(recipes, a, b) implies found@.contains(
                b,
            ) by {
                let i: int = choose|i: int| 0 <= i < found@.len() && found@[i] == a;
                assert(leads_to(recipes, found@[i], b));
            }
            assert forall|id: u32|
                is_transitive_ingredient(recipes, *self, id) implies #[trigger] found@.contains(
                id,
            ) by {
                let path = choose|path: Seq<u32>| #[trigger]
                    is_ingredient_path(recipes, *self, path) && path.last() == id;
                lemma_closed_list_is_complete(recipes, *self, found@, path);
            }
        }
        let ghost extra = found@;
        ids.append(&mut found);
        assert(ids@.skip(old(ids)@.len() as int) =~= extra);
    }
}

/// A transitive ingredient is one of the recipe, or of the recipe for another
/// transitive ingredient.
pub proof fn lemma_ingredient_has_a_maker(recipes: Map<u32, Recipe>, recipe: Recipe, id: u32)
    requires
        is_transitive_ingredient(recipes, recipe, id),
    ensures
        has_ingredient(recipe, id) || exists|maker: u32| #[trigger]
            is_transitive_ingredient(recipes, recipe, maker) && leads_to(recipes, maker, id),
{
    let path = choose|path: Seq<u32>| #[trigger]
        is_ingredient_path(recipes, recipe, path) && path.last() == id;
    if path.len() > 1 {
        let shorter = path.drop_last();
        let last: int = path.len() - 1;
        assert(is_ingredient_path(recipes, recipe, shorter)) by {
            assert forall|i: int| 0 < i < shorter.len() implies leads_to(
                recipes,
                shorter[i - 1],
                #[trigger] shorter[i],
            ) by {
                assert(path[i] == shorter[i]);
            }
        }
        assert(leads_to(recipes, path[last - 1], path[last]));
        assert(shorter.last() == path[last - 1]);
        assert(is_transitive_ingredient(recipes, recipe, shorter.last()));
    }
}

/// A list of the ingredients that a recipe leads to has each of its ingredients,
/// and with each item the ingredients of the recipe for that item. Beyond these it
/// has none: a list like it that has every ingredient of the recipe has them all.
pub proof fn law_ingredient_list_is_the_closure(
    recipes: Map<u32, Recipe>,
    recipe: Recipe,
    ids: Seq<u32>,
    closed: Set<u32>,
)
    requires
        lists_transitive_ingredients(recipes, recipe, ids),
    ensures
        forall|k: int|
            0 <= k < recipe.ingredients@.len() ==> ids.contains(
                (#[trigger] recipe.ingredients@[k]).item_id,
            ),
        forall|a: u32, k: int|
            ids.contains(a) && recipes.contains_key(a) && 0 <= k < recipes[a].ingredients@.len()
                ==> ids.contains((#[trigger] recipes[a].ingredients@[k]).item_id),
        (forall|k: int|
            0 <= k < recipe.ingredients@.len() ==> closed.contains(
                (#[trigger] recipe.ingredients@[k]).item_id,
            )) && (forall|a: u32, k: int|
            closed.contains(a) && recipes.contains_key(a) && 0 <= k
                < recipes[a].ingredients@.len() ==> closed.contains(
                (#[trigger] recipes[a].ingredients@[k]).item_id,
            )) ==> forall|i: int| 0 <= i < ids.len() ==> closed.contains(#[trigger] ids[i]),
        ids.no_duplicates(),
{
    assert forall|k: int| 0 <= k < recipe.ingredients@.len() implies ids.contains(
        (#[trigger] recipe.ingredients@[k]).item_id,
    ) by {
        let x = recipe.ingredients@[k].item_id;
        assert(has_ingredient(recipe, x));
        assert(is_ingredient_path(recipes, recipe, seq![x]));
        assert(seq![x].last() == x);
        assert(is_transitive_ingredient(recipes, recipe, x));
    }
    assert forall|a: u32, k: int|
        ids.contains(a) && recipes.contains_key(a) && 0 <= k
            < recipes[a].ingredients@.len() implies ids.contains(
        (#[trigger] recipes[a].ingredients@[k]).item_id,
    ) by {
        let x = recipes[a].ingredients@[k].item_id;
        assert(has_ingredient(recipes[a], x));
        assert(leads_to(recipes, a, x));
        lemma_path_extends(recipes, recipe, a, x);
    }
    if (forall|k: int|
        0 <= k < recipe.ingredients@.len() ==> closed.contains(
            (#[trigger] recipe.ingredients@[k]).item_id,
        )) && (forall|a: u32, k: int|
        closed.contains(a) && recipes.contains_key(a) && 0 <= k < recipes[a].ingredients@.len()
            ==> closed.contains((#[trigger] recipes[a].ingredients@[k]).item_id)) {
        assert forall|i: int| 0 <= i < ids.len() implies closed.contains(#[trigger] ids[i]) by {
            assert(ids.contains(ids[i]));
            let path = choose|path: Seq<u32>| #[trigger]
                is_ingredient_path(recipes, recipe, path) && path.last() == ids[i];
            lemma_path_stays_inside(recipes, recipe, path, closed);
        }
    }
}

proof fn lemma_path_stays_inside(
    recipes: Map<u32, Recipe>,
    recipe: Recipe,
    path: Seq<u32>,
    closed: Set<u32>,
)
    requires
        is_ingredient_path(recipes, recipe, path),
        forall|k: int|
            0 <= k < recipe.ingredients@.len() ==> closed.contains(
                (#[trigger] recipe.ingredients@[k]).item_id,
            ),
        forall|a: u32, k: int|
            closed.contains(a) && recipes.contains_key(a) && 0 <= k < recipes[a].ingredients@.len()
                ==> closed.contains((#[trigger] recipes[a].ingredients@[k]).item_id),
    ensures
        closed.contains(path.last()),
    decreases path.len(),
{
    if path.len() > 1 {
        let shorter = path.drop_last();
        let last: int = path.len() - 1;
        assert(is_ingredient_path(recipes, recipe, shorter)) by {
            assert forall|i: int| 0 < i < shorter.len() implies leads_to(
                recipes,
                shorter[i - 1],
                #[trigger] shorter[i],
            ) by {
                assert(path[i] == shorter[i]);
            }
        }
        lemma_path_stays_inside(recipes, recipe, shorter, closed);
        assert(leads_to(recipes, path[last - 1], path[last]));
    }
}

} // verus!
