use gw2_arbitrage::order::{contains_id, sorted_distinct};
use gw2_arbitrage::recipe::{Discipline, Recipe, RecipeIngredient, RecipeSource};
use std::collections::HashMap;

fn recipe(output: u32, ingredients: &[u32]) -> Recipe {
    Recipe {
        id: Some(output + 1000),
        output_item_id: output,
        output_item_count: 1,
        disciplines: vec![Discipline::Chef],
        ingredients: ingredients.iter().map(|id| RecipeIngredient { item_id: *id, count: 1 }).collect(),
        source: RecipeSource::Automatic,
    }
}

#[test]
fn ingredients_are_collected_at_every_depth() {
    let mut recipes = HashMap::new();
    for r in [recipe(1, &[2, 3]), recipe(2, &[4, 3]), recipe(4, &[5])] {
        recipes.insert(r.output_item_id, r);
    }
    let mut ids = vec![99];
    recipes[&1].collect_ingredient_ids(&recipes, &mut ids);
    assert_eq!(ids[0], 99);
    assert_eq!(sorted_distinct(ids[1..].to_vec()), vec![2, 3, 4, 5]);
    assert_eq!(ids.len(), 5);
}

#[test]
fn circular_recipes_end() {
    let mut recipes = HashMap::new();
    for r in [recipe(1, &[2]), recipe(2, &[1])] {
        recipes.insert(r.output_item_id, r);
    }
    let mut ids = vec![];
    recipes[&1].collect_ingredient_ids(&recipes, &mut ids);
    assert_eq!(sorted_distinct(ids), vec![1, 2]);
}

#[test]
fn disciplines_by_name() {
    for d in Discipline::all() {
        assert_eq!(Discipline::parse(d.name()), Some(d));
    }
    assert_eq!(Discipline::parse("Baker"), None);
    assert_eq!(Discipline::Homesteader.name(), "Homesteader");
    let r = recipe(1, &[]);
    assert!(r.has_discipline(Discipline::Chef));
    assert!(!r.has_any_discipline(&vec![Discipline::Tailor, Discipline::Scribe]));
    assert!(r.has_any_discipline(&vec![Discipline::Tailor, Discipline::Chef]));
}

#[test]
fn ids_are_sorted_and_listed_once() {
    assert_eq!(sorted_distinct(vec![5, 1, 5, 3, 1]), vec![1, 3, 5]);
    assert_eq!(sorted_distinct(vec![]), Vec::<u32>::new());
    assert!(contains_id(&vec![1, 2], 2));
    assert!(!contains_id(&vec![1, 2], 3));
}
