use shopping_list::{generate_list, Ingredient, Measure, Recipe, ShoppingList, Unit, QUANTITY_SCALE};

fn ing(name: &str, quantity: i64, unit: Unit) -> Ingredient {
    Ingredient { name: name.to_string(), measure: Measure { quantity, unit } }
}

fn recipe(name: &str, ingredients: Vec<Ingredient>) -> Recipe {
    Recipe { name: name.to_string(), ingredients, tags: None }
}

fn entry<'a>(list: &'a ShoppingList, name: &str) -> &'a shopping_list::ConsolidatedEntry {
    list.entries().iter().find(|e| e.name == name).expect("entry present")
}

#[test]
fn salt_from_two_recipes_is_summed() {
    let a = recipe("Soup", vec![ing("Salt", QUANTITY_SCALE, Unit::Teaspoons)]);
    let b = recipe("Stew", vec![ing("Salt", 2 * QUANTITY_SCALE, Unit::Teaspoons)]);
    let list = generate_list(&[a, b]).unwrap();
    assert_eq!(list.entries().len(), 1);
    let salt = entry(&list, "Salt");
    assert_eq!(salt.measure, Measure { quantity: 3 * QUANTITY_SCALE, unit: Unit::Teaspoons });
    assert_eq!(salt.recipes, vec!["Soup".to_string(), "Stew".to_string()]);
}

#[test]
fn limes_in_whole_units_are_never_converted() {
    let a = recipe("A", vec![ing("Lime", QUANTITY_SCALE, Unit::Whole)]);
    let b = recipe("B", vec![ing("Lime", 2 * QUANTITY_SCALE, Unit::Whole)]);
    let list = generate_list(&[a, b]).unwrap();
    let lime = entry(&list, "Lime");
    assert_eq!(lime.measure, Measure { quantity: 3 * QUANTITY_SCALE, unit: Unit::Whole });
    assert_eq!(lime.recipes, vec!["A".to_string(), "B".to_string()]);
}

#[test]
fn total_is_promoted_to_the_larger_unit() {
    let a = recipe("A", vec![ing("Milk", 4 * QUANTITY_SCALE, Unit::Ounces)]);
    let b = recipe("B", vec![ing("Milk", QUANTITY_SCALE, Unit::Cups)]);
    let list = generate_list(&[a, b]).unwrap();
    assert_eq!(entry(&list, "Milk").measure, Measure { quantity: 1_500_000, unit: Unit::Cups });
}

#[test]
fn smaller_incoming_unit_is_converted_into_the_total() {
    let a = recipe("A", vec![ing("Milk", QUANTITY_SCALE, Unit::Cups)]);
    let b = recipe("B", vec![ing("Milk", 4 * QUANTITY_SCALE, Unit::Ounces)]);
    let list = generate_list(&[a, b]).unwrap();
    assert_eq!(entry(&list, "Milk").measure, Measure { quantity: 1_500_000, unit: Unit::Cups });
}

#[test]
fn whole_mixed_with_a_measured_unit_is_summed_raw() {
    let a = recipe("A", vec![ing("Egg", QUANTITY_SCALE, Unit::Cups)]);
    let b = recipe("B", vec![ing("Egg", 2 * QUANTITY_SCALE, Unit::Whole)]);
    let list = generate_list(&[a, b]).unwrap();
    assert_eq!(entry(&list, "Egg").measure, Measure { quantity: 3 * QUANTITY_SCALE, unit: Unit::Cups });
}

#[test]
fn names_are_compared_exactly() {
    let a = recipe("A", vec![ing("salt", QUANTITY_SCALE, Unit::Pinch), ing("Salt", QUANTITY_SCALE, Unit::Pinch)]);
    let list = generate_list(&[a]).unwrap();
    let names: Vec<&str> = list.entries().iter().map(|e| e.name.as_str()).collect();
    assert_eq!(names, vec!["salt", "Salt"]);
}

#[test]
fn a_recipe_is_named_once_per_entry() {
    let a = recipe("A", vec![ing("Salt", QUANTITY_SCALE, Unit::Pinch), ing("Salt", QUANTITY_SCALE, Unit::Pinch)]);
    let list = generate_list(&[a]).unwrap();
    let salt = entry(&list, "Salt");
    assert_eq!(salt.measure, Measure { quantity: 2 * QUANTITY_SCALE, unit: Unit::Pinch });
    assert_eq!(salt.recipes, vec!["A".to_string()]);
}

#[test]
fn entries_keep_the_order_names_were_first_met() {
    let a = recipe("A", vec![ing("Flour", QUANTITY_SCALE, Unit::Cups), ing("Sugar", QUANTITY_SCALE, Unit::Cups)]);
    let b = recipe("B", vec![ing("Butter", QUANTITY_SCALE, Unit::Ounces), ing("Flour", QUANTITY_SCALE, Unit::Cups)]);
    let list = generate_list(&[a, b]).unwrap();
    let names: Vec<&str> = list.entries().iter().map(|e| e.name.as_str()).collect();
    assert_eq!(names, vec!["Flour", "Sugar", "Butter"]);
    assert_eq!(list.recipe_names(), vec!["A".to_string(), "B".to_string()]);
}

#[test]
fn no_recipes_give_an_empty_list() {
    let list = generate_list(&[]).unwrap();
    assert!(list.entries().is_empty());
    assert!(list.recipe_names().is_empty());
}

#[test]
fn totals_beyond_i64_are_refused() {
    let a = recipe("A", vec![ing("Salt", i64::MAX, Unit::Teaspoons)]);
    let b = recipe("B", vec![ing("Salt", 1, Unit::Teaspoons)]);
    assert!(generate_list(&[a, b]).is_none());
    let c = recipe("C", vec![ing("Sugar", 1, Unit::Teaspoons), ing("Sugar", i64::MAX / 2, Unit::Cups)]);
    assert!(generate_list(&[c]).is_some());
    let half = i64::MAX / 2 + 1;
    let d = recipe("D", vec![ing("Sugar", half, Unit::Cups), ing("Sugar", half, Unit::Cups)]);
    assert!(generate_list(&[d]).is_none());
    let e = recipe("E", vec![ing("Sugar", half, Unit::Cups), ing("Sugar", half - 1, Unit::Cups)]);
    assert_eq!(generate_list(&[e]).unwrap().entries()[0].measure.quantity, i64::MAX);
}

#[test]
fn whole_only_ingredient_sums_across_many_recipes() {
    let rs: Vec<Recipe> = (1..=4)
        .map(|i| recipe(&format!("R{i}"), vec![ing("Egg", i * QUANTITY_SCALE, Unit::Whole), ing("Milk", QUANTITY_SCALE, Unit::Cups)]))
        .collect();
    let list = generate_list(&rs).unwrap();
    let egg = entry(&list, "Egg");
    assert_eq!(egg.measure, Measure { quantity: 10 * QUANTITY_SCALE, unit: Unit::Whole });
    assert_eq!(egg.recipes.len(), 4);
}
