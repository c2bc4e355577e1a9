use shopping_list::{AppState, Ingredient, MealType, Measure, Recipe, Tag, Unit};

fn recipe(name: &str) -> Recipe {
    Recipe {
        name: name.to_string(),
        ingredients: vec![Ingredient { name: "Rice".to_string(), measure: Measure { quantity: 1, unit: Unit::Cups } }],
        tags: Some(vec![Tag::MealType(MealType::Dinner), Tag::Culture("Thai".to_string())]),
    }
}

fn names(rs: &[Recipe]) -> Vec<&str> {
    rs.iter().map(|r| r.name.as_str()).collect()
}

#[test]
fn recipes_are_added_once_per_name() {
    let mut s = AppState::new();
    s.add_recipe(recipe("Curry"));
    s.add_recipe(recipe("Pho"));
    s.add_recipe(recipe("Curry"));
    assert_eq!(names(s.recipes()), vec!["Curry", "Pho"]);
}

#[test]
fn recipe_lookup_returns_a_copy() {
    let mut s = AppState::new();
    s.add_recipe(recipe("Curry"));
    assert_eq!(s.recipe_by_name("Curry"), Some(recipe("Curry")));
    assert_eq!(s.recipe_by_name("Pho"), None);
}

#[test]
fn selection_follows_select_and_unselect() {
    let mut s = AppState::new();
    s.add_recipe(recipe("Curry"));
    s.add_recipe(recipe("Pho"));
    s.select("Pho".to_string());
    s.select("Curry".to_string());
    s.select("Pho".to_string());
    s.select("Missing".to_string());
    assert_eq!(names(s.selected()), vec!["Pho", "Curry"]);
    s.unselect("Pho".to_string());
    s.unselect("Missing".to_string());
    assert_eq!(names(s.selected()), vec!["Curry"]);
    assert_eq!(s.selected()[0], recipe("Curry"));
    s.unselect("Curry".to_string());
    assert!(s.selected().is_empty());
}
