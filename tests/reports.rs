use shopping_list::{generate_list, ExportFormat, Ingredient, Measure, Recipe, Report, Unit, QUANTITY_SCALE};
use shopping_list::format::{amount_string, ceil_quantity, decimal_string};

fn soup() -> Recipe {
    Recipe {
        name: "Soup".to_string(),
        ingredients: vec![Ingredient {
            name: "Salt".to_string(),
            measure: Measure { quantity: 2_500_000, unit: Unit::Teaspoons },
        }],
        tags: None,
    }
}

#[test]
fn empty_list_has_no_report() {
    let list = generate_list(&[]).unwrap();
    assert!(list.report_text(ExportFormat::Print).is_none());
    assert!(list.report_text(ExportFormat::Notes).is_none());
}

#[test]
fn single_ingredient_boxed_report() {
    let list = generate_list(&[soup()]).unwrap();
    let text = list.report_text(ExportFormat::Print).unwrap();
    let expected = [
        "+-------------------+",
        "| My Shopping List  |",
        "+-------------------+",
        "| [_] Salt          |",
        "|     * 3 Teaspoons |",
        "+-------------------+",
        "| Recipes:          |",
        "|  - Soup           |",
        "+-------------------+",
    ]
    .join("\n");
    assert_eq!(text, expected);
    let widths: Vec<usize> = text.lines().map(|l| l.len()).collect();
    assert!(widths.iter().all(|w| *w == widths[0]));
}

#[test]
fn single_ingredient_plain_report() {
    let list = generate_list(&[soup()]).unwrap();
    let text = list.report_text(ExportFormat::Notes).unwrap();
    let expected = [
        "My Shopping List",
        "+-----------------+",
        "Salt: 3 Teaspoons",
        "",
        "Recipes:",
        " - Soup",
    ]
    .join("\n");
    assert_eq!(text, expected);
}

#[test]
fn report_lists_every_contributing_recipe_once() {
    let mut stew = soup();
    stew.name = "Stew".to_string();
    stew.ingredients.push(Ingredient {
        name: "Lime".to_string(),
        measure: Measure { quantity: QUANTITY_SCALE, unit: Unit::Whole },
    });
    let list = generate_list(&[soup(), stew]).unwrap();
    let text = list.report_text(ExportFormat::Notes).unwrap();
    let expected = [
        "My Shopping List",
        "+-----------------+",
        "Lime: 1 Whole",
        "Salt: 5 Teaspoons",
        "",
        "Recipes:",
        " - Soup",
        " - Stew",
    ]
    .join("\n");
    assert_eq!(text, expected);
}

#[test]
fn boxed_report_pads_to_the_longest_line() {
    let mut r = soup();
    r.ingredients[0].name = "Extra virgin olive oil, cold pressed".to_string();
    let list = generate_list(&[r]).unwrap();
    let text = list.report_text(ExportFormat::Print).unwrap();
    let lines: Vec<&str> = text.lines().collect();
    let longest = "| [_] Extra virgin olive oil, cold pressed".len();
    assert_eq!(lines.len(), 9);
    for l in &lines {
        assert_eq!(l.len(), longest + 2);
    }
    assert_eq!(lines[0], format!("+{}+", "-".repeat(longest)));
    assert_eq!(lines[3], format!("{} |", "| [_] Extra virgin olive oil, cold pressed"));
}

#[test]
fn rendering_an_empty_report_draws_nothing() {
    let mut r = Report::default();
    r.render();
    assert_eq!(r.contents(), "");
}

#[test]
fn report_lines_and_rules() {
    let mut r = Report::default();
    r.line();
    r.w("ab");
    r.w("abcd");
    r.line();
    r.render();
    assert_eq!(r.contents(), "+------+\n| ab   |\n| abcd |\n+------+");
}

#[test]
fn plain_report_leaves_lines_unpadded() {
    let mut r = Report::plain_report();
    r.w("abc");
    r.line();
    r.w("a");
    r.render();
    assert_eq!(r.contents(), "abc\n+---+\na");
}

#[test]
fn quantities_round_up() {
    assert_eq!(ceil_quantity(0), 0);
    assert_eq!(ceil_quantity(1), 1);
    assert_eq!(ceil_quantity(QUANTITY_SCALE), 1);
    assert_eq!(ceil_quantity(QUANTITY_SCALE + 1), 2);
    assert_eq!(ceil_quantity(-1), 0);
    assert_eq!(ceil_quantity(-1_500_000), -1);
    assert_eq!(ceil_quantity(i64::MIN), i64::MIN / QUANTITY_SCALE);
    assert_eq!(ceil_quantity(i64::MAX), i64::MAX / QUANTITY_SCALE + 1);
}

#[test]
fn decimals_are_printed_in_full() {
    assert_eq!(decimal_string(0), "0");
    assert_eq!(decimal_string(7), "7");
    assert_eq!(decimal_string(1205), "1205");
    assert_eq!(decimal_string(-42), "-42");
    assert_eq!(decimal_string(i64::MIN), i64::MIN.to_string());
    assert_eq!(decimal_string(i64::MAX), i64::MAX.to_string());
}

#[test]
fn amounts_name_their_unit() {
    assert_eq!(amount_string(&Measure { quantity: 1_500_000, unit: Unit::Cups }), "2 Cups");
    assert_eq!(amount_string(&Measure { quantity: 20_625, unit: Unit::Pinch }), "1 Pinch");
    assert_eq!(amount_string(&Measure { quantity: 0, unit: Unit::Tablespoons }), "0 Tablespoons");
    assert_eq!(amount_string(&Measure { quantity: 3 * QUANTITY_SCALE, unit: Unit::Ounces }), "3 Ounces");
    assert_eq!(amount_string(&Measure { quantity: QUANTITY_SCALE, unit: Unit::Whole }), "1 Whole");
}

fn ing(name: &str, quantity: i64, unit: Unit) -> Ingredient {
    Ingredient { name: name.to_string(), measure: Measure { quantity, unit } }
}

#[test]
fn recipe_names_are_listed_in_ascending_order() {
    let b = Recipe { name: "B".to_string(), ingredients: vec![ing("Salt", 1, Unit::Pinch)], tags: None };
    let a = Recipe { name: "A".to_string(), ingredients: vec![ing("Salt", 1, Unit::Pinch)], tags: None };
    let list = generate_list(&[b, a]).unwrap();
    let text = list.report_text(ExportFormat::Notes).unwrap();
    let lines: Vec<&str> = text.lines().collect();
    assert_eq!(&lines[lines.len() - 2..], &[" - A", " - B"]);
}

#[test]
fn ingredients_are_listed_in_ascending_order() {
    let r = Recipe {
        name: "Soup".to_string(),
        ingredients: vec![
            ing("Salt", QUANTITY_SCALE, Unit::Pinch),
            ing("Pepper", QUANTITY_SCALE, Unit::Pinch),
            ing("salt", QUANTITY_SCALE, Unit::Pinch),
            ing("Paprika", QUANTITY_SCALE, Unit::Pinch),
        ],
        tags: None,
    };
    let list = generate_list(&[r]).unwrap();
    let text = list.report_text(ExportFormat::Notes).unwrap();
    let expected = [
        "My Shopping List",
        "+----------------+",
        "Paprika: 1 Pinch",
        "Pepper: 1 Pinch",
        "Salt: 1 Pinch",
        "salt: 1 Pinch",
        "",
        "Recipes:",
        " - Soup",
    ]
    .join("\n");
    assert_eq!(text, expected);
    let boxed = list.report_text(ExportFormat::Print).unwrap();
    let items: Vec<&str> = boxed.lines().filter(|l| l.starts_with("| [_]")).collect();
    assert_eq!(items.len(), 4);
    assert!(items[0].contains("Paprika") && items[1].contains("Pepper"));
    assert!(items[2].contains("Salt") && items[3].contains("salt"));
    assert_eq!(boxed, list.report_text(ExportFormat::Print).unwrap());
}
