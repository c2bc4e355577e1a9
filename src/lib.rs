//! Consolidates the ingredients of several recipes into one shopping list and renders it
//! as a text report.
//!
//! Quantities are fixed-point integers: a `Measure` holds millionths of its unit. Units
//! form a lattice (`Pinch < Teaspoons < Tablespoons < Ounces < Cups`) walked one step at
//! a time when converting; `Whole` stands apart and is never converted.
pub mod export;
pub mod format;
pub mod order;
pub mod recipe;
pub mod report;
pub mod shopping_list;
pub mod state;
pub mod unit;

pub use crate::export::ExportFormat;
pub use crate::recipe::{Ingredient, MealType, PrepType, Recipe, Tag};
pub use crate::report::Report;
pub use crate::shopping_list::{generate_list, ConsolidatedEntry, ShoppingList};
pub use crate::state::AppState;
pub use crate::unit::{Measure, Unit, QUANTITY_SCALE};
