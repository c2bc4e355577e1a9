//! Recipes and their ingredients, as the aggregation reads them.
use vstd::prelude::*;

use crate::unit::Measure;

verus! {

/// A named dish with the ingredients it needs.
#[derive(Debug, PartialEq)]
pub struct Recipe {
    pub name: String,
    pub ingredients: Vec<Ingredient>,
    pub tags: Option<Vec<Tag>>,
}

/// One line of a recipe: what is needed, and how much of it.
#[derive(Debug, PartialEq)]
pub struct Ingredient {
    pub name: String,
    pub measure: Measure,
}

/// A label attached to a recipe.
#[derive(Debug, Eq, PartialEq)]
pub enum Tag {
    Culture(String),
    Meat(String),
    MealType(MealType),
    PrepType(PrepType),
    Other(String),
}

#[derive(Debug, Copy, Clone, Eq, PartialEq)]
pub enum MealType {
    Breakfast,
    Lunch,
    Dinner,
    Side,
    Snack,
}

#[derive(Debug, Copy, Clone, Eq, PartialEq)]
pub enum PrepType {
    Cold,
    Bake,
    Fry,
    Microwave,
    Boil,
    Stovetop,
}

impl Clone for Ingredient {
    fn clone(&self) -> (r: Self)
        ensures
            r == *self,
    {
        Ingredient { name: self.name.clone(), measure: self.measure }
    }
}

impl Clone for Tag {
    fn clone(&self) -> (r: Self)
        ensures
            r == *self,
    {
        match self {
            Tag::Culture(s) => Tag::Culture(s.clone()),
            Tag::Meat(s) => Tag::Meat(s.clone()),
            Tag::MealType(m) => Tag::MealType(*m),
            Tag::PrepType(p) => Tag::PrepType(*p),
            Tag::Other(s) => Tag::Other(s.clone()),
        }
    }
}

impl Recipe {
    /// Whether two recipes hold the same name, ingredients and tags.
    pub open spec fn same_as(&self, other: &Recipe) -> bool {
        &&& self.name == other.name
        &&& self.ingredients@ == other.ingredients@
        &&& (self.tags is Some <==> other.tags is Some)
        &&& (self.tags is Some ==> self.tags->0@ == other.tags->0@)
    }
}

impl Clone for Recipe {
    fn clone(&self) -> (r: Self)
        ensures
            r.same_as(self),
    {
        let tags = match &self.tags {
            None => None,
            Some(t) => {
                let c = t.clone();
                assert(c@ =~= t@);
                Some(c)
            },
        };
        let ingredients = self.ingredients.clone();
        assert(ingredients@ =~= self.ingredients@);
        Recipe { name: self.name.clone(), ingredients, tags }
    }
}

} // verus!
