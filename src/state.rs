//! The loaded recipes and the ones selected for the next shopping list.
use vstd::prelude::*;

use crate::recipe::Recipe;

verus! {

/// Whether no two recipes in `rs` share a name.
pub open spec fn names_unique(rs: Seq<Recipe>) -> bool {
    forall|i: int, j: int| 0 <= i < j < rs.len() ==> rs[i].name@ != rs[j].name@
}

/// Whether some recipe in `rs` is named `name`.
pub open spec fn has_name(rs: Seq<Recipe>, name: Seq<char>) -> bool {
    exists|i: int| 0 <= i < rs.len() && rs[i].name@ == name
}

/// The known recipes, each name at most once, and the selection made from them.
pub struct AppState {
    recipes: Vec<Recipe>,
    selected: Vec<Recipe>,
}

/// The position of the first recipe named `name`, if any.
fn position_of(rs: &Vec<Recipe>, name: &String) -> (r: Option<usize>)
    ensures
        r is Some <==> has_name(rs@, name@),
        r is Some ==> r->0 < rs@.len() && rs@[r->0 as int].name@ == name@,
        r is Some ==> forall|k: int| 0 <= k < r->0 ==> rs@[k].name@ != name@,
{
    let mut i: usize = 0;
    while i < rs.len()
        invariant
            i <= rs@.len(),
            forall|k: int| 0 <= k < i ==> rs@[k].name@ != name@,
        decreases rs@.len() - i,
    {
        if rs[i].name == *name {
            return Some(i);
        }
        i = i + 1;
    }
    None
}

impl AppState {
    pub closed spec fn recipes_view(&self) -> Seq<Recipe> {
        self.recipes@
    }

    pub closed spec fn selected_view(&self) -> Seq<Recipe> {
        self.selected@
    }

    /// Known recipes have distinct names, and so do the selected ones.
    pub open spec fn wf(&self) -> bool {
        &&& names_unique(self.recipes_view())
        &&& names_unique(self.selected_view())
    }

    /// A state with no recipes.
    pub fn new() -> (r: AppState)
        ensures
            r.wf(),
            r.recipes_view().len() == 0,
            r.selected_view().len() == 0,
    {
        AppState { recipes: Vec::new(), selected: Vec::new() }
    }

    /// Adds a recipe, unless one of the same name is already known.
    pub fn add_recipe(&mut self, recipe: Recipe)
        requires
            old(self).wf(),
        ensures
            final(self).wf(),
            final(self).selected_view() == old(self).selected_view(),
            has_name(old(self).recipes_view(), recipe.name@) ==> final(self).recipes_view()
                == old(self).recipes_view(),
            !has_name(old(self).recipes_view(), recipe.name@) ==> final(self).recipes_view()
                == old(self).recipes_view().push(recipe),
    {
        if position_of(&self.recipes, &recipe.name).is_some() {
            return ;
        }
        let ghost before = self.recipes@;
        self.recipes.push(recipe);
        proof {
            assert forall|i: int, k: int|
                0 <= i < k < self.recipes@.len() implies self.recipes@[i].name@
                != self.recipes@[k].name@ by {
                if k == before.len() {
                    assert(self.recipes@[i] == before[i]);
                }
            }
        }
    }

    /// A copy of the known recipe named `name`, if there is one.
    pub fn recipe_by_name(&self, name: &str) -> (r: Option<Recipe>)
        requires
            self.wf(),
        ensures
            r is Some <==> has_name(self.recipes_view(), name@),
            r is Some ==> exists|j: int|
                0 <= j < self.recipes_view().len() && self.recipes_view()[j].name@ == name@
                    && r->0.same_as(&self.recipes_view()[j]),
    {
        let key = name.to_owned();
        match position_of(&self.recipes, &key) {
            Some(i) => Some(self.recipes[i].clone()),
            None => None,
        }
    }

    /// Adds the known recipe named `recipe` to the selection, unless there is no such
    /// recipe or it is already selected.
    pub fn select(&mut self, recipe: String)
        requires
            old(self).wf(),
        ensures
            final(self).wf(),
            final(self).recipes_view() == old(self).recipes_view(),
            !has_name(old(self).recipes_view(), recipe@) || has_name(
                old(self).selected_view(),
                recipe@,
            ) ==> final(self).selected_view() == old(self).selected_view(),
            has_name(old(self).recipes_view(), recipe@) && !has_name(
                old(self).selected_view(),
                recipe@,
            ) ==> {
                &&& final(self).selected_view().len() == old(self).selected_view().len() + 1
                &&& final(self).selected_view().drop_last() == old(self).selected_view()
                &&& exists|j: int|
                    0 <= j < old(self).recipes_view().len()
                        && old(self).recipes_view()[j].name@ == recipe@
                        && final(self).selected_view().last().same_as(&old(self).recipes_view()[j])
            },
    {
        let found = self.recipe_by_name(recipe.as_str());
        let found = match found {
            Some(r) => r,
            None => return,
        };
        if position_of(&self.selected, &recipe).is_some() {
            return ;
        }
        let ghost before = self.selected@;
        self.selected.push(found);
        proof {
            assert(self.selected@.drop_last() =~= before);
            assert forall|i: int, k: int|
                0 <= i < k < self.selected@.len() implies self.selected@[i].name@
                != self.selected@[k].name@ by {
                if k == before.len() {
                    assert(self.selected@[i] == before[i]);
                }
            }
        }
    }

    /// Removes the recipe named `recipe` from the selection, if it is a known recipe
    /// and selected.
    pub fn unselect(&mut self, recipe: String)
        requires
            old(self).wf(),
        ensures
            final(self).wf(),
            final(self).recipes_view() == old(self).recipes_view(),
            !has_name(old(self).recipes_view(), recipe@) || !has_name(
                old(self).selected_view(),
                recipe@,
            ) ==> final(self).selected_view() == old(self).selected_view(),
            has_name(old(self).recipes_view(), recipe@) && has_name(
                old(self).selected_view(),
                recipe@,
            ) ==> exists|k: int|
                0 <= k < old(self).selected_view().len()
                    && old(self).selected_view()[k].name@ == recipe@
                    && final(self).selected_view() == old(self).selected_view().remove(k),
    {
        if position_of(&self.recipes, &recipe).is_none() {
            return ;
        }
        let idx = match position_of(&self.selected, &recipe) {
            Some(i) => i,
            None => return,
        };
        let ghost before = self.selected@;
        self.selected.remove(idx);
        proof {
            assert forall|i: int, k: int|
                0 <= i < k < self.selected@.len() implies self.selected@[i].name@
                != self.selected@[k].name@ by {
                let oi = if i < idx { i } else { i + 1 };
                let ok = if k < idx { k } else { k + 1 };
                assert(self.selected@[i] == before[oi]);
                assert(self.selected@[k] == before[ok]);
            }
        }
    }

    /// The known recipes, in the order they were added.
    pub fn recipes(&self) -> (r: &[Recipe])
        ensures
            r@ == self.recipes_view(),
    {
        self.recipes.as_slice()
    }

    /// The selected recipes, in the order they were selected.
    pub fn selected(&self) -> (r: &[Recipe])
        ensures
            r@ == self.selected_view(),
    {
        self.selected.as_slice()
    }
}

} // verus!
