//! Consolidation of the ingredients of several recipes into one list.
use vstd::prelude::*;

use crate::recipe::{Ingredient, Recipe};
use crate::unit::{converted, converted_unit, fits_i64, Measure, Unit};

verus! {

/// What the list knows of one ingredient: its name, the running total, and the names of
/// the recipes that asked for it, each once, in the order they first did.
pub type EntryModel = (Seq<char>, Measure, Seq<Seq<char>>);

/// Whether merging `inc` into the running total `cur` stays within `i64`.
pub open spec fn merge_fits(cur: Measure, inc: Measure) -> bool {
    if cur.unit.rank() >= inc.unit.rank() {
        &&& fits_i64(converted(inc.quantity as int, inc.unit, cur.unit))
        &&& fits_i64(cur.quantity + converted(inc.quantity as int, inc.unit, cur.unit))
    } else {
        &&& fits_i64(converted(cur.quantity as int, cur.unit, inc.unit))
        &&& fits_i64(converted(cur.quantity as int, cur.unit, inc.unit) + inc.quantity)
    }
}

/// The running total `cur` after `inc` is added to it. Where the total's unit is at least
/// as large as the incoming one, the incoming measure is converted into it; otherwise the
/// total is first converted up into the incoming unit. A `Whole` on either side means no
/// conversion, and the total keeps its unit.
pub open spec fn merged(cur: Measure, inc: Measure) -> Measure {
    if cur.unit.rank() >= inc.unit.rank() {
        Measure {
            quantity: (cur.quantity + converted(inc.quantity as int, inc.unit, cur.unit)) as i64,
            unit: cur.unit,
        }
    } else {
        Measure {
            quantity: (converted(cur.quantity as int, cur.unit, inc.unit) + inc.quantity) as i64,
            unit: converted_unit(cur.unit, inc.unit),
        }
    }
}

/// Merging never moves a running total to a smaller unit; where either side is `Whole`,
/// the quantities are summed as they are and the total keeps its unit.
pub proof fn lemma_merge_unit_never_shrinks(cur: Measure, inc: Measure)
    ensures
        merged(cur, inc).unit.rank() >= cur.unit.rank(),
        cur.unit == Unit::Whole || inc.unit == Unit::Whole ==> merged(cur, inc) == (Measure {
            quantity: (cur.quantity + inc.quantity) as i64,
            unit: cur.unit,
        }),
{
}

/// `names` with `n` added at the end, unless it is there already.
pub open spec fn with_name(names: Seq<Seq<char>>, n: Seq<char>) -> Seq<Seq<char>> {
    if names.contains(n) {
        names
    } else {
        names.push(n)
    }
}

/// Whether some entry is for the ingredient `name`.
pub open spec fn lists(es: Seq<EntryModel>, name: Seq<char>) -> bool {
    exists|i: int| 0 <= i < es.len() && es[i].0 == name
}

/// The entry for `name`, where `lists(es, name)`.
pub open spec fn index_of(es: Seq<EntryModel>, name: Seq<char>) -> int {
    choose|i: int| 0 <= i < es.len() && es[i].0 == name
}

/// The running total that `ing` is merged into: the entry's, or zero in the ingredient's
/// own unit for an ingredient not seen before.
pub open spec fn total_before(es: Seq<EntryModel>, ing: Ingredient) -> Measure {
    if lists(es, ing.name@) {
        es[index_of(es, ing.name@)].1
    } else {
        Measure { quantity: 0, unit: ing.measure.unit }
    }
}

/// The entries after recipe `recipe` contributes `ing`.
pub open spec fn contribute(es: Seq<EntryModel>, recipe: Seq<char>, ing: Ingredient) -> Seq<
    EntryModel,
> {
    let total = merged(total_before(es, ing), ing.measure);
    if lists(es, ing.name@) {
        let i = index_of(es, ing.name@);
        es.update(i, (es[i].0, total, with_name(es[i].2, recipe)))
    } else {
        es.push((ing.name@, total, seq![recipe]))
    }
}

/// The entries after the first `k` ingredients of `r` are contributed to `es`.
pub open spec fn contribute_recipe(es: Seq<EntryModel>, r: Recipe, k: int) -> Seq<EntryModel>
    decreases k,
{
    if k <= 0 {
        es
    } else {
        contribute(contribute_recipe(es, r, k - 1), r.name@, r.ingredients@[k - 1])
    }
}

/// Whether contributing the first `k` ingredients of `r` to `es` stays within `i64`.
pub open spec fn recipe_fits(es: Seq<EntryModel>, r: Recipe, k: int) -> bool
    decreases k,
{
    k <= 0 || (recipe_fits(es, r, k - 1) && merge_fits(
        total_before(contribute_recipe(es, r, k - 1), r.ingredients@[k - 1]),
        r.ingredients@[k - 1].measure,
    ))
}

/// The consolidated entries of a sequence of recipes, taken in order, each ingredient in
/// the order the recipe lists it.
pub open spec fn aggregate(rs: Seq<Recipe>) -> Seq<EntryModel>
    decreases rs.len(),
{
    if rs.len() == 0 {
        seq![]
    } else {
        contribute_recipe(aggregate(rs.drop_last()), rs.last(), rs.last().ingredients@.len() as int)
    }
}

/// Whether every running total of `aggregate(rs)` stays within `i64`.
pub open spec fn aggregate_fits(rs: Seq<Recipe>) -> bool
    decreases rs.len(),
{
    rs.len() == 0 || (aggregate_fits(rs.drop_last()) && recipe_fits(
        aggregate(rs.drop_last()),
        rs.last(),
        rs.last().ingredients@.len() as int,
    ))
}

/// Whether no two entries are for the same ingredient, and no entry names a recipe twice.
pub open spec fn entries_wf(es: Seq<EntryModel>) -> bool {
    &&& forall|i: int, j: int| 0 <= i < j < es.len() ==> es[i].0 != es[j].0
    &&& forall|i: int| 0 <= i < es.len() ==> (#[trigger] es[i]).2.no_duplicates()
}

/// One ingredient of the list: its total and the recipes that asked for it.
pub struct ConsolidatedEntry {
    pub name: String,
    pub measure: Measure,
    pub recipes: Vec<String>,
}

impl ConsolidatedEntry {
    pub open spec fn view(&self) -> EntryModel {
        (self.name@, self.measure, names_view(self.recipes@))
    }
}

/// The consolidated list: one entry per distinct ingredient name, in the order the
/// names were first met (reports list them by name).
pub struct ShoppingList {
    entries: Vec<ConsolidatedEntry>,
}

impl ShoppingList {
    pub closed spec fn view(&self) -> Seq<EntryModel> {
        entries_view(self.entries@)
    }

    /// The entries, in the order their ingredients were first met.
    pub fn entries(&self) -> (r: &[ConsolidatedEntry])
        ensures
            entries_view(r@) == self@,
    {
        self.entries.as_slice()
    }
}

proof fn lemma_contribute_wf(es: Seq<EntryModel>, recipe: Seq<char>, ing: Ingredient)
    requires
        entries_wf(es),
    ensures
        entries_wf(contribute(es, recipe, ing)),
        lists(contribute(es, recipe, ing), ing.name@),
        contribute(es, recipe, ing).len() == es.len() + (if lists(es, ing.name@) {
            0int
        } else {
            1int
        }),
{
    let r = contribute(es, recipe, ing);
    if lists(es, ing.name@) {
        let i = index_of(es, ing.name@);
        assert(r[i].0 == ing.name@);
        assert forall|k: int| 0 <= k < r.len() implies (#[trigger] r[k]).2.no_duplicates() by {
            if k == i {
                if !es[i].2.contains(recipe) {
                    assert forall|a: int, b: int|
                        0 <= a < b < r[k].2.len() implies r[k].2[a] != r[k].2[b] by {
                        if b == es[i].2.len() {
                            assert(es[i].2[a] == r[k].2[a]);
                        }
                    }
                }
            }
        }
    } else {
        let n = es.len() as int;
        assert(r[n].0 == ing.name@);
        assert(r[n].2 =~= seq![recipe]);
        assert forall|k: int| 0 <= k < r.len() implies (#[trigger] r[k]).2.no_duplicates() by {
            if k < n {
                assert(r[k] == es[k]);
            }
        }
    }
}

proof fn lemma_contribute_recipe_wf(es: Seq<EntryModel>, r: Recipe, k: int)
    requires
        entries_wf(es),
    ensures
        entries_wf(contribute_recipe(es, r, k)),
    decreases k,
{
    if k > 0 {
        lemma_contribute_recipe_wf(es, r, k - 1);
        lemma_contribute_wf(contribute_recipe(es, r, k - 1), r.name@, r.ingredients@[k - 1]);
    }
}

/// Every list that the aggregation builds names each ingredient once, and each recipe
/// once within an entry.
pub proof fn lemma_aggregate_wf(rs: Seq<Recipe>)
    ensures
        entries_wf(aggregate(rs)),
    decreases rs.len(),
{
    if rs.len() > 0 {
        lemma_aggregate_wf(rs.drop_last());
        lemma_contribute_recipe_wf(
            aggregate(rs.drop_last()),
            rs.last(),
            rs.last().ingredients@.len() as int,
        );
    }
}

/// Whether some recipe of `rs` lists an ingredient named `n`.
pub open spec fn mentioned(rs: Seq<Recipe>, n: Seq<char>) -> bool {
    exists|k: int, j: int|
        0 <= k < rs.len() && 0 <= j < rs[k].ingredients@.len()
            && #[trigger] rs[k].ingredients@[j].name@ == n
}

/// Whether a recipe of `rs` named `r` lists an ingredient named `n`.
pub open spec fn contributed(rs: Seq<Recipe>, n: Seq<char>, r: Seq<char>) -> bool {
    exists|k: int, j: int|
        0 <= k < rs.len() && 0 <= j < rs[k].ingredients@.len() && rs[k].name@ == r
            && #[trigger] rs[k].ingredients@[j].name@ == n
}

/// The recipe names of the entry for `n`; none where there is no such entry.
pub open spec fn recipes_for(es: Seq<EntryModel>, n: Seq<char>) -> Seq<Seq<char>> {
    if lists(es, n) {
        es[index_of(es, n)].2
    } else {
        seq![]
    }
}

proof fn lemma_index_of_unique(es: Seq<EntryModel>, n: Seq<char>, x: int)
    requires
        entries_wf(es),
        0 <= x < es.len(),
        es[x].0 == n,
    ensures
        lists(es, n),
        index_of(es, n) == x,
{
    let y = index_of(es, n);
    if y != x {
        if y < x {
            assert(es[y].0 != es[x].0);
        } else {
            assert(es[x].0 != es[y].0);
        }
    }
}

proof fn lemma_with_name_contains(names: Seq<Seq<char>>, n: Seq<char>, r: Seq<char>)
    ensures
        with_name(names, n).contains(r) <==> (names.contains(r) || r == n),
{
    if !names.contains(n) {
        let t = names.push(n);
        if t.contains(r) {
            let y = choose|y: int| 0 <= y < t.len() && t[y] == r;
            if y < names.len() {
                assert(names[y] == r);
            }
        }
        if names.contains(r) {
            let y = choose|y: int| 0 <= y < names.len() && names[y] == r;
            assert(t[y] == r);
        }
        assert(t[names.len() as int] == n);
    }
}

proof fn lemma_contribute_provenance(
    es: Seq<EntryModel>,
    rn: Seq<char>,
    ing: Ingredient,
    n: Seq<char>,
    r: Seq<char>,
)
    requires
        entries_wf(es),
    ensures
        lists(contribute(es, rn, ing), n) <==> (lists(es, n) || n == ing.name@),
        recipes_for(contribute(es, rn, ing), n).contains(r) <==> (recipes_for(es, n).contains(r)
            || (n == ing.name@ && r == rn)),
{
    let new = contribute(es, rn, ing);
    lemma_contribute_wf(es, rn, ing);
    if lists(es, ing.name@) {
        let i = index_of(es, ing.name@);
        assert forall|x: int| 0 <= x < es.len() implies (#[trigger] new[x]).0 == es[x].0 by {}
        if lists(es, n) {
            let x = index_of(es, n);
            lemma_index_of_unique(new, n, x);
            if n == ing.name@ {
                assert(x == i);
                assert(new[x].2 == with_name(es[x].2, rn));
                lemma_with_name_contains(es[x].2, rn, r);
            } else {
                lemma_index_of_unique(es, ing.name@, i);
                assert(x != i);
                assert(new[x] == es[x]);
            }
        } else {
            if lists(new, n) {
                let x = index_of(new, n);
                assert(es[x].0 == n);
            }
        }
    } else {
        let m = es.len() as int;
        assert forall|x: int| 0 <= x < es.len() implies (#[trigger] new[x]) == es[x] by {}
        assert(new[m].0 == ing.name@);
        assert(new[m].2 =~= seq![rn]);
        if lists(es, n) {
            let x = index_of(es, n);
            lemma_index_of_unique(new, n, x);
        } else if n == ing.name@ {
            lemma_index_of_unique(new, n, m);
            assert(new[m].2[0] == rn);
            if new[m].2.contains(r) {
                let y = choose|y: int| 0 <= y < new[m].2.len() && new[m].2[y] == r;
                assert(y == 0);
            }
        } else {
            if lists(new, n) {
                let x = index_of(new, n);
                assert(x != m);
                assert(es[x].0 == n);
            }
        }
    }
}

/// Whether one of the first `k` ingredients of `rec` is named `n`.
pub open spec fn lists_among(rec: Recipe, k: int, n: Seq<char>) -> bool {
    exists|j: int| 0 <= j < k && #[trigger] rec.ingredients@[j].name@ == n
}

proof fn lemma_contribute_recipe_provenance(
    es: Seq<EntryModel>,
    rec: Recipe,
    k: int,
    n: Seq<char>,
    r: Seq<char>,
)
    requires
        entries_wf(es),
        0 <= k <= rec.ingredients@.len(),
    ensures
        lists(contribute_recipe(es, rec, k), n) <==> (lists(es, n) || lists_among(rec, k, n)),
        recipes_for(contribute_recipe(es, rec, k), n).contains(r) <==> (recipes_for(
            es,
            n,
        ).contains(r) || (r == rec.name@ && lists_among(rec, k, n))),
    decreases k,
{
    if k > 0 {
        lemma_contribute_recipe_provenance(es, rec, k - 1, n, r);
        lemma_contribute_recipe_wf(es, rec, k - 1);
        let ing = rec.ingredients@[k - 1];
        lemma_contribute_provenance(contribute_recipe(es, rec, k - 1), rec.name@, ing, n, r);
        if lists_among(rec, k, n) && !lists_among(rec, k - 1, n) {
            let j = choose|j: int| 0 <= j < k && #[trigger] rec.ingredients@[j].name@ == n;
            assert(j == k - 1);
        }
        if lists_among(rec, k - 1, n) {
            let j = choose|j: int| 0 <= j < k - 1 && #[trigger] rec.ingredients@[j].name@ == n;
            assert(0 <= j < k && rec.ingredients@[j].name@ == n);
        }
        if ing.name@ == n {
            assert(0 <= k - 1 < k && rec.ingredients@[k - 1].name@ == n);
        }
    } else {
        assert(!lists_among(rec, k, n));
    }
}

proof fn lemma_aggregate_provenance_at(rs: Seq<Recipe>, n: Seq<char>, r: Seq<char>)
    ensures
        lists(aggregate(rs), n) <==> mentioned(rs, n),
        recipes_for(aggregate(rs), n).contains(r) <==> contributed(rs, n, r),
    decreases rs.len(),
{
    if rs.len() > 0 {
        let prev = rs.drop_last();
        let last = rs.last();
        let len = last.ingredients@.len() as int;
        lemma_aggregate_provenance_at(prev, n, r);
        lemma_aggregate_wf(prev);
        lemma_contribute_recipe_provenance(aggregate(prev), last, len, n, r);
        let l = rs.len() - 1;
        if mentioned(rs, n) {
            let (k, j) = choose|k: int, j: int|
                0 <= k < rs.len() && 0 <= j < rs[k].ingredients@.len()
                    && #[trigger] rs[k].ingredients@[j].name@ == n;
            if k < l {
                assert(prev[k] == rs[k]);
                assert(mentioned(prev, n));
            } else {
                assert(lists_among(last, len, n));
            }
        }
        if mentioned(prev, n) {
            let (k, j) = choose|k: int, j: int|
                0 <= k < prev.len() && 0 <= j < prev[k].ingredients@.len()
                    && #[trigger] prev[k].ingredients@[j].name@ == n;
            assert(rs[k] == prev[k]);
            assert(rs[k].ingredients@[j].name@ == n);
        }
        if lists_among(last, len, n) {
            let j = choose|j: int| 0 <= j < len && #[trigger] last.ingredients@[j].name@ == n;
            assert(rs[l].ingredients@[j].name@ == n);
        }
        if contributed(rs, n, r) {
            let (k, j) = choose|k: int, j: int|
                0 <= k < rs.len() && 0 <= j < rs[k].ingredients@.len() && rs[k].name@ == r
                    && #[trigger] rs[k].ingredients@[j].name@ == n;
            if k < l {
                assert(prev[k] == rs[k]);
                assert(contributed(prev, n, r));
            } else {
                assert(lists_among(last, len, n));
            }
        }
        if contributed(prev, n, r) {
            let (k, j) = choose|k: int, j: int|
                0 <= k < prev.len() && 0 <= j < prev[k].ingredients@.len() && prev[k].name@ == r
                    && #[trigger] prev[k].ingredients@[j].name@ == n;
            assert(rs[k] == prev[k]);
            assert(rs[k].ingredients@[j].name@ == n);
        }
        if r == last.name@ && lists_among(last, len, n) {
            let j = choose|j: int| 0 <= j < len && #[trigger] last.ingredients@[j].name@ == n;
            assert(rs[l].ingredients@[j].name@ == n);
        }
    } else {
        assert(aggregate(rs) =~= Seq::<EntryModel>::empty());
    }
}

/// Each ingredient named in any of the recipes has an entry, and no other name has one;
/// the entry for an ingredient names exactly the recipes that list it.
pub proof fn lemma_aggregate_provenance(rs: Seq<Recipe>)
    ensures
        forall|n: Seq<char>| lists(aggregate(rs), n) <==> mentioned(rs, n),
        forall|n: Seq<char>, r: Seq<char>|
            #[trigger] recipes_for(aggregate(rs), n).contains(r) <==> contributed(rs, n, r),
{
    assert forall|n: Seq<char>| lists(aggregate(rs), n) <==> mentioned(rs, n) by {
        lemma_aggregate_provenance_at(rs, n, seq![]);
    }
    assert forall|n: Seq<char>, r: Seq<char>|
        #[trigger] recipes_for(aggregate(rs), n).contains(r) <==> contributed(rs, n, r) by {
        lemma_aggregate_provenance_at(rs, n, r);
    }
}

/// The sum of the quantities of the ingredients named `n` among the first `k` of `r`.
pub open spec fn recipe_quantity(r: Recipe, k: int, n: Seq<char>) -> int
    decreases k,
{
    if k <= 0 {
        0
    } else {
        recipe_quantity(r, k - 1, n) + if r.ingredients@[k - 1].name@ == n {
            r.ingredients@[k - 1].measure.quantity as int
        } else {
            0
        }
    }
}

/// The sum of the quantities of all ingredients named `n` in `rs`, as they are written.
pub open spec fn total_quantity(rs: Seq<Recipe>, n: Seq<char>) -> int
    decreases rs.len(),
{
    if rs.len() == 0 {
        0
    } else {
        total_quantity(rs.drop_last(), n) + recipe_quantity(
            rs.last(),
            rs.last().ingredients@.len() as int,
            n,
        )
    }
}

/// Whether every ingredient of `rs` named `n` is measured in `Whole`.
pub open spec fn only_whole(rs: Seq<Recipe>, n: Seq<char>) -> bool {
    forall|k: int, j: int|
        0 <= k < rs.len() && 0 <= j < rs[k].ingredients@.len()
            && #[trigger] rs[k].ingredients@[j].name@ == n
            ==> rs[k].ingredients@[j].measure.unit == Unit::Whole
}

/// Whether the entries hold `total` of `n` in `Whole` (none where `total` is zero).
pub open spec fn holds_whole(es: Seq<EntryModel>, n: Seq<char>, total: int) -> bool {
    &&& lists(es, n) ==> es[index_of(es, n)].1 == (Measure {
        quantity: total as i64,
        unit: Unit::Whole,
    }) && fits_i64(total)
    &&& !lists(es, n) ==> total == 0
}

proof fn lemma_contribute_whole(
    es: Seq<EntryModel>,
    rn: Seq<char>,
    ing: Ingredient,
    n: Seq<char>,
    total: int,
)
    requires
        entries_wf(es),
        holds_whole(es, n, total),
        ing.name@ == n ==> ing.measure.unit == Unit::Whole,
        merge_fits(total_before(es, ing), ing.measure),
    ensures
        holds_whole(contribute(es, rn, ing), n, total + if ing.name@ == n {
            ing.measure.quantity as int
        } else {
            0
        }),
{
    let new = contribute(es, rn, ing);
    lemma_contribute_wf(es, rn, ing);
    let cur = total_before(es, ing);
    lemma_merge_unit_never_shrinks(cur, ing.measure);
    if ing.name@ == n {
        if lists(es, n) {
            let i = index_of(es, n);
            lemma_index_of_unique(new, n, i);
        } else {
            lemma_index_of_unique(new, n, es.len() as int);
        }
    } else {
        if lists(es, n) {
            let x = index_of(es, n);
            if lists(es, ing.name@) {
                let i = index_of(es, ing.name@);
                assert(x != i);
            }
            assert(new[x] == es[x]);
            lemma_index_of_unique(new, n, x);
        } else if lists(new, n) {
            let x = index_of(new, n);
            if x < es.len() {
                if lists(es, ing.name@) {
                    let i = index_of(es, ing.name@);
                    if x == i {
                        assert(new[x].0 == es[x].0);
                    } else {
                        assert(new[x] == es[x]);
                    }
                } else {
                    assert(new[x] == es[x]);
                }
            }
        }
    }
}

proof fn lemma_contribute_recipe_whole(
    es: Seq<EntryModel>,
    rec: Recipe,
    k: int,
    n: Seq<char>,
    total: int,
)
    requires
        entries_wf(es),
        holds_whole(es, n, total),
        0 <= k <= rec.ingredients@.len(),
        forall|j: int|
            0 <= j < k && #[trigger] rec.ingredients@[j].name@ == n
                ==> rec.ingredients@[j].measure.unit == Unit::Whole,
        recipe_fits(es, rec, k),
    ensures
        holds_whole(contribute_recipe(es, rec, k), n, total + recipe_quantity(rec, k, n)),
    decreases k,
{
    if k > 0 {
        lemma_contribute_recipe_whole(es, rec, k - 1, n, total);
        lemma_contribute_recipe_wf(es, rec, k - 1);
        let ing = rec.ingredients@[k - 1];
        lemma_contribute_whole(
            contribute_recipe(es, rec, k - 1),
            rec.name@,
            ing,
            n,
            total + recipe_quantity(rec, k - 1, n),
        );
    }
}

proof fn lemma_aggregate_whole(rs: Seq<Recipe>, n: Seq<char>)
    requires
        only_whole(rs, n),
        aggregate_fits(rs),
    ensures
        holds_whole(aggregate(rs), n, total_quantity(rs, n)),
    decreases rs.len(),
{
    if rs.len() > 0 {
        let p = rs.drop_last();
        let last = rs.last();
        assert(only_whole(p, n)) by {
            assert forall|k: int, j: int|
                0 <= k < p.len() && 0 <= j < p[k].ingredients@.len()
                    && #[trigger] p[k].ingredients@[j].name@ == n
                    implies p[k].ingredients@[j].measure.unit == Unit::Whole by {
                assert(p[k] == rs[k]);
                assert(rs[k].ingredients@[j].name@ == n);
            }
        }
        lemma_aggregate_whole(p, n);
        lemma_aggregate_wf(p);
        assert forall|j: int|
            0 <= j < last.ingredients@.len() && #[trigger] last.ingredients@[j].name@ == n
                implies last.ingredients@[j].measure.unit == Unit::Whole by {
            assert(rs[rs.len() - 1] == last);
            assert(rs[rs.len() - 1].ingredients@[j].name@ == n);
        }
        lemma_contribute_recipe_whole(
            aggregate(p),
            last,
            last.ingredients@.len() as int,
            n,
            total_quantity(p, n),
        );
    } else {
        assert(!lists(aggregate(rs), n));
    }
}

/// An ingredient measured only in `Whole` is never converted: its entry holds the sum of
/// the quantities as the recipes write them, in `Whole`.
pub proof fn lemma_whole_totals(rs: Seq<Recipe>, n: Seq<char>)
    requires
        only_whole(rs, n),
        mentioned(rs, n),
        aggregate_fits(rs),
    ensures
        lists(aggregate(rs), n),
        fits_i64(total_quantity(rs, n)),
        aggregate(rs)[index_of(aggregate(rs), n)].1 == (Measure {
            quantity: total_quantity(rs, n) as i64,
            unit: Unit::Whole,
        }),
{
    lemma_aggregate_provenance_at(rs, n, seq![]);
    lemma_aggregate_whole(rs, n);
}

proof fn lemma_recipe_fits_prefix(es: Seq<EntryModel>, r: Recipe, j: int, k: int)
    requires
        j <= k,
        recipe_fits(es, r, k),
    ensures
        recipe_fits(es, r, j),
    decreases k - j,
{
    if j < k {
        lemma_recipe_fits_prefix(es, r, j, k - 1);
    }
}

proof fn lemma_aggregate_fits_prefix(rs: Seq<Recipe>, i: int)
    requires
        0 <= i <= rs.len(),
        aggregate_fits(rs),
    ensures
        aggregate_fits(rs.take(i)),
    decreases rs.len() - i,
{
    if i < rs.len() {
        assert(rs.drop_last().take(i) =~= rs.take(i));
        lemma_aggregate_fits_prefix(rs.drop_last(), i);
    } else {
        assert(rs.take(i) =~= rs);
    }
}

/// The running total after `inc` is merged into `cur`, or `None` where it would not fit.
fn merge(cur: Measure, inc: Measure) -> (r: Option<Measure>)
    ensures
        r is Some <==> merge_fits(cur, inc),
        r is Some ==> r->0 == merged(cur, inc),
{
    if cur.unit.order() >= inc.unit.order() {
        let c = match inc.checked_convert_to(cur.unit) {
            Some(c) => c,
            None => return None,
        };
        match cur.quantity.checked_add(c.quantity) {
            Some(q) => Some(Measure { quantity: q, unit: cur.unit }),
            None => None,
        }
    } else {
        let c = match cur.checked_convert_to(inc.unit) {
            Some(c) => c,
            None => return None,
        };
        match c.quantity.checked_add(inc.quantity) {
            Some(q) => Some(Measure { quantity: q, unit: c.unit }),
            None => None,
        }
    }
}


pub open spec fn names_view(names: Seq<String>) -> Seq<Seq<char>> {
    names.map_values(|s: String| s@)
}

pub open spec fn entries_view(es: Seq<ConsolidatedEntry>) -> Seq<EntryModel> {
    es.map_values(|e: ConsolidatedEntry| e.view())
}

/// The position of the entry for `name`, if there is one.
fn find_entry(entries: &Vec<ConsolidatedEntry>, name: &String) -> (r: Option<usize>)
    ensures
        r is Some <==> lists(entries_view(entries@), name@),
        r is Some ==> r->0 < entries@.len() && entries@[r->0 as int].name@ == name@,
{
    let mut i: usize = 0;
    while i < entries.len()
        invariant
            i <= entries@.len(),
            forall|k: int| 0 <= k < i ==> entries@[k].name@ != name@,
        decreases entries@.len() - i,
    {
        if entries[i].name == *name {
            proof {
                assert(entries_view(entries@)[i as int].0 == name@);
            }
            return Some(i);
        }
        i = i + 1;
    }
    proof {
        assert forall|k: int| 0 <= k < entries@.len() implies entries_view(entries@)[k].0
            != name@ by {
            assert(entries_view(entries@)[k] == entries@[k].view());
        }
    }
    None
}

/// Whether `names` holds `n`.
pub(crate) fn holds_name(names: &Vec<String>, n: &String) -> (r: bool)
    ensures
        r == names_view(names@).contains(n@),
{
    let mut i: usize = 0;
    while i < names.len()
        invariant
            i <= names@.len(),
            forall|k: int| 0 <= k < i ==> names@[k]@ != n@,
        decreases names@.len() - i,
    {
        if names[i] == *n {
            proof {
                assert(names_view(names@)[i as int] == n@);
            }
            return true;
        }
        i = i + 1;
    }
    proof {
        if names_view(names@).contains(n@) {
            let k = choose|k: int| 0 <= k < names_view(names@).len() && names_view(names@)[k] == n@;
            assert(names@[k]@ == n@);
        }
    }
    false
}

/// A copy of a list of names.
pub(crate) fn copy_names(names: &Vec<String>) -> (r: Vec<String>)
    ensures
        names_view(r@) == names_view(names@),
{
    let mut r: Vec<String> = Vec::new();
    let mut i: usize = 0;
    while i < names.len()
        invariant
            i <= names@.len(),
            names_view(r@) == names_view(names@.take(i as int)),
        decreases names@.len() - i,
    {
        let ghost prev = r@;
        let c = names[i].clone();
        r.push(c);
        proof {
            assert(names@.take(i + 1) =~= names@.take(i as int).push(names@[i as int]));
            assert(r@ =~= prev.push(names@[i as int]));
            assert(names_view(r@) =~= names_view(prev).push(names@[i as int]@));
            assert(names_view(r@) =~= names_view(names@.take(i + 1)));
        }
        i = i + 1;
    }
    proof {
        assert(names@.take(i as int) =~= names@);
    }
    r
}

/// Consolidates the ingredients of `list`, recipe by recipe and each recipe's ingredients
/// in order: each distinct ingredient name gets one entry holding its total and the
/// names of the recipes that asked for it. `None` where some running total would not
/// fit in an `i64`.
pub fn generate_list(list: &[Recipe]) -> (r: Option<ShoppingList>)
    ensures
        r is Some <==> aggregate_fits(list@),
        r is Some ==> r->0@ == aggregate(list@),
        r is Some ==> entries_wf(r->0@),
{
    let mut entries: Vec<ConsolidatedEntry> = Vec::new();
    let mut i: usize = 0;
    proof {
        assert(list@.take(0) =~= Seq::<Recipe>::empty());
        assert(entries_view(entries@) =~= aggregate(list@.take(0)));
    }
    while i < list.len()
        invariant
            i <= list@.len(),
            entries_view(entries@) == aggregate(list@.take(i as int)),
            aggregate_fits(list@.take(i as int)),
        decreases list@.len() - i,
    {
        let recipe = &list[i];
        let ghost before = entries_view(entries@);
        proof {
            lemma_aggregate_wf(list@.take(i as int));
            assert(list@.take(i + 1).drop_last() =~= list@.take(i as int));
            assert(list@.take(i + 1).last() == *recipe);
        }
        let mut j: usize = 0;
        while j < recipe.ingredients.len()
            invariant
                i < list@.len(),
                *recipe == list@[i as int],
                before == aggregate(list@.take(i as int)),
                entries_wf(before),
                j <= recipe.ingredients@.len(),
                entries_view(entries@) == contribute_recipe(before, *recipe, j as int),
                recipe_fits(before, *recipe, j as int),
                aggregate_fits(list@.take(i as int)),
            decreases recipe.ingredients@.len() - j,
        {
            let ing = &recipe.ingredients[j];
            let ghost es = entries_view(entries@);
            proof {
                lemma_contribute_recipe_wf(before, *recipe, j as int);
                lemma_contribute_wf(es, recipe.name@, *ing);
            }
            let idx = find_entry(&entries, &ing.name);
            let cur = match idx {
                Some(k) => entries[k].measure,
                None => Measure::new(ing.measure.unit),
            };
            proof {
                if idx is Some {
                    let k = idx->0 as int;
                    assert(es[k].0 == ing.name@);
                    assert(index_of(es, ing.name@) == k);
                }
            }
            let total = match merge(cur, ing.measure) {
                Some(t) => t,
                None => {
                    proof {
                        assert(!recipe_fits(before, *recipe, j + 1));
                        if recipe_fits(before, *recipe, recipe.ingredients@.len() as int) {
                            lemma_recipe_fits_prefix(
                                before,
                                *recipe,
                                j + 1,
                                recipe.ingredients@.len() as int,
                            );
                        }
                        assert(list@.take(i + 1).drop_last() =~= list@.take(i as int));
                        assert(list@.take(i + 1).last() == *recipe);
                        assert(!aggregate_fits(list@.take(i + 1)));
                        if aggregate_fits(list@) {
                            lemma_aggregate_fits_prefix(list@, i + 1);
                        }
                    }
                    return None;
                },
            };
            match idx {
                Some(k) => {
                    let mut names = copy_names(&entries[k].recipes);
                    let ghost old_names = names_view(names@);
                    if !holds_name(&names, &recipe.name) {
                        names.push(recipe.name.clone());
                        proof {
                            assert(names_view(names@) =~= old_names.push(recipe.name@));
                        }
                    }
                    let entry = ConsolidatedEntry {
                        name: entries[k].name.clone(),
                        measure: total,
                        recipes: names,
                    };
                    entries.set(k, entry);
                },
                None => {
                    let mut names: Vec<String> = Vec::new();
                    names.push(recipe.name.clone());
                    proof {
                        assert(names_view(names@) =~= seq![recipe.name@]);
                    }
                    let entry = ConsolidatedEntry {
                        name: ing.name.clone(),
                        measure: total,
                        recipes: names,
                    };
                    entries.push(entry);
                },
            }
            proof {
                assert(entries_view(entries@) =~= contribute(es, recipe.name@, *ing));
            }
            j = j + 1;
        }
        proof {
            assert(recipe.ingredients@.len() == j);
        }
        i = i + 1;
    }
    proof {
        assert(list@.take(i as int) =~= list@);
        lemma_aggregate_wf(list@);
    }
    Some(ShoppingList { entries })
}

} // verus!
