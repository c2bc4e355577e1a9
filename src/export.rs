//! The shopping list as a text report, in one of two layouts.
use vstd::prelude::*;
use vstd::string::*;

use crate::format::{amount, amount_string};
use crate::order::{
    char_lt, chars_of, key_views, keyed, lemma_sort_keyed_permutes, sort_keyed, sort_order, Keyed,
};
use crate::report::{framed, joined, Report};
use crate::shopping_list::{
    copy_names, entries_view, entries_wf, holds_name, names_view, with_name, ConsolidatedEntry,
    EntryModel, ShoppingList,
};

verus! {

/// The layout of a report.
#[derive(Clone, Copy, Debug, PartialEq, Eq, Structural)]
pub enum ExportFormat {
    /// Boxed, with a checkbox line and an amount line per ingredient.
    Print,
    /// Unboxed, one `name: amount` line per ingredient.
    Notes,
}

/// `names` with each of `more` added in turn, unless already there.
pub open spec fn with_names(names: Seq<Seq<char>>, more: Seq<Seq<char>>) -> Seq<Seq<char>>
    decreases more.len(),
{
    if more.len() == 0 {
        names
    } else {
        with_name(with_names(names, more.drop_last()), more.last())
    }
}

/// The names of all recipes that contributed to the entries, each once, in the order
/// they first appear.
pub open spec fn all_recipes(es: Seq<EntryModel>) -> Seq<Seq<char>>
    decreases es.len(),
{
    if es.len() == 0 {
        seq![]
    } else {
        with_names(all_recipes(es.drop_last()), es.last().2)
    }
}

/// Two checklist lines per entry: the name, then the amount.
pub open spec fn item_lines(es: Seq<EntryModel>) -> Seq<Seq<char>>
    decreases es.len(),
{
    if es.len() == 0 {
        seq![]
    } else {
        item_lines(es.drop_last()) + seq!["[_] "@ + es.last().0, "    * "@ + amount(es.last().1)]
    }
}

/// One `name: amount` line per entry.
pub open spec fn note_lines(es: Seq<EntryModel>) -> Seq<Seq<char>>
    decreases es.len(),
{
    if es.len() == 0 {
        seq![]
    } else {
        note_lines(es.drop_last()).push(es.last().0 + ": "@ + amount(es.last().1))
    }
}

/// One bullet line per recipe name.
pub open spec fn recipe_lines(rs: Seq<Seq<char>>) -> Seq<Seq<char>> {
    Seq::new(rs.len(), |i: int| " - "@ + rs[i])
}

/// Each line with `p` in front.
pub open spec fn prefixed(p: Seq<char>, lines: Seq<Seq<char>>) -> Seq<Seq<char>> {
    Seq::new(lines.len(), |i: int| p + lines[i])
}

/// The lines of the boxed layout before framing (rule lines are empty here).
pub open spec fn print_lines(es: Seq<EntryModel>, rs: Seq<Seq<char>>) -> Seq<Seq<char>> {
    seq![seq![], "My Shopping List"@, seq![]] + item_lines(es) + seq![seq![], "Recipes:"@]
        + recipe_lines(rs) + seq![seq![]]
}

/// The positions of the rule lines of the boxed layout: around the title, after the
/// items, and at the end.
pub open spec fn print_rules(n: nat, m: nat) -> Seq<usize> {
    seq![0usize, 2usize, (3 + 2 * n) as usize, (5 + 2 * n + m) as usize]
}

/// The lines of the plain layout before framing: a rule after the title, a blank line
/// before the recipes.
pub open spec fn notes_lines(es: Seq<EntryModel>, rs: Seq<Seq<char>>) -> Seq<Seq<char>> {
    seq!["My Shopping List"@, seq![]] + note_lines(es) + seq![seq![], "Recipes:"@] + recipe_lines(
        rs,
    )
}

/// The ingredient names of the entries, in list order.
pub open spec fn entry_names(es: Seq<EntryModel>) -> Seq<Seq<char>> {
    es.map_values(|e: EntryModel| e.0)
}

/// The entries ordered by ingredient name, ascending over characters.
pub open spec fn sorted_entries(es: Seq<EntryModel>) -> Seq<EntryModel> {
    sort_keyed(keyed(entry_names(es))).map_values(|p: Keyed| es[p.1])
}

/// The names in ascending order over characters.
pub open spec fn sorted_names(ns: Seq<Seq<char>>) -> Seq<Seq<char>> {
    sort_keyed(keyed(ns)).map_values(|p: Keyed| p.0)
}

/// The finished lines of a report on `es` in `format`: the ingredients ordered by name,
/// then the names of all contributing recipes, each once, ordered by name.
pub open spec fn report_lines(es: Seq<EntryModel>, format: ExportFormat) -> Seq<Seq<char>> {
    let items = sorted_entries(es);
    let rs = sorted_names(all_recipes(es));
    let (text, rules, bordered) = match format {
        ExportFormat::Print => (
            prefixed(seq!['|', ' '], print_lines(items, rs)),
            print_rules(items.len(), rs.len()),
            true,
        ),
        ExportFormat::Notes => (notes_lines(items, rs), seq![1usize], false),
    };
    Seq::new(
        text.len(),
        |i: int| framed(text, rules, bordered, seq!['|'], seq!['-'], seq!['+'], i),
    )
}

/// A copy of an entry.
fn copy_entry(e: &ConsolidatedEntry) -> (r: ConsolidatedEntry)
    ensures
        r.view() == e.view(),
{
    ConsolidatedEntry { name: e.name.clone(), measure: e.measure, recipes: copy_names(&e.recipes) }
}

/// The characters of each name.
fn name_keys(names: &Vec<String>) -> (r: Vec<Vec<char>>)
    ensures
        key_views(r@) == names_view(names@),
{
    let mut r: Vec<Vec<char>> = Vec::new();
    let mut i: usize = 0;
    while i < names.len()
        invariant
            i <= names@.len(),
            key_views(r@) == names_view(names@).take(i as int),
        decreases names@.len() - i,
    {
        let ghost prev = r@;
        r.push(chars_of(names[i].as_str()));
        proof {
            assert(key_views(r@) =~= key_views(prev).push(names@[i as int]@));
            assert(names_view(names@).take(i + 1) =~= names_view(names@).take(i as int).push(
                names@[i as int]@,
            ));
        }
        i = i + 1;
    }
    proof {
        assert(names_view(names@).take(i as int) =~= names_view(names@));
    }
    r
}

/// The names in ascending order over characters.
fn sort_names(names: &Vec<String>) -> (r: Vec<String>)
    ensures
        names_view(r@) == sorted_names(names_view(names@)),
{
    let keys = name_keys(names);
    let order = sort_order(&keys);
    let ghost target = sort_keyed(keyed(names_view(names@)));
    let mut r: Vec<String> = Vec::new();
    let mut t: usize = 0;
    while t < order.len()
        invariant
            key_views(keys@) == names_view(names@),
            order@.len() == keys@.len() == names@.len(),
            target == sort_keyed(keyed(key_views(keys@))),
            target.len() == order@.len(),
            forall|u: int|
                0 <= u < order@.len() ==> #[trigger] order@[u] < keys@.len() && (
                keys@[order@[u] as int]@,
                order@[u] as int,
            ) == target[u],
            t <= order@.len(),
            names_view(r@) == sorted_names(names_view(names@)).take(t as int),
        decreases order@.len() - t,
    {
        let ghost prev = r@;
        let j = order[t];
        assert(j < names@.len());
        r.push(names[j].clone());
        proof {
            assert(target[t as int].0 == keys@[j as int]@);
            assert(keys@[j as int]@ == key_views(keys@)[j as int]);
            assert(names_view(r@) =~= names_view(prev).push(names@[j as int]@));
            assert(sorted_names(names_view(names@)).take(t + 1) =~= sorted_names(
                names_view(names@),
            ).take(t as int).push(target[t as int].0));
        }
        t = t + 1;
    }
    proof {
        lemma_sort_keyed_permutes(names_view(names@));
        assert(sorted_names(names_view(names@)).take(t as int) =~= sorted_names(
            names_view(names@),
        ));
    }
    r
}

/// The entries ordered by ingredient name, ascending over characters.
fn sort_entries(entries: &[ConsolidatedEntry]) -> (r: Vec<ConsolidatedEntry>)
    ensures
        entries_view(r@) == sorted_entries(entries_view(entries@)),
{
    let ghost es = entries_view(entries@);
    let mut names: Vec<String> = Vec::new();
    let mut i: usize = 0;
    while i < entries.len()
        invariant
            es == entries_view(entries@),
            i <= entries@.len(),
            names_view(names@) == entry_names(es).take(i as int),
        decreases entries@.len() - i,
    {
        let ghost prev = names@;
        names.push(entries[i].name.clone());
        proof {
            assert(names_view(names@) =~= names_view(prev).push(entries@[i as int].name@));
            assert(entry_names(es).take(i + 1) =~= entry_names(es).take(i as int).push(
                es[i as int].0,
            ));
        }
        i = i + 1;
    }
    proof {
        assert(entry_names(es).take(i as int) =~= entry_names(es));
    }
    let keys = name_keys(&names);
    let order = sort_order(&keys);
    let ghost target = sort_keyed(keyed(entry_names(es)));
    proof {
        lemma_sort_keyed_permutes(entry_names(es));
    }
    let mut r: Vec<ConsolidatedEntry> = Vec::new();
    let mut t: usize = 0;
    while t < order.len()
        invariant
            es == entries_view(entries@),
            key_views(keys@) == entry_names(es),
            order@.len() == keys@.len() == entries@.len(),
            target == sort_keyed(keyed(key_views(keys@))),
            target.len() == order@.len(),
            forall|u: int|
                0 <= u < order@.len() ==> #[trigger] order@[u] < keys@.len() && (
                keys@[order@[u] as int]@,
                order@[u] as int,
            ) == target[u],
            t <= order@.len(),
            entries_view(r@) == sorted_entries(es).take(t as int),
        decreases order@.len() - t,
    {
        let ghost prev = r@;
        let j = order[t];
        r.push(copy_entry(&entries[j]));
        proof {
            assert(target[t as int].1 == j);
            assert(entries_view(r@) =~= entries_view(prev).push(es[j as int]));
            assert(sorted_entries(es).take(t + 1) =~= sorted_entries(es).take(t as int).push(
                es[target[t as int].1],
            ));
        }
        t = t + 1;
    }
    proof {
        assert(sorted_entries(es).take(t as int) =~= sorted_entries(es));
    }
    r
}

impl ShoppingList {
    /// The names of all recipes that contributed to the list, each once, in the order
    /// they first appear going through the entries.
    pub fn recipe_names(&self) -> (r: Vec<String>)
        ensures
            names_view(r@) == all_recipes(self@),
    {
        let entries = self.entries();
        let ghost es = entries_view(entries@);
        let mut r: Vec<String> = Vec::new();
        let mut i: usize = 0;
        proof {
            assert(es.take(0) =~= Seq::<EntryModel>::empty());
            assert(names_view(r@) =~= Seq::<Seq<char>>::empty());
        }
        while i < entries.len()
            invariant
                es == entries_view(entries@),
                es == self@,
                i <= entries@.len(),
                names_view(r@) == all_recipes(es.take(i as int)),
            decreases entries@.len() - i,
        {
            let e: &ConsolidatedEntry = &entries[i];
            let ghost base = names_view(r@);
            let ghost more = names_view(e.recipes@);
            proof {
                assert(es.take(i + 1).drop_last() =~= es.take(i as int));
                assert(es.take(i + 1).last() == e.view());
                assert(more.take(0) =~= Seq::<Seq<char>>::empty());
            }
            let mut j: usize = 0;
            while j < e.recipes.len()
                invariant
                    more == names_view(e.recipes@),
                    j <= e.recipes@.len(),
                    names_view(r@) == with_names(base, more.take(j as int)),
                decreases e.recipes@.len() - j,
            {
                let name = &e.recipes[j];
                proof {
                    assert(more.take(j + 1).drop_last() =~= more.take(j as int));
                    assert(more.take(j + 1).last() == name@);
                }
                if !holds_name(&r, name) {
                    let ghost prev = r@;
                    r.push(name.clone());
                    proof {
                        assert(names_view(r@) =~= names_view(prev).push(name@));
                    }
                }
                j = j + 1;
            }
            proof {
                assert(more.take(j as int) =~= more);
            }
            i = i + 1;
        }
        proof {
            assert(es.take(i as int) =~= es);
        }
        r
    }

    /// The boxed layout, before framing.
    fn print_report(entries: &[ConsolidatedEntry], recipes: &Vec<String>) -> (r: Report)
        ensures
            r.wf(),
            r.bordered(),
            r.right() == seq!['|'],
            r.fill() == seq!['-'],
            r.corner() == seq!['+'],
            r.text() == prefixed(
                seq!['|', ' '],
                print_lines(entries_view(entries@), names_view(recipes@)),
            ),
            r.rules() == print_rules(entries@.len(), recipes@.len()),
    {
        let ghost es = entries_view(entries@);
        let ghost rs = names_view(recipes@);
        let ghost p = seq!['|', ' '];
        let ghost head = seq![seq![], "My Shopping List"@, seq![]];
        let mut report = Report::default();
        report.line();
        report.w("My Shopping List");
        report.line();
        proof {
            assert(report.prefix() =~= p);
            assert(es.take(0) =~= Seq::<EntryModel>::empty());
            assert(p + ""@ =~= p) by {
                reveal_strlit("");
            }
            assert(report.text() =~= prefixed(p, head + item_lines(es.take(0))));
            assert(report.rules() =~= seq![0usize, 2usize]);
        }
        let mut i: usize = 0;
        while i < entries.len()
            invariant
                es == entries_view(entries@),
                i <= entries@.len(),
                report.wf(),
                report.bordered(),
                report.prefix() == p,
                report.right() == seq!['|'],
                report.fill() == seq!['-'],
                report.corner() == seq!['+'],
                report.text() == prefixed(p, head + item_lines(es.take(i as int))),
                report.rules() == seq![0usize, 2usize],
            decreases entries@.len() - i,
        {
            let e = &entries[i];
            let mut a = String::new();
            a.append("[_] ");
            a.append(e.name.as_str());
            report.w(a.as_str());
            let mut b = String::new();
            b.append("    * ");
            let am = amount_string(&e.measure);
            b.append(am.as_str());
            report.w(b.as_str());
            proof {
                assert(es.take(i + 1).drop_last() =~= es.take(i as int));
                assert(es.take(i + 1).last() == e.view());
                assert(report.text() =~= prefixed(p, head + item_lines(es.take(i + 1))));
            }
            i = i + 1;
        }
        proof {
            assert(es.take(i as int) =~= es);
            lemma_item_lines_len(es);
        }
        let ghost mid = head + item_lines(es) + seq![seq![], "Recipes:"@];
        report.line();
        report.w("Recipes:");
        proof {
            assert(p + ""@ =~= p) by {
                reveal_strlit("");
            }
            assert(rs.take(0) =~= Seq::<Seq<char>>::empty());
            assert(report.text() =~= prefixed(p, mid + recipe_lines(rs.take(0))));
        }
        let mut j: usize = 0;
        while j < recipes.len()
            invariant
                rs == names_view(recipes@),
                j <= recipes@.len(),
                report.wf(),
                report.bordered(),
                report.prefix() == p,
                report.right() == seq!['|'],
                report.fill() == seq!['-'],
                report.corner() == seq!['+'],
                report.text() == prefixed(p, mid + recipe_lines(rs.take(j as int))),
                report.rules() == seq![0usize, 2usize, (3 + 2 * es.len()) as usize],
            decreases recipes@.len() - j,
        {
            let mut c = String::new();
            c.append(" - ");
            c.append(recipes[j].as_str());
            report.w(c.as_str());
            proof {
                assert(recipe_lines(rs.take(j + 1)) =~= recipe_lines(rs.take(j as int)).push(
                    " - "@ + recipes@[j as int]@,
                ));
                assert(report.text() =~= prefixed(p, mid + recipe_lines(rs.take(j + 1))));
            }
            j = j + 1;
        }
        proof {
            assert(rs.take(j as int) =~= rs);
        }
        report.line();
        proof {
            assert(p + ""@ =~= p) by {
                reveal_strlit("");
            }
            assert(report.text() =~= prefixed(p, print_lines(es, rs)));
            assert(report.rules() =~= print_rules(es.len(), recipes@.len()));
        }
        report
    }

    /// The plain layout, before framing.
    fn notes_report(entries: &[ConsolidatedEntry], recipes: &Vec<String>) -> (r: Report)
        ensures
            r.wf(),
            !r.bordered(),
            r.fill() == seq!['-'],
            r.corner() == seq!['+'],
            r.text() == notes_lines(entries_view(entries@), names_view(recipes@)),
            r.rules() == seq![1usize],
    {
        let ghost es = entries_view(entries@);
        let ghost rs = names_view(recipes@);
        let ghost head = seq!["My Shopping List"@, seq![]];
        let mut report = Report::plain_report();
        report.w("My Shopping List");
        report.line();
        proof {
            assert(report.prefix() =~= Seq::<char>::empty());
            assert(es.take(0) =~= Seq::<EntryModel>::empty());
            assert(Seq::<char>::empty() + "My Shopping List"@ =~= "My Shopping List"@);
            assert(report.text() =~= head + note_lines(es.take(0)));
            assert(report.rules() =~= seq![1usize]);
        }
        let mut i: usize = 0;
        while i < entries.len()
            invariant
                es == entries_view(entries@),
                i <= entries@.len(),
                report.wf(),
                !report.bordered(),
                report.fill() == seq!['-'],
                report.corner() == seq!['+'],
                report.text() == head + note_lines(es.take(i as int)),
                report.rules() == seq![1usize],
            decreases entries@.len() - i,
        {
            let e = &entries[i];
            let mut a = String::new();
            a.append(e.name.as_str());
            a.append(": ");
            let am = amount_string(&e.measure);
            a.append(am.as_str());
            report.w(a.as_str());
            proof {
                assert(es.take(i + 1).drop_last() =~= es.take(i as int));
                assert(es.take(i + 1).last() == e.view());
                assert(Seq::<char>::empty() + a@ =~= a@);
                assert(report.text() =~= head + note_lines(es.take(i + 1)));
            }
            i = i + 1;
        }
        proof {
            assert(es.take(i as int) =~= es);
        }
        let ghost mid = head + note_lines(es) + seq![seq![], "Recipes:"@];
        report.w("");
        report.w("Recipes:");
        proof {
            reveal_strlit("");
            assert(Seq::<char>::empty() + ""@ =~= Seq::<char>::empty());
            assert(Seq::<char>::empty() + "Recipes:"@ =~= "Recipes:"@);
            assert(rs.take(0) =~= Seq::<Seq<char>>::empty());
            assert(report.text() =~= mid + recipe_lines(rs.take(0)));
        }
        let mut j: usize = 0;
        while j < recipes.len()
            invariant
                rs == names_view(recipes@),
                j <= recipes@.len(),
                report.wf(),
                !report.bordered(),
                report.fill() == seq!['-'],
                report.corner() == seq!['+'],
                report.text() == mid + recipe_lines(rs.take(j as int)),
                report.rules() == seq![1usize],
            decreases recipes@.len() - j,
        {
            let mut c = String::new();
            c.append(" - ");
            c.append(recipes[j].as_str());
            report.w(c.as_str());
            proof {
                assert(Seq::<char>::empty() + c@ =~= c@);
                assert(recipe_lines(rs.take(j + 1)) =~= recipe_lines(rs.take(j as int)).push(
                    " - "@ + recipes@[j as int]@,
                ));
                assert(report.text() =~= mid + recipe_lines(rs.take(j + 1)));
            }
            j = j + 1;
        }
        proof {
            assert(rs.take(j as int) =~= rs);
            assert(report.text() =~= notes_lines(es, rs));
        }
        report
    }

    /// The finished report in `format`: its lines framed and joined by newlines. An
    /// empty list has no report.
    pub fn report_text(&self, format: ExportFormat) -> (r: Option<String>)
        ensures
            r is None <==> self@.len() == 0,
            r is Some ==> r->0@ == joined(report_lines(self@, format)),
    {
        let entries = self.entries();
        if entries.len() == 0 {
            return None;
        }
        let items = sort_entries(entries);
        let recipes = sort_names(&self.recipe_names());
        let mut report = match format {
            ExportFormat::Print => ShoppingList::print_report(items.as_slice(), &recipes),
            ExportFormat::Notes => ShoppingList::notes_report(items.as_slice(), &recipes),
        };
        let ghost before = report;
        report.render();
        let text = report.contents();
        proof {
            let lines = report_lines(self@, format);
            assert(report.text().len() == lines.len());
            assert forall|i: int| 0 <= i < lines.len() implies report.text()[i] == lines[i] by {
                assert(report.text()[i] == before.framed_line(i));
            }
            assert(report.text() =~= lines);
        }
        Some(text)
    }
}

proof fn lemma_item_lines_len(es: Seq<EntryModel>)
    ensures
        item_lines(es).len() == 2 * es.len(),
    decreases es.len(),
{
    if es.len() > 0 {
        lemma_item_lines_len(es.drop_last());
    }
}

/// Whether each name is at least the one before it.
pub open spec fn ascending(ns: Seq<Seq<char>>) -> bool {
    forall|i: int| 0 <= i < ns.len() - 1 ==> !char_lt(#[trigger] ns[i + 1], ns[i])
}

proof fn lemma_sorted_names(ns: Seq<Seq<char>>)
    ensures
        sorted_names(ns).len() == ns.len(),
        ascending(sorted_names(ns)),
        forall|x: Seq<char>| #[trigger] sorted_names(ns).contains(x) <==> ns.contains(x),
        ns.no_duplicates() ==> sorted_names(ns).no_duplicates(),
{
    lemma_sort_keyed_permutes(ns);
    let t = sort_keyed(keyed(ns));
    let out = sorted_names(ns);
    assert forall|i: int|

        0 <= i < out.len() - 1 implies !char_lt(#[trigger] out[i + 1], out[i]) by {
        assert(!char_lt(t[i + 1].0, t[i].0));
    }
    assert forall|x: Seq<char>| #[trigger] out.contains(x) <==> ns.contains(x) by {
        if out.contains(x) {
            let i = choose|i: int| 0 <= i < out.len() && out[i] == x;
            assert(ns[t[i].1] == x);
        }
        if ns.contains(x) {
            let j = choose|j: int| 0 <= j < ns.len() && ns[j] == x;
            assert(t.contains((ns[j], j)));
            let i = choose|i: int| 0 <= i < t.len() && t[i] == (ns[j], j);
            assert(out[i] == x);
        }
    }
    if ns.no_duplicates() {
        assert forall|a: int, b: int| 0 <= a < b < out.len() implies out[a] != out[b] by {
            assert(out[a] == ns[t[a].1] && out[b] == ns[t[b].1]);
            assert(t[a] != t[b]);
        }
    }
}

proof fn lemma_with_names(ns: Seq<Seq<char>>, more: Seq<Seq<char>>)
    ensures
        forall|x: Seq<char>|
            #[trigger] with_names(ns, more).contains(x) <==> (ns.contains(x) || more.contains(x)),
        ns.no_duplicates() ==> with_names(ns, more).no_duplicates(),
    decreases more.len(),
{
    if more.len() > 0 {
        let p = more.drop_last();
        let w = with_names(ns, p);
        lemma_with_names(ns, p);
        assert forall|x: Seq<char>| #[trigger] with_names(ns, more).contains(x) <==> (ns.contains(x)
            || more.contains(x)) by {
            if !w.contains(more.last()) {
                let r = w.push(more.last());
                if r.contains(x) {
                    let k = choose|k: int| 0 <= k < r.len() && r[k] == x;
                    if k < w.len() {
                        assert(w[k] == x);
                    }
                }
                if w.contains(x) {
                    let k = choose|k: int| 0 <= k < w.len() && w[k] == x;
                    assert(r[k] == x);
                }
                assert(r[w.len() as int] == more.last());
            }
            if p.contains(x) {
                let k = choose|k: int| 0 <= k < p.len() && p[k] == x;
                assert(more[k] == x);
            }
            if more.contains(x) {
                let k = choose|k: int| 0 <= k < more.len() && more[k] == x;
                if k < p.len() {
                    assert(p[k] == x);
                }
            }
            assert(more[more.len() - 1] == more.last());
        }
        if ns.no_duplicates() && !w.contains(more.last()) {
            let r = w.push(more.last());
            assert forall|a: int, b: int| 0 <= a < b < r.len() implies r[a] != r[b] by {
                if b == w.len() {
                    assert(w.contains(w[a]));
                }
            }
        }
    }
}

proof fn lemma_all_recipes(es: Seq<EntryModel>)
    ensures
        all_recipes(es).no_duplicates(),
        forall|x: Seq<char>|
            #[trigger] all_recipes(es).contains(x) <==> exists|i: int|
                0 <= i < es.len() && (#[trigger] es[i]).2.contains(x),
    decreases es.len(),
{
    if es.len() == 0 {
        assert(all_recipes(es) =~= Seq::<Seq<char>>::empty());
    } else {
        let p = es.drop_last();
        lemma_all_recipes(p);
        lemma_with_names(all_recipes(p), es.last().2);
        assert forall|x: Seq<char>| #[trigger] all_recipes(es).contains(x) <==> exists|i: int|
            0 <= i < es.len() && (#[trigger] es[i]).2.contains(x) by {
            if all_recipes(p).contains(x) {
                let i = choose|i: int| 0 <= i < p.len() && (#[trigger] p[i]).2.contains(x);
                assert(es[i] == p[i]);
            }
            if es.last().2.contains(x) {
                assert(es[es.len() - 1] == es.last());
            }
            if exists|i: int| 0 <= i < es.len() && (#[trigger] es[i]).2.contains(x) {
                let i = choose|i: int| 0 <= i < es.len() && (#[trigger] es[i]).2.contains(x);
                if i < p.len() {
                    assert(p[i] == es[i]);
                }
            }
        }
    }
}

/// A report lists the ingredients in ascending order of name, each entry of the list
/// exactly once, and then the names of the contributing recipes in ascending order:
/// exactly the names that some entry records, each once.
pub proof fn lemma_report_order(es: Seq<EntryModel>)
    requires
        entries_wf(es),
    ensures
        sorted_entries(es).len() == es.len(),
        ascending(entry_names(sorted_entries(es))),
        forall|e: EntryModel| #[trigger] sorted_entries(es).contains(e) <==> es.contains(e),
        sorted_entries(es).no_duplicates(),
        ascending(sorted_names(all_recipes(es))),
        sorted_names(all_recipes(es)).no_duplicates(),
        forall|x: Seq<char>|
            #[trigger] sorted_names(all_recipes(es)).contains(x) <==> exists|i: int|
                0 <= i < es.len() && (#[trigger] es[i]).2.contains(x),
{
    let ns = entry_names(es);
    lemma_sort_keyed_permutes(ns);
    let t = sort_keyed(keyed(ns));
    let out = sorted_entries(es);
    let names = entry_names(out);
    assert forall|i: int|

        0 <= i < names.len() - 1 implies !char_lt(#[trigger] names[i + 1], names[i]) by {
        assert(!char_lt(t[i + 1].0, t[i].0));
        assert(names[i] == es[t[i].1].0 && ns[t[i].1] == es[t[i].1].0);
        assert(names[i + 1] == es[t[i + 1].1].0 && ns[t[i + 1].1] == es[t[i + 1].1].0);
    }
    assert forall|e: EntryModel| #[trigger] out.contains(e) <==> es.contains(e) by {
        if out.contains(e) {
            let i = choose|i: int| 0 <= i < out.len() && out[i] == e;
            assert(es[t[i].1] == e);
        }
        if es.contains(e) {
            let j = choose|j: int| 0 <= j < es.len() && es[j] == e;
            assert(ns[j] == es[j].0);
            assert(t.contains((ns[j], j)));
            let i = choose|i: int| 0 <= i < t.len() && t[i] == (ns[j], j);
            assert(out[i] == e);
        }
    }
    assert forall|a: int, b: int| 0 <= a < b < out.len() implies out[a] != out[b] by {
        assert(t[a] != t[b]);
        assert(t[a].0 == ns[t[a].1] && t[b].0 == ns[t[b].1]);
        if t[a].1 == t[b].1 {
        } else {
            assert(out[a] == es[t[a].1] && out[b] == es[t[b].1]);
            if t[a].1 < t[b].1 {
                assert(es[t[a].1].0 != es[t[b].1].0);
            } else {
                assert(es[t[b].1].0 != es[t[a].1].0);
            }
        }
    }
    lemma_all_recipes(es);
    lemma_sorted_names(all_recipes(es));
}

} // verus!
