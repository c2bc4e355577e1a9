//! Ordering names by their characters, and sorting keyed items by name.
use vstd::prelude::*;
use vstd::std_specs::iter::IteratorSpec;

verus! {

broadcast use vstd::string::group_string_axioms;

/// Lexicographic order over characters: `a` comes strictly before `b`.
pub open spec fn char_lt(a: Seq<char>, b: Seq<char>) -> bool
    decreases a.len(),
{
    if a.len() == 0 {
        b.len() > 0
    } else if b.len() == 0 {
        false
    } else if a[0] != b[0] {
        a[0] < b[0]
    } else {
        char_lt(a.drop_first(), b.drop_first())
    }
}

/// A name paired with the position of the item it names.
pub type Keyed = (Seq<char>, int);

/// Each name paired with its position.
pub open spec fn keyed(ks: Seq<Seq<char>>) -> Seq<Keyed> {
    Seq::new(ks.len(), |i: int| (ks[i], i))
}

/// `x` placed before the first element of `s` whose name comes after its own.
pub open spec fn insert_keyed(s: Seq<Keyed>, x: Keyed) -> Seq<Keyed>
    decreases s.len(),
{
    if s.len() == 0 {
        seq![x]
    } else if char_lt(x.0, s[0].0) {
        seq![x] + s
    } else {
        seq![s[0]] + insert_keyed(s.drop_first(), x)
    }
}

/// `s` sorted by name, equal names keeping their order.
pub open spec fn sort_keyed(s: Seq<Keyed>) -> Seq<Keyed>
    decreases s.len(),
{
    if s.len() == 0 {
        seq![]
    } else {
        insert_keyed(sort_keyed(s.drop_last()), s.last())
    }
}

/// Whether no name in `s` comes before the name ahead of it.
pub open spec fn sorted_by_name(s: Seq<Keyed>) -> bool {
    forall|i: int| 0 <= i < s.len() - 1 ==> !char_lt(#[trigger] s[i + 1].0, s[i].0)
}

/// The names held by a list of character vectors.
pub open spec fn key_views(keys: Seq<Vec<char>>) -> Seq<Seq<char>> {
    keys.map_values(|v: Vec<char>| v@)
}

/// The characters of `s`.
pub fn chars_of(s: &str) -> (r: Vec<char>)
    ensures
        r@ == s@,
{
    let mut it = s.chars();
    let mut r: Vec<char> = Vec::new();
    loop
        invariant
            r@ + IteratorSpec::remaining(&it) == s@,
        ensures
            r@ == s@,
        decreases s@.len() - r@.len(),
    {
        let ghost before = IteratorSpec::remaining(&it);
        match it.next() {
            Some(c) => {
                r.push(c);
            },
            None => {
                proof {
                    assert(r@ + before =~= r@);
                }
                break ;
            },
        }
    }
    r
}

/// Whether `a` comes strictly before `b`.
pub fn chars_less(a: &Vec<char>, b: &Vec<char>) -> (r: bool)
    ensures
        r == char_lt(a@, b@),
{
    let mut i: usize = 0;
    proof {
        assert(a@.skip(0) =~= a@);
        assert(b@.skip(0) =~= b@);
    }
    while i < a.len() && i < b.len()
        invariant
            i <= a@.len(),
            i <= b@.len(),
            char_lt(a@, b@) == char_lt(a@.skip(i as int), b@.skip(i as int)),
        decreases a@.len() - i,
    {
        proof {
            assert(a@.skip(i as int).drop_first() =~= a@.skip(i + 1));
            assert(b@.skip(i as int).drop_first() =~= b@.skip(i + 1));
        }
        if a[i] != b[i] {
            return a[i] < b[i];
        }
        i = i + 1;
    }
    a.len() < b.len()
}

proof fn lemma_insert_at(s: Seq<Keyed>, x: Keyed, pos: int)
    requires
        0 <= pos <= s.len(),
        forall|k: int| 0 <= k < pos ==> !char_lt(x.0, #[trigger] s[k].0),
        pos < s.len() ==> char_lt(x.0, s[pos].0),
    ensures
        insert_keyed(s, x) == s.insert(pos, x),
    decreases s.len(),
{
    if s.len() == 0 {
        assert(s.insert(pos, x) =~= seq![x]);
    } else if pos == 0 {
        assert(s.insert(pos, x) =~= seq![x] + s);
    } else {
        let t = s.drop_first();
        assert forall|k: int| 0 <= k < pos - 1 implies !char_lt(x.0, #[trigger] t[k].0) by {
            assert(t[k] == s[k + 1]);
        }
        lemma_insert_at(t, x, pos - 1);
        assert(!char_lt(x.0, s[0].0));
        assert(seq![s[0]] + t.insert(pos - 1, x) =~= s.insert(pos, x));
    }
}

/// The positions of `keys` in the order of `sort_keyed`: names ascending, equal names
/// in their original order.
pub fn sort_order(keys: &Vec<Vec<char>>) -> (r: Vec<usize>)
    ensures
        r@.len() == keys@.len(),
        sort_keyed(keyed(key_views(keys@))).len() == keys@.len(),
        forall|t: int|
            0 <= t < r@.len() ==> #[trigger] r@[t] < keys@.len() && (
            keys@[r@[t] as int]@,
            r@[t] as int,
        ) == sort_keyed(keyed(key_views(keys@)))[t],
{
    let ghost kv = key_views(keys@);
    let ghost all = keyed(kv);
    let mut r: Vec<usize> = Vec::new();
    let mut i: usize = 0;
    proof {
        assert(all.take(0) =~= Seq::<Keyed>::empty());
        lemma_sort_len(all.take(0));
    }
    while i < keys.len()
        invariant
            kv == key_views(keys@),
            all == keyed(kv),
            i <= keys@.len(),
            r@.len() == i,
            sort_keyed(all.take(i as int)).len() == i,
            forall|t: int| 0 <= t < i ==> #[trigger] r@[t] < keys@.len(),
            forall|t: int|
                0 <= t < i ==> (kv[r@[t] as int], r@[t] as int) == #[trigger] sort_keyed(
                    all.take(i as int),
                )[t],
        decreases keys@.len() - i,
    {
        let ghost cur = sort_keyed(all.take(i as int));
        proof {
            lemma_sort_len(all.take(i + 1));
        }
        let x = &keys[i];
        let mut k: usize = 0;
        while k < r.len() && !chars_less(x, &keys[r[k]])
            invariant
                0 <= i < keys@.len(),
                *x == keys@[i as int],
                kv == key_views(keys@),
                r@.len() == i,
                cur == sort_keyed(all.take(i as int)),
                cur.len() == i,
                forall|t: int| 0 <= t < i ==> #[trigger] r@[t] < keys@.len(),
                forall|t: int|
                    0 <= t < i ==> (kv[r@[t] as int], r@[t] as int) == #[trigger] cur[t],
                k <= r@.len(),
                forall|m: int| 0 <= m < k ==> !char_lt(kv[i as int], #[trigger] cur[m].0),
            decreases r@.len() - k,
        {
            proof {
                assert(cur[k as int].0 == kv[r@[k as int] as int]);
            }
            k = k + 1;
        }
        proof {
            if k < r@.len() {
                assert(cur[k as int].0 == kv[r@[k as int] as int]);
            }
            lemma_insert_at(cur, (kv[i as int], i as int), k as int);
            assert(all.take(i + 1).drop_last() =~= all.take(i as int));
            assert(all.take(i + 1).last() == (kv[i as int], i as int));
        }
        let ghost prev = r@;
        r.insert(k, i);
        proof {
            let next = sort_keyed(all.take(i + 1));
            assert(next == cur.insert(k as int, (kv[i as int], i as int)));
            assert forall|t: int| 0 <= t < i + 1 implies #[trigger] r@[t] < keys@.len() && (
            kv[r@[t] as int], r@[t] as int) == next[t] by {
                if t < k {
                    assert(r@[t] == prev[t]);
                } else if t > k {
                    assert(r@[t] == prev[t - 1]);
                }
            }
        }
        i = i + 1;
    }
    proof {
        assert(all.take(i as int) =~= all);
        assert forall|t: int| 0 <= t < r@.len() implies #[trigger] r@[t] < keys@.len() && (
        keys@[r@[t] as int]@, r@[t] as int) == sort_keyed(keyed(key_views(keys@)))[t] by {
            assert(kv[r@[t] as int] == keys@[r@[t] as int]@);
        }
    }
    r
}

proof fn lemma_insert_len(s: Seq<Keyed>, x: Keyed)
    ensures
        insert_keyed(s, x).len() == s.len() + 1,
    decreases s.len(),
{
    if s.len() > 0 && !char_lt(x.0, s[0].0) {
        lemma_insert_len(s.drop_first(), x);
    }
}

proof fn lemma_sort_len(s: Seq<Keyed>)
    ensures
        sort_keyed(s).len() == s.len(),
    decreases s.len(),
{
    if s.len() > 0 {
        lemma_sort_len(s.drop_last());
        lemma_insert_len(sort_keyed(s.drop_last()), s.last());
    }
}

proof fn lemma_char_lt_asym(a: Seq<char>, b: Seq<char>)
    ensures
        char_lt(a, b) ==> !char_lt(b, a),
    decreases a.len(),
{
    if a.len() > 0 && b.len() > 0 && a[0] == b[0] {
        lemma_char_lt_asym(a.drop_first(), b.drop_first());
    }
}

proof fn lemma_insert_props(s: Seq<Keyed>, x: Keyed)
    ensures
        insert_keyed(s, x).len() == s.len() + 1,
        forall|y: Keyed| #[trigger] insert_keyed(s, x).contains(y) <==> (s.contains(y) || y == x),
        insert_keyed(s, x)[0] == x || (s.len() > 0 && insert_keyed(s, x)[0] == s[0]),
        sorted_by_name(s) ==> sorted_by_name(insert_keyed(s, x)),
        s.no_duplicates() && !s.contains(x) ==> insert_keyed(s, x).no_duplicates(),
    decreases s.len(),
{
    let r = insert_keyed(s, x);
    if s.len() == 0 {
        assert forall|y: Keyed| #[trigger] r.contains(y) <==> (s.contains(y) || y == x) by {
            if r.contains(y) {
                assert(r[0] == y);
            }
            if y == x {
                assert(r[0] == y);
            }
        }
    } else if char_lt(x.0, s[0].0) {
        assert forall|y: Keyed| #[trigger] r.contains(y) <==> (s.contains(y) || y == x) by {
            if r.contains(y) {
                let k = choose|k: int| 0 <= k < r.len() && r[k] == y;
                if k > 0 {
                    assert(s[k - 1] == y);
                }
            }
            if s.contains(y) {
                let k = choose|k: int| 0 <= k < s.len() && s[k] == y;
                assert(r[k + 1] == y);
            }
            if y == x {
                assert(r[0] == y);
            }
        }
        lemma_char_lt_asym(x.0, s[0].0);
        assert(r == seq![x] + s);
        if sorted_by_name(s) {
            assert forall|i: int|

                0 <= i < r.len() - 1 implies !char_lt(#[trigger] r[i + 1].0, r[i].0) by {
                if i == 0 {
                    assert(r[0] == x && r[1] == s[0]);
                } else {
                    assert(r[i + 1] == s[i] && r[i] == s[i - 1]);
                    assert(!char_lt(s[(i - 1) + 1].0, s[i - 1].0));
                }
            }
        }
        if s.no_duplicates() && !s.contains(x) {
            assert forall|a: int, b: int| 0 <= a < b < r.len() implies r[a] != r[b] by {
                if a == 0 {
                    assert(r[b] == s[b - 1]);
                } else {
                    assert(r[a] == s[a - 1] && r[b] == s[b - 1]);
                }
            }
        }
    } else {
        let t = s.drop_first();
        let rt = insert_keyed(t, x);
        lemma_insert_props(t, x);
        assert(r == seq![s[0]] + rt);
        assert forall|y: Keyed| #[trigger] r.contains(y) <==> (s.contains(y) || y == x) by {
            if r.contains(y) {
                let k = choose|k: int| 0 <= k < r.len() && r[k] == y;
                if k == 0 {
                    assert(s[0] == y);
                } else {
                    assert(rt[k - 1] == y);
                    assert(rt.contains(y));
                    if t.contains(y) {
                        let j = choose|j: int| 0 <= j < t.len() && t[j] == y;
                        assert(s[j + 1] == y);
                    }
                }
            }
            if s.contains(y) {
                let k = choose|k: int| 0 <= k < s.len() && s[k] == y;
                if k == 0 {
                    assert(r[0] == y);
                } else {
                    assert(t[k - 1] == y);
                    assert(rt.contains(y));
                    let j = choose|j: int| 0 <= j < rt.len() && rt[j] == y;
                    assert(r[j + 1] == y);
                }
            }
            if y == x {
                assert(rt.contains(y));
                let j = choose|j: int| 0 <= j < rt.len() && rt[j] == y;
                assert(r[j + 1] == y);
            }
        }
        if sorted_by_name(s) {
            assert(sorted_by_name(t)) by {
                assert forall|i: int|

                    0 <= i < t.len() - 1 implies !char_lt(#[trigger] t[i + 1].0, t[i].0) by {
                    assert(t[i + 1] == s[i + 2] && t[i] == s[i + 1]);
                }
            }
            assert forall|i: int|

                0 <= i < r.len() - 1 implies !char_lt(#[trigger] r[i + 1].0, r[i].0) by {
                if i == 0 {
                    assert(r[0] == s[0] && r[1] == rt[0]);
                    if rt[0] != x {
                        assert(rt[0] == t[0] && t[0] == s[1]);
                        assert(!char_lt(s[0int + 1].0, s[0int].0));
                    }
                } else {
                    assert(r[i + 1] == rt[i] && r[i] == rt[i - 1]);
                    assert(!char_lt(rt[(i - 1) + 1].0, rt[i - 1].0));
                }
            }
        }
        if s.no_duplicates() && !s.contains(x) {
            assert(!t.contains(x)) by {
                if t.contains(x) {
                    let j = choose|j: int| 0 <= j < t.len() && t[j] == x;
                    assert(s[j + 1] == x);
                }
            }
            assert(t.no_duplicates()) by {
                assert forall|a: int, b: int| 0 <= a < b < t.len() implies t[a] != t[b] by {
                    assert(t[a] == s[a + 1] && t[b] == s[b + 1]);
                }
            }
            assert(!rt.contains(s[0])) by {
                if rt.contains(s[0]) {
                    if t.contains(s[0]) {
                        let j = choose|j: int| 0 <= j < t.len() && t[j] == s[0];
                        assert(s[j + 1] == s[0]);
                    }
                }
            }
            assert forall|a: int, b: int| 0 <= a < b < r.len() implies r[a] != r[b] by {
                if a == 0 {
                    assert(r[b] == rt[b - 1]);
                    assert(rt.contains(rt[b - 1]));
                } else {
                    assert(r[a] == rt[a - 1] && r[b] == rt[b - 1]);
                }
            }
        }
    }
}

proof fn lemma_sort_props(s: Seq<Keyed>)
    ensures
        sort_keyed(s).len() == s.len(),
        forall|y: Keyed| #[trigger] sort_keyed(s).contains(y) <==> s.contains(y),
        sorted_by_name(sort_keyed(s)),
        s.no_duplicates() ==> sort_keyed(s).no_duplicates(),
    decreases s.len(),
{
    if s.len() > 0 {
        let p = s.drop_last();
        lemma_sort_props(p);
        lemma_insert_props(sort_keyed(p), s.last());
        assert forall|y: Keyed| #[trigger] sort_keyed(s).contains(y) <==> s.contains(y) by {
            if p.contains(y) {
                let j = choose|j: int| 0 <= j < p.len() && p[j] == y;
                assert(s[j] == y);
            }
            if s.contains(y) {
                let j = choose|j: int| 0 <= j < s.len() && s[j] == y;
                if j < p.len() {
                    assert(p[j] == y);
                }
            }
            assert(s[s.len() - 1] == s.last());
        }
        if s.no_duplicates() {
            assert(p.no_duplicates()) by {
                assert forall|a: int, b: int| 0 <= a < b < p.len() implies p[a] != p[b] by {
                    assert(p[a] == s[a] && p[b] == s[b]);
                }
            }
            assert(!sort_keyed(p).contains(s.last())) by {
                if p.contains(s.last()) {
                    let j = choose|j: int| 0 <= j < p.len() && p[j] == s.last();
                    assert(s[j] == s[s.len() - 1]);
                }
            }
        }
    }
}

/// Sorting names by position gives each position exactly once, each with its own name,
/// and no name comes before the name ahead of it.
pub proof fn lemma_sort_keyed_permutes(ks: Seq<Seq<char>>)
    ensures
        sort_keyed(keyed(ks)).len() == ks.len(),
        sorted_by_name(sort_keyed(keyed(ks))),
        sort_keyed(keyed(ks)).no_duplicates(),
        forall|j: int| 0 <= j < ks.len() ==> #[trigger] sort_keyed(keyed(ks)).contains((ks[j], j)),
        forall|i: int|
            0 <= i < ks.len() ==> 0 <= (#[trigger] sort_keyed(keyed(ks))[i]).1 < ks.len()
                && sort_keyed(keyed(ks))[i].0 == ks[sort_keyed(keyed(ks))[i].1],
{
    let all = keyed(ks);
    let t = sort_keyed(all);
    assert(all.no_duplicates()) by {
        assert forall|a: int, b: int| 0 <= a < b < all.len() implies all[a] != all[b] by {
            assert(all[a].1 == a && all[b].1 == b);
        }
    }
    lemma_sort_props(all);
    assert forall|j: int| 0 <= j < ks.len() implies #[trigger] t.contains((ks[j], j)) by {
        assert(all[j] == (ks[j], j));
    }
    assert forall|i: int| 0 <= i < ks.len() implies 0 <= (#[trigger] t[i]).1 < ks.len()
        && t[i].0 == ks[t[i].1] by {
        assert(t.contains(t[i]));
        let j = choose|j: int| 0 <= j < all.len() && all[j] == t[i];
    }
}

} // verus!
