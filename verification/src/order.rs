//! Orderings used to arrange extracted files: name order, stable sorting by a numeric
//! key and grouping by name.
use vstd::prelude::*;

verus! {

/// Lexicographic order on character sequences, by code point. This is the order of
/// `String` (its bytes compare as UTF-8, which preserves code point order).
pub open spec fn lex_lt(a: Seq<char>, b: Seq<char>) -> bool
    decreases a.len(),
{
    if a.len() == 0 {
        b.len() > 0
    } else if b.len() == 0 {
        false
    } else if a[0] < b[0] {
        true
    } else if a[0] == b[0] {
        lex_lt(a.drop_first(), b.drop_first())
    } else {
        false
    }
}

/// No name sorts before itself.
pub proof fn lemma_lex_irreflexive(a: Seq<char>)
    ensures
        !lex_lt(a, a),
    decreases a.len(),
{
    if a.len() > 0 {
        lemma_lex_irreflexive(a.drop_first());
    }
}

/// Of two different names, one sorts before the other.
pub proof fn lemma_lex_total(a: Seq<char>, b: Seq<char>)
    ensures
        a == b || lex_lt(a, b) || lex_lt(b, a),
    decreases a.len(),
{
    if a.len() == 0 && b.len() == 0 {
        assert(a =~= b);
    } else if a.len() > 0 && b.len() > 0 && a[0] == b[0] {
        let a1 = a.drop_first();
        let b1 = b.drop_first();
        lemma_lex_total(a1, b1);
        if a1 == b1 {
            assert forall|i: int| 0 <= i < a.len() implies a[i] == b[i] by {
                if i > 0 {
                    assert(a[i] == a1[i - 1]);
                    assert(b[i] == b1[i - 1]);
                }
            }
            assert(a =~= b);
        }
    }
}

/// Two names never sort before each other.
pub proof fn lemma_lex_asymmetric(a: Seq<char>, b: Seq<char>)
    ensures
        !(lex_lt(a, b) && lex_lt(b, a)),
    decreases a.len(),
{
    if a.len() > 0 && b.len() > 0 && a[0] == b[0] {
        lemma_lex_asymmetric(a.drop_first(), b.drop_first());
    }
}

/// Sorting before is transitive.
pub proof fn lemma_lex_transitive(a: Seq<char>, b: Seq<char>, c: Seq<char>)
    requires
        lex_lt(a, b),
        lex_lt(b, c),
    ensures
        lex_lt(a, c),
    decreases a.len(),
{
    if a.len() > 0 && b.len() > 0 && c.len() > 0 && a[0] == b[0] && b[0] == c[0] {
        lemma_lex_transitive(a.drop_first(), b.drop_first(), c.drop_first());
    }
}

/// Whether `a` comes before `b` in `lex_lt` order.
pub fn lex_less(a: &[char], b: &[char]) -> (r: bool)
    ensures
        r == lex_lt(a@, b@),
{
    let mut i: usize = 0;
    assert(a@.skip(0) =~= a@);
    assert(b@.skip(0) =~= b@);
    while i < a.len() && i < b.len()
        invariant
            i <= a@.len(),
            i <= b@.len(),
            lex_lt(a@, b@) == lex_lt(a@.skip(i as int), b@.skip(i as int)),
        decreases a.len() - i,
    {
        assert(a@.skip(i as int)[0] == a@[i as int]);
        assert(b@.skip(i as int)[0] == b@[i as int]);
        if a[i] < b[i] {
            return true;
        }
        if a[i] != b[i] {
            return false;
        }
        assert(a@.skip(i as int).drop_first() =~= a@.skip(i + 1));
        assert(b@.skip(i as int).drop_first() =~= b@.skip(i + 1));
        i = i + 1;
    }
    i == a.len() && i < b.len()
}

/// Whether two character slices are equal.
pub fn same_chars(a: &[char], b: &[char]) -> (r: bool)
    ensures
        r == (a@ == b@),
{
    if a.len() != b.len() {
        return false;
    }
    let mut i: usize = 0;
    while i < a.len()
        invariant
            a@.len() == b@.len(),
            i <= a@.len(),
            forall|k: int| 0 <= k < i ==> a@[k] == b@[k],
        decreases a.len() - i,
    {
        if a[i] != b[i] {
            return false;
        }
        i = i + 1;
    }
    assert(a@ =~= b@);
    true
}

/// A copy of a character slice.
pub fn copy_chars(s: &[char]) -> (r: Vec<char>)
    ensures
        r@ == s@,
{
    let mut v: Vec<char> = Vec::new();
    let mut i: usize = 0;
    while i < s.len()
        invariant
            i <= s@.len(),
            v@ == s@.take(i as int),
        decreases s.len() - i,
    {
        v.push(s[i]);
        assert(s@.take(i + 1) =~= s@.take(i as int).push(s@[i as int]));
        i = i + 1;
    }
    assert(s@.take(s@.len() as int) =~= s@);
    v
}

/// `s` (sorted by key) with `x` inserted after every element whose key is at most `x`'s.
pub open spec fn insert_by_key<T>(s: Seq<(u64, T)>, x: (u64, T)) -> Seq<(u64, T)>
    decreases s.len(),
{
    if s.len() == 0 || s.last().0 <= x.0 {
        s.push(x)
    } else {
        insert_by_key(s.drop_last(), x).push(s.last())
    }
}

/// `s` sorted by key, stably: elements with equal keys keep their order (the order
/// `slice::sort_by_key` gives).
pub open spec fn sorted_by_key<T>(s: Seq<(u64, T)>) -> Seq<(u64, T)>
    decreases s.len(),
{
    if s.len() == 0 {
        s
    } else {
        insert_by_key(sorted_by_key(s.drop_last()), s.last())
    }
}

/// Whether the keys of `s` never decrease.
pub open spec fn keys_ascending<T>(s: Seq<(u64, T)>) -> bool {
    forall|i: int, j: int| 0 <= i < j < s.len() ==> s[i].0 <= s[j].0
}

proof fn lemma_insert_by_key_shape<T>(s: Seq<(u64, T)>, x: (u64, T), p: int)
    requires
        0 <= p <= s.len(),
        forall|k: int| p <= k < s.len() ==> s[k].0 > x.0,
        p == 0 || s[p - 1].0 <= x.0,
    ensures
        insert_by_key(s, x) == s.insert(p, x),
    decreases s.len(),
{
    if s.len() == 0 {
        assert(s.insert(p, x) =~= s.push(x));
    } else if s.last().0 <= x.0 {
        assert(p == s.len());
        assert(s.insert(p, x) =~= s.push(x));
    } else {
        lemma_insert_by_key_shape(s.drop_last(), x, p);
        assert(s.drop_last().insert(p, x).push(s.last()) =~= s.insert(p, x));
    }
}

proof fn lemma_insert_keeps_ascending<T>(s: Seq<(u64, T)>, x: (u64, T))
    requires
        keys_ascending(s),
    ensures
        keys_ascending(insert_by_key(s, x)),
        insert_by_key(s, x).len() == s.len() + 1,
    decreases s.len(),
{
    if s.len() > 0 && s.last().0 > x.0 {
        lemma_insert_keeps_ascending(s.drop_last(), x);
        let t = insert_by_key(s.drop_last(), x);
        lemma_insert_bounded(s.drop_last(), x, s.last().0);
        assert forall|i: int, j: int| 0 <= i < j < t.push(s.last()).len() implies t.push(
            s.last(),
        )[i].0 <= t.push(s.last())[j].0 by {
            if j == t.len() {
                assert(t[i].0 <= s.last().0);
            }
        }
    }
}

proof fn lemma_insert_bounded<T>(s: Seq<(u64, T)>, x: (u64, T), m: u64)
    requires
        forall|k: int| 0 <= k < s.len() ==> s[k].0 <= m,
        x.0 <= m,
    ensures
        forall|k: int| 0 <= k < insert_by_key(s, x).len() ==> insert_by_key(s, x)[k].0 <= m,
    decreases s.len(),
{
    if s.len() > 0 && s.last().0 > x.0 {
        assert forall|k: int| 0 <= k < s.drop_last().len() implies s.drop_last()[k].0 <= m by {
            assert(s.drop_last()[k] == s[k]);
        }
        lemma_insert_bounded(s.drop_last(), x, m);
        let t = insert_by_key(s.drop_last(), x);
        assert forall|k: int| 0 <= k < t.push(s.last()).len() implies t.push(s.last())[k].0 <= m by {
            if k < t.len() {
                assert(t.push(s.last())[k] == t[k]);
            }
        }
    } else {
        assert forall|k: int| 0 <= k < s.push(x).len() implies s.push(x)[k].0 <= m by {
            if k < s.len() {
                assert(s.push(x)[k] == s[k]);
            }
        }
    }
}

/// Stable sorting puts keys in ascending order.
pub proof fn lemma_sorted_by_key_ascending<T>(s: Seq<(u64, T)>)
    ensures
        keys_ascending(sorted_by_key(s)),
        sorted_by_key(s).len() == s.len(),
    decreases s.len(),
{
    if s.len() > 0 {
        lemma_sorted_by_key_ascending(s.drop_last());
        lemma_insert_keeps_ascending(sorted_by_key(s.drop_last()), s.last());
    }
}

proof fn lemma_insert_members<T>(s: Seq<(u64, T)>, x: (u64, T))
    ensures
        forall|k: int|
            0 <= k < insert_by_key(s, x).len() ==> (insert_by_key(s, x)[k] == x || exists|w: int|
                0 <= w < s.len() && s[w] == #[trigger] insert_by_key(s, x)[k]),
        insert_by_key(s, x).len() == s.len() + 1,
    decreases s.len(),
{
    if s.len() > 0 && s.last().0 > x.0 {
        lemma_insert_members(s.drop_last(), x);
        let t = insert_by_key(s.drop_last(), x);
        assert forall|k: int| 0 <= k < t.push(s.last()).len() implies (t.push(s.last())[k] == x
            || exists|w: int| 0 <= w < s.len() && s[w] == #[trigger] t.push(s.last())[k]) by {
            if k == t.len() {
                assert(s[s.len() - 1] == t.push(s.last())[k]);
            } else if t[k] != x {
                let w = choose|w: int| 0 <= w < s.drop_last().len() && s.drop_last()[w] == t[k];
                assert(s[w] == t.push(s.last())[k]);
            }
        }
    } else {
        assert forall|k: int| 0 <= k < s.push(x).len() implies (s.push(x)[k] == x || exists|w: int|
            0 <= w < s.len() && s[w] == #[trigger] s.push(x)[k]) by {
            if k < s.len() {
                assert(s[k] == s.push(x)[k]);
            }
        }
    }
}

/// Every element of a stably sorted sequence comes from the sequence.
pub proof fn lemma_sorted_by_key_members<T>(s: Seq<(u64, T)>)
    ensures
        forall|k: int|
            0 <= k < sorted_by_key(s).len() ==> exists|w: int|
                0 <= w < s.len() && s[w] == #[trigger] sorted_by_key(s)[k],
        sorted_by_key(s).len() == s.len(),
    decreases s.len(),
{
    if s.len() > 0 {
        lemma_sorted_by_key_members(s.drop_last());
        let t = sorted_by_key(s.drop_last());
        lemma_insert_members(t, s.last());
        assert forall|k: int| 0 <= k < sorted_by_key(s).len() implies exists|w: int|
            0 <= w < s.len() && s[w] == #[trigger] sorted_by_key(s)[k] by {
            let y = sorted_by_key(s)[k];
            if y == s.last() {
                assert(s[s.len() - 1] == y);
            } else {
                let v = choose|v: int| 0 <= v < t.len() && t[v] == y;
                let w = choose|w: int| 0 <= w < s.drop_last().len() && s.drop_last()[w] == t[v];
                assert(s[w] == y);
            }
        }
    }
}

/// Sorts `v` stably by key, as `slice::sort_by_key` does.
pub fn sort_by_key<T: Copy>(v: &Vec<(u64, T)>) -> (r: Vec<(u64, T)>)
    ensures
        r@ == sorted_by_key(v@),
{
    let mut r: Vec<(u64, T)> = Vec::new();
    let mut i: usize = 0;
    while i < v.len()
        invariant
            i <= v@.len(),
            r@ == sorted_by_key(v@.take(i as int)),
            keys_ascending(r@),
        decreases v.len() - i,
    {
        let x = v[i];
        let mut p = r.len();
        while p > 0 && r[p - 1].0 > x.0
            invariant
                p <= r@.len(),
                forall|k: int| p <= k < r@.len() ==> r@[k].0 > x.0,
            decreases p,
        {
            p = p - 1;
        }
        proof {
            lemma_insert_by_key_shape(r@, x, p as int);
            lemma_insert_keeps_ascending(r@, x);
            assert(v@.take(i + 1).drop_last() =~= v@.take(i as int));
        }
        r.insert(p, x);
        i = i + 1;
    }
    assert(v@.take(v@.len() as int) =~= v@);
    r
}

/// The values of the items with name `key`, in item order.
pub open spec fn group_of<T>(items: Seq<(Seq<char>, T)>, key: Seq<char>) -> Seq<T> {
    items.filter(named::<T>(key)).map_values(|it: (Seq<char>, T)| it.1)
}

/// The test that an item carries the name `key`.
pub open spec fn named<T>(key: Seq<char>) -> spec_fn((Seq<char>, T)) -> bool {
    |it: (Seq<char>, T)| it.0 == key
}

/// Whether `groups` gathers `items` by name: one group per distinct name, in ascending
/// name order, each holding the values of that name's items in item order (as a
/// `BTreeMap` from name to a list that items are pushed onto would hold them).
pub open spec fn is_grouping<T>(
    items: Seq<(Seq<char>, T)>,
    groups: Seq<(Seq<char>, Seq<T>)>,
) -> bool {
    &&& forall|i: int, j: int| 0 <= i < j < groups.len() ==> lex_lt(groups[i].0, groups[j].0)
    &&& forall|k: int| 0 <= k < items.len() ==> named_group(groups, #[trigger] items[k].0)
    &&& forall|g: int|
        0 <= g < groups.len() ==> groups[g].1 == group_of(items, groups[g].0) && groups[g].1.len()
            > 0
}

/// Whether some group carries the name `name`.
pub open spec fn named_group<T>(groups: Seq<(Seq<char>, Seq<T>)>, name: Seq<char>) -> bool {
    exists|g: int| 0 <= g < groups.len() && #[trigger] groups[g].0 == name
}

/// Named items as plain values.
pub open spec fn items_view<T>(v: Seq<(Vec<char>, T)>) -> Seq<(Seq<char>, T)> {
    v.map_values(|it: (Vec<char>, T)| (it.0@, it.1))
}

/// Named groups as plain values.
pub open spec fn groups_view<T>(v: Seq<(Vec<char>, Vec<T>)>) -> Seq<(Seq<char>, Seq<T>)> {
    v.map_values(|g: (Vec<char>, Vec<T>)| (g.0@, g.1@))
}

/// Pushing an item extends exactly the group of its name.
pub proof fn lemma_group_of_push<T>(items: Seq<(Seq<char>, T)>, it: (Seq<char>, T), key: Seq<char>)
    ensures
        group_of(items.push(it), key) == (if it.0 == key {
            group_of(items, key).push(it.1)
        } else {
            group_of(items, key)
        }),
{
    let f = named::<T>(key);
    reveal_with_fuel(Seq::filter, 1);
    assert(items.push(it).drop_last() =~= items);
    if it.0 == key {
        assert(items.push(it).filter(f) =~= items.filter(f).push(it));
        assert(items.filter(f).push(it).map_values(|x: (Seq<char>, T)| x.1) =~= items.filter(
            f,
        ).map_values(|x: (Seq<char>, T)| x.1).push(it.1));
    } else {
        assert(items.push(it).filter(f) =~= items.filter(f));
    }
}

proof fn lemma_filter_none<T>(items: Seq<(Seq<char>, T)>, key: Seq<char>)
    requires
        forall|k: int| 0 <= k < items.len() ==> items[k].0 != key,
    ensures
        items.filter(named::<T>(key)) =~= Seq::<(Seq<char>, T)>::empty(),
    decreases items.len(),
{
    reveal_with_fuel(Seq::filter, 1);
    if items.len() > 0 {
        lemma_filter_none(items.drop_last(), key);
    }
}

proof fn lemma_group_step_existing<T>(
    iv0: Seq<(Seq<char>, T)>,
    gv0: Seq<(Seq<char>, Seq<T>)>,
    it: (Seq<char>, T),
    p: int,
)
    requires
        is_grouping(iv0, gv0),
        0 <= p < gv0.len(),
        gv0[p].0 == it.0,
    ensures
        is_grouping(iv0.push(it), gv0.update(p, (it.0, gv0[p].1.push(it.1)))),
{
    let gv = gv0.update(p, (it.0, gv0[p].1.push(it.1)));
    let iv = iv0.push(it);
    assert forall|a: int, b: int| 0 <= a < b < gv.len() implies lex_lt(gv[a].0, gv[b].0) by {
        assert(gv[a].0 == gv0[a].0);
        assert(gv[b].0 == gv0[b].0);
    }
    assert forall|g2: int| 0 <= g2 < gv.len() implies gv[g2].1 == group_of(iv, gv[g2].0)
        && gv[g2].1.len() > 0 by {
        lemma_group_of_push(iv0, it, gv[g2].0);
        if g2 != p {
            assert(gv0[g2].0 != gv0[p].0) by {
                if g2 < p {
                    lemma_lex_irreflexive(gv0[g2].0);
                } else {
                    lemma_lex_irreflexive(gv0[p].0);
                }
            }
        }
    }
    assert forall|k: int| 0 <= k < iv.len() implies named_group(gv, #[trigger] iv[k].0) by {
        if k < iv0.len() {
            assert(iv[k] == iv0[k]);
            let w = choose|g2: int| 0 <= g2 < gv0.len() && #[trigger] gv0[g2].0 == iv0[k].0;
            assert(named_group(gv0, iv0[k].0));
            assert(gv[w].0 == gv0[w].0);
        } else {
            assert(gv[p].0 == iv[k].0);
        }
    }
    assert(forall|i: int, j: int| 0 <= i < j < gv.len() ==> lex_lt(gv[i].0, gv[j].0));
    assert(forall|g: int|
        0 <= g < gv.len() ==> gv[g].1 == group_of(iv, gv[g].0) && gv[g].1.len()
            > 0);
}

proof fn lemma_group_step_new<T>(
    iv0: Seq<(Seq<char>, T)>,
    gv0: Seq<(Seq<char>, Seq<T>)>,
    it: (Seq<char>, T),
    p: int,
)
    requires
        is_grouping(iv0, gv0),
        0 <= p <= gv0.len(),
        forall|k: int| 0 <= k < p ==> lex_lt(#[trigger] gv0[k].0, it.0),
        p < gv0.len() ==> gv0[p].0 != it.0 && !lex_lt(gv0[p].0, it.0),
    ensures
        is_grouping(iv0.push(it), gv0.insert(p, (it.0, seq![it.1]))),
{
    let gv = gv0.insert(p, (it.0, seq![it.1]));
    let iv = iv0.push(it);
    let key = it.0;
    if p < gv0.len() {
        lemma_lex_total(gv0[p].0, key);
    }
    assert forall|k: int| p < k < gv0.len() implies lex_lt(key, #[trigger] gv0[k].0) by {
        lemma_lex_transitive(key, gv0[p].0, gv0[k].0);
    }
    assert forall|a: int, b: int| 0 <= a < b < gv.len() implies lex_lt(gv[a].0, gv[b].0) by {
        if a < p && b == p {
        } else if a == p && b > p {
            if b > p + 1 {
                assert(lex_lt(key, gv0[b - 1].0));
            }
        } else if a < p && b > p {
            assert(gv[b].0 == gv0[b - 1].0);
        } else if a > p {
            assert(gv[a].0 == gv0[a - 1].0);
            assert(gv[b].0 == gv0[b - 1].0);
        }
    }
    assert forall|k: int| 0 <= k < iv0.len() implies iv0[k].0 != key by {
        assert(named_group(gv0, iv0[k].0));
        let w = choose|w: int| 0 <= w < gv0.len() && #[trigger] gv0[w].0 == iv0[k].0;
        if w < p {
            lemma_lex_irreflexive(key);
        } else if w > p {
            lemma_lex_irreflexive(key);
        }
    }
    assert forall|g2: int| 0 <= g2 < gv.len() implies gv[g2].1 == group_of(iv, gv[g2].0)
        && gv[g2].1.len() > 0 by {
        lemma_group_of_push(iv0, it, gv[g2].0);
        if g2 == p {
            lemma_filter_none(iv0, key);
            assert(group_of(iv0, key) =~= Seq::<T>::empty());
            assert(Seq::<T>::empty().push(it.1) =~= seq![it.1]);
        } else if g2 < p {
            assert(gv[g2] == gv0[g2]);
            assert(gv0[g2].0 != key) by {
                lemma_lex_irreflexive(key);
            }
        } else {
            assert(gv[g2] == gv0[g2 - 1]);
            assert(gv0[g2 - 1].0 != key) by {
                lemma_lex_irreflexive(key);
            }
        }
    }
    assert forall|k: int| 0 <= k < iv.len() implies named_group(gv, #[trigger] iv[k].0) by {
        if k < iv0.len() {
            assert(iv[k] == iv0[k]);
            let w = choose|g2: int| 0 <= g2 < gv0.len() && #[trigger] gv0[g2].0 == iv0[k].0;
            assert(named_group(gv0, iv0[k].0));
            if w < p {
                assert(gv[w].0 == gv0[w].0);
            } else {
                assert(gv[w + 1].0 == gv0[w].0);
            }
        } else {
            assert(gv[p].0 == iv[k].0);
        }
    }
    assert(forall|i: int, j: int| 0 <= i < j < gv.len() ==> lex_lt(gv[i].0, gv[j].0));
    assert(forall|g: int|
        0 <= g < gv.len() ==> gv[g].1 == group_of(iv, gv[g].0) && gv[g].1.len()
            > 0);
}

/// A non-empty group comes from at least one item.
pub proof fn lemma_group_nonempty_has_items<T>(items: Seq<(Seq<char>, T)>, key: Seq<char>)
    ensures
        group_of(items, key).len() > 0 ==> items.len() > 0,
{
    if items.len() == 0 {
        reveal_with_fuel(Seq::filter, 1);
        assert(items.filter(named::<T>(key)) =~= Seq::<(Seq<char>, T)>::empty());
    }
}

/// Gathers `items` by name (see `is_grouping`).
pub fn group_by_name<T: Copy>(items: &Vec<(Vec<char>, T)>) -> (r: Vec<(Vec<char>, Vec<T>)>)
    ensures
        is_grouping(items_view(items@), groups_view(r@)),
{
    let mut groups: Vec<(Vec<char>, Vec<T>)> = Vec::new();
    let mut i: usize = 0;
    proof {
        assert(items_view(items@.take(0)) =~= Seq::<(Seq<char>, T)>::empty());
        assert(groups_view(groups@) =~= Seq::<(Seq<char>, Seq<T>)>::empty());
    }
    while i < items.len()
        invariant
            i <= items@.len(),
            is_grouping(items_view(items@.take(i as int)), groups_view(groups@)),
        decreases items.len() - i,
    {
        let ghost gv0 = groups_view(groups@);
        let ghost iv0 = items_view(items@.take(i as int));
        let key = &items[i].0;
        let val = items[i].1;
        let ghost it = (key@, val);
        assert(items_view(items@.take(i + 1)) =~= iv0.push(it));
        let mut p: usize = 0;
        while p < groups.len() && lex_less(groups[p].0.as_slice(), key.as_slice())
            invariant
                p <= groups@.len(),
                gv0 == groups_view(groups@),
                forall|k: int| 0 <= k < p ==> lex_lt(#[trigger] gv0[k].0, key@),
            decreases groups.len() - p,
        {
            p = p + 1;
        }
        if p < groups.len() && same_chars(groups[p].0.as_slice(), key.as_slice()) {
            let mut g = groups.remove(p);
            g.1.push(val);
            groups.insert(p, g);
            proof {
                lemma_group_step_existing(iv0, gv0, it, p as int);
                assert(groups_view(groups@) =~= gv0.update(
                    p as int,
                    (key@, gv0[p as int].1.push(val)),
                ));
            }
        } else {
            let mut vals: Vec<T> = Vec::new();
            vals.push(val);
            let name = copy_chars(key.as_slice());
            groups.insert(p, (name, vals));
            proof {
                lemma_group_step_new(iv0, gv0, it, p as int);
                assert(groups_view(groups@) =~= gv0.insert(p as int, (key@, seq![val])));
            }
        }
        i = i + 1;
    }
    assert(items@.take(items@.len() as int) =~= items@);
    groups
}

/// Grouping never gives two groups one name: an output is written once per name.
pub proof fn lemma_group_names_distinct<T>(
    items: Seq<(Seq<char>, T)>,
    groups: Seq<(Seq<char>, Seq<T>)>,
)
    requires
        is_grouping(items, groups),
    ensures
        forall|i: int, j: int|
            0 <= i < groups.len() && 0 <= j < groups.len() && i != j ==> groups[i].0 != groups[j].0,
{
    assert forall|i: int, j: int|
        0 <= i < groups.len() && 0 <= j < groups.len() && i != j implies groups[i].0
        != groups[j].0 by {
        if i < j {
            lemma_lex_irreflexive(groups[i].0);
        } else {
            lemma_lex_irreflexive(groups[j].0);
        }
    }
}
} // verus!
