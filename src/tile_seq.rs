//! Sequences of tiles: counting, and sorting into the order of `tile_index`.
use vstd::prelude::*;

use crate::tile::{lemma_tile_index_injective, tile_index, Tile};

verus! {

/// How many times `t` occurs in `s`.
pub open spec fn occurrences(s: Seq<Tile>, t: Tile) -> nat
    decreases s.len(),
{
    if s.len() == 0 {
        0
    } else {
        (if s[0] == t {
            1nat
        } else {
            0nat
        }) + occurrences(s.drop_first(), t)
    }
}

/// `s` is in non-decreasing tile order.
pub open spec fn is_sorted(s: Seq<Tile>) -> bool {
    forall|i: int, j: int| 0 <= i < j < s.len() ==> tile_index(#[trigger] s[i]) <= tile_index(#[trigger] s[j])
}

/// `t` placed before the first element of `s` that is not below it.
pub open spec fn insert_sorted(t: Tile, s: Seq<Tile>) -> Seq<Tile>
    decreases s.len(),
{
    if s.len() == 0 {
        seq![t]
    } else if tile_index(t) <= tile_index(s[0]) {
        seq![t] + s
    } else {
        seq![s[0]] + insert_sorted(t, s.drop_first())
    }
}

/// The tiles of `s` in tile order.
pub open spec fn sorted_tiles(s: Seq<Tile>) -> Seq<Tile>
    decreases s.len(),
{
    if s.len() == 0 {
        s
    } else {
        insert_sorted(s.last(), sorted_tiles(s.drop_last()))
    }
}

pub proof fn lemma_occurrences_concat(a: Seq<Tile>, b: Seq<Tile>, t: Tile)
    ensures
        occurrences(a + b, t) == occurrences(a, t) + occurrences(b, t),
    decreases a.len(),
{
    if a.len() == 0 {
        assert(a + b =~= b);
    } else {
        assert((a + b).drop_first() =~= a.drop_first() + b);
        lemma_occurrences_concat(a.drop_first(), b, t);
    }
}

/// The number of occurrences is at most the length, and reaches it only when every
/// element is `t`.
pub proof fn lemma_occurrences_bound(s: Seq<Tile>, t: Tile)
    ensures
        occurrences(s, t) <= s.len(),
        occurrences(s, t) == s.len() ==> forall|i: int| 0 <= i < s.len() ==> s[i] == t,
        occurrences(s, t) > 0 <==> s.contains(t),
    decreases s.len(),
{
    if s.len() > 0 {
        lemma_occurrences_bound(s.drop_first(), t);
        if occurrences(s, t) == s.len() {
            assert forall|i: int| 0 <= i < s.len() implies s[i] == t by {
                if i > 0 {
                    assert(s[i] == s.drop_first()[i - 1]);
                }
            }
        }
        if s.contains(t) && s[0] != t {
            let i = choose|i: int| 0 <= i < s.len() && s[i] == t;
            assert(s.drop_first()[i - 1] == t);
        }
        if s.drop_first().contains(t) {
            let i = choose|i: int| 0 <= i < s.drop_first().len() && s.drop_first()[i] == t;
            assert(s[i + 1] == t);
        }
    }
}

proof fn lemma_insert_sorted_facts(t: Tile, s: Seq<Tile>)
    ensures
        insert_sorted(t, s).len() == s.len() + 1,
        forall|x: Tile| occurrences(#[trigger] insert_sorted(t, s), x) == occurrences(s, x) + (if t == x { 1nat } else { 0nat }),
        is_sorted(s) ==> is_sorted(insert_sorted(t, s)),
        forall|x: Tile| #[trigger] insert_sorted(t, s).contains(x) ==> x == t || s.contains(x),
    decreases s.len(),
{
    reveal_with_fuel(occurrences, 2);
    if s.len() == 0 {
    } else if tile_index(t) <= tile_index(s[0]) {
        let r = seq![t] + s;
        assert(r.drop_first() =~= s);
        assert forall|x: Tile| occurrences(#[trigger] insert_sorted(t, s), x) == occurrences(s, x)
            + (if t == x { 1nat } else { 0nat }) by {
            assert(occurrences(r, x) == (if r[0] == x { 1nat } else { 0nat }) + occurrences(r.drop_first(), x));
        }
        if is_sorted(s) {
            assert forall|i: int, j: int| 0 <= i < j < r.len() implies tile_index(#[trigger] r[i])
                <= tile_index(#[trigger] r[j]) by {
                if i > 0 {
                    assert(r[i] == s[i - 1] && r[j] == s[j - 1]);
                } else if j > 1 {
                    assert(r[j] == s[j - 1]);
                    assert(tile_index(s[0]) <= tile_index(s[j - 1]));
                }
            }
        }
        assert forall|x: Tile| #[trigger] r.contains(x) implies x == t || s.contains(x) by {
            if r.contains(x) && x != t {
                let i = choose|i: int| 0 <= i < r.len() && r[i] == x;
                assert(s[i - 1] == x);
            }
        }
    } else {
        let rest = insert_sorted(t, s.drop_first());
        lemma_insert_sorted_facts(t, s.drop_first());
        let r = seq![s[0]] + rest;
        assert(r.drop_first() =~= rest);
        assert(s =~= seq![s[0]] + s.drop_first());
        assert forall|x: Tile| occurrences(#[trigger] insert_sorted(t, s), x) == occurrences(s, x)
            + (if t == x { 1nat } else { 0nat }) by {
            assert(occurrences(r, x) == (if r[0] == x { 1nat } else { 0nat }) + occurrences(rest, x));
            assert(occurrences(rest, x) == occurrences(s.drop_first(), x) + (if t == x { 1nat } else { 0nat }));
        }
        if is_sorted(s) {
            assert(is_sorted(s.drop_first())) by {
                assert forall|i: int, j: int| 0 <= i < j < s.drop_first().len() implies tile_index(
                    #[trigger] s.drop_first()[i],
                ) <= tile_index(#[trigger] s.drop_first()[j]) by {
                    assert(s.drop_first()[i] == s[i + 1] && s.drop_first()[j] == s[j + 1]);
                }
            }
            assert forall|i: int, j: int| 0 <= i < j < r.len() implies tile_index(#[trigger] r[i])
                <= tile_index(#[trigger] r[j]) by {
                if i > 0 {
                    assert(r[i] == rest[i - 1] && r[j] == rest[j - 1]);
                } else {
                    assert(r[j] == rest[j - 1]);
                    assert(rest.contains(rest[j - 1]));
                    if rest[j - 1] != t {
                        let k = choose|k: int| 0 <= k < s.drop_first().len() && s.drop_first()[k] == rest[j - 1];
                        assert(s[k + 1] == rest[j - 1]);
                    }
                }
            }
        }
        assert forall|x: Tile| #[trigger] r.contains(x) implies x == t || s.contains(x) by {
            if r.contains(x) && x != t && x != s[0] {
                let i = choose|i: int| 0 <= i < r.len() && r[i] == x;
                assert(rest[i - 1] == x);
                assert(rest.contains(x));
                let k = choose|k: int| 0 <= k < s.drop_first().len() && s.drop_first()[k] == x;
                assert(s[k + 1] == x);
            }
        }
    }
}

/// `sorted_tiles` rearranges the tiles of `s` into tile order.
pub proof fn lemma_sorted_tiles(s: Seq<Tile>)
    ensures
        sorted_tiles(s).len() == s.len(),
        is_sorted(sorted_tiles(s)),
        forall|x: Tile| occurrences(#[trigger] sorted_tiles(s), x) == occurrences(s, x),
    decreases s.len(),
{
    if s.len() > 0 {
        lemma_sorted_tiles(s.drop_last());
        lemma_insert_sorted_facts(s.last(), sorted_tiles(s.drop_last()));
        assert forall|x: Tile| occurrences(#[trigger] sorted_tiles(s), x) == occurrences(s, x) by {
            assert(s =~= s.drop_last() + seq![s.last()]);
            lemma_occurrences_concat(s.drop_last(), seq![s.last()], x);
            reveal_with_fuel(occurrences, 2);
        }
    }
}

/// Two sorted sequences with the same tiles are equal.
pub proof fn lemma_sorted_unique(a: Seq<Tile>, b: Seq<Tile>)
    requires
        is_sorted(a),
        is_sorted(b),
        forall|t: Tile| occurrences(a, t) == occurrences(b, t),
    ensures
        a == b,
    decreases a.len(),
{
    if a.len() == 0 {
        if b.len() > 0 {
            lemma_occurrences_bound(b, b[0]);
            assert(b.contains(b[0]));
            lemma_occurrences_bound(a, b[0]);
        }
        assert(a =~= b);
    } else {
        lemma_occurrences_bound(a, a[0]);
        assert(a.contains(a[0]));
        lemma_occurrences_bound(b, a[0]);
        let i = choose|i: int| 0 <= i < b.len() && b[i] == a[0];
        lemma_occurrences_bound(b, b[0]);
        assert(b.contains(b[0]));
        lemma_occurrences_bound(a, b[0]);
        let j = choose|j: int| 0 <= j < a.len() && a[j] == b[0];
        if i > 0 {
            assert(tile_index(b[0]) <= tile_index(b[i]));
        }
        if j > 0 {
            assert(tile_index(a[0]) <= tile_index(a[j]));
        }
        lemma_tile_index_injective(a[0], b[0]);
        let a1 = a.drop_first();
        let b1 = b.drop_first();
        assert forall|t: Tile| occurrences(a1, t) == occurrences(b1, t) by {
            assert(occurrences(a, t) == (if a[0] == t { 1nat } else { 0nat }) + occurrences(a1, t));
            assert(occurrences(b, t) == (if b[0] == t { 1nat } else { 0nat }) + occurrences(b1, t));
        }
        assert(is_sorted(a1)) by {
            assert forall|x: int, y: int| 0 <= x < y < a1.len() implies tile_index(#[trigger] a1[x])
                <= tile_index(#[trigger] a1[y]) by {
                assert(a1[x] == a[x + 1] && a1[y] == a[y + 1]);
            }
        }
        assert(is_sorted(b1)) by {
            assert forall|x: int, y: int| 0 <= x < y < b1.len() implies tile_index(#[trigger] b1[x])
                <= tile_index(#[trigger] b1[y]) by {
                assert(b1[x] == b[x + 1] && b1[y] == b[y + 1]);
            }
        }
        lemma_sorted_unique(a1, b1);
        assert(a =~= seq![a[0]] + a1);
        assert(b =~= seq![b[0]] + b1);
    }
}

/// A sorted rearrangement of `s` is `sorted_tiles(s)`.
pub proof fn lemma_sorted_tiles_is(s: Seq<Tile>, q: Seq<Tile>)
    requires
        is_sorted(q),
        forall|t: Tile| occurrences(s, t) == occurrences(q, t),
    ensures
        sorted_tiles(s) == q,
{
    lemma_sorted_tiles(s);
    lemma_sorted_unique(sorted_tiles(s), q);
}

/// Inserting a tile that is not below any element of a sorted sequence appends it.
proof fn lemma_insert_sorted_at_end(t: Tile, s: Seq<Tile>)
    requires
        is_sorted(s),
        forall|i: int| 0 <= i < s.len() ==> tile_index(#[trigger] s[i]) <= tile_index(t),
    ensures
        insert_sorted(t, s) == s.push(t),
    decreases s.len(),
{
    if s.len() > 0 {
        if tile_index(t) <= tile_index(s[0]) {
            assert forall|i: int| 0 <= i < s.len() implies #[trigger] s[i] == t by {
                if i > 0 {
                    assert(tile_index(s[0]) <= tile_index(s[i]));
                }
                lemma_tile_index_injective(s[i], t);
            }
            assert(seq![t] + s =~= s.push(t));
        } else {
            assert(is_sorted(s.drop_first())) by {
                assert forall|i: int, j: int| 0 <= i < j < s.drop_first().len() implies tile_index(
                    #[trigger] s.drop_first()[i],
                ) <= tile_index(#[trigger] s.drop_first()[j]) by {
                    assert(s.drop_first()[i] == s[i + 1] && s.drop_first()[j] == s[j + 1]);
                }
            }
            lemma_insert_sorted_at_end(t, s.drop_first());
            assert(seq![s[0]] + s.drop_first().push(t) =~= s.push(t));
        }
    }
}

/// Sorting a sorted sequence leaves it as it is.
pub proof fn lemma_sorted_tiles_of_sorted(s: Seq<Tile>)
    requires
        is_sorted(s),
    ensures
        sorted_tiles(s) == s,
    decreases s.len(),
{
    if s.len() > 0 {
        let d = s.drop_last();
        assert(is_sorted(d)) by {
            assert forall|i: int, j: int| 0 <= i < j < d.len() implies tile_index(#[trigger] d[i])
                <= tile_index(#[trigger] d[j]) by {
                assert(d[i] == s[i] && d[j] == s[j]);
            }
        }
        lemma_sorted_tiles_of_sorted(d);
        assert forall|i: int| 0 <= i < d.len() implies tile_index(#[trigger] d[i]) <= tile_index(
            s.last(),
        ) by {
            assert(d[i] == s[i]);
        }
        lemma_insert_sorted_at_end(s.last(), d);
        assert(d.push(s.last()) =~= s);
    }
}

/// `insert_sorted` puts `t` at the first position `p` whose element is not below it.
proof fn lemma_insert_sorted_split(t: Tile, s: Seq<Tile>, p: int)
    requires
        0 <= p <= s.len(),
        forall|j: int| 0 <= j < p ==> tile_index(#[trigger] s[j]) < tile_index(t),
        p < s.len() ==> tile_index(t) <= tile_index(s[p]),
    ensures
        insert_sorted(t, s) == s.take(p) + seq![t] + s.skip(p),
    decreases s.len(),
{
    if s.len() == 0 {
        assert(s.take(p) + seq![t] + s.skip(p) =~= seq![t]);
    } else if p == 0 {
        assert(s.take(p) + seq![t] + s.skip(p) =~= seq![t] + s);
    } else {
        let d = s.drop_first();
        assert forall|j: int| 0 <= j < p - 1 implies tile_index(#[trigger] d[j]) < tile_index(t) by {
            assert(d[j] == s[j + 1]);
        }
        lemma_insert_sorted_split(t, d, p - 1);
        assert(seq![s[0]] + (d.take(p - 1) + seq![t] + d.skip(p - 1)) =~= s.take(p) + seq![t]
            + s.skip(p));
    }
}

/// Inserts `t` into `v` at the place that `insert_sorted` gives.
fn insert_in_order(v: &mut Vec<Tile>, t: Tile)
    ensures
        final(v)@ == insert_sorted(t, old(v)@),
{
    let mut p: usize = 0;
    let ti = t.index();
    while p < v.len() && v[p].index() < ti
        invariant
            0 <= p <= v.len(),
            ti == tile_index(t),
            forall|j: int| 0 <= j < p ==> tile_index(#[trigger] v@[j]) < tile_index(t),
        decreases v.len() - p,
    {
        p = p + 1;
    }
    proof {
        lemma_insert_sorted_split(t, v@, p as int);
    }
    v.insert(p, t);
    assert(final(v)@ =~= old(v)@.take(p as int) + seq![t] + old(v)@.skip(p as int));
}

/// Whether `t` occurs in `v`.
pub fn contains_tile(v: &Vec<Tile>, t: &Tile) -> (r: bool)
    ensures
        r == v@.contains(*t),
{
    let mut i: usize = 0;
    while i < v.len()
        invariant
            i <= v.len(),
            forall|j: int| 0 <= j < i ==> v@[j] != *t,
        decreases v.len() - i,
    {
        if v[i] == *t {
            return true;
        }
        i = i + 1;
    }
    false
}

/// How many times `t` occurs in `v`.
pub fn count_tile(v: &Vec<Tile>, t: Tile) -> (r: usize)
    ensures
        r == occurrences(v@, t),
{
    let mut n: usize = 0;
    let mut i: usize = v.len();
    proof {
        lemma_occurrences_bound(v@, t);
        assert(v@.take(i as int) =~= v@);
    }
    while i > 0
        invariant
            i <= v.len(),
            n + occurrences(v@.take(i as int), t) == occurrences(v@, t),
            occurrences(v@, t) <= v.len(),
        decreases i,
    {
        proof {
            assert(v@.take(i as int) =~= v@.take(i - 1) + seq![v@[i - 1]]);
            lemma_occurrences_concat(v@.take(i - 1), seq![v@[i - 1]], t);
            reveal_with_fuel(occurrences, 2);
            lemma_occurrences_bound(v@.take(i - 1), t);
        }
        if v[i - 1] == t {
            n = n + 1;
        }
        i = i - 1;
    }
    assert(v@.take(0) =~= Seq::<Tile>::empty());
    n
}

/// The tiles of `v` in tile order.
pub fn sort_tiles(v: &Vec<Tile>) -> (r: Vec<Tile>)
    ensures
        r@ == sorted_tiles(v@),
{
    let mut r: Vec<Tile> = Vec::new();
    let mut i: usize = 0;
    while i < v.len()
        invariant
            i <= v.len(),
            r@ == sorted_tiles(v@.take(i as int)),
        decreases v.len() - i,
    {
        assert(v@.take(i + 1).drop_last() =~= v@.take(i as int));
        insert_in_order(&mut r, v[i]);
        i = i + 1;
    }
    assert(v@.take(i as int) =~= v@);
    r
}

} // verus!
