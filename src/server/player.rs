use vstd::prelude::*;

use super::meld::{is_run_of, is_value_suit, AnGang, Chi, Gang, Meld, Pong};
use super::tile::{lemma_tile_rank_injective, playable_tile, value_suit, tile_rank, Tile};

verus! {

/// Position of the first entry for `t`, or -1.
pub open spec fn index_of(s: Seq<(Tile, u8)>, t: Tile) -> int
    decreases s.len(),
{
    if s.len() == 0 {
        -1
    } else if s[0].0 == t {
        0
    } else {
        let k = index_of(s.drop_first(), t);
        if k < 0 {
            -1
        } else {
            k + 1
        }
    }
}

/// The count recorded for `t`, if `t` has an entry.
pub open spec fn lookup(s: Seq<(Tile, u8)>, t: Tile) -> Option<u8> {
    if index_of(s, t) >= 0 {
        Some(s[index_of(s, t)].1)
    } else {
        None
    }
}

/// How many copies of `t` are held (no entry means none).
pub open spec fn held(s: Seq<(Tile, u8)>, t: Tile) -> nat {
    match lookup(s, t) {
        Some(c) => c as nat,
        None => 0,
    }
}

/// Sum of the counts.
pub open spec fn total(s: Seq<(Tile, u8)>) -> nat
    decreases s.len(),
{
    if s.len() == 0 {
        0
    } else {
        s[0].1 as nat + total(s.drop_first())
    }
}

/// The entries with a count above zero, in order.
pub open spec fn nonzero(s: Seq<(Tile, u8)>) -> Seq<(Tile, u8)>
    decreases s.len(),
{
    if s.len() == 0 {
        s
    } else if s[0].1 > 0 {
        seq![s[0]] + nonzero(s.drop_first())
    } else {
        nonzero(s.drop_first())
    }
}

/// Every tile has at most one entry.
pub open spec fn unique_keys(s: Seq<(Tile, u8)>) -> bool {
    forall|i: int, j: int| 0 <= i < j < s.len() ==> (#[trigger] s[i]).0 != (#[trigger] s[j]).0
}

/// The entries are in strictly increasing tile order.
pub open spec fn sorted_keys(s: Seq<(Tile, u8)>) -> bool {
    forall|i: int, j: int| 0 <= i < j < s.len() ==> tile_rank((#[trigger] s[i]).0) < tile_rank((#[trigger] s[j]).0)
}

proof fn lemma_index_of(s: Seq<(Tile, u8)>, t: Tile)
    ensures
        -1 <= index_of(s, t) < s.len(),
        index_of(s, t) >= 0 ==> s[index_of(s, t)].0 == t,
        forall|j: int| 0 <= j < s.len() && (index_of(s, t) < 0 || j < index_of(s, t)) ==> s[j].0 != t,
    decreases s.len(),
{
    if s.len() > 0 {
        lemma_index_of(s.drop_first(), t);
        assert forall|j: int| 0 <= j < s.len() && (index_of(s, t) < 0 || j < index_of(s, t)) implies s[j].0 != t by {
            if j > 0 {
                assert(s[j] == s.drop_first()[j - 1]);
            }
        }
    }
}

/// `index_of` is the first position holding the tile.
proof fn lemma_index_of_is(s: Seq<(Tile, u8)>, t: Tile, k: int)
    requires
        -1 <= k < s.len(),
        k >= 0 ==> s[k].0 == t,
        forall|j: int| 0 <= j < s.len() && (k < 0 || j < k) ==> s[j].0 != t,
    ensures
        index_of(s, t) == k,
{
    lemma_index_of(s, t);
    let i = index_of(s, t);
    if i >= 0 && k >= 0 && i != k {
        if i < k {
            assert(s[i].0 != t);
        } else {
            assert(s[k].0 != t);
        }
    }
    if i < 0 && k >= 0 {
        assert(s[k].0 != t);
    }
    if i >= 0 && k < 0 {
        assert(s[i].0 != t);
    }
}

/// In a map with one entry per tile, the entry at `j` is the one for its tile.
proof fn lemma_index_of_unique(s: Seq<(Tile, u8)>, j: int)
    requires
        unique_keys(s),
        0 <= j < s.len(),
    ensures
        index_of(s, s[j].0) == j,
        lookup(s, s[j].0) == Some(s[j].1),
{
    assert forall|k: int| 0 <= k < s.len() && k < j implies s[k].0 != s[j].0 by {}
    lemma_index_of_is(s, s[j].0, j);
}

proof fn lemma_total_update(s: Seq<(Tile, u8)>, i: int, e: (Tile, u8))
    requires
        0 <= i < s.len(),
    ensures
        total(s.update(i, e)) + s[i].1 == total(s) + e.1,
    decreases s.len(),
{
    if i == 0 {
        assert(s.update(i, e).drop_first() =~= s.drop_first());
    } else {
        assert(s.update(i, e).drop_first() =~= s.drop_first().update(i - 1, e));
        lemma_total_update(s.drop_first(), i - 1, e);
    }
}

proof fn lemma_total_insert(s: Seq<(Tile, u8)>, p: int, e: (Tile, u8))
    requires
        0 <= p <= s.len(),
    ensures
        total(s.insert(p, e)) == total(s) + e.1,
    decreases s.len(),
{
    if p == 0 {
        assert(s.insert(p, e).drop_first() =~= s);
    } else {
        assert(s.insert(p, e).drop_first() =~= s.drop_first().insert(p - 1, e));
        lemma_total_insert(s.drop_first(), p - 1, e);
    }
}

/// Changing the count at position `i` changes only the count of that entry's tile.
proof fn lemma_update_count(s: Seq<(Tile, u8)>, i: int, c: u8)
    requires
        0 <= i < s.len(),
        index_of(s, s[i].0) == i,
    ensures
        lookup(s.update(i, (s[i].0, c)), s[i].0) == Some(c),
        forall|u: Tile| u != s[i].0 ==> lookup(s.update(i, (s[i].0, c)), u) == lookup(s, u),
        total(s.update(i, (s[i].0, c))) + s[i].1 == total(s) + c,
        unique_keys(s) ==> unique_keys(s.update(i, (s[i].0, c))),
        sorted_keys(s) ==> sorted_keys(s.update(i, (s[i].0, c))),
{
    let s2 = s.update(i, (s[i].0, c));
    if sorted_keys(s) {
        assert forall|a: int, b: int| 0 <= a < b < s2.len() implies tile_rank((#[trigger] s2[a]).0) < tile_rank(
            (#[trigger] s2[b]).0,
        ) by {
            assert(s2[a].0 == s[a].0 && s2[b].0 == s[b].0);
        }
    }
    lemma_total_update(s, i, (s[i].0, c));
    lemma_index_of(s, s[i].0);
    lemma_index_of_is(s2, s[i].0, i);
    assert forall|u: Tile| u != s[i].0 implies lookup(s2, u) == lookup(s, u) by {
        lemma_index_of(s, u);
        lemma_index_of_is(s2, u, index_of(s, u));
    }
}

/// Inserting the entry for a tile without one, anywhere, records its count.
proof fn lemma_insert_entry(s: Seq<(Tile, u8)>, p: int, t: Tile, c: u8)
    requires
        0 <= p <= s.len(),
        index_of(s, t) < 0,
    ensures
        lookup(s.insert(p, (t, c)), t) == Some(c),
        forall|u: Tile| u != t ==> lookup(s.insert(p, (t, c)), u) == lookup(s, u),
        total(s.insert(p, (t, c))) == total(s) + c,
        unique_keys(s) ==> unique_keys(s.insert(p, (t, c))),
        sorted_keys(s) && (forall|j: int| 0 <= j < p ==> tile_rank((#[trigger] s[j]).0) < tile_rank(t)) && (p < s.len()
            ==> tile_rank(s[p].0) > tile_rank(t)) ==> sorted_keys(s.insert(p, (t, c))),
{
    let s2 = s.insert(p, (t, c));
    if sorted_keys(s) && (forall|j: int| 0 <= j < p ==> tile_rank((#[trigger] s[j]).0) < tile_rank(t)) && (p < s.len()
        ==> tile_rank(s[p].0) > tile_rank(t)) {
        assert forall|a: int, b: int| 0 <= a < b < s2.len() implies tile_rank((#[trigger] s2[a]).0) < tile_rank(
            (#[trigger] s2[b]).0,
        ) by {
            if a == p {
                assert(s2[b] == s[b - 1]);
                if b - 1 > p {
                    assert(tile_rank(s[p].0) < tile_rank(s[b - 1].0));
                }
            } else if b == p {
                assert(s2[a] == s[a]);
            } else {
                let x = if a < p { a } else { a - 1 };
                let y = if b < p { b } else { b - 1 };
                assert(s2[a] == s[x] && s2[b] == s[y]);
                if x == p - 1 && y == p {
                } else if x < p && y >= p {
                    assert(tile_rank(s[x].0) < tile_rank(t));
                    if y > p {
                        assert(tile_rank(s[p].0) < tile_rank(s[y].0));
                    }
                }
            }
        }
    }
    lemma_total_insert(s, p, (t, c));
    lemma_index_of(s, t);
    lemma_index_of_is(s2, t, p);
    assert forall|u: Tile| u != t implies lookup(s2, u) == lookup(s, u) by {
        lemma_index_of(s, u);
        let k = index_of(s, u);
        let k2 = if k < 0 { -1 } else if k < p { k } else { k + 1 };
        lemma_index_of_is(s2, u, k2);
    }
    if unique_keys(s) {
        assert forall|i: int, j: int| 0 <= i < j < s2.len() implies (#[trigger] s2[i]).0 != (#[trigger] s2[j]).0 by {
            if i == p {
                assert(s2[j] == s[j - 1]);
            } else if j == p {
                assert(s2[i] == s[i]);
            } else {
                let a = if i < p { i } else { i - 1 };
                let b = if j < p { j } else { j - 1 };
                assert(s2[i] == s[a] && s2[j] == s[b]);
            }
        }
    }
}

/// Dropping the entries with a count of zero changes no count.
proof fn lemma_nonzero(s: Seq<(Tile, u8)>)
    requires
        unique_keys(s),
    ensures
        forall|u: Tile| #[trigger] held(nonzero(s), u) == held(s, u),
        total(nonzero(s)) == total(s),
        unique_keys(nonzero(s)),
        forall|x: (Tile, u8)| nonzero(s).contains(x) ==> s.contains(x),
        forall|j: int| 0 <= j < nonzero(s).len() ==> (#[trigger] nonzero(s)[j]).1 > 0,
        sorted_keys(s) ==> sorted_keys(nonzero(s)),
    decreases s.len(),
{
    if s.len() > 0 {
        let d = s.drop_first();
        if sorted_keys(s) {
            assert(sorted_keys(d)) by {
                assert forall|i: int, j: int| 0 <= i < j < d.len() implies tile_rank((#[trigger] d[i]).0) < tile_rank(
                    (#[trigger] d[j]).0,
                ) by {
                    assert(d[i] == s[i + 1] && d[j] == s[j + 1]);
                }
            }
        }
        assert(unique_keys(d)) by {
            assert forall|i: int, j: int| 0 <= i < j < d.len() implies (#[trigger] d[i]).0 != (#[trigger] d[j]).0 by {
                assert(d[i] == s[i + 1] && d[j] == s[j + 1]);
            }
        }
        lemma_nonzero(d);
        let r = nonzero(d);
        assert forall|x: (Tile, u8)| nonzero(s).contains(x) implies s.contains(x) by {
            let k = choose|k: int| 0 <= k < nonzero(s).len() && nonzero(s)[k] == x;
            if s[0].1 > 0 && k == 0 {
                assert(s[0] == x);
            } else {
                let k2 = if s[0].1 > 0 { k - 1 } else { k };
                assert(r[k2] == x);
                assert(r.contains(x));
                assert(d.contains(x));
                let m = choose|m: int| 0 <= m < d.len() && d[m] == x;
                assert(s[m + 1] == x);
            }
        }
        assert forall|u: Tile| #[trigger] held(nonzero(s), u) == held(s, u) by {
            lemma_index_of(s, u);
            lemma_index_of(d, u);
            lemma_index_of(r, u);
            assert(held(r, u) == held(d, u));
            if s[0].0 == u {
                // `u` has no entry further on.
                assert forall|m: int| 0 <= m < d.len() implies d[m].0 != u by {
                    assert(d[m] == s[m + 1]);
                }
                lemma_index_of_is(d, u, -1);
                lemma_index_of_is(s, u, 0);
                if s[0].1 > 0 {
                    assert(nonzero(s)[0] == s[0]);
                    lemma_index_of_is(nonzero(s), u, 0);
                }
            } else {
                let k = index_of(d, u);
                if k >= 0 {
                    assert(s[k + 1] == d[k]);
                    assert forall|m: int| 0 <= m < s.len() && m < k + 1 implies s[m].0 != u by {
                        if m > 0 {
                            assert(s[m] == d[m - 1]);
                        }
                    }
                    lemma_index_of_is(s, u, k + 1);
                } else {
                    assert forall|m: int| 0 <= m < s.len() implies s[m].0 != u by {
                        if m > 0 {
                            assert(s[m] == d[m - 1]);
                        }
                    }
                    lemma_index_of_is(s, u, -1);
                }
                assert(held(s, u) == held(d, u));
                if s[0].1 > 0 {
                    let n = nonzero(s);
                    assert(n =~= seq![s[0]] + r);
                    let kr = index_of(r, u);
                    if kr >= 0 {
                        assert(n[kr + 1] == r[kr]);
                        assert forall|m: int| 0 <= m < n.len() && m < kr + 1 implies n[m].0 != u by {
                            if m > 0 {
                                assert(n[m] == r[m - 1]);
                            }
                        }
                        lemma_index_of_is(n, u, kr + 1);
                    } else {
                        assert forall|m: int| 0 <= m < n.len() implies n[m].0 != u by {
                            if m > 0 {
                                assert(n[m] == r[m - 1]);
                            }
                        }
                        lemma_index_of_is(n, u, -1);
                    }
                }
            }
        }
        assert forall|j: int| 0 <= j < nonzero(s).len() implies (#[trigger] nonzero(s)[j]).1 > 0 by {
            if s[0].1 > 0 && j > 0 {
                assert(nonzero(s)[j] == r[j - 1]);
            }
        }
        if s[0].1 > 0 && sorted_keys(s) {
            let n = nonzero(s);
            assert(n =~= seq![s[0]] + r);
            assert forall|i: int, j: int| 0 <= i < j < n.len() implies tile_rank((#[trigger] n[i]).0) < tile_rank(
                (#[trigger] n[j]).0,
            ) by {
                assert(n[j] == r[j - 1]);
                if i == 0 {
                    assert(r.contains(r[j - 1]));
                    assert(d.contains(r[j - 1]));
                    let m = choose|m: int| 0 <= m < d.len() && d[m] == r[j - 1];
                    assert(s[m + 1] == r[j - 1]);
                } else {
                    assert(n[i] == r[i - 1]);
                }
            }
        }
        if s[0].1 > 0 {
            let n = nonzero(s);
            assert(n.drop_first() =~= r);
            assert(unique_keys(n)) by {
                assert forall|i: int, j: int| 0 <= i < j < n.len() implies (#[trigger] n[i]).0 != (#[trigger] n[j]).0 by {
                    if i == 0 {
                        assert(n[j] == r[j - 1]);
                        assert(r.contains(r[j - 1]));
                        assert(d.contains(r[j - 1]));
                        let m = choose|m: int| 0 <= m < d.len() && d[m] == r[j - 1];
                        assert(s[m + 1] == r[j - 1]);
                    } else {
                        assert(n[i] == r[i - 1] && n[j] == r[j - 1]);
                    }
                }
            }
        }
    }
}

/// Tile counts with one entry per tile, kept in tile order. An entry may record a count of
/// zero.
pub struct TileMap {
    entries: Vec<(Tile, u8)>,
}

impl TileMap {
    pub closed spec fn view(&self) -> Seq<(Tile, u8)> {
        self.entries@
    }

    /// Every tile has at most one entry, and the entries are in tile order.
    pub open spec fn wf(&self) -> bool {
        unique_keys(self.view()) && sorted_keys(self.view())
    }

    pub fn new() -> (r: Self)
        ensures
            r.view() == Seq::<(Tile, u8)>::empty(),
            r.wf(),
    {
        TileMap { entries: Vec::new() }
    }

    /// A map holding `entries`; a later entry for a tile replaces an earlier one.
    pub fn from_entries(entries: Vec<(Tile, u8)>) -> (r: Self)
        ensures
            r.wf(),
            forall|i: int|
                0 <= i < entries@.len() && (forall|j: int| i < j < entries@.len() ==> entries@[j].0 != entries@[i].0)
                    ==> lookup(r.view(), #[trigger] entries@[i].0) == Some(entries@[i].1),
            forall|u: Tile| (forall|i: int| 0 <= i < entries@.len() ==> entries@[i].0 != u) ==> lookup(r.view(), u) is None,
    {
        let mut map = TileMap::new();
        let mut i: usize = 0;
        while i < entries.len()
            invariant
                i <= entries.len(),
                map.wf(),
                forall|k: int|
                    0 <= k < i && (forall|j: int| k < j < i ==> entries@[j].0 != entries@[k].0) ==> lookup(
                        map.view(),
                        #[trigger] entries@[k].0,
                    ) == Some(entries@[k].1),
                forall|u: Tile| (forall|k: int| 0 <= k < i ==> entries@[k].0 != u) ==> lookup(map.view(), u) is None,
            decreases entries.len() - i,
        {
            let (t, c) = entries[i];
            map.insert(t, c);
            i = i + 1;
        }
        map
    }

    /// Position of the entry for `t`.
    fn find(&self, t: &Tile) -> (r: Option<usize>)
        ensures
            r matches Some(i) ==> i == index_of(self.view(), *t) && i < self.view().len() && self.view()[i as int].0
                == *t,
            r is None <==> index_of(self.view(), *t) < 0,
    {
        proof {
            lemma_index_of(self.view(), *t);
        }
        let mut i: usize = 0;
        while i < self.entries.len()
            invariant
                i <= self.entries.len(),
                forall|j: int| 0 <= j < i ==> self.entries@[j].0 != *t,
                -1 <= index_of(self.view(), *t) < self.view().len(),
                index_of(self.view(), *t) >= 0 ==> self.view()[index_of(self.view(), *t)].0 == *t,
                forall|j: int|
                    0 <= j < self.view().len() && (index_of(self.view(), *t) < 0 || j < index_of(self.view(), *t))
                        ==> self.view()[j].0 != *t,
            decreases self.entries.len() - i,
        {
            if self.entries[i].0 == *t {
                return Some(i);
            }
            i = i + 1;
        }
        None
    }

    /// The count recorded for `t`, if `t` has an entry.
    pub fn get(&self, t: &Tile) -> (r: Option<u8>)
        ensures
            r == lookup(self.view(), *t),
    {
        match self.find(t) {
            Some(i) => Some(self.entries[i].1),
            None => None,
        }
    }

    pub fn contains_key(&self, t: &Tile) -> (r: bool)
        ensures
            r == lookup(self.view(), *t) is Some,
    {
        self.find(t).is_some()
    }

    /// Records `c` copies of `t`; a new entry goes to its place in tile order.
    pub fn insert(&mut self, t: Tile, c: u8)
        ensures
            old(self).wf() ==> final(self).wf(),
            total(final(self).view()) + held(old(self).view(), t) == total(old(self).view()) + c,
            lookup(final(self).view(), t) == Some(c),
            forall|u: Tile| u != t ==> lookup(final(self).view(), u) == lookup(old(self).view(), u),
    {
        match self.find(&t) {
            Some(i) => {
                proof {
                    lemma_update_count(self.view(), i as int, c);
                }
                self.entries.set(i, (t, c));
            },
            None => {
                let mut p: usize = 0;
                let rank = t.rank();
                while p < self.entries.len() && self.entries[p].0.rank() < rank
                    invariant
                        p <= self.entries.len(),
                        rank == tile_rank(t),
                        forall|j: int| 0 <= j < p ==> tile_rank((#[trigger] self.entries@[j]).0) < tile_rank(t),
                    decreases self.entries.len() - p,
                {
                    p = p + 1;
                }
                proof {
                    lemma_index_of(self.view(), t);
                    if p < self.entries.len() {
                        assert(self.view()[p as int].0 != t);
                        lemma_tile_rank_injective(self.view()[p as int].0, t);
                    }
                    lemma_insert_entry(self.view(), p as int, t, c);
                }
                self.entries.insert(p, (t, c));
            },
        }
    }

    /// Adds one copy of `t`.
    pub fn increment(&mut self, t: &Tile)
        requires
            held(old(self).view(), *t) < u8::MAX,
        ensures
            old(self).wf() ==> final(self).wf(),
            held(final(self).view(), *t) == held(old(self).view(), *t) + 1,
            lookup(final(self).view(), *t) is Some,
            forall|u: Tile| u != *t ==> lookup(final(self).view(), u) == lookup(old(self).view(), u),
            total(final(self).view()) == total(old(self).view()) + 1,
    {
        match self.find(t) {
            Some(i) => {
                let c = self.entries[i].1;
                proof {
                    lemma_update_count(self.view(), i as int, (c + 1) as u8);
                }
                self.entries.set(i, (*t, c + 1));
            },
            None => {
                self.insert(*t, 1);
            },
        }
    }

    /// Takes `n` copies of `t` away, leaving the entry in place.
    pub fn subtract(&mut self, t: &Tile, n: u8)
        requires
            held(old(self).view(), *t) >= n,
            lookup(old(self).view(), *t) is Some,
        ensures
            old(self).wf() ==> final(self).wf(),
            final(self).view() == old(self).view().update(
                index_of(old(self).view(), *t),
                (*t, (held(old(self).view(), *t) - n) as u8),
            ),
            held(final(self).view(), *t) + n == held(old(self).view(), *t),
            lookup(final(self).view(), *t) is Some,
            forall|u: Tile| u != *t ==> lookup(final(self).view(), u) == lookup(old(self).view(), u),
            total(final(self).view()) + n == total(old(self).view()),
    {
        let i = self.find(t).unwrap();
        let c = self.entries[i].1;
        proof {
            lemma_update_count(self.view(), i as int, (c - n) as u8);
        }
        self.entries.set(i, (*t, c - n));
    }

    /// The entries in order.
    pub fn entries(&self) -> (r: Vec<(Tile, u8)>)
        ensures
            r@ == self.view(),
    {
        let mut r: Vec<(Tile, u8)> = Vec::new();
        let mut i: usize = 0;
        while i < self.entries.len()
            invariant
                i <= self.entries.len(),
                r@ == self.entries@.take(i as int),
            decreases self.entries.len() - i,
        {
            r.push(self.entries[i]);
            i = i + 1;
            assert(r@ =~= self.entries@.take(i as int));
        }
        assert(self.entries@.take(i as int) =~= self.entries@);
        r
    }

    pub fn is_empty(&self) -> (r: bool)
        ensures
            r == (self.view().len() == 0),
    {
        self.entries.len() == 0
    }

    /// A copy of the map.
    pub fn duplicate(&self) -> (r: TileMap)
        ensures
            r.view() == self.view(),
            r.wf() == self.wf(),
    {
        TileMap { entries: self.entries() }
    }
}

/// Drops the entries whose count is zero.
pub fn clear_zero_keys(map: &mut TileMap)
    requires
        old(map).wf(),
    ensures
        final(map).wf(),
        forall|j: int| 0 <= j < final(map).view().len() ==> (#[trigger] final(map).view()[j]).1 > 0,
        final(map).view() == nonzero(old(map).view()),
        forall|u: Tile| #[trigger] held(final(map).view(), u) == held(old(map).view(), u),
        total(final(map).view()) == total(old(map).view()),
{
    let ghost s = map.view();
    let entries = map.entries();
    let mut kept: Vec<(Tile, u8)> = Vec::new();
    let mut i: usize = entries.len();
    while i > 0
        invariant
            i <= entries.len(),
            entries@ == s,
            kept@ == nonzero(s.skip(i as int)),
        decreases i,
    {
        i = i - 1;
        let e = entries[i];
        assert(s.skip(i as int).drop_first() =~= s.skip(i + 1));
        if e.1 > 0 {
            kept.insert(0, e);
            assert(kept@ =~= seq![e] + nonzero(s.skip(i + 1)));
        }
    }
    assert(s.skip(0) =~= s);
    proof {
        lemma_nonzero(s);
    }
    *map = TileMap { entries: kept };
}

} // verus!

verus! {

/// The tiles of a meld.
pub open spec fn meld_held(m: Meld, u: Tile) -> nat {
    match m {
        Meld::Chi(c) => (if c.view().0 == u { 1nat } else { 0nat }) + (if c.view().1 == u { 1nat } else { 0nat }) + (
        if c.view().2 == u {
            1nat
        } else {
            0nat
        }),
        Meld::Pong(p) => if p.view() == u {
            3
        } else {
            0
        },
        Meld::Gang(g) => if g.view() == u {
            4
        } else {
            0
        },
        Meld::AnGang(a) => if a.view() == u {
            4
        } else {
            0
        },
    }
}

/// How many copies of `u` a list of melds holds.
pub open spec fn melds_held(ms: Seq<Meld>, u: Tile) -> nat
    decreases ms.len(),
{
    if ms.len() == 0 {
        0
    } else {
        melds_held(ms.drop_last(), u) + meld_held(ms.last(), u)
    }
}

/// The number tile of the suit of `t` whose value is `k` above that of `t`, if `t` is a
/// number tile and that value fits.
pub open spec fn spec_offset(t: Tile, k: int) -> Option<Tile> {
    let v = super::meld::face(t) + k;
    if value_suit(t) && -128 <= v <= 127 {
        Some(
            match t {
                Tile::Wan(_) => Tile::Wan(v as i8),
                Tile::Suo(_) => Tile::Suo(v as i8),
                _ => Tile::Tong(v as i8),
            },
        )
    } else {
        None
    }
}

fn offset_tile(t: &Tile, k: i16) -> (r: Option<Tile>)
    requires
        -2 <= k <= 2,
    ensures
        r == spec_offset(*t, k as int),
{
    match t {
        Tile::Wan(v) | Tile::Suo(v) | Tile::Tong(v) => {
            let w = *v as i16 + k;
            if -128 <= w && w <= 127 {
                Some(
                    match t {
                        Tile::Wan(_) => Tile::Wan(w as i8),
                        Tile::Suo(_) => Tile::Suo(w as i8),
                        _ => Tile::Tong(w as i8),
                    },
                )
            } else {
                None
            }
        },
        _ => None,
    }
}

/// Appends `m` to every list of `lists`, keeping their order.
fn push_to_each(lists: Vec<Vec<Meld>>, m: Meld) -> (r: Vec<Vec<Meld>>)
    ensures
        r@.len() == lists@.len(),
        forall|i: int| 0 <= i < r@.len() ==> (#[trigger] r@[i])@ == lists@[i]@.push(m),
{
    let mut lists = lists;
    let ghost all = lists@;
    let mut reversed: Vec<Vec<Meld>> = Vec::new();
    while lists.len() > 0
        invariant
            lists@.len() <= all.len(),
            lists@ == all.take(lists@.len() as int),
            reversed@.len() == all.len() - lists@.len(),
            forall|k: int| 0 <= k < reversed@.len() ==> (#[trigger] reversed@[k])@ == all[all.len() - 1 - k]@.push(m),
        decreases lists@.len(),
    {
        let ghost before = lists@;
        let mut l = lists.pop().unwrap();
        assert(l == all[before.len() - 1]);
        l.push(m);
        reversed.push(l);
        assert(lists@ =~= all.take(lists@.len() as int));
    }
    let mut r: Vec<Vec<Meld>> = Vec::new();
    while reversed.len() > 0
        invariant
            reversed@.len() <= all.len(),
            r@.len() + reversed@.len() == all.len(),
            forall|k: int| 0 <= k < reversed@.len() ==> (#[trigger] reversed@[k])@ == all[all.len() - 1 - k]@.push(m),
            forall|i: int| 0 <= i < r@.len() ==> (#[trigger] r@[i])@ == all[i]@.push(m),
        decreases reversed@.len(),
    {
        let ghost before = reversed@;
        let l = reversed.pop().unwrap();
        assert(l == before[before.len() - 1]);
        r.push(l);
    }
    r
}

proof fn lemma_melds_held_push(ms: Seq<Meld>, m: Meld, u: Tile)
    ensures
        melds_held(ms.push(m), u) == melds_held(ms, u) + meld_held(m, u),
{
    assert(ms.push(m).drop_last() =~= ms);
}

/// Triplets of playable tiles and runs that hold exactly the tiles of `s`.
pub open spec fn is_meld_split(ms: Seq<Meld>, s: Seq<(Tile, u8)>) -> bool {
    &&& forall|i: int| 0 <= i < ms.len() ==> #[trigger] split_meld(ms[i])
    &&& forall|u: Tile| #[trigger] melds_held(ms, u) == held(s, u)
}

/// A triplet of a playable tile, or a run.
pub open spec fn split_meld(m: Meld) -> bool {
    match m {
        Meld::Pong(p) => playable_tile(p.view()),
        Meld::Chi(c) => is_run_of(c.view().0, c.view().1, c.view().2),
        _ => false,
    }
}

/// The lowest tile of a run, by value.
pub open spec fn run_low(v: (Tile, Tile, Tile)) -> Tile {
    if super::meld::face(v.0) <= super::meld::face(v.1) && super::meld::face(v.0) <= super::meld::face(v.2) {
        v.0
    } else if super::meld::face(v.1) <= super::meld::face(v.2) {
        v.1
    } else {
        v.2
    }
}

/// What a meld is made of, whatever the order of its tiles: whether it is a run, and its
/// lowest tile.
pub open spec fn meld_key(m: Meld) -> (bool, Tile) {
    match m {
        Meld::Chi(c) => (true, run_low(c.view())),
        Meld::Pong(p) => (false, p.view()),
        Meld::Gang(g) => (false, g.view()),
        Meld::AnGang(a) => (false, a.view()),
    }
}

/// The melds of a split, whatever their order.
pub open spec fn split_keys(ms: Seq<Meld>) -> vstd::multiset::Multiset<(bool, Tile)> {
    ms.map_values(|m: Meld| meld_key(m)).to_multiset()
}

proof fn lemma_split_keys_push(ms: Seq<Meld>, m: Meld)
    ensures
        split_keys(ms.push(m)) == split_keys(ms).insert(meld_key(m)),
{
    assert(ms.push(m).map_values(|m: Meld| meld_key(m)) =~= ms.map_values(|m: Meld| meld_key(m)).push(meld_key(m)));
    vstd::seq_lib::to_multiset_build(ms.map_values(|m: Meld| meld_key(m)), meld_key(m));
}

proof fn lemma_split_keys_remove(ms: Seq<Meld>, k: int)
    requires
        0 <= k < ms.len(),
    ensures
        split_keys(ms) == split_keys(ms.remove(k)).insert(meld_key(ms[k])),
{
    let mapped = ms.map_values(|m: Meld| meld_key(m));
    assert(mapped.remove(k) =~= ms.remove(k).map_values(|m: Meld| meld_key(m)));
    vstd::seq_lib::to_multiset_remove(mapped, k);
    vstd::seq_lib::to_multiset_contains(mapped, mapped[k]);
    assert(mapped.contains(mapped[k]));
    assert(split_keys(ms) =~= split_keys(ms.remove(k)).insert(meld_key(ms[k])));
}

/// Some list of `r[lo..hi]` holds the melds of `ms`, in some order.
pub open spec fn split_found(r: Seq<Vec<Meld>>, lo: int, hi: int, ms: Seq<Meld>) -> bool {
    exists|i: int| lo <= i < hi && #[trigger] split_keys(r[i]@) == split_keys(ms)
}

/// `ms` holds a triplet of `t`.
pub open spec fn has_pong_of(ms: Seq<Meld>, t: Tile) -> bool {
    exists|k: int| 0 <= k < ms.len() && (#[trigger] ms[k] matches Meld::Pong(p) && p.view() == t)
}

proof fn lemma_melds_held_remove(ms: Seq<Meld>, j: int, u: Tile)
    requires
        0 <= j < ms.len(),
    ensures
        melds_held(ms, u) == melds_held(ms.remove(j), u) + meld_held(ms[j], u),
    decreases ms.len(),
{
    if j == ms.len() - 1 {
        assert(ms.remove(j) =~= ms.drop_last());
    } else {
        assert(ms.remove(j).drop_last() =~= ms.drop_last().remove(j));
        assert(ms.remove(j).last() == ms.last());
        lemma_melds_held_remove(ms.drop_last(), j, u);
    }
}

proof fn lemma_melds_held_member(ms: Seq<Meld>, u: Tile) -> (j: int)
    requires
        melds_held(ms, u) > 0,
    ensures
        0 <= j < ms.len(),
        meld_held(ms[j], u) > 0,
    decreases ms.len(),
{
    if meld_held(ms.last(), u) > 0 {
        ms.len() - 1
    } else {
        lemma_melds_held_member(ms.drop_last(), u)
    }
}

/// In a split of `s`, the lowest held tile `t` lies in a triplet of `t` or in the run that
/// starts at `t`, whose other tiles are the two codes above it.
proof fn lemma_lowest_split(ms: Seq<Meld>, s: Seq<(Tile, u8)>, t: Tile) -> (j: int)
    requires
        is_meld_split(ms, s),
        held(s, t) > 0,
        forall|u: Tile| held(s, u) > 0 && u != t ==> tile_rank(t) < tile_rank(u),
    ensures
        0 <= j < ms.len(),
        forall|i: int| 0 <= i < ms.remove(j).len() ==> #[trigger] split_meld(ms.remove(j)[i]),
        forall|u: Tile| #[trigger] melds_held(ms.remove(j), u) + meld_held(ms[j], u) == held(s, u),
        ms[j] is Pong ==> (ms[j] matches Meld::Pong(p) && p.view() == t && held(s, t) >= 3 && playable_tile(t)),
        ms[j] is Chi ==> meld_key(ms[j]) == (true, t),
        !(ms[j] is Pong) ==> value_suit(t) && (spec_offset(t, 1) matches Some(n1) && spec_offset(t, 2) matches Some(
            n2,
        ) && is_run_of(t, n1, n2) && held(s, n1) > 0 && held(s, n2) > 0 && forall|u: Tile|
            #[trigger] meld_held(ms[j], u) == (if u == t { 1nat } else { 0nat }) + (if u == n1 { 1nat } else { 0nat }) + (
            if u == n2 {
                1nat
            } else {
                0nat
            })),
{
    let j = lemma_melds_held_member(ms, t);
    assert forall|u: Tile| #[trigger] melds_held(ms.remove(j), u) + meld_held(ms[j], u) == held(s, u) by {
        lemma_melds_held_remove(ms, j, u);
    }
    assert forall|i: int| 0 <= i < ms.remove(j).len() implies #[trigger] split_meld(ms.remove(j)[i]) by {
        if i < j {
            assert(ms.remove(j)[i] == ms[i]);
        } else {
            assert(ms.remove(j)[i] == ms[i + 1]);
        }
    }
    assert(split_meld(ms[j]));
    match ms[j] {
        Meld::Pong(p) => {
            assert(p.view() == t);
            assert(melds_held(ms.remove(j), t) + meld_held(ms[j], t) == held(s, t));
        },
        Meld::Chi(c) => {
            let (a, b, x) = c.view();
            assert(held(s, a) > 0 && held(s, b) > 0 && held(s, x) > 0) by {
                assert(melds_held(ms.remove(j), a) + meld_held(ms[j], a) == held(s, a));
                assert(melds_held(ms.remove(j), b) + meld_held(ms[j], b) == held(s, b));
                assert(melds_held(ms.remove(j), x) + meld_held(ms[j], x) == held(s, x));
            }
            let m = super::meld::face(t);
            let n1 = if super::meld::face(a) == m + 1 { a } else if super::meld::face(b) == m + 1 { b } else { x };
            let n2 = if super::meld::face(a) == m + 2 { a } else if super::meld::face(b) == m + 2 { b } else { x };
            assert(tile_rank(t) <= tile_rank(a) && tile_rank(t) <= tile_rank(b) && tile_rank(t) <= tile_rank(x));
            assert(spec_offset(t, 1) == Some(n1));
            assert(spec_offset(t, 2) == Some(n2));
        },
        _ => {},
    }
    j
}

/// Ways to split the tiles of `hand` into triplets and runs, each as a list of melds in
/// the reverse of the order in which they were taken: the lowest tile is taken first, as a
/// triplet when there are three of it, then as the start of a run. Entries with a count of
/// zero hold no tile. Every list is a split of the hand, and every split of the hand is
/// found, with its melds in some order (a run is known by its tiles, whatever their order).
/// An empty hand splits in one way, into no melds.
#[verifier::rlimit(100)]
pub fn check_can_meld_all(hand: TileMap) -> (r: Vec<Vec<Meld>>)
    requires
        hand.wf(),
    ensures
        forall|i: int, u: Tile| 0 <= i < r@.len() ==> #[trigger] melds_held(r@[i]@, u) == held(hand.view(), u),
        forall|i: int| 0 <= i < r@.len() ==> is_meld_split(#[trigger] r@[i]@, hand.view()),
        total(hand.view()) == 0 ==> r@.len() == 1 && r@[0]@.len() == 0,
        (exists|ms: Seq<Meld>| is_meld_split(ms, hand.view())) <==> r@.len() > 0,
        forall|ms: Seq<Meld>| #[trigger] is_meld_split(ms, hand.view()) ==> split_found(r@, 0, r@.len() as int, ms),
    decreases total(hand.view()),
{
    let ghost h0 = hand.view();
    let mut hand = hand;
    clear_zero_keys(&mut hand);
    let mut melds: Vec<Vec<Meld>> = Vec::new();
    if hand.is_empty() {
        melds.push(Vec::new());
        assert forall|u: Tile| melds_held(melds@[0]@, u) == held(h0, u) by {
            assert(held(hand.view(), u) == 0);
        }
        assert(is_meld_split(melds@[0]@, h0));
        proof {
            assert forall|ms: Seq<Meld>| #[trigger] is_meld_split(ms, h0) implies split_found(
                melds@,
                0,
                melds@.len() as int,
                ms,
            ) by {
                if ms.len() > 0 {
                    let m = ms.last();
                    assert(split_meld(ms[ms.len() - 1]));
                    let u = match m {
                        Meld::Chi(c) => c.view().0,
                        Meld::Pong(p) => p.view(),
                        Meld::Gang(g) => g.view(),
                        Meld::AnGang(a) => a.view(),
                    };
                    assert(meld_held(m, u) > 0);
                    assert(melds_held(ms, u) == melds_held(ms.drop_last(), u) + meld_held(m, u));
                    assert(held(hand.view(), u) == 0);
                    assert(false);
                }
                assert(ms =~= Seq::<Meld>::empty());
                assert(melds@[0]@ =~= Seq::<Meld>::empty());
                assert(split_keys(melds@[0]@) == split_keys(ms));
            }
        }
        return melds;
    }
    proof {
        lemma_nonzero(h0);
        assert(hand.view()[0].1 > 0);
        lemma_index_of_unique(hand.view(), 0);
        if total(h0) == 0 {
            assert(total(hand.view()) == hand.view()[0].1 + total(hand.view().drop_first()));
        }
    }
    let entries = hand.entries();
    let t = entries[0].0;
    let num = entries[0].1;
    let ghost h = hand.view();
    let ghost has = exists|ms: Seq<Meld>| is_meld_split(ms, h0);
    let ghost ms_w = choose|ms: Seq<Meld>| is_meld_split(ms, h0);
    let ghost mut j: int = 0;
    let ghost mut grew = false;
    let ghost mut pong_done = false;
    let ghost mut chi_done = false;
    proof {
        assert forall|u: Tile| held(h, u) > 0 && u != t implies tile_rank(t) < tile_rank(u) by {
            lemma_index_of(h, u);
            let k = index_of(h, u);
            assert(k > 0);
        }
        assert forall|ms: Seq<Meld>| #[trigger] is_meld_split(ms, h0) implies is_meld_split(ms, h) by {}
        if has {
            assert(is_meld_split(ms_w, h));
            j = lemma_lowest_split(ms_w, h, t);
        }
    }
    if num >= 3 {
        if let Ok(p) = Pong::new(t) {
            let mut next = hand.duplicate();
            next.subtract(&t, 3);
            let ghost next_view = next.view();
            let other = check_can_meld_all(next);
            let ghost other_view = other@;
            let mut with_pong = push_to_each(other, Meld::Pong(p));
            proof {
                assert forall|i: int, u: Tile| 0 <= i < with_pong@.len() implies #[trigger] melds_held(
                    with_pong@[i]@,
                    u,
                ) == held(h0, u) by {
                    lemma_melds_held_push(other_view[i]@, Meld::Pong(p), u);
                    assert(melds_held(other_view[i]@, u) == held(next_view, u));
                    assert(held(hand.view(), u) == held(h0, u));
                }
                if has && ms_w[j] is Pong {
                    let rest = ms_w.remove(j);
                    assert forall|u: Tile| #[trigger] melds_held(rest, u) == held(next_view, u) by {
                        assert(melds_held(rest, u) + meld_held(ms_w[j], u) == held(h, u));
                    }
                    assert(is_meld_split(rest, next_view));
                    assert(with_pong@.len() > 0);
                    grew = true;
                }
                assert forall|ms: Seq<Meld>| #[trigger] is_meld_split(ms, h0) && has_pong_of(ms, t) implies split_found(
                    with_pong@,
                    0,
                    with_pong@.len() as int,
                    ms,
                ) by {
                    let k = choose|k: int| 0 <= k < ms.len() && (#[trigger] ms[k] matches Meld::Pong(q) && q.view() == t);
                    let rest = ms.remove(k);
                    assert forall|u: Tile| #[trigger] melds_held(rest, u) == held(next_view, u) by {
                        lemma_melds_held_remove(ms, k, u);
                        assert(melds_held(ms, u) == held(h, u));
                    }
                    assert forall|i: int| 0 <= i < rest.len() implies #[trigger] split_meld(rest[i]) by {
                        if i < k {
                            assert(rest[i] == ms[i]);
                        } else {
                            assert(rest[i] == ms[i + 1]);
                        }
                    }
                    assert(is_meld_split(rest, next_view));
                    let i = choose|i: int| 0 <= i < other_view.len() && #[trigger] split_keys(other_view[i]@) == split_keys(rest);
                    lemma_split_keys_push(other_view[i]@, Meld::Pong(p));
                    lemma_split_keys_remove(ms, k);
                    assert(split_keys(with_pong@[i]@) == split_keys(ms));
                }
                pong_done = true;
            }
            melds.append(&mut with_pong);
        }
    }
    let ghost after_pong = melds@;
    assert(pong_done ==> forall|ms: Seq<Meld>| #[trigger] is_meld_split(ms, h0) && has_pong_of(ms, t) ==> split_found(
        after_pong,
        0,
        after_pong.len() as int,
        ms,
    ));
    proof {
        assert forall|ms: Seq<Meld>| #[trigger] is_meld_split(ms, h0) && has_pong_of(ms, t) implies pong_done by {
            let k = choose|k: int| 0 <= k < ms.len() && (#[trigger] ms[k] matches Meld::Pong(q) && q.view() == t);
            lemma_melds_held_remove(ms, k, t);
            assert(melds_held(ms, t) == held(h, t));
            assert(split_meld(ms[k]));
        }
    }
    assert(forall|i: int, u: Tile| 0 <= i < melds@.len() ==> #[trigger] melds_held(melds@[i]@, u) == held(h0, u));
    if !is_value_suit(&t) {
        proof {
            if melds@.len() > 0 {
                assert(is_meld_split(melds@[0]@, h0));
            }
            assert forall|ms: Seq<Meld>| #[trigger] is_meld_split(ms, h0) implies split_found(
                melds@,
                0,
                melds@.len() as int,
                ms,
            ) by {
                if !has_pong_of(ms, t) {
                    let jj = lemma_lowest_split(ms, h, t);
                    assert(!(ms[jj] is Pong)) by {
                        if ms[jj] is Pong {
                            assert(ms[jj] matches Meld::Pong(q) && q.view() == t);
                        }
                    }
                }
            }
        }
        return melds;
    }
    if let (Some(n1), Some(n2)) = (offset_tile(&t, 1), offset_tile(&t, 2)) {
        if let (Some(c1), Some(c2)) = (hand.get(&n1), hand.get(&n2)) {
            if c1 > 0 && c2 > 0 {
                if let Ok(chi) = Chi::new(t, n1, n2) {
                    let mut next = hand.duplicate();
                    next.subtract(&t, 1);
                    next.subtract(&n1, 1);
                    next.subtract(&n2, 1);
                    let ghost next_view = next.view();
                    let other = check_can_meld_all(next);
                    let ghost other_view = other@;
                    let mut with_chi = push_to_each(other, Meld::Chi(chi));
                    let ghost chi_view = with_chi@;
                    proof {
                        assert forall|i: int, u: Tile| 0 <= i < chi_view.len() implies #[trigger] melds_held(
                            chi_view[i]@,
                            u,
                        ) == held(h0, u) by {
                            lemma_melds_held_push(other_view[i]@, Meld::Chi(chi), u);
                            assert(melds_held(other_view[i]@, u) == held(next_view, u));
                            assert(held(hand.view(), u) == held(h0, u));
                        }
                        if has && !(ms_w[j] is Pong) {
                            let rest = ms_w.remove(j);
                            assert forall|u: Tile| #[trigger] melds_held(rest, u) == held(next_view, u) by {
                                assert(melds_held(rest, u) + meld_held(ms_w[j], u) == held(h, u));
                                assert(meld_held(Meld::Chi(chi), u) == meld_held(ms_w[j], u));
                            }
                            assert(is_meld_split(rest, next_view));
                            assert(chi_view.len() > 0);
                            grew = true;
                        }
                        assert forall|ms: Seq<Meld>| #[trigger] is_meld_split(ms, h0) && !has_pong_of(ms, t) implies split_found(
                            chi_view,
                            0,
                            chi_view.len() as int,
                            ms,
                        ) by {
                            let jj = lemma_lowest_split(ms, h, t);
                            assert(!(ms[jj] is Pong)) by {
                                if ms[jj] is Pong {
                                    assert(ms[jj] matches Meld::Pong(q) && q.view() == t);
                                }
                            }
                            assert(split_meld(ms[jj]));
                            assert(ms[jj] is Chi);
                            assert(meld_key(ms[jj]) == (true, t));
                            let rest = ms.remove(jj);
                            assert forall|u: Tile| #[trigger] melds_held(rest, u) == held(next_view, u) by {
                                assert(melds_held(rest, u) + meld_held(ms[jj], u) == held(h, u));
                                assert(meld_held(Meld::Chi(chi), u) == meld_held(ms[jj], u));
                            }
                            assert(is_meld_split(rest, next_view));
                            let i = choose|i: int| 0 <= i < other_view.len() && #[trigger] split_keys(other_view[i]@) == split_keys(rest);
                            lemma_split_keys_push(other_view[i]@, Meld::Chi(chi));
                            lemma_split_keys_remove(ms, jj);
                            assert(meld_key(Meld::Chi(chi)) == (true, t));
                            assert(split_keys(chi_view[i]@) == split_keys(ms));
                        }
                        chi_done = true;
                    }
                    let ghost before = melds@;
                    assert(before == after_pong);
                    melds.append(&mut with_chi);
                    assert forall|ms: Seq<Meld>| #[trigger] is_meld_split(ms, h0) && !has_pong_of(ms, t) implies split_found(
                        melds@,
                        0,
                        melds@.len() as int,
                        ms,
                    ) by {
                        let i = choose|i: int| 0 <= i < chi_view.len() && #[trigger] split_keys(chi_view[i]@) == split_keys(ms);
                        assert(melds@[before.len() + i] == chi_view[i]);
                    }
                    assert forall|i: int, u: Tile| 0 <= i < melds@.len() implies #[trigger] melds_held(melds@[i]@, u)
                        == held(h0, u) by {
                        if i < before.len() {
                            assert(melds@[i] == before[i]);
                        } else {
                            assert(melds@[i] == chi_view[i - before.len()]);
                        }
                    }
                }
            }
        }
    }
    proof {
        if has {
            assert(grew);
        }
        if melds@.len() > 0 {
            assert(is_meld_split(melds@[0]@, h0));
        }
        assert forall|ms: Seq<Meld>| #[trigger] is_meld_split(ms, h0) implies split_found(
            melds@,
            0,
            melds@.len() as int,
            ms,
        ) by {
            if has_pong_of(ms, t) {
                assert(pong_done);
                let i = choose|i: int| 0 <= i < after_pong.len() && #[trigger] split_keys(after_pong[i]@) == split_keys(ms);
                assert(melds@[i] == after_pong[i]);
            } else {
                let jj = lemma_lowest_split(ms, h, t);
                assert(!(ms[jj] is Pong)) by {
                    if ms[jj] is Pong {
                        assert(ms[jj] matches Meld::Pong(q) && q.view() == t);
                    }
                }
                assert(chi_done);
            }
        }
    }
    melds
}

} // verus!

verus! {

/// `ms` are triplets and runs that, with a pair of `t`, hold exactly the tiles of `hand`
/// together with `extra`.
pub open spec fn is_pair_split(ms: Seq<Meld>, t: Tile, hand: Seq<(Tile, u8)>, extra: Option<Tile>) -> bool {
    &&& forall|i: int| 0 <= i < ms.len() ==> #[trigger] split_meld(ms[i])
    &&& forall|u: Tile| #[trigger] melds_held(ms, u) + (if u == t { 2nat } else { 0nat }) == held(hand, u) + (if extra
        == Some(u) {
        1nat
    } else {
        0nat
    })
}

/// The tiles of `hand` with `extra` form a winning hand: a pair, then triplets and runs.
pub open spec fn wins(hand: Seq<(Tile, u8)>, extra: Option<Tile>) -> bool {
    exists|t: Tile, ms: Seq<Meld>| #[trigger] is_pair_split(ms, t, hand, extra)
}

/// Whether the tiles of `h` form a winning hand: every tile held twice is tried as the pair.
fn has_winning_split(h: &TileMap) -> (r: bool)
    requires
        h.wf(),
    ensures
        r == wins(h.view(), None),
{
    let entries = h.entries();
    let mut i: usize = 0;
    while i < entries.len()
        invariant
            i <= entries.len(),
            entries@ == h.view(),
            h.wf(),
            forall|k: int, ms: Seq<Meld>| 0 <= k < i ==> !#[trigger] is_pair_split(ms, entries@[k].0, h.view(), None),
        decreases entries.len() - i,
    {
        let t = entries[i].0;
        let c = entries[i].1;
        proof {
            lemma_index_of_unique(h.view(), i as int);
        }
        if c >= 2 {
            let mut candidate = h.duplicate();
            candidate.subtract(&t, 2);
            let ghost cv = candidate.view();
            let splits = check_can_meld_all(candidate);
            if splits.len() > 0 {
                proof {
                    let ms = splits@[0]@;
                    assert(is_meld_split(ms, cv));
                    assert forall|u: Tile| #[trigger] melds_held(ms, u) + (if u == t { 2nat } else { 0nat }) == held(
                        h.view(),
                        u,
                    ) + (if None::<Tile> == Some(u) { 1nat } else { 0nat }) by {
                        assert(melds_held(ms, u) == held(cv, u));
                    }
                    assert(is_pair_split(ms, t, h.view(), None));
                }
                return true;
            }
            proof {
                assert forall|ms: Seq<Meld>| !#[trigger] is_pair_split(ms, t, h.view(), None) by {
                    if is_pair_split(ms, t, h.view(), None) {
                        assert forall|u: Tile| #[trigger] melds_held(ms, u) == held(cv, u) by {
                            assert(melds_held(ms, u) + (if u == t { 2nat } else { 0nat }) == held(h.view(), u) + (if None::<
                                Tile,
                            > == Some(u) {
                                1nat
                            } else {
                                0nat
                            }));
                        }
                        assert(is_meld_split(ms, cv));
                    }
                }
            }
        } else {
            proof {
                assert forall|ms: Seq<Meld>| !#[trigger] is_pair_split(ms, t, h.view(), None) by {
                    if is_pair_split(ms, t, h.view(), None) {
                        assert(melds_held(ms, t) + 2 == held(h.view(), t) + (if None::<Tile> == Some(t) { 1nat } else { 0nat }));
                    }
                }
            }
        }
        i = i + 1;
    }
    proof {
        if wins(h.view(), None) {
            let (t, ms) = choose|t: Tile, ms: Seq<Meld>| #[trigger] is_pair_split(ms, t, h.view(), None);
            assert(melds_held(ms, t) + 2 == held(h.view(), t) + (if None::<Tile> == Some(t) { 1nat } else { 0nat }));
            lemma_index_of(h.view(), t);
            let k = index_of(h.view(), t);
            assert(entries@[k].0 == t);
            assert(!is_pair_split(ms, entries@[k].0, h.view(), None));
        }
    }
    false
}

/// No entry records a count of zero.
pub open spec fn no_spent_entries(s: Seq<(Tile, u8)>) -> bool {
    forall|j: int| 0 <= j < s.len() ==> (#[trigger] s[j]).1 > 0
}

/// What a player does on a turn.
#[derive(Debug, PartialEq, Eq, Structural, Clone, Copy)]
pub enum Action {
    Discard,
    Hu,
    ZiMuo,
    Meld(Meld),
    /// No action.
    Pass,
}

/// The player's tiles do not allow the action.
#[derive(Debug, PartialEq, Eq, Structural, Clone, Copy)]
pub struct IllegalMoveError(pub Action);

/// Whether `t` occurs in `v`.
fn contains_tile(v: &Vec<Tile>, t: &Tile) -> (r: bool)
    ensures
        r == v@.contains(*t),
{
    let mut i: usize = 0;
    while i < v.len()
        invariant
            i <= v.len(),
            forall|j: int| 0 <= j < i ==> v@[j] != *t,
        decreases v.len() - i,
    {
        if v[i] == *t {
            return true;
        }
        i = i + 1;
    }
    false
}

/// Both tiles are held and `tile` was not skipped.
pub open spec fn spec_can_chi(hand: Seq<(Tile, u8)>, skipped: Seq<Tile>, tile_a: Tile, tile_b: Tile, tile: Tile) -> bool {
    !skipped.contains(tile) && lookup(hand, tile_a) is Some && lookup(hand, tile_b) is Some
}

/// At least two copies are held and `tile` was not skipped.
pub open spec fn spec_can_pong(hand: Seq<(Tile, u8)>, skipped: Seq<Tile>, tile: Tile) -> bool {
    !skipped.contains(tile) && held(hand, tile) >= 2
}

/// The pairs of tiles around `tile` that could run with it: two below, one on either side,
/// two above.
pub open spec fn chi_partners(tile: Tile) -> Seq<(Option<Tile>, Option<Tile>)> {
    seq![
        (spec_offset(tile, -2), spec_offset(tile, -1)),
        (spec_offset(tile, -1), spec_offset(tile, 1)),
        (spec_offset(tile, 1), spec_offset(tile, 2)),
    ]
}

/// The runs that can be claimed with `tile` from the partners in `pairs`, in order.
pub open spec fn claimable_chis(
    hand: Seq<(Tile, u8)>,
    skipped: Seq<Tile>,
    pairs: Seq<(Option<Tile>, Option<Tile>)>,
    tile: Tile,
) -> Seq<(Tile, Tile)>
    decreases pairs.len(),
{
    if pairs.len() == 0 {
        Seq::empty()
    } else {
        let rest = claimable_chis(hand, skipped, pairs.drop_last(), tile);
        match pairs.last() {
            (Some(a), Some(b)) => if spec_can_chi(hand, skipped, a, b, tile) && is_run_of(a, b, tile) {
                rest.push((a, b))
            } else {
                rest
            },
            _ => rest,
        }
    }
}

/// The held tiles with four copies that can form a quad, in the order of the entries.
pub open spec fn quad_tiles(hand: Seq<(Tile, u8)>) -> Seq<Tile>
    decreases hand.len(),
{
    if hand.len() == 0 {
        Seq::empty()
    } else {
        let rest = quad_tiles(hand.drop_last());
        if hand.last().1 == 4 && playable_tile(hand.last().0) {
            rest.push(hand.last().0)
        } else {
            rest
        }
    }
}

/// A player at the table.
pub struct Player {
    hand: TileMap,
    flowers: Vec<Tile>,
    animals: Vec<Tile>,
    melds: Vec<Meld>,
    skipped_tiles: Vec<Tile>,
    chips: i32,
}

impl Player {
    pub closed spec fn spec_hand(&self) -> Seq<(Tile, u8)> {
        self.hand.view()
    }

    pub closed spec fn spec_melds(&self) -> Seq<Meld> {
        self.melds@
    }

    /// The tiles skipped since the last draw.
    pub closed spec fn spec_skipped(&self) -> Seq<Tile> {
        self.skipped_tiles@
    }

    pub closed spec fn spec_chips(&self) -> i32 {
        self.chips
    }

    /// Every tile has at most one entry in the hand, and the entries are in tile order.
    pub open spec fn wf(&self) -> bool {
        unique_keys(self.spec_hand()) && sorted_keys(self.spec_hand())
    }

    /// A player with `chips` chips and nothing else.
    pub fn new(chips: i32) -> (r: Self)
        ensures
            r.wf(),
            r.spec_hand() == Seq::<(Tile, u8)>::empty(),
            r.spec_melds() == Seq::<Meld>::empty(),
            r.spec_skipped() == Seq::<Tile>::empty(),
            r.spec_chips() == chips,
    {
        Player {
            hand: TileMap::new(),
            flowers: Vec::new(),
            animals: Vec::new(),
            melds: Vec::new(),
            skipped_tiles: Vec::new(),
            chips,
        }
    }

    /// A player without chips holding `hand`.
    pub fn with_hand(hand: TileMap) -> (r: Self)
        ensures
            r.wf() == hand.wf(),
            r.spec_hand() == hand.view(),
            r.spec_melds() == Seq::<Meld>::empty(),
            r.spec_skipped() == Seq::<Tile>::empty(),
    {
        Player {
            hand,
            flowers: Vec::new(),
            animals: Vec::new(),
            melds: Vec::new(),
            skipped_tiles: Vec::new(),
            chips: 0,
        }
    }

    pub fn hand(&self) -> (r: &TileMap)
        ensures
            r.view() == self.spec_hand(),
    {
        &self.hand
    }

    pub fn melds(&self) -> (r: &Vec<Meld>)
        ensures
            r@ == self.spec_melds(),
    {
        &self.melds
    }

    /// Places a tile into the player's hand and forgets the skipped tiles.
    pub fn draw(&mut self, tile: &Tile)
        requires
            old(self).wf(),
            held(old(self).spec_hand(), *tile) < u8::MAX,
        ensures
            final(self).wf(),
            held(final(self).spec_hand(), *tile) == held(old(self).spec_hand(), *tile) + 1,
            forall|u: Tile| u != *tile ==> lookup(final(self).spec_hand(), u) == lookup(old(self).spec_hand(), u),
            final(self).spec_melds() == old(self).spec_melds(),
            final(self).spec_skipped() == Seq::<Tile>::empty(),
    {
        self.hand.increment(tile);
        self.skipped_tiles.clear();
    }

    /// Discards one copy of `tile`, then drops the entries left at zero. Fails, changing
    /// nothing, when no copy is held.
    pub fn discard(&mut self, tile: &Tile) -> (r: Result<(), IllegalMoveError>)
        requires
            old(self).wf(),
        ensures
            final(self).wf(),
            r is Ok <==> held(old(self).spec_hand(), *tile) > 0,
            r is Ok ==> final(self).spec_hand() == nonzero(
                old(self).spec_hand().update(index_of(old(self).spec_hand(), *tile), (*tile, (held(old(self).spec_hand(), *tile) - 1) as u8)),
            ),
            r is Ok ==> held(final(self).spec_hand(), *tile) + 1 == held(old(self).spec_hand(), *tile),
            r is Ok ==> forall|u: Tile| u != *tile ==> #[trigger] held(final(self).spec_hand(), u) == held(old(self).spec_hand(), u),
            r is Err ==> final(self).spec_hand() == old(self).spec_hand(),
            r matches Err(e) ==> e == IllegalMoveError(Action::Discard),
            final(self).spec_melds() == old(self).spec_melds(),
            final(self).spec_skipped() == old(self).spec_skipped(),
    {
        if let Some(num) = self.hand.get(tile) {
            if num > 0 {
                proof {
                    lemma_index_of(self.hand.view(), *tile);
                }
                let ghost before = self.hand.view();
                self.hand.subtract(tile, 1);
                assert(self.hand.view() =~= before.update(index_of(before, *tile), (*tile, (num - 1) as u8)));
                clear_zero_keys(&mut self.hand);
                return Ok(());
            }
        }
        Err(IllegalMoveError(Action::Discard))
    }

    /// Records a tile discarded by another player and passed over: it cannot be claimed
    /// until the next draw.
    pub fn skipped_tile(&mut self, tile: Tile)
        ensures
            final(self).spec_skipped().contains(tile),
            forall|u: Tile| old(self).spec_skipped().contains(u) ==> final(self).spec_skipped().contains(u),
            forall|u: Tile| final(self).spec_skipped().contains(u) ==> u == tile || old(self).spec_skipped().contains(u),
            final(self).spec_hand() == old(self).spec_hand(),
            final(self).spec_melds() == old(self).spec_melds(),
            final(self).wf() == old(self).wf(),
    {
        if !contains_tile(&self.skipped_tiles, &tile) {
            let ghost before = self.skipped_tiles@;
            self.skipped_tiles.push(tile);
            proof {
                assert(self.skipped_tiles@[before.len() as int] == tile);
                assert forall|u: Tile| before.contains(u) implies self.skipped_tiles@.contains(u) by {
                    let k = choose|k: int| 0 <= k < before.len() && before[k] == u;
                    assert(self.skipped_tiles@[k] == u);
                }
                assert forall|u: Tile| self.skipped_tiles@.contains(u) implies u == tile || before.contains(u) by {
                    let k = choose|k: int| 0 <= k < self.skipped_tiles@.len() && self.skipped_tiles@[k] == u;
                    if k < before.len() {
                        assert(before[k] == u);
                    }
                }
            }
        }
    }

    /// Whether the player can claim `tile` into a run with `tile_a` and `tile_b`: both are
    /// held and `tile` was not skipped.
    pub fn can_chi(&self, tile_a: &Tile, tile_b: &Tile, tile: &Tile) -> (r: bool)
        ensures
            r == spec_can_chi(self.spec_hand(), self.spec_skipped(), *tile_a, *tile_b, *tile),
    {
        if contains_tile(&self.skipped_tiles, tile) {
            return false;
        }
        self.hand.contains_key(tile_a) && self.hand.contains_key(tile_b)
    }

    /// Whether the player can claim `tile` into a triplet: two are held and `tile` was not
    /// skipped.
    pub fn can_pong(&self, tile: &Tile) -> (r: bool)
        ensures
            r == spec_can_pong(self.spec_hand(), self.spec_skipped(), *tile),
    {
        if contains_tile(&self.skipped_tiles, tile) {
            return false;
        }
        match self.hand.get(tile) {
            Some(x) => x >= 2,
            None => false,
        }
    }

    /// Whether the player can claim `tile` into a quad: exactly three are held.
    pub fn can_gang(&self, tile: &Tile) -> (r: bool)
        ensures
            r == (lookup(self.spec_hand(), *tile) == Some(3u8)),
    {
        match self.hand.get(tile) {
            Some(x) => x == 3,
            None => false,
        }
    }

    /// Whether the player holds four of `tile`.
    pub fn can_angang(&self, tile: &Tile) -> (r: bool)
        ensures
            r == (lookup(self.spec_hand(), *tile) == Some(4u8)),
    {
        match self.hand.get(tile) {
            Some(x) => x == 4,
            None => false,
        }
    }

    /// Every run the player can claim with the discarded `tile`: with the two tiles below,
    /// the tiles on either side, the two tiles above.
    pub fn get_chi(&self, tile: &Tile) -> (r: Vec<Meld>)
        ensures
            value_suit(*tile) ==> r@.len() == claimable_chis(self.spec_hand(), self.spec_skipped(), chi_partners(*tile), *tile).len()
                && forall|k: int| 0 <= k < r@.len() ==> (#[trigger] r@[k] matches Meld::Chi(c) && c.view() == (
                    claimable_chis(self.spec_hand(), self.spec_skipped(), chi_partners(*tile), *tile)[k].0,
                    claimable_chis(self.spec_hand(), self.spec_skipped(), chi_partners(*tile), *tile)[k].1,
                    *tile,
                )),
            !value_suit(*tile) ==> r@.len() == 0,
    {
        let mut possible_melds: Vec<Meld> = Vec::new();
        if !is_value_suit(tile) {
            return possible_melds;
        }
        let ghost pairs = chi_partners(*tile);
        let offsets: [(i16, i16); 3] = [(-2, -1), (-1, 1), (1, 2)];
        let mut i: usize = 0;
        while i < 3
            invariant
                i <= 3,
                offsets@ == seq![(-2i16, -1i16), (-1i16, 1i16), (1i16, 2i16)],
                pairs == chi_partners(*tile),
                possible_melds@.len() == claimable_chis(self.spec_hand(), self.spec_skipped(), pairs.take(i as int), *tile).len(),
                forall|k: int| 0 <= k < possible_melds@.len() ==> (#[trigger] possible_melds@[k] matches Meld::Chi(c)
                    && c.view() == (
                    claimable_chis(self.spec_hand(), self.spec_skipped(), pairs.take(i as int), *tile)[k].0,
                    claimable_chis(self.spec_hand(), self.spec_skipped(), pairs.take(i as int), *tile)[k].1,
                    *tile,
                )),
            decreases 3 - i,
        {
            let (a, b) = offsets[i];
            let tile_a = offset_tile(tile, a);
            let tile_b = offset_tile(tile, b);
            proof {
                assert(pairs.take(i + 1).drop_last() =~= pairs.take(i as int));
                assert(pairs.take(i + 1).last() == pairs[i as int]);
                assert(pairs[i as int] == (tile_a, tile_b));
            }
            let ghost before = possible_melds@;
            if let (Some(ta), Some(tb)) = (tile_a, tile_b) {
                if self.can_chi(&ta, &tb, tile) {
                    if let Ok(chi) = Chi::new(ta, tb, *tile) {
                        possible_melds.push(Meld::Chi(chi));
                    }
                }
            }
            i = i + 1;
        }
        assert(pairs.take(3) =~= pairs);
        possible_melds
    }

    /// The triplet the player can claim with the discarded `tile`, if any.
    pub fn get_pong(&self, tile: &Tile) -> (r: Vec<Meld>)
        ensures
            r@.len() == (if spec_can_pong(self.spec_hand(), self.spec_skipped(), *tile) && playable_tile(*tile) {
                1int
            } else {
                0int
            }),
            r@.len() == 1 ==> (r@[0] matches Meld::Pong(p) && p.view() == *tile),
    {
        let mut possible_melds: Vec<Meld> = Vec::new();
        if self.can_pong(tile) {
            if let Ok(pong) = Pong::new(*tile) {
                possible_melds.push(Meld::Pong(pong));
            }
        }
        possible_melds
    }

    /// The quad the player can claim with the discarded `tile`, if any.
    pub fn get_gang(&self, tile: &Tile) -> (r: Vec<Meld>)
        ensures
            r@.len() == (if lookup(self.spec_hand(), *tile) == Some(3u8) && playable_tile(*tile) {
                1int
            } else {
                0int
            }),
            r@.len() == 1 ==> (r@[0] matches Meld::Gang(g) && g.view() == *tile),
    {
        let mut possible_melds: Vec<Meld> = Vec::new();
        if self.can_gang(tile) {
            if let Ok(gang) = Gang::new(*tile) {
                possible_melds.push(Meld::Gang(gang));
            }
        }
        possible_melds
    }

    /// The quads the player can declare from the hand, in the order of the hand.
    pub fn get_angang(&self) -> (r: Vec<Meld>)
        requires
            self.wf(),
        ensures
            r@.len() == quad_tiles(self.spec_hand()).len(),
            forall|k: int| 0 <= k < r@.len() ==> (#[trigger] r@[k] matches Meld::AnGang(a) && a.view() == quad_tiles(
                self.spec_hand(),
            )[k]),
    {
        let entries = self.hand.entries();
        let ghost s = self.spec_hand();
        let mut possible_melds: Vec<Meld> = Vec::new();
        let mut i: usize = 0;
        while i < entries.len()
            invariant
                i <= entries.len(),
                entries@ == s,
                s == self.spec_hand(),
                unique_keys(s),
                possible_melds@.len() == quad_tiles(s.take(i as int)).len(),
                forall|k: int| 0 <= k < possible_melds@.len() ==> (#[trigger] possible_melds@[k] matches Meld::AnGang(a)
                    && a.view() == quad_tiles(s.take(i as int))[k]),
            decreases entries.len() - i,
        {
            let t = entries[i].0;
            proof {
                assert(s.take(i + 1).drop_last() =~= s.take(i as int));
                lemma_index_of_unique(s, i as int);
            }
            if self.can_angang(&t) {
                if let Ok(angang) = AnGang::new(t) {
                    possible_melds.push(Meld::AnGang(angang));
                }
            }
            i = i + 1;
        }
        assert(s.take(i as int) =~= s);
        possible_melds
    }

    /// Takes `amount` copies of `tile` from the hand; fails, changing nothing, when fewer
    /// are held.
    fn remove_tiles_from_hand(&mut self, tile: &Tile, amount: u8) -> (r: bool)
        requires
            old(self).wf(),
        ensures
            final(self).wf(),
            r == (lookup(old(self).spec_hand(), *tile) matches Some(v) && v >= amount),
            r ==> held(final(self).spec_hand(), *tile) + amount == held(old(self).spec_hand(), *tile),
            r ==> lookup(final(self).spec_hand(), *tile) is Some,
            !r ==> final(self).spec_hand() == old(self).spec_hand(),
            forall|u: Tile| u != *tile ==> lookup(final(self).spec_hand(), u) == lookup(old(self).spec_hand(), u),
            final(self).spec_melds() == old(self).spec_melds(),
            final(self).spec_skipped() == old(self).spec_skipped(),
    {
        match self.hand.get(tile) {
            Some(value) => {
                if value >= amount {
                    self.hand.subtract(tile, amount);
                    true
                } else {
                    false
                }
            },
            None => false,
        }
    }

    /// Claims a run: the first two tiles of `chi` leave the hand, entries left at zero are
    /// dropped, and the run joins the melds. Fails, changing nothing, unless both are held
    /// and the third was not skipped.
    pub fn chi(&mut self, chi: Chi) -> (r: Result<(), IllegalMoveError>)
        requires
            old(self).wf(),
        ensures
            final(self).wf(),
            r is Ok <==> spec_can_chi(old(self).spec_hand(), old(self).spec_skipped(), chi.view().0, chi.view().1, chi.view().2)
                && held(old(self).spec_hand(), chi.view().0) >= 1 && held(old(self).spec_hand(), chi.view().1) >= 1,
            r is Ok ==> final(self).spec_melds() == old(self).spec_melds().push(Meld::Chi(chi))
                && held(final(self).spec_hand(), chi.view().0) + 1 == held(old(self).spec_hand(), chi.view().0)
                && held(final(self).spec_hand(), chi.view().1) + 1 == held(old(self).spec_hand(), chi.view().1)
                && (forall|u: Tile| u != chi.view().0 && u != chi.view().1 ==> #[trigger] held(final(self).spec_hand(), u) == held(old(self).spec_hand(), u))
                && no_spent_entries(final(self).spec_hand()),
            r is Err ==> final(self).spec_hand() == old(self).spec_hand() && final(self).spec_melds() == old(self).spec_melds(),
            r matches Err(e) ==> e == IllegalMoveError(Action::Meld(Meld::Chi(chi))),
    {
        let tile_a: &Tile = chi.get_0();
        let tile_b: &Tile = chi.get_1();
        let tile_c: &Tile = chi.get_2();
        let enough = match (self.hand.get(tile_a), self.hand.get(tile_b)) {
            (Some(x), Some(y)) => x >= 1 && y >= 1,
            _ => false,
        };
        if self.can_chi(tile_a, tile_b, tile_c) && enough {
            let removed_a = self.remove_tiles_from_hand(tile_a, 1);
            let removed_b = self.remove_tiles_from_hand(tile_b, 1);
            assert(removed_a && removed_b);
            clear_zero_keys(&mut self.hand);
            self.melds.push(Meld::Chi(chi));
            Ok(())
        } else {
            Err(IllegalMoveError(Action::Meld(Meld::Chi(chi))))
        }
    }

    /// Claims a triplet: two copies leave the hand (an entry left at zero is dropped) and the
    /// triplet joins the melds. Fails, changing nothing, unless two are held and the tile was
    /// not skipped.
    pub fn pong(&mut self, pong: Pong) -> (r: Result<(), IllegalMoveError>)
        requires
            old(self).wf(),
        ensures
            final(self).wf(),
            r is Ok <==> spec_can_pong(old(self).spec_hand(), old(self).spec_skipped(), pong.view()),
            r is Ok ==> final(self).spec_melds() == old(self).spec_melds().push(Meld::Pong(pong))
                && held(final(self).spec_hand(), pong.view()) + 2 == held(old(self).spec_hand(), pong.view())
                && (forall|u: Tile| u != pong.view() ==> #[trigger] held(final(self).spec_hand(), u) == held(old(self).spec_hand(), u))
                && no_spent_entries(final(self).spec_hand()),
            r is Err ==> final(self).spec_hand() == old(self).spec_hand() && final(self).spec_melds() == old(self).spec_melds(),
            r matches Err(e) ==> e == IllegalMoveError(Action::Meld(Meld::Pong(pong))),
    {
        let tile: &Tile = pong.get_0();
        if self.can_pong(tile) {
            let removed = self.remove_tiles_from_hand(tile, 2);
            assert(removed);
            clear_zero_keys(&mut self.hand);
            self.melds.push(Meld::Pong(pong));
            Ok(())
        } else {
            Err(IllegalMoveError(Action::Meld(Meld::Pong(pong))))
        }
    }

    /// Claims a quad: three copies leave the hand (the entry is dropped) and the quad joins
    /// the melds. Fails, changing nothing, unless exactly three are held.
    pub fn gang(&mut self, gang: Gang) -> (r: Result<(), IllegalMoveError>)
        requires
            old(self).wf(),
        ensures
            final(self).wf(),
            r is Ok <==> lookup(old(self).spec_hand(), gang.view()) == Some(3u8),
            r is Ok ==> final(self).spec_melds() == old(self).spec_melds().push(Meld::Gang(gang))
                && held(final(self).spec_hand(), gang.view()) == 0
                && (forall|u: Tile| u != gang.view() ==> #[trigger] held(final(self).spec_hand(), u) == held(old(self).spec_hand(), u))
                && no_spent_entries(final(self).spec_hand()),
            r is Err ==> final(self).spec_hand() == old(self).spec_hand() && final(self).spec_melds() == old(self).spec_melds(),
            r matches Err(e) ==> e == IllegalMoveError(Action::Meld(Meld::Gang(gang))),
    {
        let tile: &Tile = gang.get_0();
        if self.can_gang(tile) {
            let removed = self.remove_tiles_from_hand(tile, 3);
            assert(removed);
            clear_zero_keys(&mut self.hand);
            self.melds.push(Meld::Gang(gang));
            Ok(())
        } else {
            Err(IllegalMoveError(Action::Meld(Meld::Gang(gang))))
        }
    }

    /// Declares a drawn quad: four copies leave the hand (the entry is dropped) and the quad
    /// joins the melds. Fails, changing nothing, unless exactly four are held.
    pub fn angang(&mut self, angang: AnGang) -> (r: Result<(), IllegalMoveError>)
        requires
            old(self).wf(),
        ensures
            final(self).wf(),
            r is Ok <==> lookup(old(self).spec_hand(), angang.view()) == Some(4u8),
            r is Ok ==> final(self).spec_melds() == old(self).spec_melds().push(Meld::AnGang(angang))
                && held(final(self).spec_hand(), angang.view()) == 0
                && (forall|u: Tile| u != angang.view() ==> #[trigger] held(final(self).spec_hand(), u) == held(old(self).spec_hand(), u))
                && no_spent_entries(final(self).spec_hand()),
            r is Err ==> final(self).spec_hand() == old(self).spec_hand() && final(self).spec_melds() == old(self).spec_melds(),
            r matches Err(e) ==> e == IllegalMoveError(Action::Meld(Meld::AnGang(angang))),
    {
        let tile: &Tile = angang.get_0();
        if self.can_angang(tile) {
            let removed = self.remove_tiles_from_hand(tile, 4);
            assert(removed);
            clear_zero_keys(&mut self.hand);
            self.melds.push(Meld::AnGang(angang));
            Ok(())
        } else {
            Err(IllegalMoveError(Action::Meld(Meld::AnGang(angang))))
        }
    }

    /// Whether the player wins with the discarded `tile`: with it added, some tile is held at
    /// least twice and the rest splits into triplets and runs.
    pub fn can_hu(&self, tile: &Tile) -> (r: bool)
        requires
            self.wf(),
            held(self.spec_hand(), *tile) < u8::MAX,
        ensures
            r == wins(self.spec_hand(), Some(*tile)),
    {
        let mut hand = self.hand.duplicate();
        hand.increment(tile);
        let r = has_winning_split(&hand);
        proof {
            let h = hand.view();
            assert forall|u: Tile| #[trigger] held(h, u) == held(self.spec_hand(), u) + (if Some(*tile) == Some(u) {
                1nat
            } else {
                0nat
            }) by {}
            assert forall|t: Tile, ms: Seq<Meld>| #[trigger] is_pair_split(ms, t, h, None) == is_pair_split(
                ms,
                t,
                self.spec_hand(),
                Some(*tile),
            ) by {
                if is_pair_split(ms, t, h, None) {
                    assert forall|u: Tile| #[trigger] melds_held(ms, u) + (if u == t { 2nat } else { 0nat }) == held(
                        self.spec_hand(),
                        u,
                    ) + (if Some(*tile) == Some(u) { 1nat } else { 0nat }) by {
                        assert(held(h, u) == held(self.spec_hand(), u) + (if Some(*tile) == Some(u) { 1nat } else { 0nat }));
                    }
                }
                if is_pair_split(ms, t, self.spec_hand(), Some(*tile)) {
                    assert forall|u: Tile| #[trigger] melds_held(ms, u) + (if u == t { 2nat } else { 0nat }) == held(h, u)
                        + (if None::<Tile> == Some(u) { 1nat } else { 0nat }) by {
                        assert(held(h, u) == held(self.spec_hand(), u) + (if Some(*tile) == Some(u) { 1nat } else { 0nat }));
                    }
                }
            }
            if wins(h, None) {
                let (t, ms) = choose|t: Tile, ms: Seq<Meld>| #[trigger] is_pair_split(ms, t, h, None);
                assert(is_pair_split(ms, t, self.spec_hand(), Some(*tile)));
            }
            if wins(self.spec_hand(), Some(*tile)) {
                let (t, ms) = choose|t: Tile, ms: Seq<Meld>| #[trigger] is_pair_split(ms, t, self.spec_hand(), Some(*tile));
                assert(is_pair_split(ms, t, h, None));
            }
        }
        r
    }

    /// Whether the player's own hand wins: some tile is held at least twice and the rest
    /// splits into triplets and runs.
    pub fn can_zimuo(&self) -> (r: bool)
        requires
            self.wf(),
        ensures
            r == wins(self.spec_hand(), None),
    {
        has_winning_split(&self.hand)
    }
}

/// Same as `Player::new(0)`.
impl Default for Player {
    fn default() -> (r: Self)
        ensures
            r.wf(),
            r.spec_hand() == Seq::<(Tile, u8)>::empty(),
            r.spec_melds() == Seq::<Meld>::empty(),
            r.spec_chips() == 0,
    {
        Player::new(0)
    }
}

} // verus!
