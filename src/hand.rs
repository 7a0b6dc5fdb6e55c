use vstd::prelude::*;

use crate::error::MahjongError;
use crate::meld::{lemma_run_melds, lemma_uniform_melds, Meld, MeldType, MeldView};
use crate::tile::{
    is_playable, lemma_next_index, lemma_tile_at, lemma_tile_index_injective, suit_of, tile_at,
    tile_index, tile_next, tile_prev, Tile, NUM_TILE_KINDS,
};
use crate::tile_seq::{contains_tile, count_tile, lemma_occurrences_bound, lemma_occurrences_concat, occurrences};

verus! {

/// Sum of a sequence of counts.
pub open spec fn sum_counts(s: Seq<u8>) -> nat
    decreases s.len(),
{
    if s.len() == 0 {
        0
    } else {
        sum_counts(s.drop_last()) + s.last() as nat
    }
}

proof fn lemma_sum_update(s: Seq<u8>, i: int, v: u8)
    requires
        0 <= i < s.len(),
    ensures
        sum_counts(s.update(i, v)) + s[i] == sum_counts(s) + v,
    decreases s.len(),
{
    if i < s.len() - 1 {
        assert(s.update(i, v).drop_last() =~= s.drop_last().update(i, v));
        lemma_sum_update(s.drop_last(), i, v);
    } else {
        assert(s.update(i, v).drop_last() =~= s.drop_last());
    }
}

proof fn lemma_sum_zero(s: Seq<u8>)
    ensures
        (sum_counts(s) == 0) <==> (forall|i: int| 0 <= i < s.len() ==> s[i] == 0),
    decreases s.len(),
{
    if s.len() > 0 {
        lemma_sum_zero(s.drop_last());
        if sum_counts(s) == 0 {
            assert forall|i: int| 0 <= i < s.len() implies s[i] == 0 by {
                if i < s.len() - 1 {
                    assert(s.drop_last()[i] == s[i]);
                }
            }
        }
        if forall|i: int| 0 <= i < s.len() ==> s[i] == 0 {
            assert forall|i: int| 0 <= i < s.drop_last().len() implies s.drop_last()[i] == 0 by {
                assert(s.drop_last()[i] == s[i]);
            }
        }
    }
}

/// The tiles at positions below `n` of the tile order that satisfy `f`, in tile order.
pub open spec fn tiles_where(f: spec_fn(Tile) -> bool, n: nat) -> Seq<Tile>
    decreases n,
{
    if n == 0 {
        Seq::empty()
    } else if f(tile_at((n - 1) as nat)) {
        tiles_where(f, (n - 1) as nat).push(tile_at((n - 1) as nat))
    } else {
        tiles_where(f, (n - 1) as nat)
    }
}

/// The concealed tiles of a hand: how many of each tile it holds.
pub struct ConcealedTiles {
    counts: [u8; NUM_TILE_KINDS],
}

impl ConcealedTiles {
    /// How many copies of `t` are held.
    pub closed spec fn count(&self, t: Tile) -> nat {
        self.counts@[tile_index(t) as int] as nat
    }

    /// How many tiles are held in all.
    pub closed spec fn total(&self) -> nat {
        sum_counts(self.counts@)
    }

    /// These tiles with one more copy of `t`, when `t` is given.
    pub closed spec fn with_tile(self, t: Option<Tile>) -> ConcealedTiles {
        match t {
            Some(u) => ConcealedTiles {
                counts: vstd::array::spec_array_update(
                    self.counts,
                    tile_index(u) as int,
                    (self.counts@[tile_index(u) as int] + 1) as u8,
                ),
            },
            None => self,
        }
    }

    pub proof fn lemma_with_tile(self, t: Option<Tile>)
        requires
            t matches Some(u) ==> self.count(u) < u8::MAX,
        ensures
            forall|u: Tile| #[trigger] self.with_tile(t).count(u) == self.count(u) + (if t == Some(u) { 1nat } else { 0nat }),
            self.with_tile(t).total() == self.total() + (if t is Some { 1nat } else { 0nat }),
    {
        if let Some(u) = t {
            let i = tile_index(u) as int;
            lemma_tile_index_injective(u, u);
            lemma_sum_update(self.counts@, i, (self.counts@[i] + 1) as u8);
            assert forall|v: Tile| #[trigger] self.with_tile(t).count(v) == self.count(v) + (if t == Some(v) { 1nat } else { 0nat }) by {
                lemma_tile_index_injective(v, u);
            }
        }
    }

    /// An empty multiset.
    pub fn new() -> (r: Self)
        ensures
            forall|t: Tile| r.count(t) == 0,
            r.total() == 0,
    {
        let counts: [u8; NUM_TILE_KINDS] = [0u8; NUM_TILE_KINDS];
        proof {
            lemma_sum_zero(counts@);
            assert forall|t: Tile| counts@[tile_index(t) as int] == 0 by {
                lemma_tile_index_injective(t, t);
            }
        }
        ConcealedTiles { counts }
    }

    /// How many copies of `tile` are held.
    pub fn get(&self, tile: &Tile) -> (r: u8)
        ensures
            r == self.count(*tile),
    {
        proof {
            lemma_tile_index_injective(*tile, *tile);
        }
        self.counts[tile.index()]
    }

    /// Whether at least one copy of `tile` is held.
    pub fn contains_key(&self, tile: &Tile) -> (r: bool)
        ensures
            r == (self.count(*tile) > 0),
    {
        self.get(tile) > 0
    }

    /// Whether no tile is held.
    pub fn is_empty(&self) -> (r: bool)
        ensures
            r == (self.total() == 0),
            r == (forall|t: Tile| self.count(t) == 0),
    {
        proof {
            lemma_sum_zero(self.counts@);
        }
        let mut i: usize = 0;
        while i < NUM_TILE_KINDS
            invariant
                i <= NUM_TILE_KINDS,
                self.counts@.len() == NUM_TILE_KINDS,
                forall|j: int| 0 <= j < i ==> self.counts@[j] == 0,
            decreases NUM_TILE_KINDS - i,
        {
            if self.counts[i] != 0 {
                proof {
                    lemma_tile_at(i as nat);
                    assert(self.counts@[i as int] != 0);
                    assert(!(forall|j: int| 0 <= j < self.counts@.len() ==> self.counts@[j] == 0));
                    lemma_sum_zero(self.counts@);
                    assert(self.count(tile_at(i as nat)) != 0);
                }
                return false;
            }
            i = i + 1;
        }
        proof {
            assert forall|t: Tile| self.count(t) == 0 by {
                lemma_tile_index_injective(t, t);
            }
        }
        true
    }

    /// Takes `n` copies of `tile` away. Fails, and changes nothing, when the tile is not
    /// held or fewer than `n` copies are.
    pub fn remove_n(&mut self, tile: &Tile, n: u8) -> (r: Result<(), MahjongError>)
        ensures
            r is Ok <==> (old(self).count(*tile) > 0 && old(self).count(*tile) >= n),
            r is Ok ==> final(self).count(*tile) == old(self).count(*tile) - n,
            r is Ok ==> final(self).total() == old(self).total() - n,
            r is Err ==> final(self).count(*tile) == old(self).count(*tile) && final(self).total()
                == old(self).total(),
            forall|t: Tile| t != *tile ==> final(self).count(t) == old(self).count(t),
            r matches Err(e) ==> e == MahjongError::TileNotInHandFoundError(*tile),
    {
        proof {
            lemma_tile_index_injective(*tile, *tile);
        }
        let i = tile.index();
        let c = self.counts[i];
        if c > 0 && c >= n {
            proof {
                lemma_sum_update(self.counts@, i as int, (c - n) as u8);
                assert forall|t: Tile| t != *tile implies tile_index(t) != i by {
                    lemma_tile_index_injective(t, *tile);
                }
            }
            self.counts[i] = c - n;
            Ok(())
        } else {
            Err(MahjongError::TileNotInHandFoundError(*tile))
        }
    }

    /// Adds `n` copies of `tile`.
    pub fn add_n(&mut self, tile: &Tile, n: u8)
        requires
            old(self).count(*tile) + n <= u8::MAX,
        ensures
            final(self).count(*tile) == old(self).count(*tile) + n,
            final(self).total() == old(self).total() + n,
            forall|t: Tile| t != *tile ==> final(self).count(t) == old(self).count(t),
    {
        proof {
            lemma_tile_index_injective(*tile, *tile);
        }
        let i = tile.index();
        let c = self.counts[i];
        proof {
            lemma_sum_update(self.counts@, i as int, (c + n) as u8);
            assert forall|t: Tile| t != *tile implies tile_index(t) != i by {
                lemma_tile_index_injective(t, *tile);
            }
        }
        self.counts[i] = c + n;
    }

    /// The held tiles in tile order, each with its count.
    pub fn entries(&self) -> (r: Vec<(Tile, u8)>)
        ensures
            r@.map_values(|e: (Tile, u8)| e.0) == tiles_where(|t: Tile| self.count(t) > 0, NUM_TILE_KINDS as nat),
            forall|i: int| 0 <= i < r@.len() ==> r@[i].1 == self.count(#[trigger] r@[i].0),
    {
        let ghost f = |t: Tile| self.count(t) > 0;
        let mut r: Vec<(Tile, u8)> = Vec::new();
        let mut i: usize = 0;
        while i < NUM_TILE_KINDS
            invariant
                i <= NUM_TILE_KINDS,
                f == (|t: Tile| self.count(t) > 0),
                r@.map_values(|e: (Tile, u8)| e.0) == tiles_where(f, i as nat),
                forall|j: int| 0 <= j < r@.len() ==> r@[j].1 == self.count(#[trigger] r@[j].0),
            decreases NUM_TILE_KINDS - i,
        {
            let t = Tile::from_index(i);
            let c = self.get(&t);
            if c > 0 {
                r.push((t, c));
            }
            assert(r@.map_values(|e: (Tile, u8)| e.0) =~= tiles_where(f, (i + 1) as nat));
            i = i + 1;
        }
        r
    }

    /// The lowest tile in tile order that is held, if any.
    pub fn first_tile(&self) -> (r: Option<Tile>)
        ensures
            r is None <==> self.total() == 0,
            r matches Some(t) ==> self.count(t) > 0,
            r matches Some(t) ==> forall|u: Tile| tile_index(u) < tile_index(t) ==> self.count(u) == 0,
    {
        proof {
            lemma_sum_zero(self.counts@);
        }
        let mut i: usize = 0;
        while i < NUM_TILE_KINDS
            invariant
                i <= NUM_TILE_KINDS,
                self.counts@.len() == NUM_TILE_KINDS,
                forall|j: int| 0 <= j < i ==> self.counts@[j] == 0,
            decreases NUM_TILE_KINDS - i,
        {
            if self.counts[i] != 0 {
                let t = Tile::from_index(i);
                proof {
                    assert(self.counts@[i as int] != 0);
                    assert(!(forall|j: int| 0 <= j < self.counts@.len() ==> self.counts@[j] == 0));
                    lemma_sum_zero(self.counts@);
                    assert forall|u: Tile| tile_index(u) < tile_index(t) implies self.count(u) == 0 by {
                    }
                }
                return Some(t);
            }
            i = i + 1;
        }
        None
    }
}

/// Same as `ConcealedTiles::new`.
impl Default for ConcealedTiles {
    fn default() -> (r: Self)
        ensures
            forall|t: Tile| r.count(t) == 0,
            r.total() == 0,
    {
        ConcealedTiles::new()
    }
}

impl Clone for ConcealedTiles {
    fn clone(&self) -> (r: Self)
        ensures
            forall|t: Tile| r.count(t) == self.count(t),
            r.total() == self.total(),
    {
        proof {
        }
        ConcealedTiles { counts: self.counts }
    }
}

} // verus!

verus! {

/// Same counts, tile by tile.
pub open spec fn same_tiles(a: ConcealedTiles, b: ConcealedTiles) -> bool {
    &&& forall|t: Tile| #[trigger] a.count(t) == b.count(t)
    &&& a.total() == b.total()
}

/// A meld completed by the claimed tile `t`.
pub open spec fn claimed_view(tiles: Seq<Tile>, t: Tile, meld_type: MeldType) -> MeldView {
    MeldView { tiles, discarded_tile: Some(t), meld_type, suit: suit_of(t) }
}

/// The run made of `a`, `b` and the claimed `t`, when both are present and held.
pub open spec fn chi_claim(ct: ConcealedTiles, a: Option<Tile>, b: Option<Tile>, t: Tile) -> Seq<MeldView> {
    match (a, b) {
        (Some(x), Some(y)) => if ct.count(x) > 0 && ct.count(y) > 0 {
            seq![claimed_view(seq![x, y], t, MeldType::Chi)]
        } else {
            Seq::empty()
        },
        _ => Seq::empty(),
    }
}

pub open spec fn option_prev(t: Option<Tile>) -> Option<Tile> {
    match t {
        Some(u) => tile_prev(u),
        None => None,
    }
}

pub open spec fn option_next(t: Option<Tile>) -> Option<Tile> {
    match t {
        Some(u) => tile_next(u),
        None => None,
    }
}

/// Every meld that the concealed tiles `ct` can form with a discarded `t`: a triplet, a
/// quad, then the runs with `t` at the top, in the middle and at the bottom.
pub open spec fn claim_melds(ct: ConcealedTiles, t: Tile) -> Seq<MeldView> {
    let c = ct.count(t);
    let prev = tile_prev(t);
    let next = tile_next(t);
    (if c >= 2 {
        seq![claimed_view(seq![t, t], t, MeldType::Pong)]
    } else {
        Seq::empty()
    }) + (if c >= 3 {
        seq![claimed_view(seq![t, t, t], t, MeldType::Gang)]
    } else {
        Seq::empty()
    }) + chi_claim(ct, option_prev(prev), prev, t) + chi_claim(ct, prev, next, t) + chi_claim(
        ct,
        next,
        option_next(next),
        t,
    )
}

/// A drawn quad of `t`.
pub open spec fn angang_view(t: Tile) -> MeldView {
    MeldView {
        tiles: seq![t, t, t, t],
        discarded_tile: None,
        meld_type: MeldType::AnGang,
        suit: suit_of(t),
    }
}

pub open spec fn views(v: Seq<Meld>) -> Seq<MeldView> {
    v.map_values(|m: Meld| m@)
}

/// A player's hand: concealed tiles, declared melds, bonus tiles, and the tiles seen
/// since the last draw.
pub struct Hand {
    concealed: ConcealedTiles,
    melds: Vec<Meld>,
    bonus: Vec<Tile>,
    seen: Vec<Tile>,
}

impl Hand {
    pub closed spec fn spec_concealed(&self) -> ConcealedTiles {
        self.concealed
    }

    /// The declared melds, in the order of declaration.
    pub closed spec fn spec_melds(&self) -> Seq<MeldView> {
        views(self.melds@)
    }

    /// The bonus tiles, each once, in the order drawn.
    pub closed spec fn spec_bonus(&self) -> Seq<Tile> {
        self.bonus@
    }

    /// The tiles discarded since the last draw.
    pub closed spec fn spec_seen(&self) -> Set<Tile> {
        Set::new(|t: Tile| self.seen@.contains(t))
    }

    /// An empty hand.
    pub fn new() -> (r: Self)
        ensures
            forall|t: Tile| r.spec_concealed().count(t) == 0,
            r.spec_concealed().total() == 0,
            r.spec_melds() == Seq::<MeldView>::empty(),
            r.spec_bonus() == Seq::<Tile>::empty(),
            r.spec_seen() == Set::<Tile>::empty(),
    {
        let r = Hand { concealed: ConcealedTiles::new(), melds: Vec::new(), bonus: Vec::new(), seen: Vec::new() };
        assert(r.spec_melds() =~= Seq::<MeldView>::empty());
        assert(r.spec_seen() =~= Set::<Tile>::empty());
        r
    }

    /// Takes `tile` into the hand: a playable tile joins the concealed tiles, a bonus
    /// tile joins the bonus tiles. Forgets the tiles seen.
    pub fn draw(&mut self, tile: &Tile)
        requires
            is_playable(*tile) ==> old(self).spec_concealed().count(*tile) < u8::MAX,
        ensures
            is_playable(*tile) ==> final(self).spec_concealed().count(*tile) == old(self).spec_concealed().count(*tile) + 1
                && final(self).spec_concealed().total() == old(self).spec_concealed().total() + 1
                && final(self).spec_bonus() == old(self).spec_bonus(),
            !is_playable(*tile) ==> same_tiles(final(self).spec_concealed(), old(self).spec_concealed())
                && final(self).spec_bonus() == (if old(self).spec_bonus().contains(*tile) {
                    old(self).spec_bonus()
                } else {
                    old(self).spec_bonus().push(*tile)
                }),
            forall|t: Tile| t != *tile ==> final(self).spec_concealed().count(t) == old(self).spec_concealed().count(t),
            final(self).spec_melds() == old(self).spec_melds(),
            final(self).spec_seen() == Set::<Tile>::empty(),
    {
        if tile.is_playable() {
            self.concealed.add_n(tile, 1);
        } else if !contains_tile(&self.bonus, tile) {
            self.bonus.push(*tile);
        }
        self.seen.clear();
        assert(self.spec_seen() =~= Set::<Tile>::empty());
    }

    /// Discards one copy of `tile` from the concealed tiles and records it as seen. Fails,
    /// and changes nothing, when the tile is not held.
    pub fn discard(&mut self, tile: &Tile) -> (r: Result<(), MahjongError>)
        ensures
            r is Ok <==> old(self).spec_concealed().count(*tile) > 0,
            r is Ok ==> final(self).spec_concealed().count(*tile) == old(self).spec_concealed().count(*tile) - 1
                && final(self).spec_concealed().total() == old(self).spec_concealed().total() - 1
                && final(self).spec_seen() == old(self).spec_seen().insert(*tile),
            r is Err ==> same_tiles(final(self).spec_concealed(), old(self).spec_concealed())
                && final(self).spec_seen() == old(self).spec_seen(),
            r matches Err(e) ==> e == MahjongError::TileNotInHandFoundError(*tile),
            forall|t: Tile| t != *tile ==> final(self).spec_concealed().count(t) == old(self).spec_concealed().count(t),
            final(self).spec_melds() == old(self).spec_melds(),
            final(self).spec_bonus() == old(self).spec_bonus(),
    {
        match self.concealed.remove_n(tile, 1) {
            Ok(()) => {},
            Err(e) => {
                return Err(e);
            },
        }
        let ghost before = self.seen@;
        if !contains_tile(&self.seen, tile) {
            self.seen.push(*tile);
            proof {
                assert forall|u: Tile| self.seen@.contains(u) <==> before.contains(u) || u == *tile by {
                    if before.contains(u) {
                        let k = choose|k: int| 0 <= k < before.len() && before[k] == u;
                        assert(self.seen@[k] == u);
                    }
                    if u == *tile {
                        assert(self.seen@[before.len() as int] == u);
                    }
                    if self.seen@.contains(u) && u != *tile {
                        let k = choose|k: int| 0 <= k < self.seen@.len() && self.seen@[k] == u;
                        assert(before[k] == u);
                    }
                }
            }
        }
        assert(self.spec_seen() =~= old(self).spec_seen().insert(*tile));
        Ok(())
    }

    /// Every meld that the concealed tiles can form with the discarded `tile`.
    pub fn get_melds(&self, tile: &Tile) -> (r: Result<Vec<Meld>, MahjongError>)
        ensures
            r is Err <==> !is_playable(*tile),
            r matches Err(e) ==> e == MahjongError::TileNotPlayableError(suit_of(*tile)),
            r matches Ok(v) ==> views(v@) == claim_melds(self.spec_concealed(), *tile),
    {
        if !tile.is_playable() {
            return Err(MahjongError::TileNotPlayableError(tile.suit()));
        }
        let t = *tile;
        let ghost ct = self.concealed;
        let mut poss_melds: Vec<Meld> = Vec::new();
        let num = self.concealed.get(tile);
        proof {
            lemma_uniform_melds(t);
        }
        if num >= 2 {
            let m = Meld::new(vec![t, t], Some(t), MeldType::Pong);
            match m {
                Ok(m) => poss_melds.push(m),
                Err(_) => {
                    assert(false);
                },
            }
        }
        if num >= 3 {
            let m = Meld::new(vec![t, t, t], Some(t), MeldType::Gang);
            match m {
                Ok(m) => poss_melds.push(m),
                Err(_) => {
                    assert(false);
                },
            }
        }
        let ghost head = views(poss_melds@);
        assert(head =~= (if ct.count(t) >= 2 {
            seq![claimed_view(seq![t, t], t, MeldType::Pong)]
        } else {
            Seq::empty()
        }) + (if ct.count(t) >= 3 {
            seq![claimed_view(seq![t, t, t], t, MeldType::Gang)]
        } else {
            Seq::empty()
        }));
        let prev = tile.prev();
        let prev_prev = match prev {
            Some(p) => p.prev(),
            None => None,
        };
        let next = tile.next();
        let next_next = match next {
            Some(n) => n.next(),
            None => None,
        };
        proof {
            lemma_next_index(t);
            if let Some(p) = prev {
                lemma_next_index(p);
            }
            if let Some(n) = next {
                lemma_next_index(n);
            }
        }
        self.push_chi(&mut poss_melds, prev_prev, prev, t);
        self.push_chi(&mut poss_melds, prev, next, t);
        self.push_chi(&mut poss_melds, next, next_next, t);
        assert(views(poss_melds@) =~= claim_melds(ct, t));
        Ok(poss_melds)
    }

    /// Appends the run of `a`, `b` and the claimed `t` when `a` and `b` are both held.
    fn push_chi(&self, melds: &mut Vec<Meld>, a: Option<Tile>, b: Option<Tile>, t: Tile)
        requires
            a matches Some(x) ==> b matches Some(y) ==> ((tile_next(x) == Some(y) && tile_next(y) == Some(t))
                || (tile_next(x) == Some(t) && tile_next(t) == Some(y)) || (tile_next(t) == Some(x)
                && tile_next(x) == Some(y))),
        ensures
            views(final(melds)@) == views(old(melds)@) + chi_claim(self.spec_concealed(), a, b, t),
    {
        let ghost before = views(melds@);
        if let (Some(x), Some(y)) = (a, b) {
            if self.concealed.contains_key(&x) && self.concealed.contains_key(&y) {
                proof {
                    if tile_next(x) == Some(y) && tile_next(y) == Some(t) {
                        lemma_run_melds(x, y, t);
                    } else if tile_next(t) == Some(x) {
                        lemma_run_melds(t, x, y);
                    } else {
                        lemma_run_melds(x, t, y);
                    }
                }
                match Meld::new(vec![x, y], Some(t), MeldType::Chi) {
                    Ok(m) => melds.push(m),
                    Err(_) => {
                        assert(false);
                    },
                }
                assert(views(melds@) =~= before + chi_claim(self.spec_concealed(), a, b, t));
                return;
            }
        }
        assert(views(melds@) =~= before + chi_claim(self.spec_concealed(), a, b, t));
    }

    /// Declares `meld`: its tiles leave the concealed tiles and it joins the declared
    /// melds. Fails, and changes nothing, when a tile of the meld is not held often enough;
    /// the error names that tile.
    pub fn meld(&mut self, meld: Meld) -> (r: Result<(), MahjongError>)
        ensures
            r is Ok <==> forall|t: Tile| occurrences(meld@.tiles, t) <= old(self).spec_concealed().count(t),
            r is Ok ==> (forall|t: Tile| #[trigger] final(self).spec_concealed().count(t)
                == old(self).spec_concealed().count(t) - occurrences(meld@.tiles, t))
                && final(self).spec_melds() == old(self).spec_melds().push(meld@),
            r is Err ==> same_tiles(final(self).spec_concealed(), old(self).spec_concealed())
                && final(self).spec_melds() == old(self).spec_melds(),
            r matches Err(e) ==> e matches MahjongError::TileNotInHandFoundError(t) && occurrences(meld@.tiles, t)
                > old(self).spec_concealed().count(t),
            final(self).spec_bonus() == old(self).spec_bonus(),
            final(self).spec_seen() == old(self).spec_seen(),
    {
        let tiles = meld.tiles();
        let n = tiles.len();
        let mut i: usize = 0;
        while i < n
            invariant
                i <= n,
                n == tiles@.len(),
                tiles@ == meld@.tiles,
                *self == *old(self),
                forall|j: int| 0 <= j < i ==> occurrences(tiles@, #[trigger] tiles@[j]) <= self.concealed.count(tiles@[j]),
            decreases n - i,
        {
            let t = tiles[i];
            if count_tile(tiles, t) > self.concealed.get(&t) as usize {
                return Err(MahjongError::TileNotInHandFoundError(t));
            }
            i = i + 1;
        }
        proof {
            assert forall|t: Tile| occurrences(tiles@, t) <= self.concealed.count(t) by {
                lemma_occurrences_bound(tiles@, t);
                if occurrences(tiles@, t) > 0 {
                    let j = choose|j: int| 0 <= j < tiles@.len() && tiles@[j] == t;
                }
            }
        }
        let ghost start = self.concealed;
        let mut i: usize = 0;
        while i < n
            invariant
                i <= n,
                n == tiles@.len(),
                tiles@ == meld@.tiles,
                start == old(self).concealed,
                self.melds == old(self).melds,
                self.bonus == old(self).bonus,
                self.seen == old(self).seen,
                forall|t: Tile| occurrences(tiles@, t) <= start.count(t),
                forall|t: Tile| #[trigger] self.concealed.count(t) + occurrences(tiles@.take(i as int), t) == start.count(t),
            decreases n - i,
        {
            let t = tiles[i];
            proof {
                assert(tiles@.take(i + 1) =~= tiles@.take(i as int) + seq![t]);
                assert(tiles@ =~= tiles@.take(i + 1) + tiles@.skip(i + 1));
                assert forall|u: Tile| occurrences(tiles@.take(i + 1), u) == occurrences(tiles@.take(i as int), u)
                    + (if t == u { 1nat } else { 0nat }) by {
                    lemma_occurrences_concat(tiles@.take(i as int), seq![t], u);
                    reveal_with_fuel(occurrences, 2);
                }
                lemma_occurrences_concat(tiles@.take(i + 1), tiles@.skip(i + 1), t);
            }
            let removed = self.concealed.remove_n(&t, 1);
            assert(removed is Ok);
            i = i + 1;
        }
        assert(tiles@.take(n as int) =~= tiles@);
        self.melds.push(meld);
        assert(self.spec_melds() =~= old(self).spec_melds().push(meld@));
        Ok(())
    }

    /// A drawn quad for every playable tile held four times, in tile order.
    pub fn get_angangs(&self) -> (r: Vec<Meld>)
        ensures
            views(r@) == tiles_where(
                |t: Tile| self.spec_concealed().count(t) == 4 && is_playable(t),
                NUM_TILE_KINDS as nat,
            ).map_values(|t: Tile| angang_view(t)),
    {
        let ghost f = |t: Tile| self.spec_concealed().count(t) == 4 && is_playable(t);
        let mut melds: Vec<Meld> = Vec::new();
        let mut i: usize = 0;
        while i < NUM_TILE_KINDS
            invariant
                i <= NUM_TILE_KINDS,
                f == (|t: Tile| self.spec_concealed().count(t) == 4 && is_playable(t)),
                views(melds@) == tiles_where(f, i as nat).map_values(|t: Tile| angang_view(t)),
            decreases NUM_TILE_KINDS - i,
        {
            let t = Tile::from_index(i);
            if self.concealed.get(&t) == 4 && t.is_playable() {
                proof {
                    lemma_uniform_melds(t);
                }
                let v = vec![t, t, t, t];
                assert(v@ == seq![t, t, t, t]);
                let ghost old_views = views(melds@);
                match Meld::new(v, None, MeldType::AnGang) {
                    Ok(m) => {
                        assert(m@ == angang_view(t));
                        melds.push(m);
                        assert(views(melds@) =~= old_views.push(angang_view(t)));
                    },
                    Err(_) => {
                        assert(false);
                    },
                }
            }
            assert(tiles_where(f, (i + 1) as nat) == (if f(t) {
                tiles_where(f, i as nat).push(t)
            } else {
                tiles_where(f, i as nat)
            }));
            assert(views(melds@) =~= tiles_where(f, (i + 1) as nat).map_values(|t: Tile| angang_view(t)));
            i = i + 1;
        }
        melds
    }

    pub fn concealed(&self) -> (r: &ConcealedTiles)
        ensures
            *r == self.spec_concealed(),
    {
        &self.concealed
    }

    pub fn melds(&self) -> (r: &Vec<Meld>)
        ensures
            views(r@) == self.spec_melds(),
    {
        &self.melds
    }

    pub fn bonus(&self) -> (r: &Vec<Tile>)
        ensures
            r@ == self.spec_bonus(),
    {
        &self.bonus
    }

    /// The tiles discarded since the last draw.
    pub fn seen(&self) -> (r: &Vec<Tile>)
        ensures
            forall|t: Tile| r@.contains(t) <==> self.spec_seen().contains(t),
    {
        &self.seen
    }
}

/// Same as `Hand::new`.
impl Default for Hand {
    fn default() -> (r: Self)
        ensures
            forall|t: Tile| r.spec_concealed().count(t) == 0,
            r.spec_melds() == Seq::<MeldView>::empty(),
            r.spec_bonus() == Seq::<Tile>::empty(),
            r.spec_seen() == Set::<Tile>::empty(),
    {
        Hand::new()
    }
}

} // verus!
