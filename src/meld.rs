use vstd::prelude::*;

use crate::error::MahjongError;
use crate::tile::{is_playable, lemma_next_index, suit_of, tile_next, Suit, Tile};
use crate::tile_seq::{
    is_sorted, lemma_sorted_tiles, lemma_sorted_tiles_is, lemma_sorted_tiles_of_sorted, occurrences,
    sort_tiles, sorted_tiles,
};

verus! {

#[derive(Debug, Clone, Copy, PartialEq, Eq, Structural, PartialOrd, Ord, Hash)]
pub enum MeldType {
    /// A run of three consecutive tiles of one suit.
    Chi,
    /// Three identical tiles.
    Pong,
    /// Four identical tiles, the last claimed from a discard.
    Gang,
    /// Four identical tiles, all drawn.
    AnGang,
    /// Two identical tiles: the head of a winning hand.
    Eye,
}

/// What a meld holds, as mathematical values.
pub struct MeldView {
    /// The meld's own tiles, in tile order.
    pub tiles: Seq<Tile>,
    /// The discarded tile that completed the meld, if it was claimed.
    pub discarded_tile: Option<Tile>,
    pub meld_type: MeldType,
    pub suit: Suit,
}

/// A validated group of tiles. Only `Meld::new` makes one, so every meld satisfies
/// `meld_wf`.
#[derive(Debug, PartialEq, Eq)]
pub struct Meld {
    tiles: Vec<Tile>,
    discarded_tile: Option<Tile>,
    meld_type: MeldType,
    suit: Suit,
}

/// The tiles of a meld together with the claimed tile.
pub open spec fn with_discarded(tiles: Seq<Tile>, discarded_tile: Option<Tile>) -> Seq<Tile> {
    match discarded_tile {
        Some(d) => tiles.push(d),
        None => tiles,
    }
}

/// Each tile is followed by its successor.
pub open spec fn is_run(s: Seq<Tile>) -> bool {
    forall|i: int| 0 <= i < s.len() - 1 ==> tile_next(#[trigger] s[i]) == Some(s[i + 1])
}

/// All tiles are the same.
pub open spec fn is_uniform(s: Seq<Tile>) -> bool {
    forall|i: int| 0 <= i < s.len() - 1 ==> #[trigger] s[i] == s[i + 1]
}

/// The shape that a meld type asks of all of its tiles (claimed tile included, in tile order).
pub open spec fn shape_ok(meld_type: MeldType, all: Seq<Tile>, discarded_tile: Option<Tile>) -> bool {
    match meld_type {
        MeldType::Chi => all.len() == 3 && is_run(all),
        MeldType::Pong => all.len() == 3 && is_uniform(all),
        MeldType::Gang => discarded_tile is Some && all.len() == 4 && is_uniform(all),
        MeldType::AnGang => discarded_tile is None && all.len() == 4 && is_uniform(all),
        MeldType::Eye => discarded_tile is None && all.len() == 2 && is_uniform(all),
    }
}

/// `Meld::new(tiles, discarded_tile, meld_type)` succeeds exactly on these inputs.
pub open spec fn meld_accepts(tiles: Seq<Tile>, discarded_tile: Option<Tile>, meld_type: MeldType) -> bool {
    let sorted = sorted_tiles(tiles);
    &&& sorted.len() > 0
    &&& is_playable(sorted[0])
    &&& shape_ok(meld_type, sorted_tiles(with_discarded(sorted, discarded_tile)), discarded_tile)
}

/// A well-formed meld: it can be built again from its own parts, its tiles are in order,
/// and its suit is that of its tiles.
pub open spec fn meld_wf(m: MeldView) -> bool {
    &&& meld_accepts(m.tiles, m.discarded_tile, m.meld_type)
    &&& is_sorted(m.tiles)
    &&& m.suit == suit_of(m.tiles[0])
}

/// Melds of identical tiles: a pair, a claimed or drawn triplet, a claimed or drawn quad.
pub proof fn lemma_uniform_melds(t: Tile)
    requires
        is_playable(t),
    ensures
        meld_accepts(seq![t, t], None, MeldType::Eye),
        meld_accepts(seq![t, t, t], None, MeldType::Pong),
        meld_accepts(seq![t, t], Some(t), MeldType::Pong),
        meld_accepts(seq![t, t, t], Some(t), MeldType::Gang),
        meld_accepts(seq![t, t, t, t], None, MeldType::AnGang),
        sorted_tiles(seq![t, t]) == seq![t, t],
        sorted_tiles(seq![t, t, t]) == seq![t, t, t],
        sorted_tiles(seq![t, t, t, t]) == seq![t, t, t, t],
{
    lemma_sorted_tiles_of_sorted(seq![t, t]);
    lemma_sorted_tiles_of_sorted(seq![t, t, t]);
    lemma_sorted_tiles_of_sorted(seq![t, t, t, t]);
    assert(seq![t, t].push(t) =~= seq![t, t, t]);
    assert(seq![t, t, t].push(t) =~= seq![t, t, t, t]);
}

/// Melds of a run `a`, `b`, `c`: drawn whole, or completed by claiming any one of them.
pub proof fn lemma_run_melds(a: Tile, b: Tile, c: Tile)
    requires
        tile_next(a) == Some(b),
        tile_next(b) == Some(c),
    ensures
        meld_accepts(seq![a, b, c], None, MeldType::Chi),
        meld_accepts(seq![b, c], Some(a), MeldType::Chi),
        meld_accepts(seq![a, c], Some(b), MeldType::Chi),
        meld_accepts(seq![a, b], Some(c), MeldType::Chi),
        sorted_tiles(seq![a, b, c]) == seq![a, b, c],
        sorted_tiles(seq![b, c]) == seq![b, c],
        sorted_tiles(seq![a, c]) == seq![a, c],
        sorted_tiles(seq![a, b]) == seq![a, b],
        is_playable(a) && is_playable(b) && is_playable(c),
        suit_of(a) == suit_of(b) && suit_of(b) == suit_of(c),
{
    lemma_next_index(a);
    lemma_next_index(b);
    let abc = seq![a, b, c];
    lemma_sorted_tiles_of_sorted(abc);
    lemma_sorted_tiles_of_sorted(seq![b, c]);
    lemma_sorted_tiles_of_sorted(seq![a, c]);
    lemma_sorted_tiles_of_sorted(seq![a, b]);
    assert(seq![a, b].push(c) =~= abc);
    assert forall|x: Tile| occurrences(seq![b, c].push(a), x) == occurrences(abc, x) by {
        reveal_with_fuel(occurrences, 4);
        assert(seq![b, c].push(a).drop_first() =~= seq![c, a]);
        assert(seq![c, a].drop_first() =~= seq![a]);
        assert(abc.drop_first() =~= seq![b, c]);
        assert(seq![b, c].drop_first() =~= seq![c]);
        assert(seq![a].drop_first() =~= Seq::<Tile>::empty());
        assert(seq![c].drop_first() =~= Seq::<Tile>::empty());
    }
    assert forall|x: Tile| occurrences(seq![a, c].push(b), x) == occurrences(abc, x) by {
        reveal_with_fuel(occurrences, 4);
        assert(seq![a, c].push(b).drop_first() =~= seq![c, b]);
        assert(seq![c, b].drop_first() =~= seq![b]);
        assert(abc.drop_first() =~= seq![b, c]);
        assert(seq![b, c].drop_first() =~= seq![c]);
        assert(seq![b].drop_first() =~= Seq::<Tile>::empty());
        assert(seq![c].drop_first() =~= Seq::<Tile>::empty());
    }
    lemma_sorted_tiles_is(seq![b, c].push(a), abc);
    lemma_sorted_tiles_is(seq![a, c].push(b), abc);
}

impl View for Meld {
    type V = MeldView;

    closed spec fn view(&self) -> MeldView {
        MeldView {
            tiles: self.tiles@,
            discarded_tile: self.discarded_tile,
            meld_type: self.meld_type,
            suit: self.suit,
        }
    }
}

fn check_run(all: &Vec<Tile>) -> (r: bool)
    ensures
        r == is_run(all@),
{
    let mut i: usize = 0;
    while i < all.len() && i + 1 < all.len()
        invariant
            i <= all.len(),
            forall|j: int| 0 <= j < i && j < all@.len() - 1 ==> tile_next(#[trigger] all@[j]) == Some(all@[j + 1]),
        decreases all.len() - i,
    {
        let ok = match all[i].next() {
            Some(t) => t == all[i + 1],
            None => false,
        };
        if !ok {
            return false;
        }
        i = i + 1;
    }
    true
}

fn check_uniform(all: &Vec<Tile>) -> (r: bool)
    ensures
        r == is_uniform(all@),
{
    let mut i: usize = 0;
    while i < all.len() && i + 1 < all.len()
        invariant
            i <= all.len(),
            forall|j: int| 0 <= j < i && j < all@.len() - 1 ==> #[trigger] all@[j] == all@[j + 1],
        decreases all.len() - i,
    {
        if all[i] != all[i + 1] {
            return false;
        }
        i = i + 1;
    }
    true
}

impl Meld {
    #[verifier::type_invariant]
    spec fn inv(self) -> bool {
        meld_wf(self@)
    }

    /// Builds a meld of `meld_type` from `tiles` and the claimed `discarded_tile`.
    /// The tiles are kept in tile order; the error names the type, the ordered tiles and
    /// the claimed tile.
    pub fn new(tiles: Vec<Tile>, discarded_tile: Option<Tile>, meld_type: MeldType) -> (r: Result<Self, MahjongError>)
        ensures
            r is Ok <==> meld_accepts(tiles@, discarded_tile, meld_type),
            r matches Ok(m) ==> m@ == (MeldView {
                tiles: sorted_tiles(tiles@),
                discarded_tile,
                meld_type,
                suit: suit_of(sorted_tiles(tiles@)[0]),
            }),
            r matches Ok(m) ==> meld_wf(m@),
            r matches Err(e) ==> e matches MahjongError::InvalidMeldError(ty, v, d) && ty == meld_type
                && v@ == sorted_tiles(tiles@) && d == discarded_tile,
    {
        let sorted = sort_tiles(&tiles);
        proof {
            lemma_sorted_tiles(tiles@);
            lemma_sorted_tiles_of_sorted(sorted@);
        }
        if sorted.len() == 0 {
            return Err(MahjongError::InvalidMeldError(meld_type, sorted, discarded_tile));
        }
        let suit = sorted[0].suit();
        if !sorted[0].is_playable() {
            return Err(MahjongError::InvalidMeldError(meld_type, sorted, discarded_tile));
        }
        let mut with_claimed = sort_tiles(&sorted);
        if let Some(d) = discarded_tile {
            with_claimed.push(d);
        }
        assert(with_claimed@ == with_discarded(sorted@, discarded_tile));
        let all = sort_tiles(&with_claimed);
        let ok = match meld_type {
            MeldType::Chi => all.len() == 3 && check_run(&all),
            MeldType::Pong => all.len() == 3 && check_uniform(&all),
            MeldType::Gang => discarded_tile.is_some() && all.len() == 4 && check_uniform(&all),
            MeldType::AnGang => discarded_tile.is_none() && all.len() == 4 && check_uniform(&all),
            MeldType::Eye => discarded_tile.is_none() && all.len() == 2 && check_uniform(&all),
        };
        if !ok {
            return Err(MahjongError::InvalidMeldError(meld_type, sorted, discarded_tile));
        }
        Ok(Meld { tiles: sorted, discarded_tile, meld_type, suit })
    }

    /// The meld's own tiles, in tile order (the claimed tile is not among them).
    pub fn tiles(&self) -> (r: &Vec<Tile>)
        ensures
            r@ == self@.tiles,
            meld_wf(self@),
    {
        proof {
            use_type_invariant(self);
        }
        &self.tiles
    }

    pub fn suit(&self) -> (r: &Suit)
        ensures
            *r == self@.suit,
            meld_wf(self@),
    {
        proof {
            use_type_invariant(self);
        }
        &self.suit
    }

    pub fn meld_type(&self) -> (r: &MeldType)
        ensures
            *r == self@.meld_type,
            meld_wf(self@),
    {
        proof {
            use_type_invariant(self);
        }
        &self.meld_type
    }

    /// The discarded tile that completed the meld, if it was claimed.
    pub fn discarded_tile(&self) -> (r: Option<Tile>)
        ensures
            r == self@.discarded_tile,
            meld_wf(self@),
    {
        proof {
            use_type_invariant(self);
        }
        self.discarded_tile
    }
}

impl Clone for Meld {
    fn clone(&self) -> (r: Self)
        ensures
            r@ == self@,
    {
        proof {
            use_type_invariant(self);
        }
        let tiles = self.tiles.clone();
        assert(tiles@ =~= self.tiles@);
        Meld { tiles, discarded_tile: self.discarded_tile, meld_type: self.meld_type, suit: self.suit }
    }
}

} // verus!
