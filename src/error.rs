use vstd::prelude::*;

use crate::meld::MeldType;
use crate::tile::{Suit, Tile};

verus! {

/// Errors of hand bookkeeping and meld construction.
#[derive(Debug, PartialEq, Eq)]
pub enum MahjongError {
    /// The tile is not in the hand, or not in the quantity asked for.
    TileNotInHandFoundError(Tile),
    /// A bonus tile of this suit was offered where only playable tiles are allowed.
    TileNotPlayableError(Suit),
    /// The tiles and the optional claimed tile do not form a meld of this type.
    InvalidMeldError(MeldType, Vec<Tile>, Option<Tile>),
}

} // verus!
