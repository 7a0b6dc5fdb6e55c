use vstd::prelude::*;

use super::tile::{playable_tile, value_suit, Tile};

verus! {

/// A declared meld.
#[derive(Debug, PartialEq, Eq, Structural, Clone, Copy)]
pub enum Meld {
    Chi(Chi),
    Pong(Pong),
    Gang(Gang),
    AnGang(AnGang),
}

/// Whether `tile` is a number tile.
pub fn is_value_suit(tile: &Tile) -> (r: bool)
    ensures
        r == value_suit(*tile),
{
    matches!(tile, Tile::Wan(_) | Tile::Suo(_) | Tile::Tong(_))
}

/// Whether `tile` can be melded: anything but a flower or an animal.
pub fn is_playable_tile(tile: &Tile) -> (r: bool)
    ensures
        r == playable_tile(*tile),
{
    !matches!(tile, Tile::Hua(_) | Tile::Animal(_))
}

/// The face value of a number tile.
pub open spec fn face(t: Tile) -> int {
    match t {
        Tile::Wan(v) => v as int,
        Tile::Suo(v) => v as int,
        Tile::Tong(v) => v as int,
        _ => 0,
    }
}

pub open spec fn same_kind(x: Tile, y: Tile) -> bool {
    (x is Wan && y is Wan) || (x is Suo && y is Suo) || (x is Tong && y is Tong) || (x is Feng && y is Feng)
        || (x is Dragon && y is Dragon) || (x is Hua && y is Hua) || (x is Animal && y is Animal)
}

/// `a`, `b` and `c`, in some order, are three consecutive integers.
pub open spec fn consecutive(a: int, b: int, c: int) -> bool {
    ||| (b == a + 1 && c == a + 2)
    ||| (c == a + 1 && b == a + 2)
    ||| (a == b + 1 && c == b + 2)
    ||| (c == b + 1 && a == b + 2)
    ||| (a == c + 1 && b == c + 2)
    ||| (b == c + 1 && a == c + 2)
}

/// `a`, `b` and `c` are number tiles of one suit whose values, in some order, are
/// consecutive.
pub open spec fn is_run_of(a: Tile, b: Tile, c: Tile) -> bool {
    &&& value_suit(a)
    &&& same_kind(a, b)
    &&& same_kind(a, c)
    &&& consecutive(face(a), face(b), face(c))
}

/// Three number tiles of one suit with consecutive values, kept in the order given.
#[derive(Debug, PartialEq, Eq, Structural, Clone, Copy)]
pub struct Chi(Tile, Tile, Tile);

impl Chi {
    pub closed spec fn view(self) -> (Tile, Tile, Tile) {
        (self.0, self.1, self.2)
    }

    #[verifier::type_invariant]
    spec fn inv(self) -> bool {
        is_run_of(self.0, self.1, self.2)
    }

    /// The run of `x`, `y` and `z`. Fails on the first tile that is not a number tile,
    /// then when the suits differ, then when the values are not consecutive.
    pub fn new(x: Tile, y: Tile, z: Tile) -> (r: Result<Self, IllegalChiError>)
        ensures
            !value_suit(x) ==> r == Err::<Chi, IllegalChiError>(IllegalChiError::IllegalTileError(x)),
            value_suit(x) && !value_suit(y) ==> r == Err::<Chi, IllegalChiError>(IllegalChiError::IllegalTileError(y)),
            value_suit(x) && value_suit(y) && !value_suit(z) ==> r == Err::<Chi, IllegalChiError>(
                IllegalChiError::IllegalTileError(z),
            ),
            value_suit(x) && value_suit(y) && value_suit(z) && !(same_kind(x, y) && same_kind(x, z))
                ==> r == Err::<Chi, IllegalChiError>(IllegalChiError::NotSameSuitError(x, y, z)),
            value_suit(x) && same_kind(x, y) && same_kind(x, z) && !consecutive(face(x), face(y), face(z))
                ==> r == Err::<Chi, IllegalChiError>(IllegalChiError::NotASequenceError(x, y, z)),
            value_suit(x) && same_kind(x, y) && same_kind(x, z) && consecutive(face(x), face(y), face(z))
                ==> (r matches Ok(c) && c.view() == (x, y, z)),
    {
        if !is_value_suit(&x) {
            return Err(IllegalChiError::IllegalTileError(x));
        }
        if !is_value_suit(&y) {
            return Err(IllegalChiError::IllegalTileError(y));
        }
        if !is_value_suit(&z) {
            return Err(IllegalChiError::IllegalTileError(z));
        }
        let (a, b, c, same) = match (x, y, z) {
            (Tile::Wan(a), Tile::Wan(b), Tile::Wan(c)) => (a, b, c, true),
            (Tile::Suo(a), Tile::Suo(b), Tile::Suo(c)) => (a, b, c, true),
            (Tile::Tong(a), Tile::Tong(b), Tile::Tong(c)) => (a, b, c, true),
            _ => (0, 0, 0, false),
        };
        if !same {
            return Err(IllegalChiError::NotSameSuitError(x, y, z));
        }
        let a = a as i16;
        let b = b as i16;
        let c = c as i16;
        let low = if a <= b && a <= c {
            a
        } else if b <= c {
            b
        } else {
            c
        };
        let high = if a >= b && a >= c {
            a
        } else if b >= c {
            b
        } else {
            c
        };
        if !(high == low + 2 && a != b && b != c && a != c) {
            return Err(IllegalChiError::NotASequenceError(x, y, z));
        }
        Ok(Chi(x, y, z))
    }

    pub fn get_0(&self) -> (r: &Tile)
        ensures
            *r == self.view().0,
            is_run_of(self.view().0, self.view().1, self.view().2),
    {
        proof {
            use_type_invariant(self);
        }
        &self.0
    }

    pub fn get_1(&self) -> (r: &Tile)
        ensures
            *r == self.view().1,
    {
        &self.1
    }

    pub fn get_2(&self) -> (r: &Tile)
        ensures
            *r == self.view().2,
    {
        &self.2
    }
}

/// Three identical playable tiles.
#[derive(Debug, PartialEq, Eq, Structural, Clone, Copy)]
pub struct Pong(Tile);

impl Pong {
    pub closed spec fn view(self) -> Tile {
        self.0
    }

    #[verifier::type_invariant]
    spec fn inv(self) -> bool {
        playable_tile(self.0)
    }

    /// A triplet of `tile`; fails on a flower or an animal.
    pub fn new(tile: Tile) -> (r: Result<Self, IllegalPongError>)
        ensures
            playable_tile(tile) ==> (r matches Ok(p) && p.view() == tile),
            !playable_tile(tile) ==> r == Err::<Pong, IllegalPongError>(IllegalPongError::IllegalTileError(tile)),
    {
        match is_playable_tile(&tile) {
            true => Ok(Pong(tile)),
            false => Err(IllegalPongError::IllegalTileError(tile)),
        }
    }

    pub fn get_0(&self) -> (r: &Tile)
        ensures
            *r == self.view(),
            playable_tile(*r),
    {
        proof {
            use_type_invariant(self);
        }
        &self.0
    }
}

/// Four identical playable tiles, the last claimed from a discard.
#[derive(Debug, PartialEq, Eq, Structural, Clone, Copy)]
pub struct Gang(Tile);

impl Gang {
    pub closed spec fn view(self) -> Tile {
        self.0
    }

    #[verifier::type_invariant]
    spec fn inv(self) -> bool {
        playable_tile(self.0)
    }

    /// A claimed quad of `tile`; fails on a flower or an animal.
    pub fn new(tile: Tile) -> (r: Result<Self, IllegalGangError>)
        ensures
            playable_tile(tile) ==> (r matches Ok(g) && g.view() == tile),
            !playable_tile(tile) ==> r == Err::<Gang, IllegalGangError>(IllegalGangError::IllegalTileError(tile)),
    {
        match is_playable_tile(&tile) {
            true => Ok(Gang(tile)),
            false => Err(IllegalGangError::IllegalTileError(tile)),
        }
    }

    pub fn get_0(&self) -> (r: &Tile)
        ensures
            *r == self.view(),
            playable_tile(*r),
    {
        proof {
            use_type_invariant(self);
        }
        &self.0
    }
}

/// Four identical playable tiles, all drawn.
#[derive(Debug, PartialEq, Eq, Structural, Clone, Copy)]
pub struct AnGang(Tile);

impl AnGang {
    pub closed spec fn view(self) -> Tile {
        self.0
    }

    #[verifier::type_invariant]
    spec fn inv(self) -> bool {
        playable_tile(self.0)
    }

    /// A drawn quad of `tile`; fails on a flower or an animal.
    pub fn new(tile: Tile) -> (r: Result<Self, IllegalAnGangError>)
        ensures
            playable_tile(tile) ==> (r matches Ok(g) && g.view() == tile),
            !playable_tile(tile) ==> r == Err::<AnGang, IllegalAnGangError>(IllegalAnGangError::IllegalTileError(tile)),
    {
        match is_playable_tile(&tile) {
            true => Ok(AnGang(tile)),
            false => Err(IllegalAnGangError::IllegalTileError(tile)),
        }
    }

    pub fn get_0(&self) -> (r: &Tile)
        ensures
            *r == self.view(),
            playable_tile(*r),
    {
        proof {
            use_type_invariant(self);
        }
        &self.0
    }
}

#[derive(Debug, PartialEq, Eq, Structural, Clone, Copy)]
pub enum IllegalChiError {
    /// Only number tiles can form a run.
    IllegalTileError(Tile),
    /// The values are not consecutive.
    NotASequenceError(Tile, Tile, Tile),
    /// The tiles are not all of one suit.
    NotSameSuitError(Tile, Tile, Tile),
}

#[derive(Debug, PartialEq, Eq, Structural, Clone, Copy)]
pub enum IllegalPongError {
    /// Flowers and animals cannot form a triplet.
    IllegalTileError(Tile),
}

#[derive(Debug, PartialEq, Eq, Structural, Clone, Copy)]
pub enum IllegalGangError {
    /// Flowers and animals cannot form a quad.
    IllegalTileError(Tile),
}

#[derive(Debug, PartialEq, Eq, Structural, Clone, Copy)]
pub enum IllegalAnGangError {
    /// Flowers and animals cannot form a quad.
    IllegalTileError(Tile),
}

} // verus!
