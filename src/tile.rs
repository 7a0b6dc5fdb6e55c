use vstd::prelude::*;

verus! {

/// Number of distinct tile kinds, counting every suit, honour and bonus tile.
pub const NUM_TILE_KINDS: usize = 46;

/// A mahjong tile. The declaration order of the variants (and of their
/// payloads) is the total order in which tiles are sorted.
#[derive(Debug, Clone, Copy, PartialEq, Eq, Structural, PartialOrd, Ord, Hash)]
pub enum Tile {
    Wan(TileValue),
    Suo(TileValue),
    Tong(TileValue),
    Wind(Wind),
    Dragon(Dragon),
    Animal(Animal),
    Flower(Flower),
}

#[derive(Debug, Clone, Copy, PartialEq, Eq, Structural, PartialOrd, Ord, Hash)]
pub enum TileValue {
    One,
    Two,
    Three,
    Four,
    Five,
    Six,
    Seven,
    Eight,
    Nine,
}

#[derive(Debug, Clone, Copy, PartialEq, Eq, Structural, PartialOrd, Ord, Hash)]
pub enum Wind {
    East,
    South,
    West,
    North,
}

#[derive(Debug, Clone, Copy, PartialEq, Eq, Structural, PartialOrd, Ord, Hash)]
pub enum Dragon {
    Zhong,
    Fa,
    Baiban,
}

#[derive(Debug, Clone, Copy, PartialEq, Eq, Structural, PartialOrd, Ord, Hash)]
pub enum Animal {
    Cat,
    Rat,
    Chicken,
    Centipede,
}

#[derive(Debug, Clone, Copy, PartialEq, Eq, Structural, PartialOrd, Ord, Hash)]
pub enum Flower {
    Red(FlowerValue),
    Blue(FlowerValue),
}

#[derive(Debug, Clone, Copy, PartialEq, Eq, Structural, PartialOrd, Ord, Hash)]
pub enum FlowerValue {
    One,
    Two,
    Three,
    Four,
}

#[derive(Debug, Clone, Copy, PartialEq, Eq, Structural, PartialOrd, Ord, Hash)]
pub enum Suit {
    Wan,
    Suo,
    Tong,
    Wind,
    Dragon,
    Animal,
    Flower,
}

impl TileValue {
    /// The face value, 1 to 9.
    pub open spec fn rank(self) -> nat {
        match self {
            TileValue::One => 1,
            TileValue::Two => 2,
            TileValue::Three => 3,
            TileValue::Four => 4,
            TileValue::Five => 5,
            TileValue::Six => 6,
            TileValue::Seven => 7,
            TileValue::Eight => 8,
            TileValue::Nine => 9,
        }
    }

    /// The value of face `n` (meaningful for `1 <= n <= 9`).
    pub open spec fn of_rank(n: nat) -> TileValue {
        if n <= 1 {
            TileValue::One
        } else if n == 2 {
            TileValue::Two
        } else if n == 3 {
            TileValue::Three
        } else if n == 4 {
            TileValue::Four
        } else if n == 5 {
            TileValue::Five
        } else if n == 6 {
            TileValue::Six
        } else if n == 7 {
            TileValue::Seven
        } else if n == 8 {
            TileValue::Eight
        } else {
            TileValue::Nine
        }
    }

    pub open spec fn spec_next(self) -> Option<TileValue> {
        if self.rank() < 9 {
            Some(TileValue::of_rank(self.rank() + 1))
        } else {
            None
        }
    }

    pub open spec fn spec_prev(self) -> Option<TileValue> {
        if self.rank() > 1 {
            Some(TileValue::of_rank((self.rank() - 1) as nat))
        } else {
            None
        }
    }

    /// The value one higher, or `None` for nine.
    pub fn next(&self) -> (r: Option<TileValue>)
        ensures
            r == self.spec_next(),
            r matches Some(v) ==> v.rank() == self.rank() + 1,
    {
        match self {
            TileValue::One => Some(TileValue::Two),
            TileValue::Two => Some(TileValue::Three),
            TileValue::Three => Some(TileValue::Four),
            TileValue::Four => Some(TileValue::Five),
            TileValue::Five => Some(TileValue::Six),
            TileValue::Six => Some(TileValue::Seven),
            TileValue::Seven => Some(TileValue::Eight),
            TileValue::Eight => Some(TileValue::Nine),
            TileValue::Nine => None,
        }
    }

    /// The value one lower, or `None` for one.
    pub fn prev(&self) -> (r: Option<TileValue>)
        ensures
            r == self.spec_prev(),
            r matches Some(v) ==> v.rank() + 1 == self.rank(),
    {
        match self {
            TileValue::One => None,
            TileValue::Two => Some(TileValue::One),
            TileValue::Three => Some(TileValue::Two),
            TileValue::Four => Some(TileValue::Three),
            TileValue::Five => Some(TileValue::Four),
            TileValue::Six => Some(TileValue::Five),
            TileValue::Seven => Some(TileValue::Six),
            TileValue::Eight => Some(TileValue::Seven),
            TileValue::Nine => Some(TileValue::Eight),
        }
    }
}

/// Position of a tile in the sort order of tiles, `0 <= tile_index(t) < NUM_TILE_KINDS`.
pub open spec fn tile_index(t: Tile) -> nat {
    match t {
        Tile::Wan(v) => (v.rank() - 1) as nat,
        Tile::Suo(v) => (v.rank() + 8) as nat,
        Tile::Tong(v) => (v.rank() + 17) as nat,
        Tile::Wind(w) => match w {
            Wind::East => 27,
            Wind::South => 28,
            Wind::West => 29,
            Wind::North => 30,
        },
        Tile::Dragon(d) => match d {
            Dragon::Zhong => 31,
            Dragon::Fa => 32,
            Dragon::Baiban => 33,
        },
        Tile::Animal(a) => match a {
            Animal::Cat => 34,
            Animal::Rat => 35,
            Animal::Chicken => 36,
            Animal::Centipede => 37,
        },
        Tile::Flower(f) => match f {
            Flower::Red(v) => (37 + flower_rank(v)) as nat,
            Flower::Blue(v) => (41 + flower_rank(v)) as nat,
        },
    }
}

pub open spec fn flower_rank(v: FlowerValue) -> nat {
    match v {
        FlowerValue::One => 1,
        FlowerValue::Two => 2,
        FlowerValue::Three => 3,
        FlowerValue::Four => 4,
    }
}

/// The tile at position `i` of the sort order (meaningful for `i < NUM_TILE_KINDS`).
pub open spec fn tile_at(i: nat) -> Tile {
    if i < 9 {
        Tile::Wan(TileValue::of_rank(i + 1))
    } else if i < 18 {
        Tile::Suo(TileValue::of_rank((i - 8) as nat))
    } else if i < 27 {
        Tile::Tong(TileValue::of_rank((i - 17) as nat))
    } else if i == 27 {
        Tile::Wind(Wind::East)
    } else if i == 28 {
        Tile::Wind(Wind::South)
    } else if i == 29 {
        Tile::Wind(Wind::West)
    } else if i == 30 {
        Tile::Wind(Wind::North)
    } else if i == 31 {
        Tile::Dragon(Dragon::Zhong)
    } else if i == 32 {
        Tile::Dragon(Dragon::Fa)
    } else if i == 33 {
        Tile::Dragon(Dragon::Baiban)
    } else if i == 34 {
        Tile::Animal(Animal::Cat)
    } else if i == 35 {
        Tile::Animal(Animal::Rat)
    } else if i == 36 {
        Tile::Animal(Animal::Chicken)
    } else if i == 37 {
        Tile::Animal(Animal::Centipede)
    } else if i == 38 {
        Tile::Flower(Flower::Red(FlowerValue::One))
    } else if i == 39 {
        Tile::Flower(Flower::Red(FlowerValue::Two))
    } else if i == 40 {
        Tile::Flower(Flower::Red(FlowerValue::Three))
    } else if i == 41 {
        Tile::Flower(Flower::Red(FlowerValue::Four))
    } else if i == 42 {
        Tile::Flower(Flower::Blue(FlowerValue::One))
    } else if i == 43 {
        Tile::Flower(Flower::Blue(FlowerValue::Two))
    } else if i == 44 {
        Tile::Flower(Flower::Blue(FlowerValue::Three))
    } else {
        Tile::Flower(Flower::Blue(FlowerValue::Four))
    }
}

/// Distinct tiles sit at distinct positions of the sort order, and `tile_at` inverts
/// `tile_index`.
pub proof fn lemma_tile_index_injective(a: Tile, b: Tile)
    ensures
        tile_index(a) < NUM_TILE_KINDS,
        tile_index(a) == tile_index(b) ==> a == b,
        tile_at(tile_index(a)) == a,
{
}

pub proof fn lemma_tile_at(i: nat)
    requires
        i < NUM_TILE_KINDS,
    ensures
        tile_index(tile_at(i)) == i,
{
}

/// Suited tiles whose face values count up by one.
pub open spec fn is_number(t: Tile) -> bool {
    t is Wan || t is Suo || t is Tong
}

/// Tiles that can be part of a meld: everything but the bonus tiles.
pub open spec fn is_playable(t: Tile) -> bool {
    !(t is Animal || t is Flower)
}

pub open spec fn suit_of(t: Tile) -> Suit {
    match t {
        Tile::Wan(_) => Suit::Wan,
        Tile::Suo(_) => Suit::Suo,
        Tile::Tong(_) => Suit::Tong,
        Tile::Wind(_) => Suit::Wind,
        Tile::Dragon(_) => Suit::Dragon,
        Tile::Animal(_) => Suit::Animal,
        Tile::Flower(_) => Suit::Flower,
    }
}

/// The face value of a suited tile.
pub open spec fn value_of(t: Tile) -> TileValue
    recommends
        is_number(t),
{
    match t {
        Tile::Wan(v) => v,
        Tile::Suo(v) => v,
        Tile::Tong(v) => v,
        _ => TileValue::One,
    }
}

/// The same suit with the face value `v`.
pub open spec fn with_value(t: Tile, v: TileValue) -> Tile {
    match t {
        Tile::Wan(_) => Tile::Wan(v),
        Tile::Suo(_) => Tile::Suo(v),
        Tile::Tong(_) => Tile::Tong(v),
        _ => t,
    }
}

pub open spec fn tile_next(t: Tile) -> Option<Tile> {
    if is_number(t) && value_of(t).rank() < 9 {
        Some(with_value(t, TileValue::of_rank(value_of(t).rank() + 1)))
    } else {
        None
    }
}

pub open spec fn tile_prev(t: Tile) -> Option<Tile> {
    if is_number(t) && value_of(t).rank() > 1 {
        Some(with_value(t, TileValue::of_rank((value_of(t).rank() - 1) as nat)))
    } else {
        None
    }
}

/// The successor of a tile sits right after it in the sort order, in the same suit.
pub proof fn lemma_next_index(t: Tile)
    ensures
        tile_next(t) matches Some(n) ==> tile_index(n) == tile_index(t) + 1 && suit_of(n)
            == suit_of(t) && is_number(n),
        tile_prev(t) matches Some(p) ==> tile_index(p) + 1 == tile_index(t) && suit_of(p)
            == suit_of(t) && is_number(p),
        tile_next(t) matches Some(n) ==> tile_prev(n) == Some(t),
        tile_prev(t) matches Some(p) ==> tile_next(p) == Some(t),
{
}

impl Tile {
    /// The tile of the same suit one higher, or `None` at nine and for tiles without a value.
    pub fn next(&self) -> (r: Option<Tile>)
        ensures
            r == tile_next(*self),
    {
        match self {
            Tile::Wan(val) => match val.next() {
                Some(v) => Some(Tile::Wan(v)),
                None => None,
            },
            Tile::Suo(val) => match val.next() {
                Some(v) => Some(Tile::Suo(v)),
                None => None,
            },
            Tile::Tong(val) => match val.next() {
                Some(v) => Some(Tile::Tong(v)),
                None => None,
            },
            _ => None,
        }
    }

    /// The tile of the same suit one lower, or `None` at one and for tiles without a value.
    pub fn prev(&self) -> (r: Option<Tile>)
        ensures
            r == tile_prev(*self),
    {
        match self {
            Tile::Wan(val) => match val.prev() {
                Some(v) => Some(Tile::Wan(v)),
                None => None,
            },
            Tile::Suo(val) => match val.prev() {
                Some(v) => Some(Tile::Suo(v)),
                None => None,
            },
            Tile::Tong(val) => match val.prev() {
                Some(v) => Some(Tile::Tong(v)),
                None => None,
            },
            _ => None,
        }
    }

    pub fn suit(&self) -> (r: Suit)
        ensures
            r == suit_of(*self),
    {
        match self {
            Tile::Wan(_) => Suit::Wan,
            Tile::Suo(_) => Suit::Suo,
            Tile::Tong(_) => Suit::Tong,
            Tile::Wind(_) => Suit::Wind,
            Tile::Dragon(_) => Suit::Dragon,
            Tile::Animal(_) => Suit::Animal,
            Tile::Flower(_) => Suit::Flower,
        }
    }

    /// Whether the tile can be part of a meld (bonus tiles cannot).
    pub fn is_playable(&self) -> (r: bool)
        ensures
            r == is_playable(*self),
    {
        match self {
            Tile::Animal(_) | Tile::Flower(_) => false,
            _ => true,
        }
    }

    /// Position of the tile in the sort order of tiles.
    pub fn index(&self) -> (r: usize)
        ensures
            r == tile_index(*self),
            r < NUM_TILE_KINDS,
    {
        let value_index = |v: &TileValue| -> (r: usize)
            ensures
                r + 1 == v.rank(),
            {
                match v {
                    TileValue::One => 0,
                    TileValue::Two => 1,
                    TileValue::Three => 2,
                    TileValue::Four => 3,
                    TileValue::Five => 4,
                    TileValue::Six => 5,
                    TileValue::Seven => 6,
                    TileValue::Eight => 7,
                    TileValue::Nine => 8,
                }
            };
        let flower_index = |v: &FlowerValue| -> (r: usize)
            ensures
                r + 1 == flower_rank(*v),
            {
                match v {
                    FlowerValue::One => 0,
                    FlowerValue::Two => 1,
                    FlowerValue::Three => 2,
                    FlowerValue::Four => 3,
                }
            };
        match self {
            Tile::Wan(v) => value_index(v),
            Tile::Suo(v) => 9 + value_index(v),
            Tile::Tong(v) => 18 + value_index(v),
            Tile::Wind(w) => match w {
                Wind::East => 27,
                Wind::South => 28,
                Wind::West => 29,
                Wind::North => 30,
            },
            Tile::Dragon(d) => match d {
                Dragon::Zhong => 31,
                Dragon::Fa => 32,
                Dragon::Baiban => 33,
            },
            Tile::Animal(a) => match a {
                Animal::Cat => 34,
                Animal::Rat => 35,
                Animal::Chicken => 36,
                Animal::Centipede => 37,
            },
            Tile::Flower(f) => match f {
                Flower::Red(v) => 38 + flower_index(v),
                Flower::Blue(v) => 42 + flower_index(v),
            },
        }
    }

    /// The tile at position `i` of the sort order of tiles.
    pub fn from_index(i: usize) -> (r: Tile)
        requires
            i < NUM_TILE_KINDS,
        ensures
            tile_index(r) == i,
            r == tile_at(i as nat),
    {
        let value_at = |k: usize| -> (r: TileValue)
            requires
                k < 9,
            ensures
                r.rank() == k + 1,
            {
                if k == 0 {
                    TileValue::One
                } else if k == 1 {
                    TileValue::Two
                } else if k == 2 {
                    TileValue::Three
                } else if k == 3 {
                    TileValue::Four
                } else if k == 4 {
                    TileValue::Five
                } else if k == 5 {
                    TileValue::Six
                } else if k == 6 {
                    TileValue::Seven
                } else if k == 7 {
                    TileValue::Eight
                } else {
                    TileValue::Nine
                }
            };
        let flower_at = |k: usize| -> (r: FlowerValue)
            requires
                k < 4,
            ensures
                flower_rank(r) == k + 1,
            {
                if k == 0 {
                    FlowerValue::One
                } else if k == 1 {
                    FlowerValue::Two
                } else if k == 2 {
                    FlowerValue::Three
                } else {
                    FlowerValue::Four
                }
            };
        if i < 9 {
            Tile::Wan(value_at(i))
        } else if i < 18 {
            Tile::Suo(value_at(i - 9))
        } else if i < 27 {
            Tile::Tong(value_at(i - 18))
        } else if i == 27 {
            Tile::Wind(Wind::East)
        } else if i == 28 {
            Tile::Wind(Wind::South)
        } else if i == 29 {
            Tile::Wind(Wind::West)
        } else if i == 30 {
            Tile::Wind(Wind::North)
        } else if i == 31 {
            Tile::Dragon(Dragon::Zhong)
        } else if i == 32 {
            Tile::Dragon(Dragon::Fa)
        } else if i == 33 {
            Tile::Dragon(Dragon::Baiban)
        } else if i == 34 {
            Tile::Animal(Animal::Cat)
        } else if i == 35 {
            Tile::Animal(Animal::Rat)
        } else if i == 36 {
            Tile::Animal(Animal::Chicken)
        } else if i == 37 {
            Tile::Animal(Animal::Centipede)
        } else if i < 42 {
            Tile::Flower(Flower::Red(flower_at(i - 38)))
        } else {
            Tile::Flower(Flower::Blue(flower_at(i - 42)))
        }
    }
}

} // verus!
