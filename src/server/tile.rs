use vstd::prelude::*;

verus! {

/// A tile. Number tiles carry their face value as an integer.
#[derive(Debug, PartialEq, Eq, Structural, PartialOrd, Ord, Hash, Clone, Copy)]
pub enum Tile {
    Wan(i8),
    Suo(i8),
    Tong(i8),
    Feng(FengType),
    Dragon(DragonType),
    Hua(HuaType),
    Animal(AnimalType),
}

#[derive(Debug, PartialEq, Eq, Structural, PartialOrd, Ord, Hash, Clone, Copy)]
pub enum FengType {
    East,
    South,
    West,
    North,
}

#[derive(Debug, PartialEq, Eq, Structural, PartialOrd, Ord, Hash, Clone, Copy)]
pub enum DragonType {
    Zhong,
    Baiban,
    Fa,
}

#[derive(Debug, PartialEq, Eq, Structural, PartialOrd, Ord, Hash, Clone, Copy)]
pub enum HuaType {
    RedOne,
    RedTwo,
    RedThree,
    RedFour,
    BlueOne,
    BlueTwo,
    BlueThree,
    BlueFour,
}

#[derive(Debug, PartialEq, Eq, Structural, PartialOrd, Ord, Hash, Clone, Copy)]
pub enum AnimalType {
    Cat,
    Rat,
    Rooster,
    Centipede,
}

/// A code that names no tile; the variant says which part of the code was wrong.
#[derive(Debug, PartialEq, Eq, Structural, Clone, Copy)]
pub enum TileCodeError {
    /// The tens digit names no kind of tile.
    Tile(i8),
    FengType(i8),
    DragonType(i8),
    HuaType(i8),
    AnimalType(i8),
}

pub open spec fn feng_code(f: FengType) -> int {
    match f {
        FengType::East => 1,
        FengType::South => 2,
        FengType::West => 3,
        FengType::North => 4,
    }
}

pub open spec fn dragon_code(d: DragonType) -> int {
    match d {
        DragonType::Zhong => 1,
        DragonType::Baiban => 2,
        DragonType::Fa => 3,
    }
}

pub open spec fn hua_code(h: HuaType) -> int {
    match h {
        HuaType::RedOne => 1,
        HuaType::RedTwo => 2,
        HuaType::RedThree => 3,
        HuaType::RedFour => 4,
        HuaType::BlueOne => 5,
        HuaType::BlueTwo => 6,
        HuaType::BlueThree => 7,
        HuaType::BlueFour => 8,
    }
}

pub open spec fn animal_code(a: AnimalType) -> int {
    match a {
        AnimalType::Cat => 1,
        AnimalType::Rat => 2,
        AnimalType::Rooster => 3,
        AnimalType::Centipede => 4,
    }
}

/// The integer code of a tile: the kind in the tens, the value in the units.
pub open spec fn tile_code(t: Tile) -> int {
    match t {
        Tile::Wan(v) => v as int,
        Tile::Suo(v) => 10 + v,
        Tile::Tong(v) => 20 + v,
        Tile::Feng(f) => 30 + feng_code(f),
        Tile::Dragon(d) => 40 + dragon_code(d),
        Tile::Hua(h) => 50 + hua_code(h),
        Tile::Animal(a) => 60 + animal_code(a),
    }
}

/// Position of a tile in the order of tiles: by kind, then by value.
pub open spec fn tile_rank(t: Tile) -> int {
    match t {
        Tile::Wan(v) => v as int,
        Tile::Suo(v) => 1000 + v,
        Tile::Tong(v) => 2000 + v,
        Tile::Feng(f) => 3000 + feng_code(f),
        Tile::Dragon(d) => 4000 + dragon_code(d),
        Tile::Hua(h) => 5000 + hua_code(h),
        Tile::Animal(a) => 6000 + animal_code(a),
    }
}

/// Distinct tiles have distinct ranks.
pub proof fn lemma_tile_rank_injective(a: Tile, b: Tile)
    ensures
        tile_rank(a) == tile_rank(b) ==> a == b,
{
}

/// A number tile.
pub open spec fn value_suit(t: Tile) -> bool {
    t is Wan || t is Suo || t is Tong
}

/// Anything but a flower or an animal.
pub open spec fn playable_tile(t: Tile) -> bool {
    !(t is Hua || t is Animal)
}

/// The tile with code `value`, as read digit by digit (the units of a number tile are its
/// value, whatever they are).
pub open spec fn spec_from_code(value: int) -> Result<Tile, TileCodeError> {
    let kind = if value >= 0 { value / 10 } else { -((-value) / 10) };
    let unit = value - kind * 10;
    if kind == 0 {
        Ok(Tile::Wan(unit as i8))
    } else if kind == 1 {
        Ok(Tile::Suo(unit as i8))
    } else if kind == 2 {
        Ok(Tile::Tong(unit as i8))
    } else if kind == 3 {
        if 1 <= unit <= 4 {
            Ok(Tile::Feng(if unit == 1 { FengType::East } else if unit == 2 { FengType::South } else if unit
                == 3 { FengType::West } else { FengType::North }))
        } else {
            Err(TileCodeError::FengType(unit as i8))
        }
    } else if kind == 4 {
        if 1 <= unit <= 3 {
            Ok(Tile::Dragon(if unit == 1 { DragonType::Fa } else if unit == 2 { DragonType::Zhong } else {
                DragonType::Baiban
            }))
        } else {
            Err(TileCodeError::DragonType(unit as i8))
        }
    } else if kind == 5 {
        if 1 <= unit <= 8 {
            Ok(Tile::Hua(hua_of(unit)))
        } else {
            Err(TileCodeError::HuaType(unit as i8))
        }
    } else if kind == 6 {
        if 1 <= unit <= 4 {
            Ok(Tile::Animal(if unit == 1 { AnimalType::Cat } else if unit == 2 { AnimalType::Rat } else if unit
                == 3 { AnimalType::Rooster } else { AnimalType::Centipede }))
        } else {
            Err(TileCodeError::AnimalType(unit as i8))
        }
    } else {
        Err(TileCodeError::Tile(kind as i8))
    }
}

pub open spec fn hua_of(unit: int) -> HuaType {
    if unit == 1 {
        HuaType::RedOne
    } else if unit == 2 {
        HuaType::RedTwo
    } else if unit == 3 {
        HuaType::RedThree
    } else if unit == 4 {
        HuaType::RedFour
    } else if unit == 5 {
        HuaType::BlueOne
    } else if unit == 6 {
        HuaType::BlueTwo
    } else if unit == 7 {
        HuaType::BlueThree
    } else {
        HuaType::BlueFour
    }
}

impl FengType {
    /// The wind with code `value`, 1 to 4.
    pub fn try_from(value: i8) -> (r: Result<FengType, TileCodeError>)
        ensures
            r matches Ok(f) ==> feng_code(f) == value,
            r is Err <==> !(1 <= value <= 4),
            r matches Err(e) ==> e == TileCodeError::FengType(value),
    {
        match value {
            1 => Ok(FengType::East),
            2 => Ok(FengType::South),
            3 => Ok(FengType::West),
            4 => Ok(FengType::North),
            _ => Err(TileCodeError::FengType(value)),
        }
    }
}

impl DragonType {
    /// The dragon read from `value`: 1 is Fa, 2 is Zhong, 3 is Baiban.
    pub fn try_from(value: i8) -> (r: Result<DragonType, TileCodeError>)
        ensures
            r is Err <==> !(1 <= value <= 3),
            value == 1 ==> r == Ok::<DragonType, TileCodeError>(DragonType::Fa),
            value == 2 ==> r == Ok::<DragonType, TileCodeError>(DragonType::Zhong),
            value == 3 ==> r == Ok::<DragonType, TileCodeError>(DragonType::Baiban),
            r matches Err(e) ==> e == TileCodeError::DragonType(value),
    {
        match value {
            1 => Ok(DragonType::Fa),
            2 => Ok(DragonType::Zhong),
            3 => Ok(DragonType::Baiban),
            _ => Err(TileCodeError::DragonType(value)),
        }
    }
}

impl HuaType {
    /// The flower with code `value`, 1 to 8.
    pub fn try_from(value: i8) -> (r: Result<HuaType, TileCodeError>)
        ensures
            r matches Ok(h) ==> hua_code(h) == value,
            r is Err <==> !(1 <= value <= 8),
            r matches Err(e) ==> e == TileCodeError::HuaType(value),
    {
        match value {
            1 => Ok(HuaType::RedOne),
            2 => Ok(HuaType::RedTwo),
            3 => Ok(HuaType::RedThree),
            4 => Ok(HuaType::RedFour),
            5 => Ok(HuaType::BlueOne),
            6 => Ok(HuaType::BlueTwo),
            7 => Ok(HuaType::BlueThree),
            8 => Ok(HuaType::BlueFour),
            _ => Err(TileCodeError::HuaType(value)),
        }
    }
}

impl AnimalType {
    /// The animal with code `value`, 1 to 4.
    pub fn try_from(value: i8) -> (r: Result<AnimalType, TileCodeError>)
        ensures
            r matches Ok(a) ==> animal_code(a) == value,
            r is Err <==> !(1 <= value <= 4),
            r matches Err(e) ==> e == TileCodeError::AnimalType(value),
    {
        match value {
            1 => Ok(AnimalType::Cat),
            2 => Ok(AnimalType::Rat),
            3 => Ok(AnimalType::Rooster),
            4 => Ok(AnimalType::Centipede),
            _ => Err(TileCodeError::AnimalType(value)),
        }
    }
}

impl Tile {
    /// The tile with code `value`: the tens name the kind, the units the value.
    pub fn try_from(value: i8) -> (r: Result<Tile, TileCodeError>)
        ensures
            r == spec_from_code(value as int),
    {
        let tile_value = value % 10;
        let tile_type = value / 10;
        assert(tile_type == (if value >= 0 { value / 10 } else { -((-value) / 10) }));
        assert(tile_value == value - tile_type * 10);
        match tile_type {
            0 => Ok(Tile::Wan(tile_value)),
            1 => Ok(Tile::Suo(tile_value)),
            2 => Ok(Tile::Tong(tile_value)),
            3 => match FengType::try_from(tile_value) {
                Ok(f) => Ok(Tile::Feng(f)),
                Err(e) => Err(e),
            },
            4 => match DragonType::try_from(tile_value) {
                Ok(d) => Ok(Tile::Dragon(d)),
                Err(e) => Err(e),
            },
            5 => match HuaType::try_from(tile_value) {
                Ok(h) => Ok(Tile::Hua(h)),
                Err(e) => Err(e),
            },
            6 => match AnimalType::try_from(tile_value) {
                Ok(a) => Ok(Tile::Animal(a)),
                Err(e) => Err(e),
            },
            invalid_value => Err(TileCodeError::Tile(invalid_value)),
        }
    }

    /// The integer code of the tile (see `tile_code`), wide enough for any face value.
    pub fn code(&self) -> (r: i16)
        ensures
            r == tile_code(*self),
    {
        match self {
            Tile::Wan(v) => *v as i16,
            Tile::Suo(v) => 10 + *v as i16,
            Tile::Tong(v) => 20 + *v as i16,
            Tile::Feng(f) => 30 + match f {
                FengType::East => 1,
                FengType::South => 2,
                FengType::West => 3,
                FengType::North => 4,
            },
            Tile::Dragon(d) => 40 + match d {
                DragonType::Zhong => 1,
                DragonType::Baiban => 2,
                DragonType::Fa => 3,
            },
            Tile::Hua(h) => 50 + match h {
                HuaType::RedOne => 1,
                HuaType::RedTwo => 2,
                HuaType::RedThree => 3,
                HuaType::RedFour => 4,
                HuaType::BlueOne => 5,
                HuaType::BlueTwo => 6,
                HuaType::BlueThree => 7,
                HuaType::BlueFour => 8,
            },
            Tile::Animal(a) => 60 + match a {
                AnimalType::Cat => 1,
                AnimalType::Rat => 2,
                AnimalType::Rooster => 3,
                AnimalType::Centipede => 4,
            },
        }
    }

    /// Position in the order of tiles (see `tile_rank`).
    pub fn rank(&self) -> (r: i16)
        ensures
            r == tile_rank(*self),
    {
        match self {
            Tile::Wan(v) => *v as i16,
            Tile::Suo(v) => 1000 + *v as i16,
            Tile::Tong(v) => 2000 + *v as i16,
            Tile::Feng(_) => 3000 + self.code() - 30,
            Tile::Dragon(_) => 4000 + self.code() - 40,
            Tile::Hua(_) => 5000 + self.code() - 50,
            Tile::Animal(_) => 6000 + self.code() - 60,
        }
    }
}

} // verus!
