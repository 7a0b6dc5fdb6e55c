use mahjong::server::meld::{AnGang, Chi, Gang, IllegalChiError, Pong};
use mahjong::server::tile::{AnimalType, DragonType, FengType, HuaType, Tile, TileCodeError};

#[test]
fn test_create_chi() {
    assert!(Chi::new(Tile::Wan(1), Tile::Wan(2), Tile::Animal(AnimalType::Cat)).is_err());
    assert!(Chi::new(Tile::Wan(1), Tile::Wan(2), Tile::Tong(3)).is_err());
    assert!(Chi::new(Tile::Wan(1), Tile::Wan(2), Tile::Wan(4)).is_err());
    assert!(Chi::new(Tile::Wan(1), Tile::Wan(2), Tile::Wan(3)).is_ok());
}

#[test]
fn chi_errors_name_the_fault() {
    assert_eq!(
        Chi::new(Tile::Wan(1), Tile::Wan(2), Tile::Animal(AnimalType::Cat)),
        Err(IllegalChiError::IllegalTileError(Tile::Animal(AnimalType::Cat)))
    );
    assert_eq!(
        Chi::new(Tile::Wan(1), Tile::Wan(2), Tile::Tong(3)),
        Err(IllegalChiError::NotSameSuitError(Tile::Wan(1), Tile::Wan(2), Tile::Tong(3)))
    );
    assert_eq!(
        Chi::new(Tile::Wan(1), Tile::Wan(2), Tile::Wan(4)),
        Err(IllegalChiError::NotASequenceError(Tile::Wan(1), Tile::Wan(2), Tile::Wan(4)))
    );
    let chi = Chi::new(Tile::Suo(5), Tile::Suo(3), Tile::Suo(4)).unwrap();
    assert_eq!((*chi.get_0(), *chi.get_1(), *chi.get_2()), (Tile::Suo(5), Tile::Suo(3), Tile::Suo(4)));
}

#[test]
fn test_create_pong() {
    assert!(Pong::new(Tile::Hua(HuaType::RedOne)).is_err());
    assert!(Pong::new(Tile::Tong(1)).is_ok());
}

#[test]
fn test_create_gang() {
    assert!(Gang::new(Tile::Hua(HuaType::RedOne)).is_err());
    assert!(Gang::new(Tile::Tong(1)).is_ok());
}

#[test]
fn test_create_angang() {
    assert!(AnGang::new(Tile::Hua(HuaType::RedOne)).is_err());
    assert!(AnGang::new(Tile::Tong(1)).is_ok());
    assert_eq!(AnGang::new(Tile::Feng(FengType::West)).unwrap().get_0(), &Tile::Feng(FengType::West));
}

#[test]
fn tile_codes() {
    assert_eq!(Tile::try_from(7), Ok(Tile::Wan(7)));
    assert_eq!(Tile::try_from(15), Ok(Tile::Suo(5)));
    assert_eq!(Tile::try_from(29), Ok(Tile::Tong(9)));
    assert_eq!(Tile::try_from(32), Ok(Tile::Feng(FengType::South)));
    assert_eq!(Tile::try_from(41), Ok(Tile::Dragon(DragonType::Fa)));
    assert_eq!(Tile::try_from(58), Ok(Tile::Hua(HuaType::BlueFour)));
    assert_eq!(Tile::try_from(63), Ok(Tile::Animal(AnimalType::Rooster)));
    assert_eq!(Tile::try_from(30), Err(TileCodeError::FengType(0)));
    assert_eq!(Tile::try_from(75), Err(TileCodeError::Tile(7)));
    assert_eq!(Tile::try_from(-3), Ok(Tile::Wan(-3)));
    assert_eq!(Tile::Tong(4).code(), 24);
    assert_eq!(Tile::Animal(AnimalType::Rat).code(), 62);
    assert_eq!(Tile::Dragon(DragonType::Fa).code(), 43);
}
