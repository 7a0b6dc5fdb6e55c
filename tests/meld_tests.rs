use mahjong::error::MahjongError;
use mahjong::meld::{Meld, MeldType};
use mahjong::tile::{Dragon, Flower, FlowerValue, Suit, Tile, TileValue, Wind};

#[test]
fn meld_sorts_its_tiles() {
    let m = Meld::new(
        vec![Tile::Tong(TileValue::Three), Tile::Tong(TileValue::One)],
        Some(Tile::Tong(TileValue::Two)),
        MeldType::Chi,
    )
    .unwrap();
    assert_eq!(m.tiles(), &vec![Tile::Tong(TileValue::One), Tile::Tong(TileValue::Three)]);
    assert_eq!(m.suit(), &Suit::Tong);
    assert_eq!(m.meld_type(), &MeldType::Chi);
    assert_eq!(m.discarded_tile(), Some(Tile::Tong(TileValue::Two)));
}

#[test]
fn meld_rejections() {
    assert_eq!(
        Meld::new(vec![], None, MeldType::Pong),
        Err(MahjongError::InvalidMeldError(MeldType::Pong, vec![], None))
    );
    let flower = Tile::Flower(Flower::Red(FlowerValue::One));
    assert!(Meld::new(vec![flower, flower], None, MeldType::Eye).is_err());
    assert_eq!(
        Meld::new(
            vec![Tile::Wan(TileValue::Four), Tile::Wan(TileValue::One)],
            Some(Tile::Wan(TileValue::Two)),
            MeldType::Chi
        ),
        Err(MahjongError::InvalidMeldError(
            MeldType::Chi,
            vec![Tile::Wan(TileValue::One), Tile::Wan(TileValue::Four)],
            Some(Tile::Wan(TileValue::Two))
        ))
    );
    let w = Tile::Wind(Wind::East);
    assert!(Meld::new(vec![w, w, w], None, MeldType::Chi).is_err());
    assert!(Meld::new(vec![w, w, w], None, MeldType::Pong).is_ok());
    assert!(Meld::new(vec![w, w], Some(w), MeldType::Pong).is_ok());
    assert!(Meld::new(vec![w, w, w], Some(w), MeldType::Gang).is_ok());
    assert!(Meld::new(vec![w, w, w, w], None, MeldType::Gang).is_err());
    assert!(Meld::new(vec![w, w, w, w], None, MeldType::AnGang).is_ok());
    assert!(Meld::new(vec![w, w, w], Some(w), MeldType::AnGang).is_err());
    assert!(Meld::new(vec![w, w], None, MeldType::Eye).is_ok());
    assert!(Meld::new(vec![w], Some(w), MeldType::Eye).is_err());
    let d = Tile::Dragon(Dragon::Fa);
    assert!(Meld::new(vec![d, w], None, MeldType::Eye).is_err());
}

#[test]
fn meld_rebuilds_from_its_parts() {
    let m = Meld::new(
        vec![Tile::Suo(TileValue::Nine), Tile::Suo(TileValue::Seven)],
        Some(Tile::Suo(TileValue::Eight)),
        MeldType::Chi,
    )
    .unwrap();
    let again = Meld::new(m.tiles().clone(), m.discarded_tile(), *m.meld_type()).unwrap();
    assert_eq!(again, m);
    assert_eq!(m.clone(), m);
}
