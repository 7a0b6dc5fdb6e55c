use mahjong::tile::{Animal, Flower, FlowerValue, Suit, Tile, TileValue, Wind};

#[test]
fn test_tile_next_ok() {
    let tile = Tile::Suo(TileValue::One);
    assert_eq!(tile.next(), Some(Tile::Suo(TileValue::Two)));
}

#[test]
fn test_tile_next_out_of_bounds() {
    let tile = Tile::Suo(TileValue::Nine);
    assert_eq!(tile.next(), None);
}

#[test]
fn test_tile_next_not_a_value_tile() {
    let tile = Tile::Wind(Wind::East);
    assert_eq!(tile.next(), None);
}

#[test]
fn test_tile_prev_ok() {
    let tile = Tile::Suo(TileValue::Two);
    assert_eq!(tile.prev(), Some(Tile::Suo(TileValue::One)));
}

#[test]
fn test_tile_prev_out_of_bounds() {
    let tile = Tile::Suo(TileValue::One);
    assert_eq!(tile.prev(), None);
}

#[test]
fn test_tile_prev_not_a_value_tile() {
    let tile = Tile::Wind(Wind::East);
    assert_eq!(tile.prev(), None);
}

#[test]
fn tile_index_round_trip() {
    for i in 0..mahjong::tile::NUM_TILE_KINDS {
        assert_eq!(Tile::from_index(i).index(), i);
    }
    assert_eq!(Tile::Tong(TileValue::Nine).index(), 26);
}

#[test]
fn tile_suit_and_playability() {
    assert_eq!(Tile::Wind(Wind::North).suit(), Suit::Wind);
    assert!(Tile::Wan(TileValue::Five).is_playable());
    assert!(!Tile::Animal(Animal::Cat).is_playable());
    assert!(!Tile::Flower(Flower::Blue(FlowerValue::Two)).is_playable());
}
