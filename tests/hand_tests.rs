use mahjong::error::MahjongError;
use mahjong::hand::{ConcealedTiles, Hand};
use mahjong::meld::{Meld, MeldType};
use mahjong::tile::{Animal, Suit, Tile, TileValue};

#[test]
fn test_draw_tile_ok() {
    let mut hand = Hand::new();
    hand.draw(&Tile::Wan(TileValue::One));
    assert_eq!(hand.concealed().entries(), vec![(Tile::Wan(TileValue::One), 1)]);
    hand.draw(&Tile::Wan(TileValue::One));
    assert_eq!(hand.concealed().entries(), vec![(Tile::Wan(TileValue::One), 2)]);
}

#[test]
fn test_no_seen_tiles_after_draw() {
    let mut hand = Hand::new();
    hand.draw(&Tile::Wan(TileValue::One));
    hand.discard(&Tile::Wan(TileValue::One)).unwrap();
    assert_eq!(hand.seen().len(), 1);
    hand.draw(&Tile::Suo(TileValue::One));
    assert_eq!(hand.seen().len(), 0);
}

#[test]
fn test_discard_tile_ok() {
    let mut hand = Hand::new();
    hand.draw(&Tile::Wan(TileValue::One));
    hand.draw(&Tile::Wan(TileValue::One));
    hand.discard(&Tile::Wan(TileValue::One)).unwrap();
    assert_eq!(hand.concealed().entries(), vec![(Tile::Wan(TileValue::One), 1)]);
    hand.discard(&Tile::Wan(TileValue::One)).unwrap();
    assert!(hand.concealed().entries().is_empty());
}

#[test]
fn test_discard_tile_not_in_hand_throws_error() {
    let mut hand = Hand::new();
    assert!(hand.discard(&Tile::Wan(TileValue::One)).is_err());
}

#[test]
fn test_seen_tile_after_discard() {
    let mut hand = Hand::new();
    hand.draw(&Tile::Wan(TileValue::One));
    hand.discard(&Tile::Wan(TileValue::One)).unwrap();
    assert!(hand.seen().contains(&Tile::Wan(TileValue::One)));
}

#[test]
fn test_get_melds() {
    let mut hand = Hand::new();
    hand.draw(&Tile::Wan(TileValue::Two));
    hand.draw(&Tile::Wan(TileValue::Three));
    hand.draw(&Tile::Wan(TileValue::Four));
    hand.draw(&Tile::Wan(TileValue::Four));
    hand.draw(&Tile::Wan(TileValue::Four));
    hand.draw(&Tile::Wan(TileValue::Five));
    hand.draw(&Tile::Wan(TileValue::Six));

    let correct_melds = vec![
        Meld::new(
            vec![Tile::Wan(TileValue::Two), Tile::Wan(TileValue::Three)],
            Some(Tile::Wan(TileValue::Four)),
            MeldType::Chi,
        )
        .unwrap(),
        Meld::new(
            vec![Tile::Wan(TileValue::Three), Tile::Wan(TileValue::Five)],
            Some(Tile::Wan(TileValue::Four)),
            MeldType::Chi,
        )
        .unwrap(),
        Meld::new(
            vec![Tile::Wan(TileValue::Five), Tile::Wan(TileValue::Six)],
            Some(Tile::Wan(TileValue::Four)),
            MeldType::Chi,
        )
        .unwrap(),
        Meld::new(
            vec![Tile::Wan(TileValue::Four), Tile::Wan(TileValue::Four)],
            Some(Tile::Wan(TileValue::Four)),
            MeldType::Pong,
        )
        .unwrap(),
        Meld::new(
            vec![
                Tile::Wan(TileValue::Four),
                Tile::Wan(TileValue::Four),
                Tile::Wan(TileValue::Four),
            ],
            Some(Tile::Wan(TileValue::Four)),
            MeldType::Gang,
        )
        .unwrap(),
    ];
    let found = hand.get_melds(&Tile::Wan(TileValue::Four)).unwrap();
    assert!(found.iter().all(|m| correct_melds.contains(m)));
    assert_eq!(found.len(), 5);
}

#[test]
fn get_melds_rejects_bonus_tile() {
    let hand = Hand::new();
    assert_eq!(
        hand.get_melds(&Tile::Animal(Animal::Rat)).unwrap_err(),
        MahjongError::TileNotPlayableError(Suit::Animal)
    );
}

#[test]
fn test_meld_ok() {
    let mut hand = Hand::new();
    hand.draw(&Tile::Wan(TileValue::Two));
    hand.draw(&Tile::Wan(TileValue::Three));
    let meld = Meld::new(
        vec![Tile::Wan(TileValue::Two), Tile::Wan(TileValue::Three)],
        Some(Tile::Wan(TileValue::Four)),
        MeldType::Chi,
    )
    .unwrap();

    assert_eq!(hand.meld(meld.clone()), Ok(()));
    assert_eq!(hand.melds(), &vec![meld]);
    assert!(hand.concealed().is_empty());
}

#[test]
fn test_meld_fail() {
    let mut hand = Hand::new();
    let meld = Meld::new(
        vec![Tile::Wan(TileValue::Two), Tile::Wan(TileValue::Three)],
        Some(Tile::Wan(TileValue::Four)),
        MeldType::Chi,
    )
    .unwrap();

    assert!(hand.meld(meld.clone()).is_err());
}

#[test]
fn meld_failure_leaves_hand_unchanged() {
    let mut hand = Hand::new();
    hand.draw(&Tile::Wan(TileValue::Two));
    let meld = Meld::new(
        vec![Tile::Wan(TileValue::Two), Tile::Wan(TileValue::Three)],
        Some(Tile::Wan(TileValue::Four)),
        MeldType::Chi,
    )
    .unwrap();
    assert_eq!(
        hand.meld(meld),
        Err(MahjongError::TileNotInHandFoundError(Tile::Wan(TileValue::Three)))
    );
    assert_eq!(hand.concealed().entries(), vec![(Tile::Wan(TileValue::Two), 1)]);
    assert!(hand.melds().is_empty());
}

#[test]
fn hand_test_get_angang() {
    let mut hand = Hand::new();
    hand.draw(&Tile::Wan(TileValue::Two));
    hand.draw(&Tile::Wan(TileValue::Two));
    hand.draw(&Tile::Wan(TileValue::Two));
    hand.draw(&Tile::Wan(TileValue::Two));
    hand.draw(&Tile::Wan(TileValue::Three));
    hand.draw(&Tile::Wan(TileValue::Three));
    hand.draw(&Tile::Wan(TileValue::Three));
    hand.draw(&Tile::Wan(TileValue::Three));
    hand.draw(&Tile::Wan(TileValue::Four));
    hand.draw(&Tile::Wan(TileValue::Four));
    hand.draw(&Tile::Wan(TileValue::Four));
    let correct_melds = vec![
        Meld::new(vec![Tile::Wan(TileValue::Two); 4], None, MeldType::AnGang).unwrap(),
        Meld::new(vec![Tile::Wan(TileValue::Three); 4], None, MeldType::AnGang).unwrap(),
    ];
    assert!(hand.get_angangs().iter().all(|m| correct_melds.contains(m)));
    assert_eq!(hand.get_angangs(), correct_melds);
}

#[test]
fn remove_n_underflow_is_rejected() {
    let mut tiles = ConcealedTiles::new();
    tiles.add_n(&Tile::Suo(TileValue::Five), 2);
    assert_eq!(
        tiles.remove_n(&Tile::Suo(TileValue::Five), 3),
        Err(MahjongError::TileNotInHandFoundError(Tile::Suo(TileValue::Five)))
    );
    assert_eq!(tiles.get(&Tile::Suo(TileValue::Five)), 2);
    assert_eq!(tiles.remove_n(&Tile::Suo(TileValue::Five), 2), Ok(()));
    assert!(!tiles.contains_key(&Tile::Suo(TileValue::Five)));
    assert!(tiles.remove_n(&Tile::Suo(TileValue::Six), 0).is_err());
}

#[test]
fn bonus_tiles_are_kept_apart() {
    let mut hand = Hand::new();
    hand.draw(&Tile::Animal(Animal::Cat));
    hand.draw(&Tile::Animal(Animal::Cat));
    assert_eq!(hand.bonus(), &vec![Tile::Animal(Animal::Cat)]);
    assert!(hand.concealed().is_empty());
}
