use mahjong::hand::Hand;
use mahjong::hu::best_hu;
use mahjong::meld::{Meld, MeldType};
use mahjong::score::{Score, ScoreTai};
use mahjong::scoring::{hand_bonus_scores, score_melds};
use mahjong::tile::{Animal, Dragon, Flower, FlowerValue, Tile, TileValue, Wind};

fn pong(t: Tile) -> Meld {
    Meld::new(vec![t; 3], None, MeldType::Pong).unwrap()
}

fn chi(t: Tile, u: Tile, v: Tile) -> Meld {
    Meld::new(vec![t, u, v], None, MeldType::Chi).unwrap()
}

fn eye(t: Tile) -> Meld {
    Meld::new(vec![t; 2], None, MeldType::Eye).unwrap()
}

#[test]
fn bonus_scores_of_flowers_and_animals() {
    let bonus = vec![
        Tile::Flower(Flower::Red(FlowerValue::One)),
        Tile::Flower(Flower::Red(FlowerValue::Two)),
        Tile::Flower(Flower::Red(FlowerValue::Three)),
        Tile::Flower(Flower::Red(FlowerValue::Four)),
        Tile::Flower(Flower::Blue(FlowerValue::Two)),
        Tile::Animal(Animal::Rat),
    ];
    assert_eq!(
        hand_bonus_scores(&bonus, &Wind::South),
        vec![Score::PlayerFlower, Score::PlayerFlower, Score::Animal, Score::CompleteRedFlower]
    );
    assert_eq!(hand_bonus_scores(&vec![], &Wind::East), vec![]);
}

#[test]
fn winds_dragons_and_half_flush() {
    let melds = vec![
        eye(Tile::Wan(TileValue::Five)),
        pong(Tile::Wind(Wind::East)),
        pong(Tile::Dragon(Dragon::Baiban)),
        chi(Tile::Wan(TileValue::One), Tile::Wan(TileValue::Two), Tile::Wan(TileValue::Three)),
        pong(Tile::Wan(TileValue::Seven)),
    ];
    let scores = score_melds(&melds, &vec![Score::HuaShang], true, true, None, &Wind::East, &Wind::East);
    assert_eq!(
        scores,
        vec![
            Score::HuaShang,
            Score::PrevailingWind,
            Score::SeatWind,
            Score::Dragon,
            Score::HalfFlush,
            Score::AllConcealed
        ]
    );
}

#[test]
fn all_honours_and_all_terminals() {
    let honours = vec![
        eye(Tile::Dragon(Dragon::Fa)),
        pong(Tile::Wind(Wind::South)),
        pong(Tile::Wind(Wind::North)),
        pong(Tile::Dragon(Dragon::Zhong)),
        pong(Tile::Dragon(Dragon::Baiban)),
    ];
    assert_eq!(score_melds(&honours, &vec![], false, true, None, &Wind::East, &Wind::East), vec![Score::AllHonours]);
    let terminals = vec![
        eye(Tile::Wan(TileValue::One)),
        pong(Tile::Suo(TileValue::Nine)),
        pong(Tile::Tong(TileValue::One)),
        pong(Tile::Wan(TileValue::Nine)),
        pong(Tile::Suo(TileValue::One)),
    ];
    assert_eq!(score_melds(&terminals, &vec![], false, true, None, &Wind::East, &Wind::East), vec![Score::AllTerminals]);
    let mut mixed = terminals.clone();
    mixed[3] = pong(Tile::Tong(TileValue::Two));
    assert_eq!(score_melds(&mixed, &vec![], false, true, None, &Wind::East, &Wind::East), vec![Score::AllPong]);
    let mut with_honours = terminals.clone();
    with_honours[0] = eye(Tile::Dragon(Dragon::Fa));
    assert_eq!(
        score_melds(&with_honours, &vec![], false, true, None, &Wind::East, &Wind::East),
        vec![Score::Dragon, Score::AllPong]
    );
}

#[test]
fn best_hu_keeps_the_highest_total() {
    let hand = Hand::new();
    let mut table = ScoreTai::new();
    table.insert(Score::AllConcealed, 1);
    table.insert(Score::HiddenTreasure, 9);
    let runs = vec![
        eye(Tile::Suo(TileValue::Two)),
        chi(Tile::Wan(TileValue::One), Tile::Wan(TileValue::Two), Tile::Wan(TileValue::Three)),
        chi(Tile::Wan(TileValue::One), Tile::Wan(TileValue::Two), Tile::Wan(TileValue::Three)),
        chi(Tile::Wan(TileValue::One), Tile::Wan(TileValue::Two), Tile::Wan(TileValue::Three)),
        pong(Tile::Tong(TileValue::Five)),
    ];
    let triplets = vec![
        eye(Tile::Suo(TileValue::Two)),
        pong(Tile::Wan(TileValue::One)),
        pong(Tile::Wan(TileValue::Two)),
        pong(Tile::Wan(TileValue::Three)),
        pong(Tile::Tong(TileValue::Five)),
    ];
    let best = best_hu(&hand, None, &vec![], &Wind::East, &Wind::East, &table, None, vec![runs.clone(), triplets.clone()])
        .unwrap();
    assert_eq!(best.scores(), &vec![Score::HiddenTreasure]);
    assert_eq!(best.tai(), 9);
    assert_eq!(best.melds(), &triplets);
    let only_runs = best_hu(&hand, None, &vec![], &Wind::East, &Wind::East, &table, None, vec![runs]).unwrap();
    assert_eq!(only_runs.scores(), &vec![Score::AllConcealed]);
    assert!(best_hu(&hand, None, &vec![], &Wind::East, &Wind::East, &table, None, vec![]).is_none());
    let pairs = vec![eye(Tile::Wan(TileValue::One)), eye(Tile::Wan(TileValue::Nine))];
    let seven = best_hu(&hand, None, &vec![Score::Animal], &Wind::East, &Wind::East, &table, Some(pairs.clone()), vec![])
        .unwrap();
    assert_eq!(seven.scores(), &vec![Score::Animal, Score::SevenPairs]);
    assert_eq!(seven.melds(), &pairs);
}
