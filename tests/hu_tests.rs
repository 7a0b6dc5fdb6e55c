use mahjong::hand::{ConcealedTiles, Hand};
use mahjong::hu::{beats, search_hu, seven_pairs, Hu};
use mahjong::meld::{Meld, MeldType};
use mahjong::score::{Score, ScoreTai};
use mahjong::search::search_melds;
use mahjong::tile::{Animal, Dragon, Tile, TileValue, Wind};

fn wan(v: TileValue) -> Tile {
    Tile::Wan(v)
}

fn claimed_chi() -> Meld {
    Meld::new(
        vec![Tile::Wan(TileValue::Two), Tile::Wan(TileValue::Three)],
        Some(Tile::Wan(TileValue::One)),
        MeldType::Chi,
    )
    .unwrap()
}

#[test]
fn test_search_hu_pinghu() {
    let mut hand = Hand::new();
    let melds = vec![claimed_chi(), claimed_chi(), claimed_chi()];
    hand.draw(&Tile::Wan(TileValue::Two));
    hand.draw(&Tile::Wan(TileValue::Two));
    hand.draw(&Tile::Wan(TileValue::Two));
    hand.draw(&Tile::Wan(TileValue::Three));
    hand.draw(&Tile::Wan(TileValue::Three));
    hand.draw(&Tile::Wan(TileValue::Three));
    hand.draw(&Tile::Wan(TileValue::Four));
    hand.draw(&Tile::Wan(TileValue::Five));
    hand.draw(&Tile::Wan(TileValue::Four));
    hand.draw(&Tile::Wan(TileValue::Four));
    for meld in melds.iter() {
        hand.meld(meld.to_owned()).unwrap();
    }

    let found_hu = search_hu(
        &hand,
        Some(&Tile::Wan(TileValue::Three)),
        Vec::new(),
        &Wind::South,
        &Wind::South,
        &ScoreTai::new(),
    )
    .unwrap();
    let mut expected = melds.clone();
    expected.push(Meld::new(vec![wan(TileValue::Four); 2], None, MeldType::Eye).unwrap());
    expected.push(
        Meld::new(
            vec![wan(TileValue::Three), wan(TileValue::Four), wan(TileValue::Five)],
            None,
            MeldType::Chi,
        )
        .unwrap(),
    );
    assert_eq!(found_hu.melds(), &expected);
    // One suit and four runs: the full flush of runs replaces every other score.
    assert_eq!(found_hu.scores(), &vec![Score::FullFlushPingHu]);
    assert_eq!(found_hu.tai(), 0);
}

/// Three claimed runs of Suo, a pair of Wan 4 and two more Wan tiles, completed by `discard`.
fn mixed_hand(waiting: [TileValue; 2]) -> Hand {
    let mut hand = Hand::new();
    let suo_chi = || {
        Meld::new(
            vec![Tile::Suo(TileValue::Two), Tile::Suo(TileValue::Three)],
            Some(Tile::Suo(TileValue::One)),
            MeldType::Chi,
        )
        .unwrap()
    };
    for _ in 0..3 {
        hand.draw(&Tile::Suo(TileValue::Two));
        hand.draw(&Tile::Suo(TileValue::Three));
        hand.meld(suo_chi()).unwrap();
    }
    hand.draw(&wan(TileValue::Eight));
    hand.draw(&wan(TileValue::Eight));
    hand.draw(&wan(waiting[0]));
    hand.draw(&wan(waiting[1]));
    hand
}

#[test]
fn two_sided_wait_scores_all_runs() {
    let hand = mixed_hand([TileValue::Four, TileValue::Five]);
    let hu = search_hu(&hand, Some(&wan(TileValue::Three)), vec![], &Wind::East, &Wind::East, &ScoreTai::new())
        .unwrap();
    assert_eq!(hu.scores(), &vec![Score::PingHu]);
}

#[test]
fn middle_wait_does_not_score_all_runs() {
    let hand = mixed_hand([TileValue::Five, TileValue::Seven]);
    let hu = search_hu(&hand, Some(&wan(TileValue::Six)), vec![], &Wind::East, &Wind::East, &ScoreTai::new())
        .unwrap();
    assert_eq!(hu.scores(), &vec![]);
}

#[test]
fn edge_wait_does_not_score_all_runs() {
    let hand = mixed_hand([TileValue::One, TileValue::Two]);
    let hu = search_hu(&hand, Some(&wan(TileValue::Three)), vec![], &Wind::East, &Wind::East, &ScoreTai::new())
        .unwrap();
    assert_eq!(hu.scores(), &vec![]);
}

#[test]
fn hidden_treasure_overrides_the_rest() {
    let mut hand = Hand::new();
    for t in [wan(TileValue::Two), Tile::Suo(TileValue::Five), Tile::Tong(TileValue::Seven), wan(TileValue::Six)] {
        for _ in 0..3 {
            hand.draw(&t);
        }
    }
    hand.draw(&Tile::Suo(TileValue::Three));
    hand.draw(&Tile::Suo(TileValue::Three));
    let mut table = ScoreTai::new();
    table.insert(Score::HiddenTreasure, 10);
    table.insert(Score::AllPong, 3);
    let hu = search_hu(&hand, None, vec![], &Wind::East, &Wind::South, &table).unwrap();
    assert_eq!(hu.scores(), &vec![Score::HiddenTreasure]);
    assert_eq!(hu.tai(), 10);
}

#[test]
fn full_flush_ping_hu_overrides_the_rest() {
    let mut hand = Hand::new();
    for v in [
        TileValue::One,
        TileValue::Two,
        TileValue::Three,
        TileValue::Four,
        TileValue::Five,
        TileValue::Six,
        TileValue::Seven,
        TileValue::Eight,
        TileValue::Nine,
        TileValue::Two,
        TileValue::Three,
        TileValue::Four,
        TileValue::Five,
        TileValue::Five,
    ] {
        hand.draw(&wan(v));
    }
    let mut table = ScoreTai::new();
    table.insert(Score::FullFlushPingHu, 8);
    table.insert(Score::FullFlush, 4);
    table.insert(Score::PingHu, 1);
    let hu = search_hu(&hand, None, vec![], &Wind::East, &Wind::East, &table).unwrap();
    assert_eq!(hu.scores(), &vec![Score::FullFlushPingHu]);
    assert_eq!(hu.tai(), 8);
}

#[test]
fn incomplete_hand_has_no_hu() {
    let mut hand = Hand::new();
    for v in [TileValue::One, TileValue::Two, TileValue::Three, TileValue::Five, TileValue::Five, TileValue::Seven, TileValue::Eight] {
        hand.draw(&wan(v));
    }
    assert!(search_hu(&hand, None, vec![], &Wind::East, &Wind::East, &ScoreTai::new()).is_none());
    assert!(search_hu(&hand, Some(&wan(TileValue::One)), vec![], &Wind::East, &Wind::East, &ScoreTai::new()).is_none());
    assert!(search_hu(&hand, Some(&wan(TileValue::Nine)), vec![], &Wind::East, &Wind::East, &ScoreTai::new()).is_some());
}

#[test]
fn pair_and_triplet_of_one_tile_are_both_explored() {
    let mut ct = ConcealedTiles::new();
    ct.add_n(&wan(TileValue::Two), 4);
    ct.add_n(&wan(TileValue::Three), 2);
    ct.add_n(&wan(TileValue::Four), 2);
    ct.add_n(&wan(TileValue::Five), 3);
    let found = search_melds(&ct);
    let eye = |v| Meld::new(vec![wan(v); 2], None, MeldType::Eye).unwrap();
    let pong = |v| Meld::new(vec![wan(v); 3], None, MeldType::Pong).unwrap();
    let chi = |v: TileValue, w: TileValue, x: TileValue| Meld::new(vec![wan(v), wan(w), wan(x)], None, MeldType::Chi).unwrap();
    let with_pair_of_two = vec![
        eye(TileValue::Two),
        chi(TileValue::Two, TileValue::Three, TileValue::Four),
        chi(TileValue::Two, TileValue::Three, TileValue::Four),
        pong(TileValue::Five),
    ];
    let with_triplet_of_two = vec![
        eye(TileValue::Five),
        pong(TileValue::Two),
        chi(TileValue::Two, TileValue::Three, TileValue::Four),
        chi(TileValue::Three, TileValue::Four, TileValue::Five),
    ];
    // The second split is also found with its run of Two taken before the triplet.
    assert_eq!(found.len(), 3);
    assert!(found.contains(&with_pair_of_two));
    assert!(found.contains(&with_triplet_of_two));
    // The search works on copies: the multiset it was given is unchanged.
    assert_eq!(ct.get(&wan(TileValue::Two)), 4);
}

#[test]
fn complete_animals_counted_once() {
    let mut hand = Hand::new();
    let claimed_pong = Meld::new(
        vec![Tile::Dragon(Dragon::Fa); 2],
        Some(Tile::Dragon(Dragon::Fa)),
        MeldType::Pong,
    )
    .unwrap();
    hand.draw(&Tile::Dragon(Dragon::Fa));
    hand.draw(&Tile::Dragon(Dragon::Fa));
    hand.meld(claimed_pong).unwrap();
    for a in [Animal::Cat, Animal::Rat, Animal::Chicken, Animal::Centipede] {
        hand.draw(&Tile::Animal(a));
    }
    for v in [TileValue::Two, TileValue::Three, TileValue::Four, TileValue::Two, TileValue::Three, TileValue::Four, TileValue::Six, TileValue::Six, TileValue::Six, TileValue::Nine] {
        hand.draw(&wan(v));
    }
    let mut table = ScoreTai::new();
    table.insert(Score::CompleteAnimals, 5);
    table.insert(Score::Animal, 1);
    table.insert(Score::Dragon, 1);
    table.insert(Score::HalfFlush, 3);
    let hu = search_hu(&hand, Some(&wan(TileValue::Nine)), vec![], &Wind::East, &Wind::East, &table).unwrap();
    let complete = hu.scores().iter().filter(|s| **s == Score::CompleteAnimals).count();
    let animals = hu.scores().iter().filter(|s| **s == Score::Animal).count();
    assert_eq!(complete, 1);
    assert_eq!(animals, 4);
    assert_eq!(hu.tai(), 4 + 5 + 1 + 3);
}

#[test]
fn seven_pairs_candidate() {
    let mut ct = ConcealedTiles::new();
    for t in [wan(TileValue::One), wan(TileValue::Nine), Tile::Dragon(Dragon::Zhong)] {
        ct.add_n(&t, 2);
    }
    assert_eq!(seven_pairs(&ct).unwrap().len(), 3);
    ct.add_n(&wan(TileValue::One), 1);
    assert!(seven_pairs(&ct).is_none());
    assert!(seven_pairs(&ConcealedTiles::new()).is_none());
}

#[test]
fn adding_a_valued_score_raises_tai() {
    let mut table = ScoreTai::new();
    table.insert(Score::SeatWind, 2);
    table.insert(Score::Dragon, 1);
    let without = Hu::new(vec![], vec![Score::Dragon], &table);
    let with = Hu::new(vec![], vec![Score::Dragon, Score::SeatWind], &table);
    assert_eq!(without.tai(), 1);
    assert_eq!(with.tai(), 3);
    assert!(with > without);
}

#[test]
fn hu_order_is_by_tai() {
    let mut table = ScoreTai::new();
    table.insert(Score::Dragon, 1);
    table.insert(Score::SeatWind, 1);
    let a = Hu::new(vec![], vec![Score::Dragon], &table);
    let b = Hu::new(vec![], vec![Score::SeatWind], &table);
    let c = Hu::new(vec![], vec![Score::SeatWind, Score::Dragon], &table);
    assert!(a == b);
    assert!(!(a > b));
    assert!(c > a);
    assert!(a < c);
    assert!(beats(&Some(Hu::new(vec![], vec![], &table)), &None));
    assert!(!beats(&None, &Some(Hu::new(vec![], vec![], &table))));
    assert!(beats(&Some(c), &Some(a)));
    assert!(Some(b) > None);
}
