use mahjong::server::meld::{AnGang, Chi, Gang, Meld, Pong};
use mahjong::server::player::{check_can_meld_all, clear_zero_keys, Action, IllegalMoveError, Player, TileMap};
use mahjong::server::table::{GameLoopError, PlayerAction, Table};
use mahjong::server::tile::{DragonType, Tile};

fn player_with(entries: Vec<(Tile, u8)>) -> Player {
    Player::with_hand(TileMap::from_entries(entries))
}

#[test]
fn test_clear_zero_keys() {
    let mut map = TileMap::from_entries(vec![(Tile::Wan(1), 0), (Tile::Wan(2), 1)]);
    clear_zero_keys(&mut map);
    assert_eq!(map.entries(), vec![(Tile::Wan(2), 1)]);
}

#[test]
fn test_draw_tile() {
    let mut player = Player::default();
    player.draw(&Tile::Wan(1));
    assert_eq!(player.hand().entries(), vec![(Tile::Wan(1), 1)]);
}

#[test]
fn tile_map_keeps_tile_order() {
    let map = TileMap::from_entries(vec![(Tile::Tong(2), 1), (Tile::Wan(9), 2), (Tile::Wan(1), 3), (Tile::Wan(9), 4)]);
    assert_eq!(map.entries(), vec![(Tile::Wan(1), 3), (Tile::Wan(9), 4), (Tile::Tong(2), 1)]);
    assert_eq!(map.get(&Tile::Wan(9)), Some(4));
    assert_eq!(map.get(&Tile::Suo(9)), None);
}

#[test]
fn test_skipped_tile() {
    let mut player = player_with(vec![(Tile::Wan(2), 2)]);

    assert_eq!(player.get_pong(&Tile::Wan(2)), vec![Meld::Pong(Pong::new(Tile::Wan(2)).unwrap())]);

    player.skipped_tile(Tile::Wan(2));

    assert_eq!(player.get_pong(&Tile::Wan(2)), vec![]);
}

fn chi_hand() -> Player {
    player_with(vec![
        (Tile::Wan(1), 1),
        (Tile::Wan(2), 1),
        (Tile::Wan(8), 1),
        (Tile::Wan(9), 1),
        (Tile::Suo(1), 1),
        (Tile::Suo(3), 1),
        (Tile::Suo(6), 1),
        (Tile::Suo(7), 1),
        (Tile::Suo(8), 1),
        (Tile::Suo(9), 1),
    ])
}

#[test]
fn test_can_chi() {
    let player = chi_hand();
    let test_cases = vec![
        ((Tile::Wan(1), Tile::Wan(2), Tile::Wan(3)), true),
        ((Tile::Wan(8), Tile::Wan(9), Tile::Wan(7)), true),
        ((Tile::Suo(1), Tile::Suo(3), Tile::Suo(2)), true),
        ((Tile::Suo(6), Tile::Suo(8), Tile::Suo(7)), true),
        ((Tile::Suo(8), Tile::Suo(9), Tile::Suo(7)), true),
        ((Tile::Tong(1), Tile::Tong(2), Tile::Tong(3)), false),
    ];
    for ((t, ta, tb), res) in test_cases {
        assert_eq!(player.can_chi(&t, &ta, &tb), res);
    }
}

#[test]
fn test_get_chi() {
    let player = chi_hand();
    let test_cases = vec![
        (Tile::Wan(3), vec![Meld::Chi(Chi::new(Tile::Wan(1), Tile::Wan(2), Tile::Wan(3)).unwrap())]),
        (Tile::Wan(7), vec![Meld::Chi(Chi::new(Tile::Wan(8), Tile::Wan(9), Tile::Wan(7)).unwrap())]),
        (Tile::Suo(2), vec![Meld::Chi(Chi::new(Tile::Suo(1), Tile::Suo(3), Tile::Suo(2)).unwrap())]),
        (
            Tile::Suo(7),
            vec![
                Meld::Chi(Chi::new(Tile::Suo(6), Tile::Suo(8), Tile::Suo(7)).unwrap()),
                Meld::Chi(Chi::new(Tile::Suo(8), Tile::Suo(9), Tile::Suo(7)).unwrap()),
            ],
        ),
        (Tile::Tong(1), vec![]),
    ];
    for (tile, melds) in test_cases {
        assert_eq!(player.get_chi(&tile), melds);
    }
}

#[test]
fn get_chi_at_the_top_of_a_suit() {
    let player = player_with(vec![(Tile::Tong(7), 1), (Tile::Tong(8), 1)]);
    assert_eq!(
        player.get_chi(&Tile::Tong(9)),
        vec![Meld::Chi(Chi::new(Tile::Tong(7), Tile::Tong(8), Tile::Tong(9)).unwrap())]
    );
    assert_eq!(player.get_chi(&Tile::Dragon(DragonType::Fa)), vec![]);
}

#[test]
fn test_can_pong() {
    let player = player_with(vec![(Tile::Tong(1), 3), (Tile::Dragon(DragonType::Zhong), 2), (Tile::Suo(3), 1)]);
    let test_cases = vec![
        (Tile::Tong(1), true),
        (Tile::Dragon(DragonType::Zhong), true),
        (Tile::Suo(3), false),
        (Tile::Tong(9), false),
    ];
    for (tile, res) in test_cases {
        assert_eq!(player.can_pong(&tile), res);
    }
}

#[test]
fn test_get_pong() {
    let player = player_with(vec![(Tile::Tong(1), 3), (Tile::Dragon(DragonType::Zhong), 2), (Tile::Suo(2), 1)]);
    let test_cases = vec![
        (Tile::Tong(1), vec![Meld::Pong(Pong::new(Tile::Tong(1)).unwrap())]),
        (
            Tile::Dragon(DragonType::Zhong),
            vec![Meld::Pong(Pong::new(Tile::Dragon(DragonType::Zhong)).unwrap())],
        ),
        (Tile::Suo(2), vec![]),
        (Tile::Tong(9), vec![]),
    ];
    for (tile, melds) in test_cases {
        assert_eq!(player.get_pong(&tile), melds);
    }
}

#[test]
fn test_can_gang() {
    let player = player_with(vec![(Tile::Tong(1), 3), (Tile::Wan(2), 2), (Tile::Suo(3), 1)]);
    let test_cases = vec![
        (Tile::Tong(1), true),
        (Tile::Wan(2), false),
        (Tile::Suo(3), false),
        (Tile::Tong(9), false),
    ];
    for (tile, res) in test_cases {
        assert_eq!(player.can_gang(&tile), res);
    }
}

#[test]
fn test_get_gang() {
    let player = player_with(vec![(Tile::Tong(1), 3), (Tile::Wan(2), 2), (Tile::Suo(3), 1)]);
    let test_cases = vec![
        (Tile::Tong(1), vec![Meld::Gang(Gang::new(Tile::Tong(1)).unwrap())]),
        (Tile::Wan(2), vec![]),
        (Tile::Suo(3), vec![]),
        (Tile::Tong(9), vec![]),
    ];
    for (tile, melds) in test_cases {
        assert_eq!(player.get_gang(&tile), melds);
    }
}

#[test]
fn test_can_angang() {
    let mut player = player_with(vec![(Tile::Wan(2), 3), (Tile::Suo(3), 2)]);

    assert!(!player.can_angang(&Tile::Wan(2)));
    assert!(!player.can_angang(&Tile::Suo(3)));

    player.draw(&Tile::Wan(2));

    assert!(player.can_angang(&Tile::Wan(2)));
    assert!(!player.can_angang(&Tile::Suo(3)));
}

#[test]
fn player_test_get_angang() {
    let mut player = player_with(vec![(Tile::Wan(2), 3), (Tile::Suo(3), 2)]);

    assert_eq!(player.get_angang(), vec![]);

    player.draw(&Tile::Wan(2));

    assert_eq!(player.get_angang(), vec![Meld::AnGang(AnGang::new(Tile::Wan(2)).unwrap())]);
}

#[test]
fn test_chi() {
    let mut player = player_with(vec![(Tile::Wan(3), 1), (Tile::Wan(4), 1)]);
    let chi_err = Chi::new(Tile::Wan(4), Tile::Wan(5), Tile::Wan(6)).unwrap();
    assert!(player.chi(chi_err).is_err());

    let chi_ok = Chi::new(Tile::Wan(3), Tile::Wan(4), Tile::Wan(2)).unwrap();
    assert!(player.chi(chi_ok).is_ok());
    assert!(player.melds().contains(&Meld::Chi(chi_ok)));
}

#[test]
fn test_pong() {
    let mut player = player_with(vec![(Tile::Wan(1), 2)]);

    let pong_err = Pong::new(Tile::Wan(2)).unwrap();
    assert!(player.pong(pong_err).is_err());

    let pong_ok = Pong::new(Tile::Wan(1)).unwrap();
    assert!(player.pong(pong_ok).is_ok());
    assert!(player.melds().contains(&Meld::Pong(pong_ok)));
}

#[test]
fn test_gang() {
    let mut player = player_with(vec![(Tile::Wan(1), 3)]);

    let gang_err = Gang::new(Tile::Wan(2)).unwrap();
    assert!(player.gang(gang_err).is_err());

    let gang_ok = Gang::new(Tile::Wan(1)).unwrap();
    assert!(player.gang(gang_ok).is_ok());
    assert!(player.melds().contains(&Meld::Gang(gang_ok)));
}

#[test]
fn test_angang() {
    let mut player = player_with(vec![(Tile::Wan(1), 3)]);

    let angang_err = AnGang::new(Tile::Wan(1)).unwrap();
    assert!(player.angang(angang_err).is_err());

    player.draw(&Tile::Wan(1));
    let angang_ok = AnGang::new(Tile::Wan(1)).unwrap();
    assert!(player.angang(angang_ok).is_ok());
    assert!(player.melds().contains(&Meld::AnGang(angang_ok)));
}

#[test]
fn discard_drops_empty_entries() {
    let mut player = player_with(vec![(Tile::Wan(1), 1), (Tile::Wan(2), 2)]);
    assert_eq!(player.discard(&Tile::Wan(1)), Ok(()));
    assert_eq!(player.hand().entries(), vec![(Tile::Wan(2), 2)]);
    assert_eq!(player.discard(&Tile::Wan(1)), Err(IllegalMoveError(Action::Discard)));
    assert!(player.can_zimuo());
    // Three of Wan 2: the pair leaves a single tile, which splits into nothing.
    assert!(!player.can_hu(&Tile::Wan(2)));
}

#[test]
fn can_hu_needs_a_pair_and_a_split() {
    assert!(!Player::default().can_hu(&Tile::Wan(1)));
    assert!(!Player::default().can_zimuo());
    let single = player_with(vec![(Tile::Wan(1), 1)]);
    assert!(single.can_hu(&Tile::Wan(1)));
    assert!(!single.can_hu(&Tile::Wan(2)));
    let waiting = player_with(vec![(Tile::Tong(3), 1), (Tile::Tong(4), 1), (Tile::Suo(9), 2)]);
    assert!(waiting.can_hu(&Tile::Tong(2)));
    assert!(waiting.can_hu(&Tile::Tong(5)));
    assert!(!waiting.can_hu(&Tile::Tong(6)));
    assert!(!waiting.can_zimuo());
}

#[test]
fn claims_drop_spent_entries() {
    let mut player = player_with(vec![(Tile::Wan(3), 1), (Tile::Wan(4), 1), (Tile::Wan(9), 2)]);
    let chi = Chi::new(Tile::Wan(3), Tile::Wan(4), Tile::Wan(5)).unwrap();
    assert!(player.chi(chi).is_ok());
    assert_eq!(player.hand().entries(), vec![(Tile::Wan(9), 2)]);
    assert!(!player.can_chi(&Tile::Wan(3), &Tile::Wan(4), &Tile::Wan(5)));
    assert!(player.pong(Pong::new(Tile::Wan(9)).unwrap()).is_ok());
    assert!(player.hand().entries().is_empty());
}

#[test]
fn test_check_can_meld_all() {
    let hand = TileMap::from_entries(vec![(Tile::Wan(1), 3), (Tile::Wan(2), 3), (Tile::Wan(3), 3)]);
    let pong1 = Meld::Pong(Pong::new(Tile::Wan(1)).unwrap());
    let pong2 = Meld::Pong(Pong::new(Tile::Wan(2)).unwrap());
    let pong3 = Meld::Pong(Pong::new(Tile::Wan(3)).unwrap());
    let chi = Meld::Chi(Chi::new(Tile::Wan(1), Tile::Wan(2), Tile::Wan(3)).unwrap());
    assert_eq!(check_can_meld_all(hand), vec![vec![pong3, pong2, pong1], vec![chi, chi, chi]]);
}

#[test]
fn check_can_meld_all_of_nothing() {
    assert_eq!(check_can_meld_all(TileMap::new()), vec![Vec::<Meld>::new()]);
    let stray = TileMap::from_entries(vec![(Tile::Wan(1), 1)]);
    assert!(check_can_meld_all(stray).is_empty());
}

#[test]
fn table_turns() {
    let mut table = Table::new(100);
    assert_eq!(table.tiles().len(), 148);
    assert_eq!(table.players().len(), 4);
    let action = PlayerAction { player_index: 0, action: Action::Pass };
    assert_eq!(table.current_player_action(&action), Err(GameLoopError::InvalidStateError));
    // One tile makes no winning hand, and no quad: nothing is offered.
    let actions = table.next_draw().unwrap();
    assert!(actions.is_empty());
    assert_eq!(table.players()[0].hand().entries(), vec![(Tile::Wan(1), 1)]);
    assert_eq!(table.next_draw(), Err(GameLoopError::InvalidStateError));
    assert_eq!(table.current_player_action(&action), Ok(()));
}

#[test]
fn table_new_round_deals() {
    let mut table = Table::new(10);
    table.new_game();
    assert_eq!(table.new_round(), Ok(()));
    let held: usize = table
        .players()
        .iter()
        .map(|p| p.hand().entries().iter().map(|e| e.1 as usize).sum::<usize>())
        .sum();
    assert_eq!(held, 49);
    let mut wall = table.tiles().clone();
    wall.sort();
    let mut fresh = Table::new(10).tiles().clone();
    fresh.sort();
    assert_eq!(wall, fresh);
}

#[test]
fn check_can_meld_all_finds_a_split_with_runs_and_triplets() {
    let hand = TileMap::from_entries(vec![
        (Tile::Suo(7), 1),
        (Tile::Suo(8), 1),
        (Tile::Suo(9), 1),
        (Tile::Dragon(DragonType::Fa), 3),
        (Tile::Tong(4), 2),
        (Tile::Tong(5), 2),
        (Tile::Tong(6), 2),
    ]);
    let found = check_can_meld_all(hand);
    let pong = Meld::Pong(Pong::new(Tile::Dragon(DragonType::Fa)).unwrap());
    let suo = Meld::Chi(Chi::new(Tile::Suo(7), Tile::Suo(8), Tile::Suo(9)).unwrap());
    let tong = Meld::Chi(Chi::new(Tile::Tong(4), Tile::Tong(5), Tile::Tong(6)).unwrap());
    assert_eq!(found, vec![vec![pong, tong, tong, suo]]);
}
