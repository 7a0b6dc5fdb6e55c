use vstd::prelude::*;

use super::meld::Meld;
use super::player::{held, lookup, quad_tiles, wins, Action, Player};
use super::tile::{AnimalType, DragonType, FengType, HuaType, Tile};

verus! {

/// Relies on `rand::seq::SliceRandom::shuffle` with the thread-local generator: it
/// rearranges the items by swaps, so the same items remain.
#[verifier::external_body]
fn shuffle<T>(items: &mut Vec<T>)
    ensures
        final(items)@.to_multiset() == old(items)@.to_multiset(),
        final(items)@.len() == old(items)@.len(),
{
    rand::seq::SliceRandom::shuffle(items.as_mut_slice(), &mut rand::thread_rng());
}

/// The prevailing wind of a round.
#[derive(Debug, PartialEq, Eq, Structural, Clone, Copy)]
pub enum Feng {
    East,
    South,
    West,
    North,
}

/// Where a round stands.
#[derive(Debug, PartialEq, Eq, Structural, Clone, Copy)]
pub enum RoundState {
    CurrentPlayerDraw,
    CurrentPlayerAction,
    OtherPlayerAction,
    RoundEnd,
}

/// An action open to a player.
#[derive(Debug, PartialEq, Eq, Structural, Clone, Copy)]
pub struct PlayerAction {
    pub player_index: usize,
    pub action: Action,
}

#[derive(Debug, PartialEq, Eq, Structural, Clone, Copy)]
pub enum GameLoopError {
    /// The player's tiles do not allow the action.
    IllegalMoveError { action: Action },
    /// The action does not fit the state of the round.
    InvalidStateError,
    /// No tile is left to draw.
    WallExhaustedError,
}

/// `after` is `before` with one more copy of `tile` in the hand, and nothing else claimable
/// (skipped tiles are forgotten).
pub open spec fn drew(before: Player, after: Player, tile: Tile) -> bool {
    &&& held(after.spec_hand(), tile) == held(before.spec_hand(), tile) + 1
    &&& forall|u: Tile| u != tile ==> lookup(after.spec_hand(), u) == lookup(before.spec_hand(), u)
    &&& after.spec_melds() == before.spec_melds()
    &&& after.spec_skipped() == Seq::<Tile>::empty()
}

/// Number of tiles in the wall.
pub const WALL_SIZE: usize = 148;

/// The number tiles of values 1 to `n - 1`, each value as Wan, Suo, Tong.
pub open spec fn number_tiles(n: int) -> Seq<Tile>
    decreases n,
{
    if n <= 1 {
        Seq::empty()
    } else {
        number_tiles(n - 1) + seq![Tile::Wan((n - 1) as i8), Tile::Suo((n - 1) as i8), Tile::Tong((n - 1) as i8)]
    }
}

/// One copy of every number tile, dragon and wind, in the order the wall is laid.
pub open spec fn one_set() -> Seq<Tile> {
    number_tiles(10) + seq![
        Tile::Dragon(DragonType::Fa),
        Tile::Dragon(DragonType::Zhong),
        Tile::Dragon(DragonType::Baiban),
        Tile::Feng(FengType::East),
        Tile::Feng(FengType::North),
        Tile::Feng(FengType::West),
        Tile::Feng(FengType::South),
    ]
}

/// `n` copies of `one_set`.
pub open spec fn sets(n: nat) -> Seq<Tile>
    decreases n,
{
    if n == 0 {
        Seq::empty()
    } else {
        sets((n - 1) as nat) + one_set()
    }
}

/// The wall before shuffling: four sets, then the flowers and the animals.
pub open spec fn standard_wall() -> Seq<Tile> {
    sets(4) + seq![
        Tile::Hua(HuaType::RedOne),
        Tile::Hua(HuaType::RedTwo),
        Tile::Hua(HuaType::RedThree),
        Tile::Hua(HuaType::RedFour),
        Tile::Hua(HuaType::BlueOne),
        Tile::Hua(HuaType::BlueTwo),
        Tile::Hua(HuaType::BlueThree),
        Tile::Hua(HuaType::BlueFour),
        Tile::Animal(AnimalType::Cat),
        Tile::Animal(AnimalType::Rat),
        Tile::Animal(AnimalType::Rooster),
        Tile::Animal(AnimalType::Centipede),
    ]
}

proof fn lemma_wall_lengths(n: nat)
    ensures
        sets(n).len() == 34 * n,
    decreases n,
{
    assert(number_tiles(10).len() == 27) by {
        reveal_with_fuel(number_tiles, 10);
    }
    if n > 0 {
        lemma_wall_lengths((n - 1) as nat);
    }
}

/// A table of four players and the wall.
pub struct Table {
    players: Vec<Player>,
    current_feng: Feng,
    banker: usize,
    tiles: Vec<Tile>,
    discards: Vec<Tile>,
    next_draw: usize,
    current_player: usize,
    round_state: RoundState,
}

impl Table {
    pub closed spec fn spec_players(&self) -> Seq<Player> {
        self.players@
    }

    pub closed spec fn spec_tiles(&self) -> Seq<Tile> {
        self.tiles@
    }

    pub closed spec fn spec_next_draw(&self) -> nat {
        self.next_draw as nat
    }

    pub closed spec fn spec_current_player(&self) -> nat {
        self.current_player as nat
    }

    pub closed spec fn spec_banker(&self) -> nat {
        self.banker as nat
    }

    pub closed spec fn spec_round_state(&self) -> RoundState {
        self.round_state
    }

    pub closed spec fn spec_feng(&self) -> Feng {
        self.current_feng
    }

    /// Every part of the table is as in `other`.
    pub open spec fn same_as(&self, other: &Table) -> bool {
        &&& self.spec_players() == other.spec_players()
        &&& self.spec_tiles() == other.spec_tiles()
        &&& self.spec_next_draw() == other.spec_next_draw()
        &&& self.spec_current_player() == other.spec_current_player()
        &&& self.spec_banker() == other.spec_banker()
        &&& self.spec_round_state() == other.spec_round_state()
        &&& self.spec_feng() == other.spec_feng()
    }

    /// Four players, a full wall, and seats that exist.
    pub open spec fn wf(&self) -> bool {
        &&& self.spec_players().len() == 4
        &&& forall|i: int| 0 <= i < 4 ==> (#[trigger] self.spec_players()[i]).wf()
        &&& self.spec_tiles().len() == WALL_SIZE
        &&& self.spec_current_player() < 4
        &&& self.spec_banker() < 4
    }

    /// A table of four players with `starting_chips` each and the wall in order: four
    /// times each number tile, dragon and wind, then the eight flowers and four animals.
    pub fn new(starting_chips: i32) -> (r: Self)
        ensures
            r.wf(),
            r.spec_tiles() == standard_wall(),
            forall|i: int| 0 <= i < 4 ==> (#[trigger] r.spec_players()[i]).spec_chips() == starting_chips
                && r.spec_players()[i].spec_hand().len() == 0 && r.spec_players()[i].spec_melds().len() == 0
                && r.spec_players()[i].spec_skipped().len() == 0,
            r.spec_next_draw() == 0,
            r.spec_current_player() == 0,
            r.spec_banker() == 0,
            r.spec_round_state() == RoundState::CurrentPlayerDraw,
            r.spec_feng() == Feng::East,
    {
        let mut players: Vec<Player> = Vec::new();
        let mut k: usize = 0;
        while k < 4
            invariant
                k <= 4,
                players@.len() == k,
                forall|i: int| 0 <= i < k ==> (#[trigger] players@[i]).wf() && players@[i].spec_chips() == starting_chips
                    && players@[i].spec_hand().len() == 0 && players@[i].spec_melds().len() == 0
                    && players@[i].spec_skipped().len() == 0,
            decreases 4 - k,
        {
            players.push(Player::new(starting_chips));
            k = k + 1;
        }
        let mut tiles: Vec<Tile> = Vec::new();
        let mut copy: usize = 0;
        while copy < 4
            invariant
                copy <= 4,
                tiles@ == sets(copy as nat),
            decreases 4 - copy,
        {
            let ghost start = tiles@;
            let mut i: i8 = 1;
            while i < 10
                invariant
                    1 <= i <= 10,
                    tiles@ == start + number_tiles(i as int),
                decreases 10 - i,
            {
                tiles.push(Tile::Wan(i));
                tiles.push(Tile::Suo(i));
                tiles.push(Tile::Tong(i));
                assert(number_tiles((i + 1) as int) == number_tiles(i as int) + seq![Tile::Wan(i), Tile::Suo(i), Tile::Tong(i)]);
                assert(tiles@ =~= start + number_tiles((i + 1) as int));
                i = i + 1;
            }
            tiles.push(Tile::Dragon(DragonType::Fa));
            tiles.push(Tile::Dragon(DragonType::Zhong));
            tiles.push(Tile::Dragon(DragonType::Baiban));
            tiles.push(Tile::Feng(FengType::East));
            tiles.push(Tile::Feng(FengType::North));
            tiles.push(Tile::Feng(FengType::West));
            tiles.push(Tile::Feng(FengType::South));
            assert(tiles@ =~= start + one_set());
            copy = copy + 1;
        }
        tiles.push(Tile::Hua(HuaType::RedOne));
        tiles.push(Tile::Hua(HuaType::RedTwo));
        tiles.push(Tile::Hua(HuaType::RedThree));
        tiles.push(Tile::Hua(HuaType::RedFour));
        tiles.push(Tile::Hua(HuaType::BlueOne));
        tiles.push(Tile::Hua(HuaType::BlueTwo));
        tiles.push(Tile::Hua(HuaType::BlueThree));
        tiles.push(Tile::Hua(HuaType::BlueFour));
        tiles.push(Tile::Animal(AnimalType::Cat));
        tiles.push(Tile::Animal(AnimalType::Rat));
        tiles.push(Tile::Animal(AnimalType::Rooster));
        tiles.push(Tile::Animal(AnimalType::Centipede));
        proof {
            lemma_wall_lengths(4);
        }
        assert(tiles@ =~= standard_wall());
        Table {
            players,
            current_feng: Feng::East,
            banker: 0,
            tiles,
            discards: Vec::new(),
            next_draw: 0,
            current_player: 0,
            round_state: RoundState::CurrentPlayerDraw,
        }
    }

    /// The wall, from the next tile to draw on.
    pub fn tiles(&self) -> (r: &Vec<Tile>)
        ensures
            r@ == self.spec_tiles(),
    {
        &self.tiles
    }

    pub fn players(&self) -> (r: &Vec<Player>)
        ensures
            r@ == self.spec_players(),
    {
        &self.players
    }

    /// Gives the next tile of the wall to player `player_number`. Fails, changing nothing,
    /// when the wall is exhausted or the player already holds the most copies of that tile
    /// that a hand can count.
    fn draw_next_tile(&mut self, player_number: usize) -> (r: Result<(), GameLoopError>)
        requires
            old(self).wf(),
            player_number < 4,
        ensures
            final(self).wf(),
            r is Ok ==> final(self).spec_next_draw() == old(self).spec_next_draw() + 1,
            r is Err ==> final(self).spec_next_draw() == old(self).spec_next_draw(),
            old(self).spec_next_draw() >= old(self).spec_tiles().len() ==> r == Err::<(), GameLoopError>(
                GameLoopError::WallExhaustedError,
            ),
            r is Err ==> final(self).spec_players() == old(self).spec_players(),
            r is Ok ==> old(self).spec_next_draw() < old(self).spec_tiles().len() && drew(
                old(self).spec_players()[player_number as int],
                final(self).spec_players()[player_number as int],
                old(self).spec_tiles()[old(self).spec_next_draw() as int],
            ) && forall|i: int| 0 <= i < 4 && i != player_number ==> #[trigger] final(self).spec_players()[i]
                == old(self).spec_players()[i],
            final(self).spec_tiles() == old(self).spec_tiles(),
            final(self).spec_current_player() == old(self).spec_current_player(),
            final(self).spec_round_state() == old(self).spec_round_state(),
            final(self).spec_banker() == old(self).spec_banker(),
            final(self).spec_feng() == old(self).spec_feng(),
    {
        if self.next_draw >= self.tiles.len() {
            return Err(GameLoopError::WallExhaustedError);
        }
        let tile = self.tiles[self.next_draw];
        let mut player = self.players.remove(player_number);
        let room = match player.hand().get(&tile) {
            Some(c) => c < 255,
            None => true,
        };
        if room {
            player.draw(&tile);
        }
        self.players.insert(player_number, player);
        proof {
            assert forall|i: int| 0 <= i < 4 implies (#[trigger] self.spec_players()[i]).wf() by {
                if i < player_number {
                    assert(self.spec_players()[i] == old(self).spec_players()[i]);
                } else if i > player_number {
                    assert(self.spec_players()[i] == old(self).spec_players()[i]);
                }
            }
        }
        if !room {
            assert(self.players@ =~= old(self).players@);
            return Err(GameLoopError::InvalidStateError);
        }
        self.next_draw = self.next_draw + 1;
        Ok(())
    }

    /// Seats the players in a random order and starts the game in the East round, with
    /// the first seat as banker.
    pub fn new_game(&mut self)
        requires
            old(self).wf(),
        ensures
            final(self).wf(),
            final(self).spec_players().to_multiset() == old(self).spec_players().to_multiset(),
            final(self).spec_banker() == 0,
            final(self).spec_feng() == Feng::East,
    {
        let ghost before = self.players@;
        shuffle(&mut self.players);
        proof {
            assert forall|i: int| 0 <= i < 4 implies (#[trigger] self.spec_players()[i]).wf() by {
                let p = self.spec_players()[i];
                assert(self.players@.to_multiset().count(p) > 0) by {
                    vstd::seq_lib::to_multiset_contains(self.players@, p);
                    assert(self.players@.contains(p));
                }
                vstd::seq_lib::to_multiset_contains(before, p);
                let k = choose|k: int| 0 <= k < before.len() && before[k] == p;
            }
        }
        self.banker = 0;
        self.current_feng = Feng::East;
    }

    /// Shuffles the wall and deals twelve tiles to each player and one more to the banker.
    pub fn new_round(&mut self) -> (r: Result<(), GameLoopError>)
        requires
            old(self).wf(),
        ensures
            final(self).wf(),
            final(self).spec_tiles().to_multiset() == old(self).spec_tiles().to_multiset(),
            r is Ok ==> final(self).spec_next_draw() == 49 && final(self).spec_round_state()
                == RoundState::CurrentPlayerDraw,
    {
        shuffle(&mut self.tiles);
        self.next_draw = 0;
        let mut i: usize = 0;
        while i < 4
            invariant
                i <= 4,
                self.wf(),
                self.spec_next_draw() == 12 * i,
                self.spec_tiles().to_multiset() == old(self).spec_tiles().to_multiset(),
            decreases 4 - i,
        {
            let mut k: usize = 0;
            while k < 12
                invariant
                    k <= 12,
                    i < 4,
                    self.wf(),
                    self.spec_next_draw() == 12 * i + k,
                    self.spec_tiles().to_multiset() == old(self).spec_tiles().to_multiset(),
                decreases 12 - k,
            {
                match self.draw_next_tile(i) {
                    Ok(()) => {},
                    Err(e) => {
                        return Err(e);
                    },
                }
                k = k + 1;
            }
            i = i + 1;
        }
        let banker = self.banker;
        match self.draw_next_tile(banker) {
            Ok(()) => {},
            Err(e) => {
                return Err(e);
            },
        }
        self.round_state = RoundState::CurrentPlayerDraw;
        Ok(())
    }

    /// The current player draws; the actions then open to them are each drawn quad they
    /// hold and a self-drawn win. Fails unless it is the current player's turn to draw.
    pub fn next_draw(&mut self) -> (r: Result<Vec<PlayerAction>, GameLoopError>)
        requires
            old(self).wf(),
        ensures
            final(self).wf(),
            old(self).spec_round_state() != RoundState::CurrentPlayerDraw ==> r == Err::<Vec<PlayerAction>, GameLoopError>(
                GameLoopError::InvalidStateError,
            ),
            r is Err ==> final(self).same_as(old(self)),
            r is Ok ==> old(self).spec_round_state() == RoundState::CurrentPlayerDraw,
            r matches Ok(actions) ==> final(self).spec_round_state() == RoundState::CurrentPlayerAction
                && final(self).spec_next_draw() == old(self).spec_next_draw() + 1
                && final(self).spec_tiles() == old(self).spec_tiles()
                && final(self).spec_current_player() == old(self).spec_current_player()
                && drew(
                    old(self).spec_players()[old(self).spec_current_player() as int],
                    final(self).spec_players()[old(self).spec_current_player() as int],
                    old(self).spec_tiles()[old(self).spec_next_draw() as int],
                )
                && (forall|i: int| 0 <= i < 4 && i != old(self).spec_current_player() ==> #[trigger] final(self).spec_players()[i]
                    == old(self).spec_players()[i])
                && actions@.len() == quad_tiles(final(self).spec_players()[final(self).spec_current_player() as int].spec_hand()).len()
                    + (if wins(final(self).spec_players()[final(self).spec_current_player() as int].spec_hand(), None) { 1int } else { 0int })
                && (forall|k: int| 0 <= k < actions@.len() ==> (#[trigger] actions@[k]).player_index == final(self).spec_current_player())
                && (forall|k: int| 0 <= k < quad_tiles(final(self).spec_players()[final(self).spec_current_player() as int].spec_hand()).len()
                    ==> ((#[trigger] actions@[k]).action matches Action::Meld(Meld::AnGang(a))
                    && a.view() == quad_tiles(final(self).spec_players()[final(self).spec_current_player() as int].spec_hand())[k]))
                && (wins(final(self).spec_players()[final(self).spec_current_player() as int].spec_hand(), None)
                    ==> actions@.last().action == Action::ZiMuo),
    {
        if self.round_state != RoundState::CurrentPlayerDraw {
            return Err(GameLoopError::InvalidStateError);
        }
        let current = self.current_player;
        match self.draw_next_tile(current) {
            Ok(()) => {},
            Err(e) => {
                return Err(e);
            },
        }
        let mut current_player_actions: Vec<PlayerAction> = Vec::new();
        let angangs = self.players[current].get_angang();
        let mut k: usize = 0;
        while k < angangs.len()
            invariant
                k <= angangs.len(),
                current_player_actions@.len() == k,
                forall|j: int| 0 <= j < k ==> (#[trigger] current_player_actions@[j]).player_index == current
                    && current_player_actions@[j].action == Action::Meld(angangs@[j]),
            decreases angangs.len() - k,
        {
            current_player_actions.push(PlayerAction { player_index: current, action: Action::Meld(angangs[k]) });
            k = k + 1;
        }
        if self.players[current].can_zimuo() {
            current_player_actions.push(PlayerAction { player_index: current, action: Action::ZiMuo });
        }
        self.round_state = RoundState::CurrentPlayerAction;
        Ok(current_player_actions)
    }

    /// Takes the current player's action. Fails unless the round waits for it. A
    /// self-drawn win and a drawn quad are not acted on yet; other actions need nothing.
    pub fn current_player_action(&mut self, player_action: &PlayerAction) -> (r: Result<(), GameLoopError>)
        ensures
            r is Err <==> old(self).spec_round_state() != RoundState::CurrentPlayerAction,
            r matches Err(e) ==> e == GameLoopError::InvalidStateError,
            final(self).spec_players() == old(self).spec_players(),
            final(self).spec_tiles() == old(self).spec_tiles(),
            final(self).spec_round_state() == old(self).spec_round_state(),
            final(self).spec_next_draw() == old(self).spec_next_draw(),
    {
        if self.round_state != RoundState::CurrentPlayerAction {
            return Err(GameLoopError::InvalidStateError);
        }
        Ok(())
    }
}

} // verus!
