//! The scoring conditions that a winning hand meets.
use vstd::prelude::*;

use crate::hand::views;
use crate::meld::{Meld, MeldType, MeldView};
use crate::score::{lemma_total_tai_concat, total_tai, Score, ScoreTai};
use crate::tile::{
    is_number, tile_next, tile_prev, value_of, Flower, FlowerValue, Suit, Tile,
    TileValue, Wind,
};
use crate::tile_seq::lemma_sorted_tiles;

verus! {

/// The flower that belongs to a seat: East to North take flowers one to four.
pub open spec fn seat_flower(w: Wind) -> FlowerValue {
    match w {
        Wind::East => FlowerValue::One,
        Wind::South => FlowerValue::Two,
        Wind::West => FlowerValue::Three,
        Wind::North => FlowerValue::Four,
    }
}

/// What one bonus tile scores by itself.
pub open spec fn bonus_tile_scores(t: Tile, seat_wind: Wind) -> Seq<Score> {
    match t {
        Tile::Animal(_) => seq![Score::Animal],
        Tile::Flower(Flower::Red(f)) => if f == seat_flower(seat_wind) {
            seq![Score::PlayerFlower]
        } else {
            Seq::empty()
        },
        Tile::Flower(Flower::Blue(f)) => if f == seat_flower(seat_wind) {
            seq![Score::PlayerFlower]
        } else {
            Seq::empty()
        },
        _ => Seq::empty(),
    }
}

pub open spec fn each_bonus_scores(bonus: Seq<Tile>, seat_wind: Wind) -> Seq<Score>
    decreases bonus.len(),
{
    if bonus.len() == 0 {
        Seq::empty()
    } else {
        each_bonus_scores(bonus.drop_last(), seat_wind) + bonus_tile_scores(bonus.last(), seat_wind)
    }
}

/// How many of the bonus tiles satisfy `f`.
pub open spec fn count_bonus(bonus: Seq<Tile>, f: spec_fn(Tile) -> bool) -> nat
    decreases bonus.len(),
{
    if bonus.len() == 0 {
        0
    } else {
        count_bonus(bonus.drop_last(), f) + (if f(bonus.last()) { 1nat } else { 0nat })
    }
}

pub open spec fn is_animal(t: Tile) -> bool {
    t is Animal
}

pub open spec fn is_red_flower(t: Tile) -> bool {
    t matches Tile::Flower(Flower::Red(_))
}

pub open spec fn is_blue_flower(t: Tile) -> bool {
    t matches Tile::Flower(Flower::Blue(_))
}

/// The scores of the bonus tiles: one per animal, one per flower of the seat, and one for
/// each complete set of four animals, red flowers or blue flowers.
pub open spec fn bonus_scores(bonus: Seq<Tile>, seat_wind: Wind) -> Seq<Score> {
    each_bonus_scores(bonus, seat_wind) + (if count_bonus(bonus, |t: Tile| is_animal(t)) == 4 {
        seq![Score::CompleteAnimals]
    } else {
        Seq::empty()
    }) + (if count_bonus(bonus, |t: Tile| is_red_flower(t)) == 4 {
        seq![Score::CompleteRedFlower]
    } else {
        Seq::empty()
    }) + (if count_bonus(bonus, |t: Tile| is_blue_flower(t)) == 4 {
        seq![Score::CompleteBlueFlower]
    } else {
        Seq::empty()
    })
}

/// The scores of a bonus tile list (see `bonus_scores`).
pub fn hand_bonus_scores(bonus: &Vec<Tile>, seat_wind: &Wind) -> (r: Vec<Score>)
    ensures
        r@ == bonus_scores(bonus@, *seat_wind),
{
    let ghost fa = |t: Tile| is_animal(t);
    let ghost fr = |t: Tile| is_red_flower(t);
    let ghost fb = |t: Tile| is_blue_flower(t);
    let flower = match seat_wind {
        Wind::East => FlowerValue::One,
        Wind::South => FlowerValue::Two,
        Wind::West => FlowerValue::Three,
        Wind::North => FlowerValue::Four,
    };
    let mut scores: Vec<Score> = Vec::new();
    let mut animals: usize = 0;
    let mut red: usize = 0;
    let mut blue: usize = 0;
    let mut i: usize = 0;
    while i < bonus.len()
        invariant
            i <= bonus.len(),
            flower == seat_flower(*seat_wind),
            fa == (|t: Tile| is_animal(t)),
            fr == (|t: Tile| is_red_flower(t)),
            fb == (|t: Tile| is_blue_flower(t)),
            scores@ == each_bonus_scores(bonus@.take(i as int), *seat_wind),
            animals == count_bonus(bonus@.take(i as int), fa),
            red == count_bonus(bonus@.take(i as int), fr),
            blue == count_bonus(bonus@.take(i as int), fb),
            animals <= i && red <= i && blue <= i,
        decreases bonus.len() - i,
    {
        let ghost before = scores@;
        proof {
            assert(bonus@.take(i + 1).drop_last() =~= bonus@.take(i as int));
        }
        match bonus[i] {
            Tile::Animal(_) => {
                scores.push(Score::Animal);
                animals = animals + 1;
            },
            Tile::Flower(Flower::Red(f)) => {
                if f == flower {
                    scores.push(Score::PlayerFlower);
                }
                red = red + 1;
            },
            Tile::Flower(Flower::Blue(f)) => {
                if f == flower {
                    scores.push(Score::PlayerFlower);
                }
                blue = blue + 1;
            },
            _ => {},
        }
        assert(scores@ =~= before + bonus_tile_scores(bonus@[i as int], *seat_wind));
        i = i + 1;
    }
    assert(bonus@.take(i as int) =~= bonus@);
    let ghost each = scores@;
    if animals == 4 {
        scores.push(Score::CompleteAnimals);
    }
    let ghost s1 = scores@;
    if red == 4 {
        scores.push(Score::CompleteRedFlower);
    }
    let ghost s2 = scores@;
    if blue == 4 {
        scores.push(Score::CompleteBlueFlower);
    }
    assert(scores@ =~= bonus_scores(bonus@, *seat_wind));
    scores
}

/// What a wind or dragon meld scores by itself.
pub open spec fn meld_honour_scores(m: MeldView, seat_wind: Wind, prevailing_wind: Wind) -> Seq<Score> {
    if m.suit == Suit::Wind {
        match m.tiles[0] {
            Tile::Wind(w) => (if w == prevailing_wind {
                seq![Score::PrevailingWind]
            } else {
                Seq::empty()
            }) + (if w == seat_wind {
                seq![Score::SeatWind]
            } else {
                Seq::empty()
            }),
            _ => Seq::empty(),
        }
    } else if m.suit == Suit::Dragon {
        seq![Score::Dragon]
    } else {
        Seq::empty()
    }
}

pub open spec fn honour_scores(ms: Seq<MeldView>, seat_wind: Wind, prevailing_wind: Wind) -> Seq<Score>
    decreases ms.len(),
{
    if ms.len() == 0 {
        Seq::empty()
    } else {
        honour_scores(ms.drop_last(), seat_wind, prevailing_wind) + meld_honour_scores(
            ms.last(),
            seat_wind,
            prevailing_wind,
        )
    }
}

/// How many melds have type `t`.
pub open spec fn count_type(ms: Seq<MeldView>, t: MeldType) -> nat
    decreases ms.len(),
{
    if ms.len() == 0 {
        0
    } else {
        count_type(ms.drop_last(), t) + (if ms.last().meld_type == t { 1nat } else { 0nat })
    }
}

/// How many melds are of suit `s`.
pub open spec fn count_suit(ms: Seq<MeldView>, s: Suit) -> nat
    decreases ms.len(),
{
    if ms.len() == 0 {
        0
    } else {
        count_suit(ms.drop_last(), s) + (if ms.last().suit == s { 1nat } else { 0nat })
    }
}

/// How many of the three number suits the melds use.
pub open spec fn number_suits(ms: Seq<MeldView>) -> nat {
    (if count_suit(ms, Suit::Wan) > 0 { 1nat } else { 0nat }) + (if count_suit(ms, Suit::Suo) > 0 {
        1nat
    } else {
        0nat
    }) + (if count_suit(ms, Suit::Tong) > 0 { 1nat } else { 0nat })
}

pub open spec fn number_melds(ms: Seq<MeldView>) -> nat {
    count_suit(ms, Suit::Wan) + count_suit(ms, Suit::Suo) + count_suit(ms, Suit::Tong)
}

pub open spec fn honour_melds(ms: Seq<MeldView>) -> nat {
    count_suit(ms, Suit::Wind) + count_suit(ms, Suit::Dragon)
}

/// The run `m` holds `d` at one end, and the tile beyond its other end exists: the two
/// tiles besides `d` could also have been completed on the other side.
pub open spec fn two_sided_wait(d: Tile, m: MeldView) -> bool {
    &&& m.meld_type == MeldType::Chi
    &&& m.tiles.len() == 3
    &&& ((m.tiles[0] == d && tile_next(m.tiles[2]) is Some) || (m.tiles[2] == d && tile_prev(m.tiles[0]) is Some))
}

/// A pair that scores by itself: dragons, or the seat or prevailing wind.
pub open spec fn scoring_eye(m: MeldView, seat_wind: Wind, prevailing_wind: Wind) -> bool {
    &&& m.meld_type == MeldType::Eye
    &&& (m.suit == Suit::Dragon || m.tiles[0] == Tile::Wind(prevailing_wind) || m.tiles[0] == Tile::Wind(
        seat_wind,
    ))
}

/// A hand of four runs earns the all-runs score: when self-drawn, always; when completed by
/// the discard `d`, only on a two-sided wait and without a scoring pair.
pub open spec fn runs_score(ms: Seq<MeldView>, discarded: Option<Tile>, seat_wind: Wind, prevailing_wind: Wind) -> bool {
    match discarded {
        None => true,
        Some(d) => (exists|i: int| 0 <= i < ms.len() && two_sided_wait(d, #[trigger] ms[i])) && !(exists|i: int|
            0 <= i < ms.len() && scoring_eye(#[trigger] ms[i], seat_wind, prevailing_wind)),
    }
}

/// Not a run, and of a number suit with value one or nine.
pub open spec fn is_terminal_meld(m: MeldView) -> bool {
    &&& m.meld_type != MeldType::Chi
    &&& is_number(m.tiles[0])
    &&& (value_of(m.tiles[0]) == TileValue::One || value_of(m.tiles[0]) == TileValue::Nine)
}

/// The scores that add up: `base`, the wind and dragon melds, a flush, a concealed hand,
/// all runs, all triplets.
pub open spec fn additive_scores(
    base: Seq<Score>,
    ms: Seq<MeldView>,
    concealed_only: bool,
    no_bonus: bool,
    discarded: Option<Tile>,
    seat_wind: Wind,
    prevailing_wind: Wind,
) -> Seq<Score> {
    base + honour_scores(ms, seat_wind, prevailing_wind) + (if number_suits(ms) == 1 {
        if honour_melds(ms) > 0 {
            seq![Score::HalfFlush]
        } else {
            seq![Score::FullFlush]
        }
    } else {
        Seq::empty()
    }) + (if concealed_only {
        seq![Score::AllConcealed]
    } else {
        Seq::empty()
    }) + (if count_type(ms, MeldType::Chi) == 4 && runs_score(ms, discarded, seat_wind, prevailing_wind) {
        if no_bonus {
            seq![Score::PingHu]
        } else {
            seq![Score::AllChi]
        }
    } else {
        Seq::empty()
    }) + (if !concealed_only && count_type(ms, MeldType::Chi) == 0 {
        seq![Score::AllPong]
    } else {
        Seq::empty()
    })
}

/// The scores of a winning hand of melds `ms`: a limit hand replaces everything else by
/// itself, the last one that applies in the order hidden treasure, all honours, all
/// terminals, full flush of runs; otherwise the additive scores.
pub open spec fn hand_scores(
    base: Seq<Score>,
    ms: Seq<MeldView>,
    concealed_only: bool,
    no_bonus: bool,
    discarded: Option<Tile>,
    seat_wind: Wind,
    prevailing_wind: Wind,
) -> Seq<Score> {
    if count_type(ms, MeldType::Chi) == 4 && number_suits(ms) == 1 {
        seq![Score::FullFlushPingHu]
    } else if forall|i: int| 0 <= i < ms.len() ==> is_terminal_meld(#[trigger] ms[i]) {
        seq![Score::AllTerminals]
    } else if number_melds(ms) == 0 {
        seq![Score::AllHonours]
    } else if concealed_only && count_type(ms, MeldType::Chi) == 0 {
        seq![Score::HiddenTreasure]
    } else {
        additive_scores(base, ms, concealed_only, no_bonus, discarded, seat_wind, prevailing_wind)
    }
}

/// The scores of the winning hand of melds `melds` (see `hand_scores`).
pub fn score_melds(
    melds: &Vec<Meld>,
    base: &Vec<Score>,
    concealed_only: bool,
    no_bonus: bool,
    discarded_tile: Option<Tile>,
    seat_wind: &Wind,
    prevailing_wind: &Wind,
) -> (r: Vec<Score>)
    ensures
        r@ == hand_scores(
            base@,
            views(melds@),
            concealed_only,
            no_bonus,
            discarded_tile,
            *seat_wind,
            *prevailing_wind,
        ),
{
    let ghost ms = views(melds@);
    let mut scores: Vec<Score> = Vec::new();
    let mut k: usize = 0;
    while k < base.len()
        invariant
            k <= base.len(),
            scores@ == base@.take(k as int),
        decreases base.len() - k,
    {
        scores.push(base[k]);
        k = k + 1;
        assert(scores@ =~= base@.take(k as int));
    }
    assert(base@.take(k as int) =~= base@);
    let mut wan: usize = 0;
    let mut suo: usize = 0;
    let mut tong: usize = 0;
    let mut winds: usize = 0;
    let mut dragons: usize = 0;
    let mut chis: usize = 0;
    let mut two_sided = false;
    let mut scoring_pair = false;
    let mut terminals = true;
    let mut i: usize = 0;
    while i < melds.len()
        invariant
            i <= melds.len(),
            ms == views(melds@),
            scores@ == base@ + honour_scores(ms.take(i as int), *seat_wind, *prevailing_wind),
            wan == count_suit(ms.take(i as int), Suit::Wan),
            suo == count_suit(ms.take(i as int), Suit::Suo),
            tong == count_suit(ms.take(i as int), Suit::Tong),
            winds == count_suit(ms.take(i as int), Suit::Wind),
            dragons == count_suit(ms.take(i as int), Suit::Dragon),
            chis == count_type(ms.take(i as int), MeldType::Chi),
            wan <= i && suo <= i && tong <= i && winds <= i && dragons <= i && chis <= i,
            discarded_tile matches Some(d) ==> (two_sided <==> exists|j: int| 0 <= j < i && two_sided_wait(d, #[trigger] ms[j])),
            scoring_pair <==> exists|j: int| 0 <= j < i && scoring_eye(#[trigger] ms[j], *seat_wind, *prevailing_wind),
            terminals <==> forall|j: int| 0 <= j < i ==> is_terminal_meld(#[trigger] ms[j]),
        decreases melds.len() - i,
    {
        let m = &melds[i];
        let tiles = m.tiles();
        let ghost mv = m@;
        proof {
            lemma_sorted_tiles(mv.tiles);
            assert(ms.take(i + 1).drop_last() =~= ms.take(i as int));
            assert(ms[i as int] == mv);
        }
        let first = tiles[0];
        let ghost before = scores@;
        match m.suit() {
            Suit::Wan => {
                wan = wan + 1;
            },
            Suit::Suo => {
                suo = suo + 1;
            },
            Suit::Tong => {
                tong = tong + 1;
            },
            Suit::Wind => {
                winds = winds + 1;
                if let Tile::Wind(w) = first {
                    if w == *prevailing_wind {
                        scores.push(Score::PrevailingWind);
                    }
                    if w == *seat_wind {
                        scores.push(Score::SeatWind);
                    }
                }
            },
            Suit::Dragon => {
                dragons = dragons + 1;
                scores.push(Score::Dragon);
            },
            _ => {},
        }
        assert(scores@ =~= before + meld_honour_scores(mv, *seat_wind, *prevailing_wind));
        let ty = *m.meld_type();
        if ty == MeldType::Chi {
            chis = chis + 1;
        }
        if let Some(d) = discarded_tile {
            if ty == MeldType::Chi && tiles.len() == 3 {
                let top = tiles[2];
                if (tiles[0] == d && top.next().is_some()) || (top == d && tiles[0].prev().is_some()) {
                    two_sided = true;
                }
            }
        }
        if ty == MeldType::Eye && (*m.suit() == Suit::Dragon || first == Tile::Wind(*prevailing_wind) || first
            == Tile::Wind(*seat_wind)) {
            scoring_pair = true;
        }
        let terminal = ty != MeldType::Chi && match first {
            Tile::Wan(v) | Tile::Suo(v) | Tile::Tong(v) => v == TileValue::One || v == TileValue::Nine,
            _ => false,
        };
        if !terminal {
            terminals = false;
        }
        i = i + 1;
        proof {
            assert forall|j: int| 0 <= j < i implies #[trigger] ms[j] == ms.take(i as int)[j] by {}
        }
    }
    assert(ms.take(i as int) =~= ms);
    let number_suits = (if wan > 0 { 1usize } else { 0 }) + (if suo > 0 { 1usize } else { 0 }) + (if tong > 0 {
        1usize
    } else {
        0
    });
    if chis == 4 && number_suits == 1 {
        let mut r: Vec<Score> = Vec::new();
        r.push(Score::FullFlushPingHu);
        return r;
    }
    if terminals {
        let mut r: Vec<Score> = Vec::new();
        r.push(Score::AllTerminals);
        return r;
    }
    if wan == 0 && suo == 0 && tong == 0 {
        let mut r: Vec<Score> = Vec::new();
        r.push(Score::AllHonours);
        return r;
    }
    if concealed_only && chis == 0 {
        let mut r: Vec<Score> = Vec::new();
        r.push(Score::HiddenTreasure);
        return r;
    }
    let ghost s0 = scores@;
    if number_suits == 1 {
        if winds > 0 || dragons > 0 {
            scores.push(Score::HalfFlush);
        } else {
            scores.push(Score::FullFlush);
        }
    }
    if concealed_only {
        scores.push(Score::AllConcealed);
    }
    let runs = match discarded_tile {
        None => true,
        Some(_) => two_sided && !scoring_pair,
    };
    if chis == 4 && runs {
        if no_bonus {
            scores.push(Score::PingHu);
        } else {
            scores.push(Score::AllChi);
        }
    }
    if !concealed_only && chis == 0 {
        scores.push(Score::AllPong);
    }
    assert(scores@ =~= additive_scores(
        base@,
        ms,
        concealed_only,
        no_bonus,
        discarded_tile,
        *seat_wind,
        *prevailing_wind,
    ));
    scores
}

/// The sum of `h` over the melds.
pub open spec fn meld_sum(s: Seq<MeldView>, h: spec_fn(MeldView) -> nat) -> nat
    decreases s.len(),
{
    if s.len() == 0 {
        0
    } else {
        meld_sum(s.drop_last(), h) + h(s.last())
    }
}

pub open spec fn type_indicator(t: MeldType) -> spec_fn(MeldView) -> nat {
    |m: MeldView| if m.meld_type == t { 1nat } else { 0nat }
}

pub open spec fn suit_indicator(su: Suit) -> spec_fn(MeldView) -> nat {
    |m: MeldView| if m.suit == su { 1nat } else { 0nat }
}

pub open spec fn honour_value(seat_wind: Wind, prevailing_wind: Wind, table: ScoreTai) -> spec_fn(MeldView) -> nat {
    |m: MeldView| total_tai(meld_honour_scores(m, seat_wind, prevailing_wind), table)
}

proof fn lemma_meld_sum_remove(s: Seq<MeldView>, h: spec_fn(MeldView) -> nat, k: int)
    requires
        0 <= k < s.len(),
    ensures
        meld_sum(s, h) == meld_sum(s.remove(k), h) + h(s[k]),
    decreases s.len(),
{
    if k == s.len() - 1 {
        assert(s.remove(k) =~= s.drop_last());
    } else {
        assert(s.remove(k).drop_last() =~= s.drop_last().remove(k));
        assert(s.remove(k).last() == s.last());
        lemma_meld_sum_remove(s.drop_last(), h, k);
    }
}

/// A sum over melds does not depend on their order.
proof fn lemma_meld_sum_perm(s1: Seq<MeldView>, s2: Seq<MeldView>, h: spec_fn(MeldView) -> nat)
    requires
        s1.to_multiset() == s2.to_multiset(),
    ensures
        meld_sum(s1, h) == meld_sum(s2, h),
    decreases s1.len(),
{
    broadcast use vstd::seq_lib::group_to_multiset_ensures;
    if s1.len() == 0 {
        assert(s1.to_multiset().len() == 0);
        assert(s2.to_multiset().len() == s2.len());
    } else {
        let x = s1.last();
        assert(s1 =~= s1.drop_last().push(x));
        assert(s1.to_multiset().count(x) > 0) by {
            assert(s1.contains(x));
        }
        assert(s2.contains(x));
        let k = choose|k: int| 0 <= k < s2.len() && s2[k] == x;
        assert(s2.remove(k).to_multiset() =~= s1.drop_last().to_multiset());
        lemma_meld_sum_perm(s1.drop_last(), s2.remove(k), h);
        lemma_meld_sum_remove(s2, h, k);
    }
}

proof fn lemma_count_sums(s: Seq<MeldView>, seat_wind: Wind, prevailing_wind: Wind, table: ScoreTai)
    ensures
        forall|t: MeldType| #[trigger] count_type(s, t) == meld_sum(s, type_indicator(t)),
        forall|su: Suit| #[trigger] count_suit(s, su) == meld_sum(s, suit_indicator(su)),
        total_tai(honour_scores(s, seat_wind, prevailing_wind), table) == meld_sum(
            s,
            honour_value(seat_wind, prevailing_wind, table),
        ),
    decreases s.len(),
{
    if s.len() > 0 {
        lemma_count_sums(s.drop_last(), seat_wind, prevailing_wind, table);
        assert forall|t: MeldType| #[trigger] count_type(s, t) == meld_sum(s, type_indicator(t)) by {
            assert(count_type(s.drop_last(), t) == meld_sum(s.drop_last(), type_indicator(t)));
            assert(type_indicator(t)(s.last()) == (if s.last().meld_type == t { 1nat } else { 0nat }));
        }
        assert forall|su: Suit| #[trigger] count_suit(s, su) == meld_sum(s, suit_indicator(su)) by {
            assert(count_suit(s.drop_last(), su) == meld_sum(s.drop_last(), suit_indicator(su)));
            assert(suit_indicator(su)(s.last()) == (if s.last().suit == su { 1nat } else { 0nat }));
        }
        lemma_total_tai_concat(
            honour_scores(s.drop_last(), seat_wind, prevailing_wind),
            meld_honour_scores(s.last(), seat_wind, prevailing_wind),
            table,
        );
    }
}

/// Melds in the same multiset contain the same melds.
proof fn lemma_same_members(s1: Seq<MeldView>, s2: Seq<MeldView>)
    requires
        s1.to_multiset() == s2.to_multiset(),
    ensures
        forall|x: MeldView| s1.contains(x) <==> s2.contains(x),
{
    assert forall|x: MeldView| s1.contains(x) <==> s2.contains(x) by {
        vstd::seq_lib::to_multiset_contains(s1, x);
        vstd::seq_lib::to_multiset_contains(s2, x);
    }
}

/// The total value of a winning hand does not depend on the order of its melds.
pub proof fn lemma_hand_scores_perm(
    base: Seq<Score>,
    s1: Seq<MeldView>,
    s2: Seq<MeldView>,
    concealed_only: bool,
    no_bonus: bool,
    discarded: Option<Tile>,
    seat_wind: Wind,
    prevailing_wind: Wind,
    table: ScoreTai,
)
    requires
        s1.to_multiset() == s2.to_multiset(),
    ensures
        total_tai(hand_scores(base, s1, concealed_only, no_bonus, discarded, seat_wind, prevailing_wind), table)
            == total_tai(hand_scores(base, s2, concealed_only, no_bonus, discarded, seat_wind, prevailing_wind), table),
{
    lemma_count_sums(s1, seat_wind, prevailing_wind, table);
    lemma_count_sums(s2, seat_wind, prevailing_wind, table);
    lemma_meld_sum_perm(s1, s2, type_indicator(MeldType::Chi));
    lemma_meld_sum_perm(s1, s2, suit_indicator(Suit::Wan));
    lemma_meld_sum_perm(s1, s2, suit_indicator(Suit::Suo));
    lemma_meld_sum_perm(s1, s2, suit_indicator(Suit::Tong));
    lemma_meld_sum_perm(s1, s2, suit_indicator(Suit::Wind));
    lemma_meld_sum_perm(s1, s2, suit_indicator(Suit::Dragon));
    lemma_meld_sum_perm(s1, s2, honour_value(seat_wind, prevailing_wind, table));
    lemma_same_members(s1, s2);
    assert((forall|i: int| 0 <= i < s1.len() ==> is_terminal_meld(#[trigger] s1[i])) == (forall|i: int|
        0 <= i < s2.len() ==> is_terminal_meld(#[trigger] s2[i]))) by {
        if forall|i: int| 0 <= i < s1.len() ==> is_terminal_meld(#[trigger] s1[i]) {
            assert forall|i: int| 0 <= i < s2.len() implies is_terminal_meld(#[trigger] s2[i]) by {
                assert(s2.contains(s2[i]));
                let k = choose|k: int| 0 <= k < s1.len() && s1[k] == s2[i];
            }
        }
        if forall|i: int| 0 <= i < s2.len() ==> is_terminal_meld(#[trigger] s2[i]) {
            assert forall|i: int| 0 <= i < s1.len() implies is_terminal_meld(#[trigger] s1[i]) by {
                assert(s1.contains(s1[i]));
                let k = choose|k: int| 0 <= k < s2.len() && s2[k] == s1[i];
            }
        }
    }
    assert(runs_score(s1, discarded, seat_wind, prevailing_wind) == runs_score(s2, discarded, seat_wind, prevailing_wind)) by {
        if let Some(d) = discarded {
            if exists|i: int| 0 <= i < s1.len() && two_sided_wait(d, #[trigger] s1[i]) {
                let i = choose|i: int| 0 <= i < s1.len() && two_sided_wait(d, #[trigger] s1[i]);
                assert(s1.contains(s1[i]));
                let k = choose|k: int| 0 <= k < s2.len() && s2[k] == s1[i];
                assert(two_sided_wait(d, s2[k]));
            }
            if exists|i: int| 0 <= i < s2.len() && two_sided_wait(d, #[trigger] s2[i]) {
                let i = choose|i: int| 0 <= i < s2.len() && two_sided_wait(d, #[trigger] s2[i]);
                assert(s2.contains(s2[i]));
                let k = choose|k: int| 0 <= k < s1.len() && s1[k] == s2[i];
                assert(two_sided_wait(d, s1[k]));
            }
            if exists|i: int| 0 <= i < s1.len() && scoring_eye(#[trigger] s1[i], seat_wind, prevailing_wind) {
                let i = choose|i: int| 0 <= i < s1.len() && scoring_eye(#[trigger] s1[i], seat_wind, prevailing_wind);
                assert(s1.contains(s1[i]));
                let k = choose|k: int| 0 <= k < s2.len() && s2[k] == s1[i];
                assert(scoring_eye(s2[k], seat_wind, prevailing_wind));
            }
            if exists|i: int| 0 <= i < s2.len() && scoring_eye(#[trigger] s2[i], seat_wind, prevailing_wind) {
                let i = choose|i: int| 0 <= i < s2.len() && scoring_eye(#[trigger] s2[i], seat_wind, prevailing_wind);
                assert(s2.contains(s2[i]));
                let k = choose|k: int| 0 <= k < s1.len() && s1[k] == s2[i];
                assert(scoring_eye(s1[k], seat_wind, prevailing_wind));
            }
        }
    }
    let h1 = honour_scores(s1, seat_wind, prevailing_wind);
    let h2 = honour_scores(s2, seat_wind, prevailing_wind);
    let flush = if number_suits(s1) == 1 {
        if honour_melds(s1) > 0 {
            seq![Score::HalfFlush]
        } else {
            seq![Score::FullFlush]
        }
    } else {
        Seq::empty()
    };
    let conc = if concealed_only {
        seq![Score::AllConcealed]
    } else {
        Seq::empty()
    };
    let runs = if count_type(s1, MeldType::Chi) == 4 && runs_score(s1, discarded, seat_wind, prevailing_wind) {
        if no_bonus {
            seq![Score::PingHu]
        } else {
            seq![Score::AllChi]
        }
    } else {
        Seq::empty()
    };
    let pongs = if !concealed_only && count_type(s1, MeldType::Chi) == 0 {
        seq![Score::AllPong]
    } else {
        Seq::empty()
    };
    assert(additive_scores(base, s1, concealed_only, no_bonus, discarded, seat_wind, prevailing_wind) == base + h1
        + flush + conc + runs + pongs);
    assert(additive_scores(base, s2, concealed_only, no_bonus, discarded, seat_wind, prevailing_wind) == base + h2
        + flush + conc + runs + pongs);
    lemma_total_tai_concat(base, h1, table);
    lemma_total_tai_concat(base + h1, flush, table);
    lemma_total_tai_concat(base + h1 + flush, conc, table);
    lemma_total_tai_concat(base + h1 + flush + conc, runs, table);
    lemma_total_tai_concat(base + h1 + flush + conc + runs, pongs, table);
    lemma_total_tai_concat(base, h2, table);
    lemma_total_tai_concat(base + h2, flush, table);
    lemma_total_tai_concat(base + h2 + flush, conc, table);
    lemma_total_tai_concat(base + h2 + flush + conc, runs, table);
    lemma_total_tai_concat(base + h2 + flush + conc + runs, pongs, table);
}

} // verus!
