use vstd::prelude::*;

use crate::hand::{tiles_where, views, ConcealedTiles, Hand};
use crate::meld::{lemma_uniform_melds, Meld, MeldType, MeldView};
use crate::scoring::{
    additive_scores, bonus_scores, bonus_tile_scores, count_bonus, count_type, each_bonus_scores, hand_bonus_scores,
    hand_scores, honour_melds, honour_scores, is_animal, is_blue_flower, is_red_flower, lemma_hand_scores_perm,
    meld_honour_scores, number_suits, runs_score, score_melds,
};
use crate::search::{eye_view, found_among, is_winning_decomposition, search_melds};
use crate::tile::{is_playable, lemma_tile_index_injective, tile_at, Tile, Wind, NUM_TILE_KINDS};
use crate::score::{lemma_total_tai_bound, lemma_total_tai_insert, total_tai, Score, ScoreTai};
use vstd::std_specs::cmp::{PartialEqSpec, PartialOrdSpec};

verus! {

/// A winning hand: its melds, the scoring conditions it meets and their total value.
/// Hands compare by their total value alone.
#[derive(Debug)]
pub struct Hu {
    melds: Vec<Meld>,
    scores: Vec<Score>,
    tai: u128,
}

impl Hu {
    pub closed spec fn spec_melds(&self) -> Seq<MeldView> {
        views(self.melds@)
    }

    pub closed spec fn spec_scores(&self) -> Seq<Score> {
        self.scores@
    }

    pub closed spec fn spec_tai(&self) -> nat {
        self.tai as nat
    }

    /// A hand of `melds` meeting `scores`, valued by `score_tai`. The total is kept in a
    /// `u128`, wide enough for any number of `u8` values.
    pub fn new(melds: Vec<Meld>, scores: Vec<Score>, score_tai: &ScoreTai) -> (r: Self)
        ensures
            r.spec_melds() == views(melds@),
            r.spec_scores() == scores@,
            r.spec_tai() == total_tai(scores@, *score_tai),
    {
        let mut tai: u128 = 0;
        let mut i: usize = 0;
        while i < scores.len()
            invariant
                i <= scores.len(),
                tai == total_tai(scores@.take(i as int), *score_tai),
            decreases scores.len() - i,
        {
            proof {
                assert(scores@.take(i + 1).drop_last() =~= scores@.take(i as int));
                lemma_total_tai_bound(scores@.take(i as int), *score_tai);
                assert(255 * (i as int) <= 255 * 0x1_0000_0000_0000_0000) by (nonlinear_arith)
                    requires
                        (i as int) <= 0x1_0000_0000_0000_0000,
                ;
            }
            tai = tai + score_tai.get(&scores[i]) as u128;
            i = i + 1;
        }
        assert(scores@.take(i as int) =~= scores@);
        Hu { melds, scores, tai }
    }

    pub fn melds(&self) -> (r: &Vec<Meld>)
        ensures
            views(r@) == self.spec_melds(),
    {
        &self.melds
    }

    pub fn scores(&self) -> (r: &Vec<Score>)
        ensures
            r@ == self.spec_scores(),
    {
        &self.scores
    }

    pub fn tai(&self) -> (r: u128)
        ensures
            r == self.spec_tai(),
    {
        self.tai
    }
}

impl PartialEq for Hu {
    fn eq(&self, other: &Hu) -> (r: bool) {
        self.tai == other.tai
    }
}

impl vstd::std_specs::cmp::PartialEqSpecImpl for Hu {
    open spec fn obeys_eq_spec() -> bool {
        true
    }

    open spec fn eq_spec(&self, other: &Hu) -> bool {
        self.spec_tai() == other.spec_tai()
    }
}

impl PartialOrd for Hu {
    fn partial_cmp(&self, other: &Hu) -> (r: Option<std::cmp::Ordering>) {
        if self.tai < other.tai {
            Some(std::cmp::Ordering::Less)
        } else if self.tai > other.tai {
            Some(std::cmp::Ordering::Greater)
        } else {
            Some(std::cmp::Ordering::Equal)
        }
    }
}

impl vstd::std_specs::cmp::PartialOrdSpecImpl for Hu {
    open spec fn obeys_partial_cmp_spec() -> bool {
        true
    }

    open spec fn partial_cmp_spec(&self, other: &Hu) -> Option<std::cmp::Ordering> {
        if self.spec_tai() < other.spec_tai() {
            Some(std::cmp::Ordering::Less)
        } else if self.spec_tai() > other.spec_tai() {
            Some(std::cmp::Ordering::Greater)
        } else {
            Some(std::cmp::Ordering::Equal)
        }
    }
}

/// Whether `candidate` beats `best`: any hand beats no hand, and a hand beats another
/// exactly when its total value is higher.
pub open spec fn spec_beats(candidate: Option<Hu>, best: Option<Hu>) -> bool {
    match (candidate, best) {
        (Some(c), Some(b)) => c.spec_tai() > b.spec_tai(),
        (Some(_), None) => true,
        (None, _) => false,
    }
}

/// Whether `candidate` beats `best` (see `spec_beats`).
pub fn beats(candidate: &Option<Hu>, best: &Option<Hu>) -> (r: bool)
    ensures
        r == spec_beats(*candidate, *best),
{
    match (candidate, best) {
        (Some(c), Some(b)) => c.tai > b.tai,
        (Some(_), None) => true,
        (None, _) => false,
    }
}

/// Hands are ordered by total value alone: one is greater than another exactly when its
/// total is higher, and equal exactly when the totals are equal; any hand beats no hand.
pub proof fn lemma_hu_order(h1: Hu, h2: Hu)
    ensures
        (h1.partial_cmp_spec(&h2) == Some(std::cmp::Ordering::Greater)) <==> h1.spec_tai() > h2.spec_tai(),
        (h1.partial_cmp_spec(&h2) == Some(std::cmp::Ordering::Less)) <==> h1.spec_tai() < h2.spec_tai(),
        h1.eq_spec(&h2) <==> h1.spec_tai() == h2.spec_tai(),
        spec_beats(Some(h1), Some(h2)) <==> h1.spec_tai() > h2.spec_tai(),
        spec_beats(Some(h1), None),
        !spec_beats(None, Some(h1)),
{
}

/// A hand whose scores are those of another plus one condition worth something has the
/// higher total, and compares greater.
pub proof fn lemma_added_score_raises_tai(with: Hu, without: Hu, i: int, s: Score, table: ScoreTai)
    requires
        0 <= i <= without.spec_scores().len(),
        with.spec_scores() == without.spec_scores().insert(i, s),
        with.spec_tai() == total_tai(with.spec_scores(), table),
        without.spec_tai() == total_tai(without.spec_scores(), table),
        table.value(s) > 0,
    ensures
        with.spec_tai() > without.spec_tai(),
        with.partial_cmp_spec(&without) == Some(std::cmp::Ordering::Greater),
{
    lemma_total_tai_insert(without.spec_scores(), i, s, table);
}

/// The tiles form seven pairs (or any number of them): every held tile is playable and
/// held exactly twice.
pub open spec fn all_pairs(ct: ConcealedTiles) -> bool {
    &&& ct.total() > 0
    &&& forall|t: Tile| #[trigger] ct.count(t) == 0 || (ct.count(t) == 2 && is_playable(t))
}

/// One pair for each held tile, in tile order.
pub open spec fn pair_melds(ct: ConcealedTiles) -> Seq<MeldView> {
    tiles_where(|t: Tile| ct.count(t) > 0, NUM_TILE_KINDS as nat).map_values(|t: Tile| eye_view(t))
}

/// The pairs that `ct` splits into, when it holds only pairs.
pub fn seven_pairs(ct: &ConcealedTiles) -> (r: Option<Vec<Meld>>)
    ensures
        r is Some <==> all_pairs(*ct),
        r matches Some(v) ==> views(v@) == pair_melds(*ct),
{
    if ct.is_empty() {
        return None;
    }
    let ghost f = |t: Tile| ct.count(t) > 0;
    let mut melds: Vec<Meld> = Vec::new();
    let mut i: usize = 0;
    while i < NUM_TILE_KINDS
        invariant
            i <= NUM_TILE_KINDS,
            ct.total() > 0,
            f == (|t: Tile| ct.count(t) > 0),
            views(melds@) == tiles_where(f, i as nat).map_values(|t: Tile| eye_view(t)),
            forall|j: nat| j < i ==> #[trigger] ct.count(tile_at(j)) == 0 || (ct.count(tile_at(j)) == 2 && is_playable(tile_at(j))),
        decreases NUM_TILE_KINDS - i,
    {
        let t = Tile::from_index(i);
        let c = ct.get(&t);
        if c != 0 && (c != 2 || !t.is_playable()) {
            proof {
                assert(!(#[trigger] ct.count(t) == 0 || (ct.count(t) == 2 && is_playable(t))));
            }
            return None;
        }
        let ghost before = views(melds@);
        if c == 2 {
            proof {
                lemma_uniform_melds(t);
            }
            match Meld::new(vec![t, t], None, MeldType::Eye) {
                Ok(m) => {
                    assert(m@ == eye_view(t));
                    melds.push(m);
                    assert(views(melds@) =~= before.push(eye_view(t)));
                },
                Err(_) => {
                    assert(false);
                },
            }
        }
        assert(tiles_where(f, (i + 1) as nat) == (if f(t) {
            tiles_where(f, i as nat).push(t)
        } else {
            tiles_where(f, i as nat)
        }));
        assert(views(melds@) =~= tiles_where(f, (i + 1) as nat).map_values(|t: Tile| eye_view(t)));
        i = i + 1;
    }
    proof {
        assert forall|t: Tile| #[trigger] ct.count(t) == 0 || (ct.count(t) == 2 && is_playable(t)) by {
            lemma_tile_index_injective(t, t);
            assert(ct.count(tile_at(crate::tile::tile_index(t))) == 0 || (ct.count(tile_at(crate::tile::tile_index(t))) == 2
                && is_playable(tile_at(crate::tile::tile_index(t)))));
        }
    }
    Some(melds)
}

/// The discarded tile, if any, as a value.
pub open spec fn claimed(discarded_tile: Option<&Tile>) -> Option<Tile> {
    match discarded_tile {
        Some(t) => Some(*t),
        None => None,
    }
}

/// The scores of every candidate hand: those given plus those of the bonus tiles.
pub open spec fn base_scores(hand: Hand, scores: Seq<Score>, seat_wind: Wind) -> Seq<Score> {
    scores + bonus_scores(hand.spec_bonus(), seat_wind)
}

/// The seven-pairs candidate applies: nothing declared and only pairs held.
pub open spec fn seven_pairs_apply(hand: Hand, ct: ConcealedTiles) -> bool {
    hand.spec_melds().len() == 0 && all_pairs(ct)
}

/// `h` is the candidate made of the declared melds followed by the melds `ms`.
pub open spec fn is_candidate(
    h: Hu,
    hand: Hand,
    ms: Seq<MeldView>,
    base: Seq<Score>,
    discarded: Option<Tile>,
    seat_wind: Wind,
    prevailing_wind: Wind,
) -> bool {
    &&& h.spec_melds() == hand.spec_melds() + ms
    &&& h.spec_scores() == hand_scores(
        base,
        hand.spec_melds() + ms,
        hand.spec_melds().len() == 0,
        hand.spec_bonus().len() == 0,
        discarded,
        seat_wind,
        prevailing_wind,
    )
}

/// Looks for the best winning hand that `hand` makes, with the discarded tile if one is
/// given: every split of the concealed tiles into a pair and runs or triplets is scored
/// after the declared melds, as is the seven-pairs hand when it applies, and the highest
/// total is kept. `None` when no candidate exists.
#[verifier::rlimit(50)]
pub fn search_hu(
    hand: &Hand,
    discarded_tile: Option<&Tile>,
    scores: Vec<Score>,
    seat_wind: &Wind,
    prevailing_wind: &Wind,
    score_tai: &ScoreTai,
) -> (r: Option<Hu>)
    requires
        discarded_tile matches Some(d) ==> hand.spec_concealed().count(*d) < u8::MAX,
    ensures
        r is None <==> !seven_pairs_apply(*hand, hand.spec_concealed().with_tile(claimed(discarded_tile)))
            && !(exists|ms: Seq<MeldView>|
            is_winning_decomposition(ms, hand.spec_concealed().with_tile(claimed(discarded_tile)))),
        r matches Some(h) ==> h.spec_tai() == total_tai(h.spec_scores(), *score_tai),
        r matches Some(h) ==> (seven_pairs_apply(*hand, hand.spec_concealed().with_tile(claimed(discarded_tile)))
            && h.spec_melds() == pair_melds(hand.spec_concealed().with_tile(claimed(discarded_tile)))
            && h.spec_scores() == base_scores(*hand, scores@, *seat_wind).push(Score::SevenPairs)) || (exists|ms: Seq<MeldView>|
            is_winning_decomposition(ms, hand.spec_concealed().with_tile(claimed(discarded_tile))) && is_candidate(
                h,
                *hand,
                ms,
                base_scores(*hand, scores@, *seat_wind),
                claimed(discarded_tile),
                *seat_wind,
                *prevailing_wind,
            )),
        seven_pairs_apply(*hand, hand.spec_concealed().with_tile(claimed(discarded_tile))) ==> (r matches Some(h)
            && h.spec_tai() >= total_tai(base_scores(*hand, scores@, *seat_wind).push(Score::SevenPairs), *score_tai)),
        forall|ms: Seq<MeldView>|
            #[trigger] is_winning_decomposition(ms, hand.spec_concealed().with_tile(claimed(discarded_tile))) ==> (
            r matches Some(h) && h.spec_tai() >= total_tai(
                hand_scores(
                    base_scores(*hand, scores@, *seat_wind),
                    hand.spec_melds() + ms,
                    hand.spec_melds().len() == 0,
                    hand.spec_bonus().len() == 0,
                    claimed(discarded_tile),
                    *seat_wind,
                    *prevailing_wind,
                ),
                *score_tai,
            )),
{
    let ghost d = claimed(discarded_tile);
    let ghost ct = hand.spec_concealed().with_tile(d);
    let mut concealed = hand.concealed().clone();
    if let Some(t) = discarded_tile {
        concealed.add_n(t, 1);
    }
    proof {
        hand.spec_concealed().lemma_with_tile(d);
        assert forall|ms: Seq<MeldView>| is_winning_decomposition(ms, concealed) == is_winning_decomposition(ms, ct) by {}
    }
    let tile = match discarded_tile {
        Some(t) => Some(*t),
        None => None,
    };
    let mut all_scores = scores;
    let mut bonus = hand_bonus_scores(hand.bonus(), seat_wind);
    all_scores.append(&mut bonus);
    let ghost base = all_scores@;
    assert(base == base_scores(*hand, scores@, *seat_wind));
    let declared = hand.melds();
    let concealed_only = declared.len() == 0;
    assert(views(declared@).len() == declared@.len());
    proof {
        assert forall|u: Tile| #[trigger] concealed.count(u) == ct.count(u) by {}
        assert(concealed.total() == ct.total());
        assert(all_pairs(concealed) == all_pairs(ct));
        assert((|t: Tile| concealed.count(t) > 0) =~= (|t: Tile| ct.count(t) > 0));
        assert(pair_melds(concealed) == pair_melds(ct));
    }
    let pairs = if concealed_only {
        seven_pairs(&concealed)
    } else {
        None
    };
    let decomps = search_melds(&concealed);
    let ghost found = decomps@;
    let r = best_hu(hand, tile, &all_scores, seat_wind, prevailing_wind, score_tai, pairs, decomps);
    let ghost rv = r;
    proof {
        if let Some(h) = rv {
            if !(seven_pairs_apply(*hand, ct) && h.spec_melds() == pair_melds(ct) && h.spec_scores() == base.push(
                Score::SevenPairs,
            )) {
                let i = choose|i: int|
                    0 <= i < found.len() && is_candidate(h, *hand, views(found[i]@), base, d, *seat_wind, *prevailing_wind);
                assert(is_winning_decomposition(views(found[i]@), ct));
            }
        }
        if exists|ms: Seq<MeldView>| is_winning_decomposition(ms, ct) {
            assert(found.len() > 0);
        }
        assert forall|ms: Seq<MeldView>| #[trigger] is_winning_decomposition(ms, ct) implies (rv matches Some(h)
            && h.spec_tai() >= total_tai(
            hand_scores(
                base,
                hand.spec_melds() + ms,
                hand.spec_melds().len() == 0,
                hand.spec_bonus().len() == 0,
                d,
                *seat_wind,
                *prevailing_wind,
            ),
            *score_tai,
        )) by {
            assert(is_winning_decomposition(ms, concealed));
            assert(found_among(found, 0, found.len() as int, ms));
            let i = choose|i: int| 0 <= i < found.len() && #[trigger] views(found[i]@).to_multiset() == ms.to_multiset();
            vstd::seq_lib::lemma_multiset_commutative(hand.spec_melds(), views(found[i]@));
            vstd::seq_lib::lemma_multiset_commutative(hand.spec_melds(), ms);
            lemma_hand_scores_perm(
                base,
                hand.spec_melds() + views(found[i]@),
                hand.spec_melds() + ms,
                hand.spec_melds().len() == 0,
                hand.spec_bonus().len() == 0,
                d,
                *seat_wind,
                *prevailing_wind,
                *score_tai,
            );
        }
    }
    r
}

/// The best of the candidate hands: the seven pairs `pairs`, when given, then the
/// declared melds of `hand` followed by each split in `found`, scored from `base`. The
/// result has the highest total of them all; `None` when there is no candidate.
pub fn best_hu(
    hand: &Hand,
    discarded_tile: Option<Tile>,
    base: &Vec<Score>,
    seat_wind: &Wind,
    prevailing_wind: &Wind,
    score_tai: &ScoreTai,
    pairs: Option<Vec<Meld>>,
    found: Vec<Vec<Meld>>,
) -> (r: Option<Hu>)
    ensures
        r is None <==> pairs is None && found@.len() == 0,
        r matches Some(h) ==> h.spec_tai() == total_tai(h.spec_scores(), *score_tai),
        r matches Some(h) ==> (pairs matches Some(p) && h.spec_melds() == views(p@) && h.spec_scores() == base@.push(
            Score::SevenPairs,
        )) || (exists|i: int|
            0 <= i < found@.len() && is_candidate(
                h,
                *hand,
                views(#[trigger] found@[i]@),
                base@,
                discarded_tile,
                *seat_wind,
                *prevailing_wind,
            )),
        r matches Some(h) ==> forall|i: int|
            0 <= i < found@.len() ==> h.spec_tai() >= total_tai(
                hand_scores(
                    base@,
                    hand.spec_melds() + views(#[trigger] found@[i]@),
                    hand.spec_melds().len() == 0,
                    hand.spec_bonus().len() == 0,
                    discarded_tile,
                    *seat_wind,
                    *prevailing_wind,
                ),
                *score_tai,
            ),
        pairs is Some ==> (r matches Some(h) && h.spec_tai() >= total_tai(base@.push(Score::SevenPairs), *score_tai)),
{
    let declared = hand.melds();
    let concealed_only = declared.len() == 0;
    assert(views(declared@).len() == declared@.len());
    let no_bonus = hand.bonus().len() == 0;
    let ghost pairs_view = pairs;
    let mut best: Option<Hu> = None;
    if let Some(p) = pairs {
        let mut pair_scores = base.clone();
        assert(pair_scores@ =~= base@);
        pair_scores.push(Score::SevenPairs);
        best = Some(Hu::new(p, pair_scores, score_tai));
    }
    let mut decomps = found;
    let ghost all_decomps = decomps@;
    while decomps.len() > 0
        invariant
            decomps@ == all_decomps.take(decomps@.len() as int),
            decomps@.len() <= all_decomps.len(),
            all_decomps == found@,
            concealed_only == (hand.spec_melds().len() == 0),
            no_bonus == (hand.spec_bonus().len() == 0),
            views(declared@) == hand.spec_melds(),
            pairs_view is Some ==> best is Some,
            decomps@.len() < all_decomps.len() ==> best is Some,
            best matches Some(h) ==> h.spec_tai() == total_tai(h.spec_scores(), *score_tai),
            best matches Some(h) ==> (pairs_view matches Some(p) && h.spec_melds() == views(p@) && h.spec_scores()
                == base@.push(Score::SevenPairs)) || (exists|i: int|
                0 <= i < all_decomps.len() && is_candidate(
                    h,
                    *hand,
                    views(#[trigger] all_decomps[i]@),
                    base@,
                    discarded_tile,
                    *seat_wind,
                    *prevailing_wind,
                )),
            best matches Some(h) ==> forall|i: int|
                decomps@.len() <= i < all_decomps.len() ==> h.spec_tai() >= total_tai(
                    hand_scores(
                        base@,
                        hand.spec_melds() + views(#[trigger] all_decomps[i]@),
                        hand.spec_melds().len() == 0,
                        hand.spec_bonus().len() == 0,
                        discarded_tile,
                        *seat_wind,
                        *prevailing_wind,
                    ),
                    *score_tai,
                ),
            pairs_view is Some ==> (best matches Some(h) && h.spec_tai() >= total_tai(base@.push(Score::SevenPairs), *score_tai)),
        decreases decomps@.len(),
    {
        let ghost before = decomps@;
        let mut current = decomps.pop().unwrap();
        let ghost idx = before.len() - 1;
        assert(current == all_decomps[idx]);
        assert(decomps@ =~= all_decomps.take(decomps@.len() as int));
        let ghost found_view = views(current@);
        let mut all_melds: Vec<Meld> = Vec::new();
        let mut j: usize = 0;
        while j < declared.len()
            invariant
                j <= declared.len(),
                views(declared@) == hand.spec_melds(),
                views(all_melds@) == hand.spec_melds().take(j as int),
            decreases declared.len() - j,
        {
            let ghost prev = views(all_melds@);
            let c = declared[j].clone();
            assert(c@ == hand.spec_melds()[j as int]);
            all_melds.push(c);
            assert(views(all_melds@) =~= prev.push(c@));
            j = j + 1;
            assert(views(all_melds@) =~= hand.spec_melds().take(j as int));
        }
        assert(hand.spec_melds().take(j as int) =~= hand.spec_melds());
        all_melds.append(&mut current);
        assert(views(all_melds@) =~= hand.spec_melds() + found_view);
        let hu_scores = score_melds(&all_melds, base, concealed_only, no_bonus, discarded_tile, seat_wind, prevailing_wind);
        let hu = Some(Hu::new(all_melds, hu_scores, score_tai));
        let ghost hv = hu;
        if beats(&hu, &best) {
            best = hu;
        }
        let ghost bv = best;
        proof {
            if let Some(h) = bv {
                assert forall|i: int| decomps@.len() <= i < all_decomps.len() implies h.spec_tai() >= total_tai(
                    hand_scores(
                        base@,
                        hand.spec_melds() + views(#[trigger] all_decomps[i]@),
                        hand.spec_melds().len() == 0,
                        hand.spec_bonus().len() == 0,
                        discarded_tile,
                        *seat_wind,
                        *prevailing_wind,
                    ),
                    *score_tai,
                ) by {
                    if i == idx {
                        assert(views(all_decomps[i]@) == found_view);
                    }
                }
                if !(pairs_view matches Some(p) && h.spec_melds() == views(p@) && h.spec_scores() == base@.push(
                    Score::SevenPairs,
                )) && h == hv.unwrap() {
                    assert(is_candidate(h, *hand, views(all_decomps[idx]@), base@, discarded_tile, *seat_wind, *prevailing_wind));
                }
            }
        }
    }
    best
}

/// How many times `x` occurs in `s`.
pub open spec fn score_count(s: Seq<Score>, x: Score) -> nat
    decreases s.len(),
{
    if s.len() == 0 {
        0
    } else {
        score_count(s.drop_last(), x) + (if s.last() == x { 1nat } else { 0nat })
    }
}

proof fn lemma_score_count_concat(a: Seq<Score>, b: Seq<Score>, x: Score)
    ensures
        score_count(a + b, x) == score_count(a, x) + score_count(b, x),
    decreases b.len(),
{
    if b.len() == 0 {
        assert(a + b =~= a);
    } else {
        assert((a + b).drop_last() =~= a + b.drop_last());
        lemma_score_count_concat(a, b.drop_last(), x);
    }
}

proof fn lemma_score_count_one(y: Score, x: Score)
    ensures
        score_count(seq![y], x) == (if y == x { 1nat } else { 0nat }),
{
    assert(seq![y].drop_last() =~= Seq::<Score>::empty());
    assert(score_count(seq![y], x) == score_count(Seq::<Score>::empty(), x) + (if y == x { 1nat } else { 0nat }));
}

proof fn lemma_no_complete_animals_each(bonus: Seq<Tile>, seat_wind: Wind)
    ensures
        score_count(each_bonus_scores(bonus, seat_wind), Score::CompleteAnimals) == 0,
    decreases bonus.len(),
{
    if bonus.len() > 0 {
        lemma_no_complete_animals_each(bonus.drop_last(), seat_wind);
        let one = bonus_tile_scores(bonus.last(), seat_wind);
        lemma_score_count_concat(each_bonus_scores(bonus.drop_last(), seat_wind), one, Score::CompleteAnimals);
        if one.len() == 1 {
            lemma_score_count_one(one[0], Score::CompleteAnimals);
            assert(one =~= seq![one[0]]);
        } else {
            assert(one =~= Seq::<Score>::empty());
        }
    }
}

proof fn lemma_no_complete_animals_honours(ms: Seq<MeldView>, seat_wind: Wind, prevailing_wind: Wind)
    ensures
        score_count(honour_scores(ms, seat_wind, prevailing_wind), Score::CompleteAnimals) == 0,
    decreases ms.len(),
{
    if ms.len() > 0 {
        lemma_no_complete_animals_honours(ms.drop_last(), seat_wind, prevailing_wind);
        let m = ms.last();
        let one = meld_honour_scores(m, seat_wind, prevailing_wind);
        lemma_score_count_concat(honour_scores(ms.drop_last(), seat_wind, prevailing_wind), one, Score::CompleteAnimals);
        let p: Seq<Score> = seq![Score::PrevailingWind];
        let q: Seq<Score> = seq![Score::SeatWind];
        let e = Seq::<Score>::empty();
        lemma_score_count_one(Score::PrevailingWind, Score::CompleteAnimals);
        lemma_score_count_one(Score::SeatWind, Score::CompleteAnimals);
        lemma_score_count_one(Score::Dragon, Score::CompleteAnimals);
        lemma_score_count_concat(p, q, Score::CompleteAnimals);
        lemma_score_count_concat(p, e, Score::CompleteAnimals);
        lemma_score_count_concat(e, q, Score::CompleteAnimals);
        lemma_score_count_concat(e, e, Score::CompleteAnimals);
        assert(e + e =~= e);
        assert(p + e =~= p);
        assert(e + q =~= q);
    }
}

/// With four animals among the bonus tiles, a winning hand that is no limit hand lists
/// Complete-Animals exactly once, whatever its melds, when the given scores do not list it.
pub proof fn lemma_complete_animals_once(
    hand: Hand,
    scores: Seq<Score>,
    ms: Seq<MeldView>,
    concealed_only: bool,
    no_bonus: bool,
    discarded: Option<Tile>,
    seat_wind: Wind,
    prevailing_wind: Wind,
)
    requires
        count_bonus(hand.spec_bonus(), |t: Tile| is_animal(t)) == 4,
        score_count(scores, Score::CompleteAnimals) == 0,
        hand_scores(base_scores(hand, scores, seat_wind), ms, concealed_only, no_bonus, discarded, seat_wind, prevailing_wind)
            == additive_scores(base_scores(hand, scores, seat_wind), ms, concealed_only, no_bonus, discarded, seat_wind, prevailing_wind),
    ensures
        score_count(
            hand_scores(base_scores(hand, scores, seat_wind), ms, concealed_only, no_bonus, discarded, seat_wind, prevailing_wind),
            Score::CompleteAnimals,
        ) == 1,
{
    let x = Score::CompleteAnimals;
    let bonus = hand.spec_bonus();
    let each = each_bonus_scores(bonus, seat_wind);
    let red = if count_bonus(bonus, |t: Tile| is_red_flower(t)) == 4 {
        seq![Score::CompleteRedFlower]
    } else {
        Seq::empty()
    };
    let blue = if count_bonus(bonus, |t: Tile| is_blue_flower(t)) == 4 {
        seq![Score::CompleteBlueFlower]
    } else {
        Seq::empty()
    };
    let animals: Seq<Score> = seq![Score::CompleteAnimals];
    assert(bonus_scores(bonus, seat_wind) == each + animals + red + blue);
    lemma_no_complete_animals_each(bonus, seat_wind);
    lemma_score_count_one(Score::CompleteAnimals, x);
    lemma_score_count_one(Score::CompleteRedFlower, x);
    lemma_score_count_one(Score::CompleteBlueFlower, x);
    assert(score_count(Seq::<Score>::empty(), x) == 0);
    lemma_score_count_concat(each, animals, x);
    lemma_score_count_concat(each + animals, red, x);
    lemma_score_count_concat(each + animals + red, blue, x);
    let base = base_scores(hand, scores, seat_wind);
    lemma_score_count_concat(scores, bonus_scores(bonus, seat_wind), x);
    assert(score_count(base, x) == 1);
    let h = honour_scores(ms, seat_wind, prevailing_wind);
    lemma_no_complete_animals_honours(ms, seat_wind, prevailing_wind);
    let flush = if number_suits(ms) == 1 {
        if honour_melds(ms) > 0 {
            seq![Score::HalfFlush]
        } else {
            seq![Score::FullFlush]
        }
    } else {
        Seq::empty()
    };
    let conc = if concealed_only {
        seq![Score::AllConcealed]
    } else {
        Seq::empty()
    };
    let runs = if count_type(ms, MeldType::Chi) == 4 && runs_score(ms, discarded, seat_wind, prevailing_wind) {
        if no_bonus {
            seq![Score::PingHu]
        } else {
            seq![Score::AllChi]
        }
    } else {
        Seq::empty()
    };
    let pongs = if !concealed_only && count_type(ms, MeldType::Chi) == 0 {
        seq![Score::AllPong]
    } else {
        Seq::empty()
    };
    lemma_score_count_one(Score::HalfFlush, x);
    lemma_score_count_one(Score::FullFlush, x);
    lemma_score_count_one(Score::AllConcealed, x);
    lemma_score_count_one(Score::PingHu, x);
    lemma_score_count_one(Score::AllChi, x);
    lemma_score_count_one(Score::AllPong, x);
    assert(additive_scores(base, ms, concealed_only, no_bonus, discarded, seat_wind, prevailing_wind) == base + h + flush
        + conc + runs + pongs);
    lemma_score_count_concat(base, h, x);
    lemma_score_count_concat(base + h, flush, x);
    lemma_score_count_concat(base + h + flush, conc, x);
    lemma_score_count_concat(base + h + flush + conc, runs, x);
    lemma_score_count_concat(base + h + flush + conc + runs, pongs, x);
}

} // verus!
