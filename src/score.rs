use vstd::prelude::*;

verus! {

/// Number of scoring conditions.
pub const NUM_SCORES: usize = 30;

/// A named scoring condition.
#[derive(Debug, Clone, Copy, Hash, PartialEq, Eq, Structural, PartialOrd, Ord)]
pub enum Score {
    Dragon,
    PrevailingWind,
    SeatWind,
    AllConcealed,
    AllChi,
    PingHu,
    AllPong,
    HiddenTreasure,
    HalfFlush,
    FullFlush,
    FullFlushPingHu,
    AllTerminals,
    HalfTerminals,
    AllHonours,
    ThirteenWonders,
    Animal,
    CompleteAnimals,
    PlayerFlower,
    CompleteRedFlower,
    CompleteBlueFlower,
    HuaShang,
    GangShang,
    HaiDiLao,
    QiangGang,
    HuaHu,
    ThreeGreatScholars,
    DaSiXi,
    FourGreatBlessings,
    XiaoSiXi,
    SevenPairs,
}

/// Position of a score in the declaration order.
pub open spec fn score_index(s: Score) -> nat {
    match s {
        Score::Dragon => 0,
        Score::PrevailingWind => 1,
        Score::SeatWind => 2,
        Score::AllConcealed => 3,
        Score::AllChi => 4,
        Score::PingHu => 5,
        Score::AllPong => 6,
        Score::HiddenTreasure => 7,
        Score::HalfFlush => 8,
        Score::FullFlush => 9,
        Score::FullFlushPingHu => 10,
        Score::AllTerminals => 11,
        Score::HalfTerminals => 12,
        Score::AllHonours => 13,
        Score::ThirteenWonders => 14,
        Score::Animal => 15,
        Score::CompleteAnimals => 16,
        Score::PlayerFlower => 17,
        Score::CompleteRedFlower => 18,
        Score::CompleteBlueFlower => 19,
        Score::HuaShang => 20,
        Score::GangShang => 21,
        Score::HaiDiLao => 22,
        Score::QiangGang => 23,
        Score::HuaHu => 24,
        Score::ThreeGreatScholars => 25,
        Score::DaSiXi => 26,
        Score::FourGreatBlessings => 27,
        Score::XiaoSiXi => 28,
        Score::SevenPairs => 29,
    }
}

impl Score {
    fn index(&self) -> (r: usize)
        ensures
            r == score_index(*self),
            r < NUM_SCORES,
    {
        match self {
            Score::Dragon => 0,
            Score::PrevailingWind => 1,
            Score::SeatWind => 2,
            Score::AllConcealed => 3,
            Score::AllChi => 4,
            Score::PingHu => 5,
            Score::AllPong => 6,
            Score::HiddenTreasure => 7,
            Score::HalfFlush => 8,
            Score::FullFlush => 9,
            Score::FullFlushPingHu => 10,
            Score::AllTerminals => 11,
            Score::HalfTerminals => 12,
            Score::AllHonours => 13,
            Score::ThirteenWonders => 14,
            Score::Animal => 15,
            Score::CompleteAnimals => 16,
            Score::PlayerFlower => 17,
            Score::CompleteRedFlower => 18,
            Score::CompleteBlueFlower => 19,
            Score::HuaShang => 20,
            Score::GangShang => 21,
            Score::HaiDiLao => 22,
            Score::QiangGang => 23,
            Score::HuaHu => 24,
            Score::ThreeGreatScholars => 25,
            Score::DaSiXi => 26,
            Score::FourGreatBlessings => 27,
            Score::XiaoSiXi => 28,
            Score::SevenPairs => 29,
        }
    }
}

/// The point value ("tai") of each scoring condition; a condition that was never set is
/// worth nothing.
pub struct ScoreTai {
    tai: [u8; NUM_SCORES],
}

impl ScoreTai {
    /// The value of `s`.
    pub closed spec fn value(&self, s: Score) -> nat {
        self.tai@[score_index(s) as int] as nat
    }

    /// A table in which every condition is worth nothing.
    pub fn new() -> (r: Self)
        ensures
            forall|s: Score| r.value(s) == 0,
    {
        ScoreTai { tai: [0u8; NUM_SCORES] }
    }

    /// The value of `score`.
    pub fn get(&self, score: &Score) -> (r: u8)
        ensures
            r == self.value(*score),
    {
        self.tai[score.index()]
    }

    /// Sets the value of `score` to `tai`.
    pub fn insert(&mut self, score: Score, tai: u8)
        ensures
            final(self).value(score) == tai,
            forall|s: Score| s != score ==> final(self).value(s) == old(self).value(s),
    {
        let i = score.index();
        self.tai[i] = tai;
    }
}

/// The sum of the values of `scores` in `table`.
pub open spec fn total_tai(scores: Seq<Score>, table: ScoreTai) -> nat
    decreases scores.len(),
{
    if scores.len() == 0 {
        0
    } else {
        total_tai(scores.drop_last(), table) + table.value(scores.last())
    }
}

pub proof fn lemma_total_tai_concat(a: Seq<Score>, b: Seq<Score>, table: ScoreTai)
    ensures
        total_tai(a + b, table) == total_tai(a, table) + total_tai(b, table),
    decreases b.len(),
{
    if b.len() == 0 {
        assert(a + b =~= a);
    } else {
        assert((a + b).drop_last() =~= a + b.drop_last());
        lemma_total_tai_concat(a, b.drop_last(), table);
    }
}

/// Adding a condition to a list of conditions adds its value to the total: a condition
/// worth something always raises the total.
pub proof fn lemma_total_tai_insert(scores: Seq<Score>, i: int, s: Score, table: ScoreTai)
    requires
        0 <= i <= scores.len(),
    ensures
        total_tai(scores.insert(i, s), table) == total_tai(scores, table) + table.value(s),
        table.value(s) > 0 ==> total_tai(scores.insert(i, s), table) > total_tai(scores, table),
{
    assert(scores.insert(i, s) =~= scores.take(i) + seq![s] + scores.skip(i));
    assert(scores =~= scores.take(i) + scores.skip(i));
    lemma_total_tai_concat(scores.take(i) + seq![s], scores.skip(i), table);
    lemma_total_tai_concat(scores.take(i), seq![s], table);
    lemma_total_tai_concat(scores.take(i), scores.skip(i), table);
    assert(seq![s].drop_last() =~= Seq::<Score>::empty());
    assert(total_tai(seq![s], table) == table.value(s)) by {
        reveal_with_fuel(total_tai, 2);
    }
}

pub proof fn lemma_total_tai_bound(scores: Seq<Score>, table: ScoreTai)
    ensures
        total_tai(scores, table) <= 255 * scores.len(),
    decreases scores.len(),
{
    if scores.len() > 0 {
        lemma_total_tai_bound(scores.drop_last(), table);
    }
}

} // verus!
