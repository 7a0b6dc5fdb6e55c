//! Exhaustive search for the ways to split concealed tiles into one pair and runs or
//! triplets.
use vstd::prelude::*;

use crate::hand::{views, ConcealedTiles};
use crate::meld::{
    is_run, is_uniform, lemma_run_melds, lemma_uniform_melds, meld_accepts, meld_wf, with_discarded,
    Meld, MeldType, MeldView,
};
use crate::tile::{
    is_playable, suit_of, lemma_next_index, lemma_tile_index_injective, tile_index, tile_next, Tile,
    NUM_TILE_KINDS,
};
use crate::tile_seq::{
    lemma_occurrences_bound, lemma_occurrences_concat, lemma_sorted_tiles_of_sorted, occurrences,
};

verus! {

/// All tiles of a list of melds, meld after meld.
pub open spec fn melds_tiles(ms: Seq<MeldView>) -> Seq<Tile>
    decreases ms.len(),
{
    if ms.len() == 0 {
        Seq::empty()
    } else {
        ms[0].tiles + melds_tiles(ms.drop_first())
    }
}

/// A run or a triplet made of drawn tiles only.
pub open spec fn is_set_meld(m: MeldView) -> bool {
    &&& (m.meld_type == MeldType::Chi || m.meld_type == MeldType::Pong)
    &&& m.discarded_tile is None
    &&& meld_wf(m)
}

/// A pair.
pub open spec fn is_eye_meld(m: MeldView) -> bool {
    m.meld_type == MeldType::Eye && meld_wf(m)
}

/// The melds hold exactly the tiles of `ct`: none left over, none invented.
pub open spec fn covers(ms: Seq<MeldView>, ct: ConcealedTiles) -> bool {
    forall|t: Tile| #[trigger] occurrences(melds_tiles(ms), t) == ct.count(t)
}

/// Runs and triplets that hold exactly the tiles of `ct`.
pub open spec fn is_set_partition(ms: Seq<MeldView>, ct: ConcealedTiles) -> bool {
    &&& forall|i: int| 0 <= i < ms.len() ==> is_set_meld(#[trigger] ms[i])
    &&& covers(ms, ct)
}

/// A pair followed by runs and triplets, holding exactly the tiles of `ct`.
pub open spec fn is_winning_decomposition(ms: Seq<MeldView>, ct: ConcealedTiles) -> bool {
    &&& ms.len() > 0
    &&& is_eye_meld(ms[0])
    &&& forall|i: int| 1 <= i < ms.len() ==> is_set_meld(#[trigger] ms[i])
    &&& covers(ms, ct)
}

/// Runs and triplets that hold exactly the tiles of `ct` once the tiles of `m` are taken out.
pub open spec fn completes(ms: Seq<MeldView>, m: MeldView, ct: ConcealedTiles) -> bool {
    &&& forall|i: int| 0 <= i < ms.len() ==> is_set_meld(#[trigger] ms[i])
    &&& forall|t: Tile| #[trigger] occurrences(melds_tiles(ms), t) + occurrences(m.tiles, t) == ct.count(t)
}

/// Every meld of a winning decomposition can be built again by `Meld::new` from its own
/// tiles, claimed tile and type.
pub proof fn lemma_decomposition_melds_rebuild(ms: Seq<MeldView>, ct: ConcealedTiles)
    requires
        is_winning_decomposition(ms, ct),
    ensures
        forall|i: int| 0 <= i < ms.len() ==> meld_accepts((#[trigger] ms[i]).tiles, ms[i].discarded_tile, ms[i].meld_type),
{
    assert forall|i: int| 0 <= i < ms.len() implies meld_accepts((#[trigger] ms[i]).tiles, ms[i].discarded_tile, ms[i].meld_type) by {
        if i > 0 {
            assert(is_set_meld(ms[i]));
        }
    }
}

/// A winning decomposition never holds more copies of a tile than the concealed tiles do.
pub proof fn lemma_decomposition_within(ms: Seq<MeldView>, ct: ConcealedTiles)
    requires
        is_winning_decomposition(ms, ct),
    ensures
        forall|t: Tile| occurrences(melds_tiles(ms), t) <= ct.count(t),
{
}

/// Some list among `r[lo..hi]` holds the melds of `target`, in some order.
pub open spec fn found_among(r: Seq<Vec<Meld>>, lo: int, hi: int, target: Seq<MeldView>) -> bool {
    exists|i: int| lo <= i < hi && #[trigger] views(r[i]@).to_multiset() == target.to_multiset()
}

proof fn lemma_found_among_extend(r1: Seq<Vec<Meld>>, r2: Seq<Vec<Meld>>, lo: int, hi: int, target: Seq<MeldView>)
    requires
        found_among(r1, lo, hi, target),
        0 <= lo,
        hi <= r1.len(),
        r1.len() <= r2.len(),
        forall|i: int| 0 <= i < r1.len() ==> r2[i] == r1[i],
    ensures
        found_among(r2, lo, hi, target),
{
    let i = choose|i: int| lo <= i < hi && #[trigger] views(r1[i]@).to_multiset() == target.to_multiset();
    assert(r2[i] == r1[i]);
}

/// A meld put in front of the others leaves the same melds.
proof fn lemma_front_perm(ms: Seq<MeldView>, j: int)
    requires
        0 <= j < ms.len(),
    ensures
        (seq![ms[j]] + ms.remove(j)).to_multiset() == ms.to_multiset(),
{
    broadcast use vstd::seq_lib::group_to_multiset_ensures;
    vstd::seq_lib::lemma_multiset_commutative(seq![ms[j]], ms.remove(j));
    assert(seq![ms[j]] =~= Seq::<MeldView>::empty().push(ms[j]));
    assert(Seq::<MeldView>::empty().to_multiset() =~= vstd::multiset::Multiset::<MeldView>::empty());
    assert(ms.remove(j).to_multiset() == ms.to_multiset().remove(ms[j]));
    assert(ms.to_multiset().count(ms[j]) > 0) by {
        assert(ms.contains(ms[j]));
    }
    assert((seq![ms[j]] + ms.remove(j)).to_multiset() =~= ms.to_multiset());
}

/// Putting the same meld in front of two lists with the same melds keeps them the same.
proof fn lemma_cons_perm(m: MeldView, a: Seq<MeldView>, b: Seq<MeldView>)
    requires
        a.to_multiset() == b.to_multiset(),
    ensures
        (seq![m] + a).to_multiset() == (seq![m] + b).to_multiset(),
{
    vstd::seq_lib::lemma_multiset_commutative(seq![m], a);
    vstd::seq_lib::lemma_multiset_commutative(seq![m], b);
}

pub proof fn lemma_melds_tiles_concat(a: Seq<MeldView>, b: Seq<MeldView>)
    ensures
        melds_tiles(a + b) == melds_tiles(a) + melds_tiles(b),
    decreases a.len(),
{
    if a.len() == 0 {
        assert(a + b =~= b);
        assert(melds_tiles(a) + melds_tiles(b) =~= melds_tiles(b));
    } else {
        assert((a + b).drop_first() =~= a.drop_first() + b);
        lemma_melds_tiles_concat(a.drop_first(), b);
        assert(melds_tiles(a + b) =~= a[0].tiles + melds_tiles(a.drop_first() + b));
        assert(a[0].tiles + (melds_tiles(a.drop_first()) + melds_tiles(b)) =~= melds_tiles(a)
            + melds_tiles(b));
    }
}

/// Taking meld `j` out of a list takes its tiles out of the list's tiles.
proof fn lemma_melds_tiles_remove(ms: Seq<MeldView>, j: int, t: Tile)
    requires
        0 <= j < ms.len(),
    ensures
        occurrences(melds_tiles(ms), t) == occurrences(ms[j].tiles, t) + occurrences(
            melds_tiles(ms.remove(j)),
            t,
        ),
{
    let a = ms.take(j);
    let b = ms.skip(j + 1);
    assert(ms =~= a + (seq![ms[j]] + b));
    assert(ms.remove(j) =~= a + b);
    lemma_melds_tiles_concat(a, seq![ms[j]] + b);
    lemma_melds_tiles_concat(a, b);
    assert((seq![ms[j]] + b).drop_first() =~= b);
    lemma_occurrences_concat(melds_tiles(a), melds_tiles(seq![ms[j]] + b), t);
    lemma_occurrences_concat(ms[j].tiles, melds_tiles(b), t);
    lemma_occurrences_concat(melds_tiles(a), melds_tiles(b), t);
}

/// A tile of a list of melds is a tile of one of them.
proof fn lemma_melds_tiles_member(ms: Seq<MeldView>, t: Tile) -> (j: int)
    requires
        occurrences(melds_tiles(ms), t) > 0,
    ensures
        0 <= j < ms.len(),
        occurrences(ms[j].tiles, t) > 0,
    decreases ms.len(),
{
    if ms.len() == 0 {
        assert(melds_tiles(ms) =~= Seq::<Tile>::empty());
        0
    } else {
        lemma_occurrences_concat(ms[0].tiles, melds_tiles(ms.drop_first()), t);
        if occurrences(ms[0].tiles, t) > 0 {
            0
        } else {
            let k = lemma_melds_tiles_member(ms.drop_first(), t);
            k + 1
        }
    }
}

/// The tiles of a pair, a triplet and a run.
proof fn lemma_meld_shape(m: MeldView)
    requires
        meld_wf(m),
        m.discarded_tile is None,
    ensures
        m.meld_type == MeldType::Eye ==> m.tiles == seq![m.tiles[0], m.tiles[0]],
        m.meld_type == MeldType::Pong ==> m.tiles == seq![m.tiles[0], m.tiles[0], m.tiles[0]],
        m.meld_type == MeldType::Chi ==> m.tiles.len() == 3 && tile_next(m.tiles[0]) == Some(m.tiles[1])
            && tile_next(m.tiles[1]) == Some(m.tiles[2]) && m.tiles == seq![m.tiles[0], m.tiles[1], m.tiles[2]],
        is_playable(m.tiles[0]),
{
    lemma_sorted_tiles_of_sorted(m.tiles);
    assert(with_discarded(m.tiles, None) == m.tiles);
    let s = m.tiles;
    if m.meld_type == MeldType::Eye {
        assert(is_uniform(s));
        assert(s[0] == s[1]);
        assert(s =~= seq![s[0], s[0]]);
    }
    if m.meld_type == MeldType::Pong {
        assert(is_uniform(s));
        assert(s[0] == s[1]);
        assert(s[1] == s[2]);
        assert(s =~= seq![s[0], s[0], s[0]]);
    }
    if m.meld_type == MeldType::Chi {
        assert(is_run(s));
        assert(tile_next(s[0]) == Some(s[1]));
        assert(tile_next(s[1]) == Some(s[2]));
        assert(s =~= seq![s[0], s[1], s[2]]);
    }
}

/// Takes the tiles of `tiles` out of `ct`.
fn remove_tiles(ct: &mut ConcealedTiles, tiles: &Vec<Tile>)
    requires
        forall|t: Tile| occurrences(tiles@, t) <= old(ct).count(t),
    ensures
        forall|t: Tile| #[trigger] final(ct).count(t) + occurrences(tiles@, t) == old(ct).count(t),
        final(ct).total() + tiles@.len() == old(ct).total(),
{
    let n = tiles.len();
    let mut i: usize = 0;
    while i < n
        invariant
            i <= n,
            n == tiles@.len(),
            forall|t: Tile| occurrences(tiles@, t) <= old(ct).count(t),
            forall|t: Tile| #[trigger] ct.count(t) + occurrences(tiles@.take(i as int), t) == old(ct).count(t),
            ct.total() + i == old(ct).total(),
        decreases n - i,
    {
        let t = tiles[i];
        proof {
            assert(tiles@.take(i + 1) =~= tiles@.take(i as int) + seq![t]);
            assert(tiles@ =~= tiles@.take(i + 1) + tiles@.skip(i + 1));
            assert forall|u: Tile| occurrences(tiles@.take(i + 1), u) == occurrences(tiles@.take(i as int), u)
                + (if t == u { 1nat } else { 0nat }) by {
                lemma_occurrences_concat(tiles@.take(i as int), seq![t], u);
                reveal_with_fuel(occurrences, 2);
            }
            lemma_occurrences_concat(tiles@.take(i + 1), tiles@.skip(i + 1), t);
        }
        let removed = ct.remove_n(&t, 1);
        assert(removed is Ok);
        i = i + 1;
    }
    assert(tiles@.take(n as int) =~= tiles@);
}

/// Appends `[m] + d` to `result` for every `d` in `subs`.
fn prepend_each(result: &mut Vec<Vec<Meld>>, m: &Meld, subs: Vec<Vec<Meld>>)
    ensures
        final(result)@.len() == old(result)@.len() + subs@.len(),
        forall|i: int| 0 <= i < old(result)@.len() ==> final(result)@[i] == old(result)@[i],
        forall|k: int|
            0 <= k < subs@.len() ==> views(#[trigger] final(result)@[old(result)@.len() + k]@) == seq![m@]
                + views(subs@[subs@.len() - 1 - k]@),
{
    let mut subs = subs;
    let ghost all = subs@;
    let ghost start = result@;
    assert(all.take(all.len() as int) =~= all);
    while subs.len() > 0
        invariant
            subs@.len() <= all.len(),
            subs@ == all.take(subs@.len() as int),
            result@.len() == start.len() + (all.len() - subs@.len()),
            forall|i: int| 0 <= i < start.len() ==> result@[i] == start[i],
            forall|k: int|
                0 <= k < all.len() - subs@.len() ==> views(#[trigger] result@[start.len() + k]@) == seq![m@]
                    + views(all[all.len() - 1 - k]@),
        decreases subs@.len(),
    {
        let ghost old_subs = subs@;
        let ghost old_result = result@;
        let mut d = subs.pop().unwrap();
        assert(subs@ == old_subs.drop_last());
        assert(d == old_subs[old_subs.len() - 1]);
        assert(d == all[old_subs.len() - 1]);
        let mut full: Vec<Meld> = Vec::new();
        full.push(m.clone());
        let ghost dv = d@;
        full.append(&mut d);
        assert(views(full@) =~= seq![m@] + views(dv));
        result.push(full);
        assert(result@ == old_result.push(full));
        assert(subs@ =~= all.take(subs@.len() as int));
    }
}

/// In a split of `ct` into runs and triplets, the lowest held tile `t` lies in a triplet
/// of `t` or in the run that starts at `t`; taking that meld out leaves a split of the rest.
#[verifier::rlimit(40)]
proof fn lemma_lowest_tile_meld(ms: Seq<MeldView>, ct: ConcealedTiles, t: Tile) -> (j: int)
    requires
        is_set_partition(ms, ct),
        ct.count(t) > 0,
        forall|u: Tile| tile_index(u) < tile_index(t) ==> ct.count(u) == 0,
    ensures
        0 <= j < ms.len(),
        completes(ms.remove(j), ms[j], ct),
        ms[j].meld_type == MeldType::Pong ==> ms[j] == (MeldView {
            tiles: seq![t, t, t],
            discarded_tile: None,
            meld_type: MeldType::Pong,
            suit: suit_of(t),
        }) && ct.count(t) >= 3 && is_playable(t),
        ms[j].meld_type != MeldType::Pong ==> ms[j].meld_type == MeldType::Chi && ms[j] == (MeldView {
            tiles: seq![t, ms[j].tiles[1], ms[j].tiles[2]],
            discarded_tile: None,
            meld_type: MeldType::Chi,
            suit: suit_of(t),
        }) && tile_next(t) == Some(ms[j].tiles[1]) && tile_next(ms[j].tiles[1]) == Some(ms[j].tiles[2])
            && ct.count(ms[j].tiles[1]) > 0 && ct.count(ms[j].tiles[2]) > 0,
{
    assert(occurrences(melds_tiles(ms), t) > 0);
    let j = lemma_melds_tiles_member(ms, t);
    let mj = ms[j];
    assert(is_set_meld(mj));
    lemma_meld_shape(mj);
    assert forall|u: Tile| #[trigger] occurrences(melds_tiles(ms.remove(j)), u) + occurrences(mj.tiles, u)
        == ct.count(u) by {
        lemma_melds_tiles_remove(ms, j, u);
    }
    assert forall|i: int| 0 <= i < ms.remove(j).len() implies is_set_meld(#[trigger] ms.remove(j)[i]) by {
        if i < j {
            assert(ms.remove(j)[i] == ms[i]);
        } else {
            assert(ms.remove(j)[i] == ms[i + 1]);
        }
    }
    let a = mj.tiles[0];
    assert forall|k: int| 0 <= k < mj.tiles.len() implies ct.count(#[trigger] mj.tiles[k]) > 0 by {
        lemma_occurrences_bound(mj.tiles, mj.tiles[k]);
        assert(mj.tiles.contains(mj.tiles[k]));
        lemma_melds_tiles_remove(ms, j, mj.tiles[k]);
    }
    lemma_occurrences_bound(mj.tiles, t);
    let kt = choose|k: int| 0 <= k < mj.tiles.len() && mj.tiles[k] == t;
    if mj.meld_type == MeldType::Pong {
        assert(a == t);
        assert(occurrences(mj.tiles, t) == 3) by {
            reveal_with_fuel(occurrences, 4);
        }
        lemma_melds_tiles_remove(ms, j, t);
    } else {
        lemma_next_index(a);
        lemma_next_index(mj.tiles[1]);
        assert(ct.count(a) > 0);
        if tile_index(a) < tile_index(t) {
            assert(false);
        }
        lemma_tile_index_injective(a, t);
        assert(a == t);
    }
    j
}

/// Every way to split `ct` into runs and triplets.
fn search_sets(ct: &ConcealedTiles) -> (r: Vec<Vec<Meld>>)
    ensures
        forall|i: int| 0 <= i < r@.len() ==> is_set_partition(views(#[trigger] r@[i]@), *ct),
        (exists|ms: Seq<MeldView>| is_set_partition(ms, *ct)) ==> r@.len() > 0,
        forall|ms: Seq<MeldView>| #[trigger] is_set_partition(ms, *ct) ==> found_among(r@, 0, r@.len() as int, ms),
    decreases ct.total(), 1nat,
{
    let mut result: Vec<Vec<Meld>> = Vec::new();
    if ct.is_empty() {
        result.push(Vec::new());
        proof {
            assert(views(result@[0]@) =~= Seq::<MeldView>::empty());
            assert(melds_tiles(Seq::<MeldView>::empty()) =~= Seq::<Tile>::empty());
            assert forall|ms: Seq<MeldView>| #[trigger] is_set_partition(ms, *ct) implies found_among(
                result@,
                0,
                result@.len() as int,
                ms,
            ) by {
                if ms.len() > 0 {
                    lemma_meld_shape(ms[0]);
                    let x = ms[0].tiles[0];
                    lemma_occurrences_bound(ms[0].tiles, x);
                    assert(ms[0].tiles.contains(x));
                    lemma_occurrences_concat(ms[0].tiles, melds_tiles(ms.drop_first()), x);
                    assert(melds_tiles(ms) == ms[0].tiles + melds_tiles(ms.drop_first()));
                    assert(occurrences(melds_tiles(ms), x) == ct.count(x));
                    assert(ct.count(x) == 0);
                    assert(false);
                }
                assert(ms =~= Seq::<MeldView>::empty());
                assert(views(result@[0]@).to_multiset() == ms.to_multiset());
            }
        }
        return result;
    }
    let t = match ct.first_tile() {
        Some(t) => t,
        None => {
            return result;
        },
    };
    let ghost pong_view = MeldView {
        tiles: seq![t, t, t],
        discarded_tile: None,
        meld_type: MeldType::Pong,
        suit: suit_of(t),
    };
    let ghost mut pong_done = false;
    let ghost pong_lo: int = 0;
    let ghost mut pong_hi: int = 0;
    if t.is_playable() && ct.get(&t) >= 3 {
        proof {
            lemma_uniform_melds(t);
        }
        if let Ok(m) = Meld::new(vec![t, t, t], None, MeldType::Pong) {
            assert(occurrences(m@.tiles, t) == 3) by {
                reveal_with_fuel(occurrences, 4);
            }
            assert forall|u: Tile| u != t implies occurrences(m@.tiles, u) == 0 by {
                reveal_with_fuel(occurrences, 4);
            }
            branch(ct, &m, &mut result);
            proof {
                assert(m@ == pong_view);
                pong_done = true;
                pong_hi = result@.len() as int;
            }
        }
    }
    let ghost after_pong = result@;
    assert(pong_done ==> forall|ms: Seq<MeldView>| #[trigger] completes(ms, pong_view, *ct) ==> found_among(
        after_pong,
        pong_lo,
        pong_hi,
        seq![pong_view] + ms,
    ));
    assert(pong_hi <= after_pong.len());
    assert(forall|i: int| 0 <= i < result@.len() ==> is_set_partition(views(#[trigger] result@[i]@), *ct));
    let prev = t.prev();
    let prev_prev = match prev {
        Some(p) => p.prev(),
        None => None,
    };
    let next = t.next();
    let next_next = match next {
        Some(n) => n.next(),
        None => None,
    };
    proof {
        lemma_next_index(t);
        if let Some(p) = prev {
            lemma_next_index(p);
        }
        if let Some(n) = next {
            lemma_next_index(n);
        }
    }
    let ghost b1 = result@;
    if let Some(m) = run_meld(ct, prev_prev, prev, Some(t)) {
        branch(ct, &m, &mut result);
    }
    assert forall|i: int| 0 <= i < result@.len() implies is_set_partition(views(#[trigger] result@[i]@), *ct) by {
        if i < b1.len() {
            assert(result@[i] == b1[i]);
        }
    }
    let ghost b2 = result@;
    if let Some(m) = run_meld(ct, prev, Some(t), next) {
        branch(ct, &m, &mut result);
    }
    assert forall|i: int| 0 <= i < result@.len() implies is_set_partition(views(#[trigger] result@[i]@), *ct) by {
        if i < b2.len() {
            assert(result@[i] == b2[i]);
        }
    }
    assert(forall|i: int| 0 <= i < after_pong.len() ==> result@[i] == after_pong[i]);
    let ghost b3 = result@;
    let last = run_meld(ct, Some(t), next, next_next);
    let ghost mut run_done = false;
    let ghost mut run_view = pong_view;
    if let Some(m) = last {
        branch(ct, &m, &mut result);
        proof {
            run_done = true;
            run_view = m@;
        }
    }
    let ghost after_run = result@;
    assert(run_done ==> forall|ms: Seq<MeldView>| #[trigger] completes(ms, run_view, *ct) ==> found_among(
        after_run,
        b3.len() as int,
        after_run.len() as int,
        seq![run_view] + ms,
    ));
    assert(run_done ==> (last matches Some(m) && m@ == run_view));
    assert forall|i: int| 0 <= i < result@.len() implies is_set_partition(views(#[trigger] result@[i]@), *ct) by {
        if i < b3.len() {
            assert(result@[i] == b3[i]);
        }
    }
    proof {
        assert forall|ms: Seq<MeldView>| #[trigger] is_set_partition(ms, *ct) implies found_among(
            result@,
            0,
            result@.len() as int,
            ms,
        ) by {
            let j = lemma_lowest_tile_meld(ms, *ct, t);
            let rest = ms.remove(j);
            lemma_front_perm(ms, j);
            if ms[j].meld_type == MeldType::Pong {
                assert(pong_done);
                assert(completes(rest, pong_view, *ct));
                assert(found_among(after_pong, pong_lo, pong_hi, seq![pong_view] + rest));
                let i = choose|i: int|
                    pong_lo <= i < pong_hi && #[trigger] views(after_pong[i]@).to_multiset() == (seq![pong_view]
                        + rest).to_multiset();
                assert(result@[i] == after_pong[i]);
                assert(views(result@[i]@).to_multiset() == ms.to_multiset());
            } else {
                assert(run_done);
                assert(run_view == ms[j]);
                assert(completes(rest, run_view, *ct));
                let i = choose|i: int|
                    b3.len() <= i < after_run.len() && #[trigger] views(after_run[i]@).to_multiset() == (seq![run_view]
                        + rest).to_multiset();
                assert(views(result@[i]@).to_multiset() == ms.to_multiset());
            }
        }
        if exists|ms: Seq<MeldView>| is_set_partition(ms, *ct) {
            let ms = choose|ms: Seq<MeldView>| is_set_partition(ms, *ct);
            assert(found_among(result@, 0, result@.len() as int, ms));
        }
    }
    result
}

/// The run `a`, `b`, `c` of drawn tiles, when all three are present and held.
fn run_meld(ct: &ConcealedTiles, a: Option<Tile>, b: Option<Tile>, c: Option<Tile>) -> (r: Option<Meld>)
    requires
        a matches Some(x) ==> b matches Some(y) ==> c matches Some(z) ==> tile_next(x) == Some(y)
            && tile_next(y) == Some(z),
    ensures
        r is Some <==> (a matches Some(x) && b matches Some(y) && c matches Some(z) && ct.count(x) > 0
            && ct.count(y) > 0 && ct.count(z) > 0),
        r matches Some(m) ==> (a matches Some(x) && b matches Some(y) && c matches Some(z) && m@ == (MeldView {
            tiles: seq![x, y, z],
            discarded_tile: None,
            meld_type: MeldType::Chi,
            suit: crate::tile::suit_of(x),
        })),
        r matches Some(m) ==> meld_wf(m@) && m@.discarded_tile is None && m@.meld_type == MeldType::Chi,
        r matches Some(m) ==> forall|u: Tile| occurrences(m@.tiles, u) <= ct.count(u),
{
    if let (Some(x), Some(y), Some(z)) = (a, b, c) {
        if ct.contains_key(&x) && ct.contains_key(&y) && ct.contains_key(&z) {
            proof {
                lemma_run_melds(x, y, z);
                lemma_next_index(x);
                lemma_next_index(y);
                lemma_tile_index_injective(x, z);
                assert forall|u: Tile| occurrences(seq![x, y, z], u) <= ct.count(u) by {
                    reveal_with_fuel(occurrences, 4);
                    assert(seq![x, y, z].drop_first() =~= seq![y, z]);
                    assert(seq![y, z].drop_first() =~= seq![z]);
                    assert(seq![z].drop_first() =~= Seq::<Tile>::empty());
                }
            }
            return match Meld::new(vec![x, y, z], None, MeldType::Chi) {
                Ok(m) => Some(m),
                Err(_) => {
                    assert(false);
                    None
                },
            };
        }
    }
    None
}

/// Appends `[m] + d` for every way `d` to split what is left of `ct` without the tiles of
/// `m` into runs and triplets.
fn branch(ct: &ConcealedTiles, m: &Meld, result: &mut Vec<Vec<Meld>>)
    requires
        meld_wf(m@),
        m@.discarded_tile is None,
        forall|t: Tile| occurrences(m@.tiles, t) <= ct.count(t),
    ensures
        forall|i: int| 0 <= i < old(result)@.len() ==> final(result)@[i] == old(result)@[i],
        final(result)@.len() >= old(result)@.len(),
        forall|i: int|
            old(result)@.len() <= i < final(result)@.len() ==> {
                let v = views(#[trigger] final(result)@[i]@);
                &&& v.len() > 0
                &&& v[0] == m@
                &&& forall|k: int| 1 <= k < v.len() ==> is_set_meld(#[trigger] v[k])
                &&& covers(v, *ct)
            },
        is_set_meld(m@) ==> forall|i: int|
            old(result)@.len() <= i < final(result)@.len() ==> is_set_partition(views(#[trigger] final(result)@[i]@), *ct),
        (exists|ms: Seq<MeldView>| completes(ms, m@, *ct)) ==> final(result)@.len() > old(result)@.len(),
        forall|ms: Seq<MeldView>| #[trigger] completes(ms, m@, *ct) ==> found_among(
            final(result)@,
            old(result)@.len() as int,
            final(result)@.len() as int,
            seq![m@] + ms,
        ),
    decreases ct.total(), 0nat,
{
    proof {
        lemma_meld_shape(m@);
    }
    let mut rest = ct.clone();
    remove_tiles(&mut rest, m.tiles());
    let subs = search_sets(&rest);
    let ghost subs_view = subs@;
    let ghost start = result@;
    prepend_each(result, m, subs);
    proof {
        assert forall|i: int| start.len() <= i < result@.len() implies {
            let v = views(#[trigger] result@[i]@);
            &&& v.len() > 0
            &&& v[0] == m@
            &&& forall|k: int| 1 <= k < v.len() ==> is_set_meld(#[trigger] v[k])
            &&& covers(v, *ct)
        } by {
            let k = i - start.len();
            let d = views(subs_view[subs_view.len() - 1 - k]@);
            assert(is_set_partition(d, rest));
            let v = views(result@[i]@);
            let i2 = start.len() + k;
            assert(views(result@[i2]@) == seq![m@] + d);
            assert(i2 == i);
            assert(v == seq![m@] + d);
            assert(v.drop_first() =~= d);
            assert forall|kk: int| 1 <= kk < v.len() implies is_set_meld(#[trigger] v[kk]) by {
                assert(v[kk] == d[kk - 1]);
            }
            assert forall|u: Tile| #[trigger] occurrences(melds_tiles(v), u) == ct.count(u) by {
                lemma_occurrences_concat(m@.tiles, melds_tiles(d), u);
            }
        }
        if is_set_meld(m@) {
            assert forall|i: int| start.len() <= i < result@.len() implies is_set_partition(
                views(#[trigger] result@[i]@),
                *ct,
            ) by {
                let v = views(result@[i]@);
                assert forall|kk: int| 0 <= kk < v.len() implies is_set_meld(#[trigger] v[kk]) by {
                    if kk == 0 {
                        assert(v[0] == m@);
                    }
                }
            }
        }
        assert forall|ms: Seq<MeldView>| #[trigger] completes(ms, m@, *ct) implies found_among(
            result@,
            start.len() as int,
            result@.len() as int,
            seq![m@] + ms,
        ) by {
            assert(is_set_partition(ms, rest));
            let k0 = choose|k0: int| 0 <= k0 < subs_view.len() && #[trigger] views(subs_view[k0]@).to_multiset() == ms.to_multiset();
            let k = subs_view.len() - 1 - k0;
            let i = start.len() + k;
            assert(views(result@[i]@) == seq![m@] + views(subs_view[subs_view.len() - 1 - k]@));
            lemma_cons_perm(m@, views(subs_view[k0]@), ms);
            assert(views(result@[i]@).to_multiset() == (seq![m@] + ms).to_multiset());
        }
        if exists|ms: Seq<MeldView>| completes(ms, m@, *ct) {
            let ms = choose|ms: Seq<MeldView>| completes(ms, m@, *ct);
            assert(is_set_partition(ms, rest));
        }
    }
}

/// A pair of `t`.
pub open spec fn eye_view(t: Tile) -> MeldView {
    MeldView { tiles: seq![t, t], discarded_tile: None, meld_type: MeldType::Eye, suit: suit_of(t) }
}

/// The pair of a winning decomposition is a pair of playable tiles held at least twice, and
/// the melds after it split the rest.
proof fn lemma_eye_split(ms: Seq<MeldView>, ct: ConcealedTiles, t: Tile)
    requires
        is_winning_decomposition(ms, ct),
        tile_index(ms[0].tiles[0]) == tile_index(t),
    ensures
        ms[0] == eye_view(t),
        is_playable(t),
        ct.count(t) >= 2,
        completes(ms.drop_first(), eye_view(t), ct),
        seq![ms[0]] + ms.drop_first() == ms,
{
    let e = ms[0];
    lemma_meld_shape(e);
    lemma_tile_index_injective(e.tiles[0], t);
    assert(ms =~= seq![e] + ms.drop_first());
    assert forall|u: Tile| #[trigger] occurrences(melds_tiles(ms.drop_first()), u) + occurrences(e.tiles, u)
        == ct.count(u) by {
        assert(occurrences(melds_tiles(ms), u) == ct.count(u));
        lemma_occurrences_concat(e.tiles, melds_tiles(ms.drop_first()), u);
    }
    assert forall|k: int| 0 <= k < ms.drop_first().len() implies is_set_meld(#[trigger] ms.drop_first()[k]) by {
        assert(ms.drop_first()[k] == ms[k + 1]);
    }
    assert(occurrences(e.tiles, t) == 2) by {
        reveal_with_fuel(occurrences, 3);
    }
    lemma_occurrences_concat(e.tiles, melds_tiles(ms.drop_first()), t);
}

/// Every way to split `concealed` into one pair followed by runs and triplets, with no tile
/// left over: each such split is found, with its runs and triplets in some order. The pair
/// is chosen first; the runs and triplets then follow in the order of their lowest tiles.
pub fn search_melds(concealed: &ConcealedTiles) -> (r: Vec<Vec<Meld>>)
    ensures
        forall|i: int| 0 <= i < r@.len() ==> is_winning_decomposition(views(#[trigger] r@[i]@), *concealed),
        r@.len() > 0 <==> exists|ms: Seq<MeldView>| is_winning_decomposition(ms, *concealed),
        forall|ms: Seq<MeldView>| #[trigger] is_winning_decomposition(ms, *concealed) ==> found_among(
            r@,
            0,
            r@.len() as int,
            ms,
        ),
{
    let mut result: Vec<Vec<Meld>> = Vec::new();
    let mut i: usize = 0;
    while i < NUM_TILE_KINDS
        invariant
            i <= NUM_TILE_KINDS,
            forall|k: int| 0 <= k < result@.len() ==> is_winning_decomposition(views(#[trigger] result@[k]@), *concealed),
            forall|ms: Seq<MeldView>| #[trigger] is_winning_decomposition(ms, *concealed) && tile_index(ms[0].tiles[0]) < i
                ==> found_among(result@, 0, result@.len() as int, ms),
        decreases NUM_TILE_KINDS - i,
    {
        let t = Tile::from_index(i);
        let ghost before = result@;
        let ghost mut done = false;
        if t.is_playable() && concealed.get(&t) >= 2 {
            proof {
                lemma_uniform_melds(t);
            }
            if let Ok(eye) = Meld::new(vec![t, t], None, MeldType::Eye) {
                assert(eye@ == eye_view(t));
                assert forall|u: Tile| occurrences(eye@.tiles, u) <= concealed.count(u) by {
                    reveal_with_fuel(occurrences, 3);
                }
                branch(concealed, &eye, &mut result);
                proof {
                    done = true;
                    assert forall|k: int| 0 <= k < result@.len() implies is_winning_decomposition(
                        views(#[trigger] result@[k]@),
                        *concealed,
                    ) by {
                        if k < before.len() {
                            assert(result@[k] == before[k]);
                        }
                    }
                }
            }
        }
        let ghost after = result@;
        assert(done ==> forall|ms: Seq<MeldView>| #[trigger] completes(ms, eye_view(t), *concealed) ==> found_among(
            after,
            before.len() as int,
            after.len() as int,
            seq![eye_view(t)] + ms,
        ));
        assert(forall|k: int| 0 <= k < before.len() ==> after[k] == before[k]);
        proof {
            assert forall|ms: Seq<MeldView>| #[trigger] is_winning_decomposition(ms, *concealed) && tile_index(
                ms[0].tiles[0],
            ) < i + 1 implies found_among(result@, 0, result@.len() as int, ms) by {
                if tile_index(ms[0].tiles[0]) == i {
                    lemma_eye_split(ms, *concealed, t);
                    assert(done);
                    let k = choose|k: int|
                        before.len() <= k < after.len() && #[trigger] views(after[k]@).to_multiset() == (seq![eye_view(t)]
                            + ms.drop_first()).to_multiset();
                    assert(views(result@[k]@).to_multiset() == ms.to_multiset());
                } else {
                    lemma_found_among_extend(before, result@, 0, before.len() as int, ms);
                    let k = choose|k: int| 0 <= k < before.len() && #[trigger] views(result@[k]@).to_multiset() == ms.to_multiset();
                    assert(views(result@[k]@).to_multiset() == ms.to_multiset());
                }
            }
        }
        i = i + 1;
    }
    proof {
        assert forall|ms: Seq<MeldView>| #[trigger] is_winning_decomposition(ms, *concealed) implies found_among(
            result@,
            0,
            result@.len() as int,
            ms,
        ) by {
            lemma_tile_index_injective(ms[0].tiles[0], ms[0].tiles[0]);
        }
        if exists|ms: Seq<MeldView>| is_winning_decomposition(ms, *concealed) {
            let ms = choose|ms: Seq<MeldView>| is_winning_decomposition(ms, *concealed);
            assert(found_among(result@, 0, result@.len() as int, ms));
        }
        if result@.len() > 0 {
            assert(is_winning_decomposition(views(result@[0]@), *concealed));
        }
    }
    result
}

} // verus!
