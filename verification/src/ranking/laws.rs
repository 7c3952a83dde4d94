use vstd::prelude::*;

use crate::country::RotwCountry;
use crate::ranking::{
    after_update_effect, count_above, points, count_in_band, count_with_score, decrement_effect, has_key, in_group,
    increment_effect, key_present, key_repeated, lemma_score_positions, lookup, overall_adjust, same_row_key,
    magnitude, score_positions, tie_effect, with_rank, with_score, Ranking, RankingKind,
};

verus! {

/// 1 when the entry belongs to the group and its score lies in the band, else 0.
pub open spec fn band(r: Ranking, round_id: u16, kind: RankingKind, from: u16, lo: int, hi: int) -> nat {
    if in_group(r, round_id, kind, from) && lo <= r.score <= hi {
        1
    } else {
        0
    }
}

/// Changing one entry changes a count by what that entry contributed.
pub proof fn lemma_count_update(
    rs: Seq<Ranking>,
    i: int,
    x: Ranking,
    round_id: u16,
    kind: RankingKind,
    from: u16,
    lo: int,
    hi: int,
)
    requires
        0 <= i < rs.len(),
    ensures
        count_in_band(rs.update(i, x), round_id, kind, from, lo, hi) + band(rs[i], round_id, kind, from, lo, hi)
            == count_in_band(rs, round_id, kind, from, lo, hi) + band(x, round_id, kind, from, lo, hi),
    decreases rs.len(),
{
    let rs2 = rs.update(i, x);
    if i == rs.len() - 1 {
        assert(rs2.drop_last() =~= rs.drop_last());
    } else {
        assert(rs2.drop_last() =~= rs.drop_last().update(i, x));
        lemma_count_update(rs.drop_last(), i, x, round_id, kind, from, lo, hi);
    }
}

/// Two tables whose entries agree, position by position, on whether they count.
pub proof fn lemma_count_frame(
    a: Seq<Ranking>,
    b: Seq<Ranking>,
    round_id: u16,
    kind: RankingKind,
    from: u16,
    lo: int,
    hi: int,
)
    requires
        a.len() == b.len(),
        forall|i: int|
            0 <= i < a.len() ==> #[trigger] band(a[i], round_id, kind, from, lo, hi) == band(
                b[i],
                round_id,
                kind,
                from,
                lo,
                hi,
            ),
    ensures
        count_in_band(a, round_id, kind, from, lo, hi) == count_in_band(b, round_id, kind, from, lo, hi),
    decreases a.len(),
{
    if a.len() > 0 {
        let n = a.len() - 1;
        assert(band(a[n], round_id, kind, from, lo, hi) == band(b[n], round_id, kind, from, lo, hi));
        assert forall|i: int| 0 <= i < a.drop_last().len() implies #[trigger] band(
            a.drop_last()[i],
            round_id,
            kind,
            from,
            lo,
            hi,
        ) == band(b.drop_last()[i], round_id, kind, from, lo, hi) by {
            assert(band(a[i], round_id, kind, from, lo, hi) == band(b[i], round_id, kind, from, lo, hi));
        }
        lemma_count_frame(a.drop_last(), b.drop_last(), round_id, kind, from, lo, hi);
    }
}

/// A band splits into two at any score inside it.
pub proof fn lemma_count_split(
    rs: Seq<Ranking>,
    round_id: u16,
    kind: RankingKind,
    from: u16,
    lo: int,
    mid: int,
    hi: int,
)
    requires
        lo <= mid <= hi,
    ensures
        count_in_band(rs, round_id, kind, from, lo, hi) == count_in_band(rs, round_id, kind, from, lo, mid)
            + count_in_band(rs, round_id, kind, from, mid + 1, hi),
    decreases rs.len(),
{
    if rs.len() > 0 {
        lemma_count_split(rs.drop_last(), round_id, kind, from, lo, mid, hi);
    }
}


/// The rank of the entry at `i` is its place: the number of entries of its group that score
/// higher.
pub open spec fn rank_is_place(rs: Seq<Ranking>, i: int) -> bool {
    rs[i].rank == count_above(rs, rs[i].round_id, rs[i].kind, rs[i].from_country_id, rs[i].score as int)
}

/// Every rank of the table is its entry's place.
pub open spec fn ranks_are_places(rs: Seq<Ranking>) -> bool {
    forall|i: int| 0 <= i < rs.len() ==> #[trigger] rank_is_place(rs, i)
}

/// Every rank of a group is its entry's place.
pub open spec fn group_ranked(rs: Seq<Ranking>, round_id: u16, kind: RankingKind, from: u16) -> bool {
    forall|i: int| 0 <= i < rs.len() && in_group(rs[i], round_id, kind, from) ==> #[trigger] rank_is_place(rs, i)
}

/// The table after one point more for the entry at `p`, when no hook intervenes: the entry
/// passes the `c` entries that had one point more than it, and the entries that it leaves
/// behind on its old score fall one place.
pub open spec fn incremented(rs: Seq<Ranking>, p: int, c: u16) -> Seq<Ranking> {
    Seq::new(
        rs.len(),
        |i: int|
            if i == p {
                Ranking { score: (rs[p].score + 1) as u32, rank: (rs[p].rank - c) as u16, ..rs[p] }
            } else if in_group(rs[i], rs[p].round_id, rs[p].kind, rs[p].from_country_id) && rs[i].score
                == rs[p].score {
                with_rank(rs[i], rs[i].rank + 1)
            } else {
                rs[i]
            },
    )
}

/// The table after one point less for the entry at `p`, when no hook intervenes: the
/// entries that had one point less than it rise one place, and it falls behind the `c`
/// entries that keep its old score.
pub open spec fn decremented(rs: Seq<Ranking>, p: int, c: u16) -> Seq<Ranking> {
    Seq::new(
        rs.len(),
        |i: int|
            if i == p {
                Ranking { score: (rs[p].score - 1) as u32, rank: (rs[p].rank + c) as u16, ..rs[p] }
            } else if in_group(rs[i], rs[p].round_id, rs[p].kind, rs[p].from_country_id) && rs[i].score
                == rs[p].score - 1 {
                with_rank(rs[i], rs[i].rank - 1)
            } else {
                rs[i]
            },
    )
}

/// After an increment every entry of the group stands at its place again, if all did before;
/// the entries of other groups do not move.
pub proof fn lemma_incremented_places(rs: Seq<Ranking>, p: int, c: u16)
    requires
        0 <= p < rs.len(),
        rs[p].score < u32::MAX,
        c as int == count_with_score(rs, rs[p].round_id, rs[p].kind, rs[p].from_country_id, rs[p].score + 1),
        group_ranked(rs, rs[p].round_id, rs[p].kind, rs[p].from_country_id),
        forall|j: int|
            0 <= j < rs.len() && j != p && in_group(rs[j], rs[p].round_id, rs[p].kind, rs[p].from_country_id)
                && rs[j].score == rs[p].score ==> #[trigger] rs[j].rank < u16::MAX,
    ensures
        group_ranked(incremented(rs, p, c), rs[p].round_id, rs[p].kind, rs[p].from_country_id),
        forall|i: int|
            0 <= i < rs.len() && !in_group(rs[i], rs[p].round_id, rs[p].kind, rs[p].from_country_id) ==> {
                &&& #[trigger] incremented(rs, p, c)[i] == rs[i]
                &&& rank_is_place(incremented(rs, p, c), i) == rank_is_place(rs, i)
            },
{
    let e = rs[p];
    let s = e.score as int;
    let out = incremented(rs, p, c);
    let moved = Ranking { score: (s + 1) as u32, ..e };
    let u = rs.update(p, moved);
    assert forall|g_round: u16, g_kind: RankingKind, g_from: u16, lo: int, hi: int|
        #![trigger count_in_band(out, g_round, g_kind, g_from, lo, hi)]
        count_in_band(out, g_round, g_kind, g_from, lo, hi) + band(e, g_round, g_kind, g_from, lo, hi)
            == count_in_band(rs, g_round, g_kind, g_from, lo, hi) + band(moved, g_round, g_kind, g_from, lo, hi) by {
        assert forall|i: int| 0 <= i < out.len() implies #[trigger] band(out[i], g_round, g_kind, g_from, lo, hi) == band(
            u[i],
            g_round,
            g_kind,
            g_from,
            lo,
            hi,
        ) by {}
        lemma_count_frame(out, u, g_round, g_kind, g_from, lo, hi);
        lemma_count_update(rs, p, moved, g_round, g_kind, g_from, lo, hi);
    }
    // the entry passes the entries that scored one more than it did
    assert(rank_is_place(rs, p));
    lemma_count_split(rs, e.round_id, e.kind, e.from_country_id, s + 1, s + 1, u32::MAX as int);
    assert forall|i: int|
        0 <= i < out.len() && in_group(out[i], e.round_id, e.kind, e.from_country_id) implies #[trigger] rank_is_place(
        out,
        i,
    ) by {
        assert(in_group(rs[i], e.round_id, e.kind, e.from_country_id));
        assert(rank_is_place(rs, i));
        let t = out[i].score as int;
        assert(count_in_band(out, e.round_id, e.kind, e.from_country_id, t + 1, u32::MAX as int) + band(
            e,
            e.round_id,
            e.kind,
            e.from_country_id,
            t + 1,
            u32::MAX as int,
        ) == count_in_band(rs, e.round_id, e.kind, e.from_country_id, t + 1, u32::MAX as int) + band(
            moved,
            e.round_id,
            e.kind,
            e.from_country_id,
            t + 1,
            u32::MAX as int,
        ));
    }
    assert forall|i: int|
        0 <= i < rs.len() && !in_group(rs[i], e.round_id, e.kind, e.from_country_id) implies {
        &&& #[trigger] out[i] == rs[i]
        &&& rank_is_place(out, i) == rank_is_place(rs, i)
    } by {
        let r = rs[i];
        assert(out[i] == rs[i]);
        assert(count_in_band(out, r.round_id, r.kind, r.from_country_id, r.score + 1, u32::MAX as int) + band(
            e,
            r.round_id,
            r.kind,
            r.from_country_id,
            r.score + 1,
            u32::MAX as int,
        ) == count_in_band(rs, r.round_id, r.kind, r.from_country_id, r.score + 1, u32::MAX as int) + band(
            moved,
            r.round_id,
            r.kind,
            r.from_country_id,
            r.score + 1,
            u32::MAX as int,
        ));
    }
}


/// After a decrement every entry of the group stands at its place again, if all did before;
/// the entries of other groups do not move.
pub proof fn lemma_decremented_places(rs: Seq<Ranking>, p: int, c: u16)
    requires
        0 <= p < rs.len(),
        rs[p].score > 0,
        c as int == count_with_score(rs, rs[p].round_id, rs[p].kind, rs[p].from_country_id, rs[p].score as int) - 1,
        rs[p].rank + c <= u16::MAX,
        group_ranked(rs, rs[p].round_id, rs[p].kind, rs[p].from_country_id),
    ensures
        group_ranked(decremented(rs, p, c), rs[p].round_id, rs[p].kind, rs[p].from_country_id),
        forall|i: int|
            0 <= i < rs.len() && !in_group(rs[i], rs[p].round_id, rs[p].kind, rs[p].from_country_id) ==> {
                &&& #[trigger] decremented(rs, p, c)[i] == rs[i]
                &&& rank_is_place(decremented(rs, p, c), i) == rank_is_place(rs, i)
            },
{
    let e = rs[p];
    let s = e.score as int;
    let out = decremented(rs, p, c);
    let moved = Ranking { score: (s - 1) as u32, ..e };
    let u = rs.update(p, moved);
    assert forall|g_round: u16, g_kind: RankingKind, g_from: u16, lo: int, hi: int|
        #![trigger count_in_band(out, g_round, g_kind, g_from, lo, hi)]
        count_in_band(out, g_round, g_kind, g_from, lo, hi) + band(e, g_round, g_kind, g_from, lo, hi)
            == count_in_band(rs, g_round, g_kind, g_from, lo, hi) + band(moved, g_round, g_kind, g_from, lo, hi) by {
        assert forall|i: int| 0 <= i < out.len() implies #[trigger] band(out[i], g_round, g_kind, g_from, lo, hi) == band(
            u[i],
            g_round,
            g_kind,
            g_from,
            lo,
            hi,
        ) by {}
        lemma_count_frame(out, u, g_round, g_kind, g_from, lo, hi);
        lemma_count_update(rs, p, moved, g_round, g_kind, g_from, lo, hi);
    }
    assert(rank_is_place(rs, p));
    lemma_count_split(rs, e.round_id, e.kind, e.from_country_id, s, s, u32::MAX as int);
    assert forall|i: int|
        0 <= i < out.len() && in_group(out[i], e.round_id, e.kind, e.from_country_id) implies #[trigger] rank_is_place(
        out,
        i,
    ) by {
        assert(in_group(rs[i], e.round_id, e.kind, e.from_country_id));
        assert(rank_is_place(rs, i));
        let t = out[i].score as int;
        assert(count_in_band(out, e.round_id, e.kind, e.from_country_id, t + 1, u32::MAX as int) + band(
            e,
            e.round_id,
            e.kind,
            e.from_country_id,
            t + 1,
            u32::MAX as int,
        ) == count_in_band(rs, e.round_id, e.kind, e.from_country_id, t + 1, u32::MAX as int) + band(
            moved,
            e.round_id,
            e.kind,
            e.from_country_id,
            t + 1,
            u32::MAX as int,
        ));
        if i != p && rs[i].score == s - 1 {
            assert(count_in_band(rs, e.round_id, e.kind, e.from_country_id, s, u32::MAX as int) >= 1);
        }
    }
    assert forall|i: int|
        0 <= i < rs.len() && !in_group(rs[i], e.round_id, e.kind, e.from_country_id) implies {
        &&& #[trigger] out[i] == rs[i]
        &&& rank_is_place(out, i) == rank_is_place(rs, i)
    } by {
        let r = rs[i];
        assert(out[i] == rs[i]);
        assert(count_in_band(out, r.round_id, r.kind, r.from_country_id, r.score + 1, u32::MAX as int) + band(
            e,
            r.round_id,
            r.kind,
            r.from_country_id,
            r.score + 1,
            u32::MAX as int,
        ) == count_in_band(rs, r.round_id, r.kind, r.from_country_id, r.score + 1, u32::MAX as int) + band(
            moved,
            r.round_id,
            r.kind,
            r.from_country_id,
            r.score + 1,
            u32::MAX as int,
        ));
    }
}


/// Every index of the group with the score, below `n`, is among the positions.
pub proof fn lemma_score_positions_complete(
    rs: Seq<Ranking>,
    round_id: u16,
    kind: RankingKind,
    from: u16,
    score: int,
    n: int,
)
    requires
        n <= rs.len(),
    ensures
        forall|j: int|
            0 <= j < n && in_group(rs[j], round_id, kind, from) && rs[j].score == score ==> #[trigger] score_positions(
                rs,
                round_id,
                kind,
                from,
                score,
                n,
            ).contains(j),
    decreases n,
{
    if n > 0 {
        lemma_score_positions_complete(rs, round_id, kind, from, score, n - 1);
        let prev = score_positions(rs, round_id, kind, from, score, n - 1);
        assert forall|j: int|
            0 <= j < n && in_group(rs[j], round_id, kind, from) && rs[j].score == score implies #[trigger] score_positions(
            rs,
            round_id,
            kind,
            from,
            score,
            n,
        ).contains(j) by {
            if j < n - 1 {
                assert(prev.contains(j));
                let k = choose|k: int| 0 <= k < prev.len() && prev[k] == j;
                if in_group(rs[n - 1], round_id, kind, from) && rs[n - 1].score == score {
                    assert(prev.push(n - 1)[k] == j);
                }
            } else {
                assert(prev.push(n - 1)[prev.len() as int] == j);
            }
        }
    }
}

/// The rows after moving the tied entries at `positions` one place, as read in `snap`.
pub open spec fn shifted(rs: Seq<Ranking>, snap: Seq<Ranking>, positions: Seq<int>, up: bool) -> Seq<Ranking> {
    Seq::new(
        rs.len(),
        |i: int|
            if positions.contains(i) {
                if up {
                    with_rank(snap[i], snap[i].rank + 1)
                } else {
                    with_rank(snap[i], snap[i].rank - 1)
                }
            } else {
                rs[i]
            },
    )
}

/// Without hooks, moving the tied entries writes each of them once.
pub proof fn lemma_tie_plain(
    rs: Seq<Ranking>,
    rotw: Option<RotwCountry>,
    snap: Seq<Ranking>,
    positions: Seq<int>,
    up: bool,
)
    requires
        tie_effect(rs, rotw, RankingKind::Overall, snap, positions, up) is Ok,
        forall|k: int| 0 <= k < positions.len() ==> 0 <= #[trigger] positions[k] < rs.len() && positions[k] < snap.len(),
    ensures
        tie_effect(rs, rotw, RankingKind::Overall, snap, positions, up)->Ok_0 == shifted(rs, snap, positions, up),
        forall|i: int|
            #![trigger positions.contains(i)]
            positions.contains(i) ==> if up {
                snap[i].rank < u16::MAX
            } else {
                snap[i].rank > 0
            },
    decreases positions.len(),
{
    if positions.len() > 0 {
        let prev = positions.drop_last();
        lemma_tie_plain(rs, rotw, snap, prev, up);
        let out1 = shifted(rs, snap, prev, up);
        let j = positions.last();
        let out = tie_effect(rs, rotw, RankingKind::Overall, snap, positions, up)->Ok_0;
        let q = snap[j];
        let q2 = if up { with_rank(q, q.rank + 1) } else { with_rank(q, q.rank - 1) };
        assert(tie_effect(rs, rotw, RankingKind::Overall, snap, prev, up) == Ok::<Seq<Ranking>, crate::error::VoteError>(out1));
        assert(after_update_effect(out1.update(j, q2), rotw, RankingKind::Overall, out1[j], q2) == Ok::<Seq<Ranking>, crate::error::VoteError>(out1.update(j, q2)));
        assert(out == out1.update(j, q2));
        assert(positions.contains(j)) by {
            assert(positions[positions.len() - 1] == j);
        }
        assert(out =~= shifted(rs, snap, positions, up)) by {
            assert forall|i: int| 0 <= i < rs.len() implies #[trigger] out[i] == shifted(rs, snap, positions, up)[i] by {
                if i != j {
                    assert(positions.contains(i) == prev.contains(i)) by {
                        if positions.contains(i) {
                            let k = choose|k: int| 0 <= k < positions.len() && positions[k] == i;
                            assert(prev[k] == i);
                        }
                        if prev.contains(i) {
                            let k = choose|k: int| 0 <= k < prev.len() && prev[k] == i;
                            assert(positions[k] == i);
                        }
                    }
                } else {
                    assert(positions[positions.len() - 1] == j);
                }
            }
        }
        assert forall|i: int| #![trigger positions.contains(i)] positions.contains(i) implies if up {
            snap[i].rank < u16::MAX
        } else {
            snap[i].rank > 0
        } by {
            if i != j {
                let k = choose|k: int| 0 <= k < positions.len() && positions[k] == i;
                assert(prev[k] == i);
                assert(prev.contains(i));
            }
        }
    } else {
        assert(tie_effect(rs, rotw, RankingKind::Overall, snap, positions, up)->Ok_0 =~= shifted(rs, snap, positions, up));
    }
}


/// The entry that a successful lookup finds has the key.
pub proof fn lemma_lookup_found(rs: Seq<Ranking>, round_id: u16, kind: RankingKind, from: u16, to: u16)
    requires
        lookup(rs, round_id, kind, from, to) is Ok,
    ensures
        0 <= lookup(rs, round_id, kind, from, to)->Ok_0 < rs.len(),
        has_key(rs[lookup(rs, round_id, kind, from, to)->Ok_0], round_id, kind, from, to),
{
    assert(key_present(rs, round_id, kind, from, to));
}

/// An increment of an overall entry, whose updates run no hook, is `incremented`.
pub proof fn lemma_overall_increment(rs: Seq<Ranking>, rotw: Option<RotwCountry>, round_id: u16, from: u16, to: u16)
    requires
        increment_effect(rs, rotw, round_id, RankingKind::Overall, from, to) is Ok,
    ensures
        ({
            let p = lookup(rs, round_id, RankingKind::Overall, from, to)->Ok_0;
            let c = count_with_score(rs, round_id, RankingKind::Overall, from, rs[p].score + 1) as u16;
            &&& lookup(rs, round_id, RankingKind::Overall, from, to) is Ok
            &&& 0 <= p < rs.len()
            &&& has_key(rs[p], round_id, RankingKind::Overall, from, to)
            &&& rs[p].score < u32::MAX
            &&& rs[p].rank >= c
            &&& increment_effect(rs, rotw, round_id, RankingKind::Overall, from, to)->Ok_0 == incremented(rs, p, c)
            &&& forall|j: int|
                0 <= j < rs.len() && j != p && in_group(rs[j], round_id, RankingKind::Overall, from) && rs[j].score
                    == rs[p].score ==> #[trigger] rs[j].rank < u16::MAX
        }),
{
    let kind = RankingKind::Overall;
    lemma_lookup_found(rs, round_id, kind, from, to);
    let p = lookup(rs, round_id, kind, from, to)->Ok_0;
    let entry = rs[p];
    let s = entry.score as int;
    let c = count_with_score(rs, round_id, kind, from, s + 1) as u16;
    let e1 = with_rank(entry, entry.rank - c);
    let rs1 = rs.update(p, e1);
    assert(after_update_effect(rs1, rotw, kind, rs[p], e1) == Ok::<Seq<Ranking>, crate::error::VoteError>(rs1));
    let e2 = with_score(e1, s + 1);
    let rs2 = rs1.update(p, e2);
    assert(after_update_effect(rs2, rotw, kind, rs1[p], e2) == Ok::<Seq<Ranking>, crate::error::VoteError>(rs2));
    let positions = score_positions(rs2, round_id, kind, from, s, rs2.len() as int);
    assert(increment_effect(rs, rotw, round_id, kind, from, to) == tie_effect(rs2, rotw, kind, rs2, positions, true));
    lemma_score_positions(rs2, round_id, kind, from, s, rs2.len() as int);
    lemma_score_positions_complete(rs2, round_id, kind, from, s, rs2.len() as int);
    lemma_tie_plain(rs2, rotw, rs2, positions, true);
    let out = increment_effect(rs, rotw, round_id, kind, from, to)->Ok_0;
    assert forall|i: int| 0 <= i < rs.len() implies #[trigger] out[i] == incremented(rs, p, c)[i] by {
        if i == p {
            if positions.contains(p) {
                let k = choose|k: int| 0 <= k < positions.len() && positions[k] == p;
                assert(rs2[positions[k]].score == s);
            }
        } else {
            assert(rs2[i] == rs[i]);
            if positions.contains(i) {
                let k = choose|k: int| 0 <= k < positions.len() && positions[k] == i;
                assert(in_group(rs2[positions[k]], round_id, kind, from));
            }
        }
    }
    assert(out =~= incremented(rs, p, c));
    assert forall|j: int|
        0 <= j < rs.len() && j != p && in_group(rs[j], round_id, kind, from) && rs[j].score == s implies #[trigger] rs[j].rank
        < u16::MAX by {
        assert(rs2[j] == rs[j]);
        assert(positions.contains(j));
    }
}

/// A decrement of an overall entry, whose updates run no hook, is `decremented`.
pub proof fn lemma_overall_decrement(rs: Seq<Ranking>, rotw: Option<RotwCountry>, round_id: u16, from: u16, to: u16)
    requires
        decrement_effect(rs, rotw, round_id, RankingKind::Overall, from, to) is Ok,
    ensures
        ({
            let p = lookup(rs, round_id, RankingKind::Overall, from, to)->Ok_0;
            let moved = with_score(rs[p], rs[p].score - 1);
            let c = count_with_score(rs.update(p, moved), round_id, RankingKind::Overall, from, rs[p].score as int) as u16;
            &&& lookup(rs, round_id, RankingKind::Overall, from, to) is Ok
            &&& 0 <= p < rs.len()
            &&& has_key(rs[p], round_id, RankingKind::Overall, from, to)
            &&& rs[p].score > 0
            &&& rs[p].rank + c <= u16::MAX
            &&& decrement_effect(rs, rotw, round_id, RankingKind::Overall, from, to)->Ok_0 == decremented(rs, p, c)
        }),
{
    let kind = RankingKind::Overall;
    lemma_lookup_found(rs, round_id, kind, from, to);
    let p = lookup(rs, round_id, kind, from, to)->Ok_0;
    let entry = rs[p];
    let s = entry.score as int;
    let positions = score_positions(rs, round_id, kind, from, s - 1, rs.len() as int);
    lemma_score_positions(rs, round_id, kind, from, s - 1, rs.len() as int);
    lemma_score_positions_complete(rs, round_id, kind, from, s - 1, rs.len() as int);
    lemma_tie_plain(rs, rotw, rs, positions, false);
    let rs1 = shifted(rs, rs, positions, false);
    let e1 = with_score(entry, s - 1);
    let rs2 = rs1.update(p, e1);
    assert(after_update_effect(rs2, rotw, kind, rs1[p], e1) == Ok::<Seq<Ranking>, crate::error::VoteError>(rs2));
    let moved = with_score(rs[p], rs[p].score - 1);
    // the count of the entries that keep the old score does not see the rank changes
    assert forall|i: int| 0 <= i < rs2.len() implies #[trigger] crate::ranking::laws::band(rs2[i], round_id, kind, from, s, s)
        == crate::ranking::laws::band(rs.update(p, moved)[i], round_id, kind, from, s, s) by {
        if i != p && positions.contains(i) {
            let k = choose|k: int| 0 <= k < positions.len() && positions[k] == i;
            assert(rs[positions[k]].score == s - 1);
        }
    }
    lemma_count_frame(rs2, rs.update(p, moved), round_id, kind, from, s, s);
    let c = count_with_score(rs2, round_id, kind, from, s) as u16;
    let e2 = with_rank(e1, e1.rank + c);
    let out = rs2.update(p, e2);
    assert(after_update_effect(out, rotw, kind, rs2[p], e2) == Ok::<Seq<Ranking>, crate::error::VoteError>(out));
    assert(decrement_effect(rs, rotw, round_id, kind, from, to) == Ok::<Seq<Ranking>, crate::error::VoteError>(out));
    assert(!positions.contains(p)) by {
        if positions.contains(p) {
            let k = choose|k: int| 0 <= k < positions.len() && positions[k] == p;
            assert(rs[positions[k]].score == s - 1);
        }
    }
    assert forall|i: int| 0 <= i < rs.len() implies #[trigger] out[i] == decremented(rs, p, c)[i] by {
        if i != p {
            if positions.contains(i) {
                let k = choose|k: int| 0 <= k < positions.len() && positions[k] == i;
                assert(in_group(rs[positions[k]], round_id, kind, from));
            } else if in_group(rs[i], round_id, kind, from) && rs[i].score == s - 1 {
                assert(positions.contains(i));
            }
        }
    }
    assert(out =~= decremented(rs, p, c));
}


/// Every overall entry stands at its place.
pub open spec fn overall_ranked(rs: Seq<Ranking>) -> bool {
    forall|i: int| 0 <= i < rs.len() && rs[i].kind == RankingKind::Overall ==> #[trigger] rank_is_place(rs, i)
}

/// No group holds more entries than there are ranks.
pub open spec fn groups_fit(rs: Seq<Ranking>) -> bool {
    forall|i: int|
        0 <= i < rs.len() ==> #[trigger] count_in_band(
            rs,
            rs[i].round_id,
            rs[i].kind,
            rs[i].from_country_id,
            0,
            u32::MAX as int,
        ) <= u16::MAX + 1
}

/// The same rows in the same places, equal but for the overall entries.
pub open spec fn agree_off_overall(a: Seq<Ranking>, b: Seq<Ranking>) -> bool {
    &&& a.len() == b.len()
    &&& forall|i: int|
        0 <= i < a.len() ==> {
            &&& same_row_key(#[trigger] a[i], b[i])
            &&& (a[i].kind != RankingKind::Overall ==> a[i] == b[i])
        }
}

/// Agreement off the overall entries carries over from one table to the next.
pub proof fn lemma_agree_trans(a: Seq<Ranking>, b: Seq<Ranking>, c: Seq<Ranking>)
    requires
        agree_off_overall(a, b),
        agree_off_overall(b, c),
    ensures
        agree_off_overall(a, c),
{
    assert forall|i: int| 0 <= i < a.len() implies {
        &&& same_row_key(#[trigger] a[i], c[i])
        &&& (a[i].kind != RankingKind::Overall ==> a[i] == c[i])
    } by {
        assert(same_row_key(a[i], b[i]));
        assert(same_row_key(b[i], c[i]));
    }
}

/// Agreement off the overall entries holds both ways.
pub proof fn lemma_agree_sym(a: Seq<Ranking>, b: Seq<Ranking>)
    requires
        agree_off_overall(a, b),
    ensures
        agree_off_overall(b, a),
{
    assert forall|i: int| 0 <= i < b.len() implies {
        &&& same_row_key(#[trigger] b[i], a[i])
        &&& (b[i].kind != RankingKind::Overall ==> b[i] == a[i])
    } by {
        assert(same_row_key(a[i], b[i]));
    }
}

/// Writing the same row at the same place keeps two tables in agreement.
pub proof fn lemma_agree_update(a: Seq<Ranking>, b: Seq<Ranking>, j: int, x: Ranking)
    requires
        agree_off_overall(a, b),
        0 <= j < a.len(),
    ensures
        agree_off_overall(a.update(j, x), b.update(j, x)),
{
    assert forall|i: int| 0 <= i < a.len() implies {
        &&& same_row_key(#[trigger] a.update(j, x)[i], b.update(j, x)[i])
        &&& (a.update(j, x)[i].kind != RankingKind::Overall ==> a.update(j, x)[i] == b.update(j, x)[i])
    } by {
        if i != j {
            assert(same_row_key(a[i], b[i]));
        }
    }
}

/// A count over a band is at most the size of the group.
pub proof fn lemma_count_sub_band(rs: Seq<Ranking>, round_id: u16, kind: RankingKind, from: u16, lo: int, hi: int)
    requires
        0 <= lo <= hi <= u32::MAX,
    ensures
        count_in_band(rs, round_id, kind, from, lo, hi) <= count_in_band(rs, round_id, kind, from, 0, u32::MAX as int),
{
    if lo > 0 {
        lemma_count_split(rs, round_id, kind, from, 0, lo - 1, u32::MAX as int);
    }
    lemma_count_split(rs, round_id, kind, from, lo, hi, u32::MAX as int);
}

/// Tables that agree off the overall entries count the same in every group that is not an
/// overall ranking; tables with the same rows in the same places have groups of the same
/// size.
pub proof fn lemma_agree_counts(a: Seq<Ranking>, b: Seq<Ranking>, round_id: u16, kind: RankingKind, from: u16, lo: int, hi: int)
    requires
        agree_off_overall(a, b),
    ensures
        kind != RankingKind::Overall ==> count_in_band(a, round_id, kind, from, lo, hi) == count_in_band(b, round_id, kind, from, lo, hi),
        lo <= 0 && u32::MAX <= hi ==> count_in_band(a, round_id, kind, from, lo, hi) == count_in_band(b, round_id, kind, from, lo, hi),
{
    assert forall|i: int| 0 <= i < a.len() && (kind != RankingKind::Overall || (lo <= 0 && u32::MAX <= hi)) implies #[trigger] band(a[i], round_id, kind, from, lo, hi)
        == band(b[i], round_id, kind, from, lo, hi) by {
        assert(same_row_key(a[i], b[i]));
    }
    if kind != RankingKind::Overall || (lo <= 0 && u32::MAX <= hi) {
        lemma_count_frame(a, b, round_id, kind, from, lo, hi);
    }
}

/// Groups keep their size when the rows stay in their places.
pub proof fn lemma_agree_fit(a: Seq<Ranking>, b: Seq<Ranking>)
    requires
        agree_off_overall(a, b),
        groups_fit(a),
    ensures
        groups_fit(b),
{
    assert forall|i: int| 0 <= i < b.len() implies #[trigger] count_in_band(
        b,
        b[i].round_id,
        b[i].kind,
        b[i].from_country_id,
        0,
        u32::MAX as int,
    ) <= u16::MAX + 1 by {
        assert(same_row_key(a[i], b[i]));
        lemma_agree_counts(a, b, b[i].round_id, b[i].kind, b[i].from_country_id, 0, u32::MAX as int);
        assert(count_in_band(a, a[i].round_id, a[i].kind, a[i].from_country_id, 0, u32::MAX as int) <= u16::MAX + 1);
    }
}

/// Overwriting an entry that is not an overall one, with the same row, keeps every overall
/// entry at its place and every group at its size.
pub proof fn lemma_update_off_overall(rs: Seq<Ranking>, j: int, x: Ranking)
    requires
        0 <= j < rs.len(),
        same_row_key(rs[j], x),
        rs[j].kind != RankingKind::Overall,
        overall_ranked(rs),
        groups_fit(rs),
    ensures
        overall_ranked(rs.update(j, x)),
        groups_fit(rs.update(j, x)),
{
    let u = rs.update(j, x);
    assert forall|i: int| 0 <= i < u.len() && u[i].kind == RankingKind::Overall implies #[trigger] rank_is_place(u, i) by {
        assert(rank_is_place(rs, i));
        lemma_count_update(rs, j, x, u[i].round_id, u[i].kind, u[i].from_country_id, u[i].score + 1, u32::MAX as int);
    }
    assert forall|i: int| 0 <= i < u.len() implies #[trigger] count_in_band(
        u,
        u[i].round_id,
        u[i].kind,
        u[i].from_country_id,
        0,
        u32::MAX as int,
    ) <= u16::MAX + 1 by {
        assert(count_in_band(rs, rs[i].round_id, rs[i].kind, rs[i].from_country_id, 0, u32::MAX as int) <= u16::MAX + 1);
        lemma_count_update(rs, j, x, u[i].round_id, u[i].kind, u[i].from_country_id, 0, u32::MAX as int);
    }
}

/// One increment or decrement of an overall entry keeps every overall entry at its place,
/// leaves the other entries alone and keeps the groups at their sizes.
pub proof fn lemma_overall_step(rs: Seq<Ranking>, rotw: Option<RotwCountry>, round_id: u16, from: u16, to: u16, up: bool)
    requires
        up ==> increment_effect(rs, rotw, round_id, RankingKind::Overall, from, to) is Ok,
        !up ==> decrement_effect(rs, rotw, round_id, RankingKind::Overall, from, to) is Ok,
        overall_ranked(rs),
        groups_fit(rs),
    ensures
        ({
            let out = if up {
                increment_effect(rs, rotw, round_id, RankingKind::Overall, from, to)->Ok_0
            } else {
                decrement_effect(rs, rotw, round_id, RankingKind::Overall, from, to)->Ok_0
            };
            &&& agree_off_overall(rs, out)
            &&& overall_ranked(out)
            &&& groups_fit(out)
        }),
{
    let kind = RankingKind::Overall;
    if up {
        lemma_overall_increment(rs, rotw, round_id, from, to);
        let p = lookup(rs, round_id, kind, from, to)->Ok_0;
        let s = rs[p].score as int;
        let cnt = count_with_score(rs, round_id, kind, from, s + 1);
        let c = cnt as u16;
        let out = incremented(rs, p, c);
        assert(rank_is_place(rs, p));
        lemma_count_split(rs, round_id, kind, from, s + 1, s + 1, u32::MAX as int);
        assert(cnt <= rs[p].rank);
        assert(c as int == cnt);
        assert forall|i: int| 0 <= i < rs.len() && in_group(rs[i], round_id, kind, from) implies #[trigger] rank_is_place(rs, i) by {}
        lemma_incremented_places(rs, p, c);
        assert(agree_off_overall(rs, out)) by {
            assert forall|i: int| 0 <= i < rs.len() implies {
                &&& same_row_key(#[trigger] rs[i], out[i])
                &&& (rs[i].kind != RankingKind::Overall ==> rs[i] == out[i])
            } by {
                if !in_group(rs[i], round_id, kind, from) {
                    assert(out[i] == rs[i]);
                }
            }
        }
        assert forall|i: int| 0 <= i < out.len() && out[i].kind == RankingKind::Overall implies #[trigger] rank_is_place(out, i) by {
            if !in_group(rs[i], round_id, kind, from) {
                assert(out[i] == rs[i]);
                assert(rank_is_place(rs, i));
            }
        }
        lemma_agree_fit(rs, out);
    } else {
        lemma_overall_decrement(rs, rotw, round_id, from, to);
        let p = lookup(rs, round_id, kind, from, to)->Ok_0;
        let s = rs[p].score as int;
        let moved = with_score(rs[p], rs[p].score - 1);
        let cnt = count_with_score(rs.update(p, moved), round_id, kind, from, s);
        let c = cnt as u16;
        let out = decremented(rs, p, c);
        lemma_count_update(rs, p, moved, round_id, kind, from, s, s);
        lemma_count_sub_band(rs, round_id, kind, from, s, s);
        assert(count_in_band(rs, rs[p].round_id, rs[p].kind, rs[p].from_country_id, 0, u32::MAX as int) <= u16::MAX + 1);
        assert(c as int == cnt);
        assert forall|i: int| 0 <= i < rs.len() && in_group(rs[i], round_id, kind, from) implies #[trigger] rank_is_place(rs, i) by {}
        lemma_decremented_places(rs, p, c);
        assert(agree_off_overall(rs, out)) by {
            assert forall|i: int| 0 <= i < rs.len() implies {
                &&& same_row_key(#[trigger] rs[i], out[i])
                &&& (rs[i].kind != RankingKind::Overall ==> rs[i] == out[i])
            } by {
                if !in_group(rs[i], round_id, kind, from) {
                    assert(out[i] == rs[i]);
                }
            }
        }
        assert forall|i: int| 0 <= i < out.len() && out[i].kind == RankingKind::Overall implies #[trigger] rank_is_place(out, i) by {
            if !in_group(rs[i], round_id, kind, from) {
                assert(out[i] == rs[i]);
                assert(rank_is_place(rs, i));
            }
        }
        lemma_agree_fit(rs, out);
    }
}


/// Moving an overall entry by any number of points keeps every overall entry at its place,
/// leaves the other entries alone and keeps the groups at their sizes.
pub proof fn lemma_overall_adjust(rs: Seq<Ranking>, rotw: Option<RotwCountry>, round_id: u16, from: u16, to: u16, d: int)
    requires
        overall_adjust(rs, rotw, round_id, from, to, d) is Ok,
        overall_ranked(rs),
        groups_fit(rs),
    ensures
        agree_off_overall(rs, overall_adjust(rs, rotw, round_id, from, to, d)->Ok_0),
        overall_ranked(overall_adjust(rs, rotw, round_id, from, to, d)->Ok_0),
        groups_fit(overall_adjust(rs, rotw, round_id, from, to, d)->Ok_0),
    decreases magnitude(d),
{
    if d > 0 {
        lemma_overall_step(rs, rotw, round_id, from, to, true);
        let rs2 = increment_effect(rs, rotw, round_id, RankingKind::Overall, from, to)->Ok_0;
        lemma_overall_adjust(rs2, rotw, round_id, from, to, d - 1);
        lemma_agree_trans(rs, rs2, overall_adjust(rs2, rotw, round_id, from, to, d - 1)->Ok_0);
    } else if d < 0 {
        lemma_overall_step(rs, rotw, round_id, from, to, false);
        let rs2 = decrement_effect(rs, rotw, round_id, RankingKind::Overall, from, to)->Ok_0;
        lemma_overall_adjust(rs2, rotw, round_id, from, to, d + 1);
        lemma_agree_trans(rs, rs2, overall_adjust(rs2, rotw, round_id, from, to, d + 1)->Ok_0);
    } else {
        assert(agree_off_overall(rs, rs));
    }
}

/// The hook after the update of any entry keeps every overall entry at its place, leaves
/// the other entries alone and keeps the groups at their sizes.
pub proof fn lemma_hook(rs: Seq<Ranking>, rotw: Option<RotwCountry>, kind: RankingKind, old: Ranking, new: Ranking)
    requires
        after_update_effect(rs, rotw, kind, old, new) is Ok,
        overall_ranked(rs),
        groups_fit(rs),
    ensures
        agree_off_overall(rs, after_update_effect(rs, rotw, kind, old, new)->Ok_0),
        overall_ranked(after_update_effect(rs, rotw, kind, old, new)->Ok_0),
        groups_fit(after_update_effect(rs, rotw, kind, old, new)->Ok_0),
{
    if kind == RankingKind::Overall {
        assert(agree_off_overall(rs, rs));
    } else {
        let c = rotw->Some_0;
        lemma_overall_adjust(rs, rotw, old.round_id, c.country_id, old.to_country_id, points(new) - points(old));
    }
}

/// Moving the tied entries of a group that is not an overall ranking writes each of them
/// once, and the hooks keep every overall entry at its place.
pub proof fn lemma_tie_hooked(
    rs: Seq<Ranking>,
    rotw: Option<RotwCountry>,
    kind: RankingKind,
    snap: Seq<Ranking>,
    positions: Seq<int>,
    up: bool,
)
    requires
        tie_effect(rs, rotw, kind, snap, positions, up) is Ok,
        kind != RankingKind::Overall,
        overall_ranked(rs),
        groups_fit(rs),
        forall|k: int| 0 <= k < positions.len() ==> {
            let j = #[trigger] positions[k];
            &&& 0 <= j < rs.len()
            &&& j < snap.len()
            &&& same_row_key(rs[j], snap[j])
            &&& snap[j].kind == kind
        },
    ensures
        agree_off_overall(tie_effect(rs, rotw, kind, snap, positions, up)->Ok_0, shifted(rs, snap, positions, up)),
        overall_ranked(tie_effect(rs, rotw, kind, snap, positions, up)->Ok_0),
        groups_fit(tie_effect(rs, rotw, kind, snap, positions, up)->Ok_0),
        forall|i: int|
            #![trigger positions.contains(i)]
            positions.contains(i) ==> if up {
                snap[i].rank < u16::MAX
            } else {
                snap[i].rank > 0
            },
    decreases positions.len(),
{
    if positions.len() == 0 {
        assert(tie_effect(rs, rotw, kind, snap, positions, up)->Ok_0 =~= shifted(rs, snap, positions, up));
        assert(agree_off_overall(rs, rs));
    } else {
        let prev = positions.drop_last();
        assert forall|k: int| 0 <= k < prev.len() implies {
            let j = #[trigger] prev[k];
            &&& 0 <= j < rs.len()
            &&& j < snap.len()
            &&& same_row_key(rs[j], snap[j])
            &&& snap[j].kind == kind
        } by {
            assert(prev[k] == positions[k]);
        }
        lemma_tie_hooked(rs, rotw, kind, snap, prev, up);
        let out1 = tie_effect(rs, rotw, kind, snap, prev, up)->Ok_0;
        let sh1 = shifted(rs, snap, prev, up);
        let j = positions.last();
        assert(positions[positions.len() - 1] == j);
        assert(positions.contains(j));
        let q = snap[j];
        let q2 = if up { with_rank(q, q.rank + 1) } else { with_rank(q, q.rank - 1) };
        assert(same_row_key(out1[j], sh1[j]));
        let u = out1.update(j, q2);
        lemma_update_off_overall(out1, j, q2);
        lemma_hook(u, rotw, kind, out1[j], q2);
        let out = after_update_effect(u, rotw, kind, out1[j], q2)->Ok_0;
        assert(tie_effect(rs, rotw, kind, snap, positions, up) == Ok::<Seq<Ranking>, crate::error::VoteError>(out));
        let sh = shifted(rs, snap, positions, up);
        assert(agree_off_overall(u, sh)) by {
            assert forall|i: int| 0 <= i < u.len() implies {
                &&& same_row_key(#[trigger] u[i], sh[i])
                &&& (u[i].kind != RankingKind::Overall ==> u[i] == sh[i])
            } by {
                if i != j {
                    assert(positions.contains(i) == prev.contains(i)) by {
                        if positions.contains(i) {
                            let k = choose|k: int| 0 <= k < positions.len() && positions[k] == i;
                            assert(prev[k] == i);
                        }
                        if prev.contains(i) {
                            let k = choose|k: int| 0 <= k < prev.len() && prev[k] == i;
                            assert(positions[k] == i);
                        }
                    }
                    assert(same_row_key(out1[i], sh1[i]));
                }
            }
        }
        lemma_agree_sym(u, out);
        lemma_agree_trans(out, u, sh);
        assert forall|i: int| #![trigger positions.contains(i)] positions.contains(i) implies if up {
            snap[i].rank < u16::MAX
        } else {
            snap[i].rank > 0
        } by {
            if i != j {
                let k = choose|k: int| 0 <= k < positions.len() && positions[k] == i;
                assert(prev[k] == i);
                assert(prev.contains(i));
            }
        }
    }
}


/// An increment of an entry that is not an overall one does to its group what
/// `incremented` says; its hooks keep every overall entry at its place.
pub proof fn lemma_hooked_increment(rs: Seq<Ranking>, rotw: Option<RotwCountry>, round_id: u16, kind: RankingKind, from: u16, to: u16)
    requires
        increment_effect(rs, rotw, round_id, kind, from, to) is Ok,
        kind != RankingKind::Overall,
        overall_ranked(rs),
        groups_fit(rs),
    ensures
        ({
            let p = lookup(rs, round_id, kind, from, to)->Ok_0;
            let c = count_with_score(rs, round_id, kind, from, rs[p].score + 1) as u16;
            let out = increment_effect(rs, rotw, round_id, kind, from, to)->Ok_0;
            &&& lookup(rs, round_id, kind, from, to) is Ok
            &&& 0 <= p < rs.len()
            &&& has_key(rs[p], round_id, kind, from, to)
            &&& rs[p].score < u32::MAX
            &&& rs[p].rank >= c
            &&& agree_off_overall(out, incremented(rs, p, c))
            &&& overall_ranked(out)
            &&& groups_fit(out)
            &&& forall|j: int|
                0 <= j < rs.len() && j != p && in_group(rs[j], round_id, kind, from) && rs[j].score == rs[p].score
                    ==> #[trigger] rs[j].rank < u16::MAX
        }),
{
    lemma_lookup_found(rs, round_id, kind, from, to);
    let p = lookup(rs, round_id, kind, from, to)->Ok_0;
    let entry = rs[p];
    let s = entry.score as int;
    let c = count_with_score(rs, round_id, kind, from, s + 1) as u16;
    let e1 = with_rank(entry, entry.rank - c);
    let a = rs.update(p, e1);
    lemma_update_off_overall(rs, p, e1);
    assert(after_update_effect(a, rotw, kind, rs[p], e1) is Ok);
    lemma_hook(a, rotw, kind, rs[p], e1);
    let rs_a = after_update_effect(a, rotw, kind, rs[p], e1)->Ok_0;
    assert(same_row_key(a[p], rs_a[p]));
    assert(rs_a[p] == e1);
    let e2 = with_score(e1, s + 1);
    let b = rs_a.update(p, e2);
    lemma_update_off_overall(rs_a, p, e2);
    assert(after_update_effect(b, rotw, kind, rs_a[p], e2) is Ok);
    lemma_hook(b, rotw, kind, rs_a[p], e2);
    let rs2 = after_update_effect(b, rotw, kind, rs_a[p], e2)->Ok_0;
    let cc = rs.update(p, e2);
    assert(a.update(p, e2) =~= cc);
    lemma_agree_update(a, rs_a, p, e2);
    lemma_agree_trans(cc, b, rs2);
    let positions = score_positions(rs2, round_id, kind, from, s, rs2.len() as int);
    assert(increment_effect(rs, rotw, round_id, kind, from, to) == tie_effect(rs2, rotw, kind, rs2, positions, true));
    lemma_score_positions(rs2, round_id, kind, from, s, rs2.len() as int);
    lemma_score_positions_complete(rs2, round_id, kind, from, s, rs2.len() as int);
    lemma_tie_hooked(rs2, rotw, kind, rs2, positions, true);
    let out = increment_effect(rs, rotw, round_id, kind, from, to)->Ok_0;
    let sh = shifted(rs2, rs2, positions, true);
    let inc = incremented(rs, p, c);
    assert(agree_off_overall(sh, inc)) by {
        assert forall|i: int| 0 <= i < sh.len() implies {
            &&& same_row_key(#[trigger] sh[i], inc[i])
            &&& (sh[i].kind != RankingKind::Overall ==> sh[i] == inc[i])
        } by {
            assert(same_row_key(cc[i], rs2[i]));
            if positions.contains(i) {
                let k = choose|k: int| 0 <= k < positions.len() && positions[k] == i;
                assert(in_group(rs2[positions[k]], round_id, kind, from) && rs2[positions[k]].score == s);
                assert(rs2[i] == cc[i]);
            } else if cc[i].kind != RankingKind::Overall {
                assert(rs2[i] == cc[i]);
                if i != p && in_group(rs[i], round_id, kind, from) && rs[i].score == s {
                    assert(positions.contains(i));
                }
            }
        }
    }
    lemma_agree_trans(out, sh, inc);
    assert forall|j: int|
        0 <= j < rs.len() && j != p && in_group(rs[j], round_id, kind, from) && rs[j].score == s implies #[trigger] rs[j].rank
        < u16::MAX by {
        assert(same_row_key(cc[j], rs2[j]));
        assert(rs2[j] == rs[j]);
        assert(positions.contains(j));
    }
}

/// A decrement of an entry that is not an overall one does to its group what
/// `decremented` says; its hooks keep every overall entry at its place.
pub proof fn lemma_hooked_decrement(rs: Seq<Ranking>, rotw: Option<RotwCountry>, round_id: u16, kind: RankingKind, from: u16, to: u16)
    requires
        decrement_effect(rs, rotw, round_id, kind, from, to) is Ok,
        kind != RankingKind::Overall,
        overall_ranked(rs),
        groups_fit(rs),
    ensures
        ({
            let p = lookup(rs, round_id, kind, from, to)->Ok_0;
            let moved = with_score(rs[p], rs[p].score - 1);
            let c = count_with_score(rs.update(p, moved), round_id, kind, from, rs[p].score as int) as u16;
            let out = decrement_effect(rs, rotw, round_id, kind, from, to)->Ok_0;
            &&& lookup(rs, round_id, kind, from, to) is Ok
            &&& 0 <= p < rs.len()
            &&& has_key(rs[p], round_id, kind, from, to)
            &&& rs[p].score > 0
            &&& rs[p].rank + c <= u16::MAX
            &&& agree_off_overall(out, decremented(rs, p, c))
            &&& overall_ranked(out)
            &&& groups_fit(out)
        }),
{
    lemma_lookup_found(rs, round_id, kind, from, to);
    let p = lookup(rs, round_id, kind, from, to)->Ok_0;
    let entry = rs[p];
    let s = entry.score as int;
    let positions = score_positions(rs, round_id, kind, from, s - 1, rs.len() as int);
    lemma_score_positions(rs, round_id, kind, from, s - 1, rs.len() as int);
    lemma_score_positions_complete(rs, round_id, kind, from, s - 1, rs.len() as int);
    assert(tie_effect(rs, rotw, kind, rs, positions, false) is Ok);
    lemma_tie_hooked(rs, rotw, kind, rs, positions, false);
    let rs1 = tie_effect(rs, rotw, kind, rs, positions, false)->Ok_0;
    let sh = shifted(rs, rs, positions, false);
    assert(!positions.contains(p)) by {
        if positions.contains(p) {
            let k = choose|k: int| 0 <= k < positions.len() && positions[k] == p;
            assert(rs[positions[k]].score == s - 1);
        }
    }
    assert(same_row_key(rs1[p], sh[p]));
    let e1 = with_score(entry, s - 1);
    let a = rs1.update(p, e1);
    lemma_update_off_overall(rs1, p, e1);
    assert(after_update_effect(a, rotw, kind, rs1[p], e1) is Ok);
    lemma_hook(a, rotw, kind, rs1[p], e1);
    let rs2 = after_update_effect(a, rotw, kind, rs1[p], e1)->Ok_0;
    let moved = with_score(rs[p], rs[p].score - 1);
    // rs2 agrees off the overall entries with the shifted table that holds the moved entry
    lemma_agree_update(rs1, sh, p, e1);
    lemma_agree_sym(a, rs2);
    lemma_agree_trans(rs2, a, sh.update(p, e1));
    assert forall|i: int| 0 <= i < rs2.len() implies #[trigger] band(rs2[i], round_id, kind, from, s, s)
        == band(rs.update(p, moved)[i], round_id, kind, from, s, s) by {
        assert(same_row_key(rs2[i], sh.update(p, e1)[i]));
        if i != p && positions.contains(i) {
            let k = choose|k: int| 0 <= k < positions.len() && positions[k] == i;
            assert(rs[positions[k]].score == s - 1);
        }
    }
    lemma_count_frame(rs2, rs.update(p, moved), round_id, kind, from, s, s);
    let c = count_with_score(rs2, round_id, kind, from, s) as u16;
    assert(same_row_key(rs2[p], e1));
    let e2 = with_rank(e1, e1.rank + c);
    let b = rs2.update(p, e2);
    lemma_update_off_overall(rs2, p, e2);
    assert(decrement_effect(rs, rotw, round_id, kind, from, to) == after_update_effect(b, rotw, kind, rs2[p], e2));
    lemma_hook(b, rotw, kind, rs2[p], e2);
    let out = decrement_effect(rs, rotw, round_id, kind, from, to)->Ok_0;
    let dec = decremented(rs, p, c);
    lemma_agree_update(rs2, sh.update(p, e1), p, e2);
    assert(sh.update(p, e1).update(p, e2) =~= sh.update(p, e2));
    assert(agree_off_overall(sh.update(p, e2), dec)) by {
        assert forall|i: int| 0 <= i < dec.len() implies {
            &&& same_row_key(#[trigger] sh.update(p, e2)[i], dec[i])
            &&& (sh.update(p, e2)[i].kind != RankingKind::Overall ==> sh.update(p, e2)[i] == dec[i])
        } by {
            if i != p {
                if positions.contains(i) {
                    let k = choose|k: int| 0 <= k < positions.len() && positions[k] == i;
                    assert(in_group(rs[positions[k]], round_id, kind, from));
                } else if in_group(rs[i], round_id, kind, from) && rs[i].score == s - 1 {
                    assert(positions.contains(i));
                }
            }
        }
    }
    lemma_agree_sym(b, out);
    lemma_agree_trans(out, b, sh.update(p, e2));
    lemma_agree_trans(out, sh.update(p, e2), dec);
}

/// In every group, each rank is the number of entries that score higher (the 1224 ranking:
/// tied entries share a place and the next entry skips as many places as were shared):
/// adding a point to an entry keeps it so, and the groups keep their sizes.
pub proof fn law_increment_keeps_ranks(rs: Seq<Ranking>, rotw: Option<RotwCountry>, round_id: u16, kind: RankingKind, from: u16, to: u16)
    requires
        ranks_are_places(rs),
        groups_fit(rs),
        increment_effect(rs, rotw, round_id, kind, from, to) is Ok,
    ensures
        ranks_are_places(increment_effect(rs, rotw, round_id, kind, from, to)->Ok_0),
        groups_fit(increment_effect(rs, rotw, round_id, kind, from, to)->Ok_0),
{
    let out = increment_effect(rs, rotw, round_id, kind, from, to)->Ok_0;
    assert(overall_ranked(rs));
    if kind == RankingKind::Overall {
        lemma_overall_step(rs, rotw, round_id, from, to, true);
        assert forall|i: int| 0 <= i < out.len() implies #[trigger] rank_is_place(out, i) by {
            assert(same_row_key(rs[i], out[i]));
            if out[i].kind != RankingKind::Overall {
                assert(rank_is_place(rs, i));
                lemma_agree_counts(rs, out, out[i].round_id, out[i].kind, out[i].from_country_id, out[i].score + 1, u32::MAX as int);
            }
        }
    } else {
        lemma_hooked_increment(rs, rotw, round_id, kind, from, to);
        let p = lookup(rs, round_id, kind, from, to)->Ok_0;
        let s = rs[p].score as int;
        let cnt = count_with_score(rs, round_id, kind, from, s + 1);
        let c = cnt as u16;
        let inc = incremented(rs, p, c);
        assert(rank_is_place(rs, p));
        lemma_count_split(rs, round_id, kind, from, s + 1, s + 1, u32::MAX as int);
        assert(c as int == cnt);
        assert forall|i: int| 0 <= i < rs.len() && in_group(rs[i], round_id, kind, from) implies #[trigger] rank_is_place(rs, i) by {}
        lemma_incremented_places(rs, p, c);
        assert forall|i: int| 0 <= i < out.len() implies #[trigger] rank_is_place(out, i) by {
            assert(same_row_key(out[i], inc[i]));
            if out[i].kind != RankingKind::Overall {
                lemma_agree_counts(out, inc, out[i].round_id, out[i].kind, out[i].from_country_id, out[i].score + 1, u32::MAX as int);
                if in_group(rs[i], round_id, kind, from) {
                    assert(in_group(inc[i], round_id, kind, from));
                    assert(rank_is_place(inc, i));
                } else {
                    assert(rank_is_place(rs, i));
                    assert(rank_is_place(inc, i));
                }
            } else {
                assert(rank_is_place(out, i));
            }
        }
    }
}

/// Taking a point from an entry keeps every rank equal to the number of entries of its
/// group that score higher, as long as the groups fit the ranks.
pub proof fn law_decrement_keeps_ranks(rs: Seq<Ranking>, rotw: Option<RotwCountry>, round_id: u16, kind: RankingKind, from: u16, to: u16)
    requires
        ranks_are_places(rs),
        groups_fit(rs),
        decrement_effect(rs, rotw, round_id, kind, from, to) is Ok,
    ensures
        ranks_are_places(decrement_effect(rs, rotw, round_id, kind, from, to)->Ok_0),
        groups_fit(decrement_effect(rs, rotw, round_id, kind, from, to)->Ok_0),
{
    let out = decrement_effect(rs, rotw, round_id, kind, from, to)->Ok_0;
    assert(overall_ranked(rs));
    if kind == RankingKind::Overall {
        lemma_overall_step(rs, rotw, round_id, from, to, false);
        assert forall|i: int| 0 <= i < out.len() implies #[trigger] rank_is_place(out, i) by {
            assert(same_row_key(rs[i], out[i]));
            if out[i].kind != RankingKind::Overall {
                assert(rank_is_place(rs, i));
                lemma_agree_counts(rs, out, out[i].round_id, out[i].kind, out[i].from_country_id, out[i].score + 1, u32::MAX as int);
            }
        }
    } else {
        lemma_hooked_decrement(rs, rotw, round_id, kind, from, to);
        let p = lookup(rs, round_id, kind, from, to)->Ok_0;
        let s = rs[p].score as int;
        let moved = with_score(rs[p], rs[p].score - 1);
        let cnt = count_with_score(rs.update(p, moved), round_id, kind, from, s);
        let c = cnt as u16;
        let dec = decremented(rs, p, c);
        lemma_count_update(rs, p, moved, round_id, kind, from, s, s);
        lemma_count_sub_band(rs, round_id, kind, from, s, s);
        assert(count_in_band(rs, rs[p].round_id, rs[p].kind, rs[p].from_country_id, 0, u32::MAX as int) <= u16::MAX + 1);
        assert(c as int == cnt);
        assert forall|i: int| 0 <= i < rs.len() && in_group(rs[i], round_id, kind, from) implies #[trigger] rank_is_place(rs, i) by {}
        lemma_decremented_places(rs, p, c);
        assert forall|i: int| 0 <= i < out.len() implies #[trigger] rank_is_place(out, i) by {
            assert(same_row_key(out[i], dec[i]));
            if out[i].kind != RankingKind::Overall {
                lemma_agree_counts(out, dec, out[i].round_id, out[i].kind, out[i].from_country_id, out[i].score + 1, u32::MAX as int);
                if in_group(rs[i], round_id, kind, from) {
                    assert(in_group(dec[i], round_id, kind, from));
                    assert(rank_is_place(dec, i));
                } else {
                    assert(rank_is_place(rs, i));
                    assert(rank_is_place(dec, i));
                }
            } else {
                assert(rank_is_place(out, i));
            }
        }
    }
}

} // verus!
