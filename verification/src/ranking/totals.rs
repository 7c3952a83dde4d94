use vstd::prelude::*;

use crate::country::RotwCountry;
use crate::ranking::laws::{lemma_lookup_found, lemma_overall_decrement, lemma_overall_increment};
use crate::ranking::{
    after_update_effect, decrement_effect, has_key, increment_effect, key_repeated, lemma_same_entries_trans,
    lemma_score_positions, lookup, magnitude, overall_adjust, points, same_entries, same_row_key, score_positions,
    tie_effect, with_rank, with_score, Ranking, RankingKind,
};

verus! {

/// What an entry gives a receiver in a round towards its overall score: the points of a
/// televote or jury entry of that round for that receiver, nothing for any other entry.
pub open spec fn owed_by(r: Ranking, round_id: u16, to: u16) -> int {
    if r.kind != RankingKind::Overall && r.round_id == round_id && r.to_country_id == to {
        points(r)
    } else {
        0
    }
}

/// The points that all televote and jury entries of a round give a receiver.
pub open spec fn points_owed(rs: Seq<Ranking>, round_id: u16, to: u16) -> int
    decreases rs.len(),
{
    if rs.len() == 0 {
        0
    } else {
        points_owed(rs.drop_last(), round_id, to) + owed_by(rs.last(), round_id, to)
    }
}

/// The entry at `i`, if it is an overall one kept under the Rest of the World (`rotw_from`),
/// holds as its score the points that its receiver got in its round.
pub open spec fn total_at(rs: Seq<Ranking>, i: int, rotw_from: u16) -> bool {
    rs[i].kind == RankingKind::Overall && rs[i].from_country_id == rotw_from ==> rs[i].score
        == points_owed(rs, rs[i].round_id, rs[i].to_country_id)
}

/// Every overall entry kept under the Rest of the World holds its receiver's points.
pub open spec fn totals_hold(rs: Seq<Ranking>, rotw_from: u16) -> bool {
    forall|i: int| 0 <= i < rs.len() ==> #[trigger] total_at(rs, i, rotw_from)
}

/// `out` has the rows of `rs` in their places, its televote and jury entries unchanged, and
/// only the overall entry of `from` and `to` in the round moved, by `d`.
#[verifier::opaque]
pub open spec fn overall_moved(rs: Seq<Ranking>, out: Seq<Ranking>, round_id: u16, from: u16, to: u16, d: int) -> bool {
    &&& same_entries(rs, out)
    &&& forall|i: int|
        #![trigger out[i]]
        0 <= i < rs.len() ==> {
            &&& (rs[i].kind != RankingKind::Overall ==> out[i] == rs[i])
            &&& out[i].score == rs[i].score + if has_key(rs[i], round_id, RankingKind::Overall, from, to) {
                d
            } else {
                0
            }
        }
}

/// Changing one entry changes what a receiver is owed by what that entry gave.
pub proof fn lemma_owed_update(rs: Seq<Ranking>, i: int, x: Ranking, round_id: u16, to: u16)
    requires
        0 <= i < rs.len(),
    ensures
        points_owed(rs.update(i, x), round_id, to) + owed_by(rs[i], round_id, to) == points_owed(rs, round_id, to)
            + owed_by(x, round_id, to),
    decreases rs.len(),
{
    let rs2 = rs.update(i, x);
    if i == rs.len() - 1 {
        assert(rs2.drop_last() =~= rs.drop_last());
    } else {
        assert(rs2.drop_last() =~= rs.drop_last().update(i, x));
        lemma_owed_update(rs.drop_last(), i, x, round_id, to);
    }
}

/// Tables whose entries give, place by place, the same are owing the same.
pub proof fn lemma_owed_frame(a: Seq<Ranking>, b: Seq<Ranking>, round_id: u16, to: u16)
    requires
        a.len() == b.len(),
        forall|i: int| 0 <= i < a.len() ==> #[trigger] owed_by(a[i], round_id, to) == owed_by(b[i], round_id, to),
    ensures
        points_owed(a, round_id, to) == points_owed(b, round_id, to),
    decreases a.len(),
{
    if a.len() > 0 {
        let n = a.len() - 1;
        assert(owed_by(a[n], round_id, to) == owed_by(b[n], round_id, to));
        assert forall|i: int| 0 <= i < a.drop_last().len() implies #[trigger] owed_by(a.drop_last()[i], round_id, to)
            == owed_by(b.drop_last()[i], round_id, to) by {
            assert(owed_by(a[i], round_id, to) == owed_by(b[i], round_id, to));
        }
        lemma_owed_frame(a.drop_last(), b.drop_last(), round_id, to);
    }
}

/// The entry that a lookup finds is the only one with its key.
pub proof fn lemma_lookup_unique(rs: Seq<Ranking>, round_id: u16, kind: RankingKind, from: u16, to: u16, i: int)
    requires
        lookup(rs, round_id, kind, from, to) is Ok,
        0 <= i < rs.len(),
        has_key(rs[i], round_id, kind, from, to),
    ensures
        i == lookup(rs, round_id, kind, from, to)->Ok_0,
{
    lemma_lookup_found(rs, round_id, kind, from, to);
    let p = lookup(rs, round_id, kind, from, to)->Ok_0;
    assert(!key_repeated(rs, round_id, kind, from, to));
    if i < p {
        assert(has_key(rs[i], round_id, kind, from, to) && has_key(rs[p], round_id, kind, from, to));
    } else if p < i {
        assert(has_key(rs[p], round_id, kind, from, to) && has_key(rs[i], round_id, kind, from, to));
    }
}

/// Moving an overall entry by `d` points adds `d` to its score and to no other score; the
/// rows stay in their places and only overall entries change.
pub proof fn lemma_adjust_scores(rs: Seq<Ranking>, rotw: Option<RotwCountry>, round_id: u16, from: u16, to: u16, d: int)
    requires
        overall_adjust(rs, rotw, round_id, from, to, d) is Ok,
    ensures
        ({
            let out = overall_adjust(rs, rotw, round_id, from, to, d)->Ok_0;
            &&& same_entries(rs, out)
            &&& forall|i: int|
                #![trigger out[i]]
                0 <= i < rs.len() ==> {
                    &&& (rs[i].kind != RankingKind::Overall ==> out[i] == rs[i])
                    &&& out[i].score == rs[i].score + if has_key(rs[i], round_id, RankingKind::Overall, from, to) {
                        d
                    } else {
                        0
                    }
                }
        }),
    decreases magnitude(d),
{
    let kind = RankingKind::Overall;
    if d == 0 {
        let out = overall_adjust(rs, rotw, round_id, from, to, d)->Ok_0;
        assert(out == rs);
    } else {
        let rs2 = if d > 0 {
            lemma_overall_increment(rs, rotw, round_id, from, to);
            increment_effect(rs, rotw, round_id, kind, from, to)->Ok_0
        } else {
            lemma_overall_decrement(rs, rotw, round_id, from, to);
            decrement_effect(rs, rotw, round_id, kind, from, to)->Ok_0
        };
        let step: int = if d > 0 {
            1
        } else {
            -1
        };
        let p = lookup(rs, round_id, kind, from, to)->Ok_0;
        assert forall|i: int|
            #![trigger rs2[i]]
            0 <= i < rs.len() implies {
            &&& same_row_key(rs[i], rs2[i])
            &&& (rs[i].kind != RankingKind::Overall ==> rs2[i] == rs[i])
            &&& rs2[i].score == rs[i].score + if i == p {
                step
            } else {
                0
            }
            &&& (has_key(rs[i], round_id, kind, from, to) <==> i == p)
        } by {
            if has_key(rs[i], round_id, kind, from, to) {
                lemma_lookup_unique(rs, round_id, kind, from, to, i);
            }
        }
        assert(same_entries(rs, rs2));
        let d2 = d - step;
        assert(overall_adjust(rs, rotw, round_id, from, to, d) == overall_adjust(rs2, rotw, round_id, from, to, d2));
        lemma_adjust_scores(rs2, rotw, round_id, from, to, d2);
        let out = overall_adjust(rs2, rotw, round_id, from, to, d2)->Ok_0;
        lemma_same_entries_trans(rs, rs2, out);
        assert forall|i: int| #![trigger out[i]] 0 <= i < rs.len() implies {
            &&& (rs[i].kind != RankingKind::Overall ==> out[i] == rs[i])
            &&& out[i].score == rs[i].score + if has_key(rs[i], round_id, kind, from, to) {
                d
            } else {
                0
            }
        } by {
            assert(rs2[i].score == rs[i].score + if i == p {
                step
            } else {
                0
            });
            assert(has_key(rs2[i], round_id, kind, from, to) == has_key(rs[i], round_id, kind, from, to));
        }
    }
}

/// The hook after one televote or jury entry changed keeps every overall entry at its
/// receiver's points: it moves the receiver's overall score by the change in points.
pub proof fn lemma_hook_totals(rs: Seq<Ranking>, rotw: Option<RotwCountry>, kind: RankingKind, j: int, new: Ranking)
    requires
        0 <= j < rs.len(),
        rs[j].kind == kind,
        kind != RankingKind::Overall,
        same_row_key(rs[j], new),
        totals_hold(rs, rotw->Some_0.country_id),
        after_update_effect(rs.update(j, new), rotw, kind, rs[j], new) is Ok,
    ensures
        same_entries(rs, after_update_effect(rs.update(j, new), rotw, kind, rs[j], new)->Ok_0),
        totals_hold(after_update_effect(rs.update(j, new), rotw, kind, rs[j], new)->Ok_0, rotw->Some_0.country_id),
{
    let c = rotw->Some_0.country_id;
    let old = rs[j];
    let u = rs.update(j, new);
    let d = points(new) - points(old);
    let round_id = old.round_id;
    let to = old.to_country_id;
    assert(after_update_effect(u, rotw, kind, old, new) == overall_adjust(u, rotw, round_id, c, to, d));
    lemma_adjust_scores(u, rotw, round_id, c, to, d);
    let out = overall_adjust(u, rotw, round_id, c, to, d)->Ok_0;
    assert(same_entries(rs, u));
    lemma_same_entries_trans(rs, u, out);
    assert forall|i: int| 0 <= i < out.len() implies #[trigger] total_at(out, i, c) by {
        if out[i].kind == RankingKind::Overall && out[i].from_country_id == c {
            let r2 = out[i].round_id;
            let t2 = out[i].to_country_id;
            assert(out[i].score == u[i].score + if has_key(u[i], round_id, RankingKind::Overall, c, to) {
                d
            } else {
                0
            });
            assert(u[i].id == out[i].id);
            assert(rs[i].id == u[i].id);
            assert(i != j);
            assert(total_at(rs, i, c));
            assert(rs[i].score == points_owed(rs, r2, t2));
            assert forall|k: int| 0 <= k < out.len() implies #[trigger] owed_by(out[k], r2, t2) == owed_by(u[k], r2, t2) by {
                assert(u[k].id == out[k].id);
            }
            lemma_owed_frame(out, u, r2, t2);
            lemma_owed_update(rs, j, new, r2, t2);
            assert(has_key(u[i], round_id, RankingKind::Overall, c, to) <==> (r2 == round_id && t2 == to));
            assert(points_owed(u, r2, t2) == points_owed(rs, r2, t2) + if r2 == round_id && t2 == to {
                d
            } else {
                0
            });
        }
    }
}

/// Moving the tied entries of a televote or jury ranking one place, each update followed by
/// its hook, keeps every overall entry at its receiver's points.
pub proof fn lemma_tie_totals(
    rs: Seq<Ranking>,
    rotw: Option<RotwCountry>,
    kind: RankingKind,
    snap: Seq<Ranking>,
    positions: Seq<int>,
    up: bool,
)
    requires
        tie_effect(rs, rotw, kind, snap, positions, up) is Ok,
        kind != RankingKind::Overall,
        totals_hold(rs, rotw->Some_0.country_id),
        forall|k: int| 0 <= k < positions.len() ==> {
            let j = #[trigger] positions[k];
            &&& 0 <= j < rs.len()
            &&& j < snap.len()
            &&& same_row_key(rs[j], snap[j])
            &&& snap[j].kind == kind
        },
    ensures
        same_entries(rs, tie_effect(rs, rotw, kind, snap, positions, up)->Ok_0),
        totals_hold(tie_effect(rs, rotw, kind, snap, positions, up)->Ok_0, rotw->Some_0.country_id),
    decreases positions.len(),
{
    if positions.len() == 0 {
        assert(same_entries(rs, rs));
    } else {
        let prev = positions.drop_last();
        assert forall|k: int| 0 <= k < prev.len() implies {
            let j = #[trigger] prev[k];
            &&& 0 <= j < rs.len()
            &&& j < snap.len()
            &&& same_row_key(rs[j], snap[j])
            &&& snap[j].kind == kind
        } by {
            assert(prev[k] == positions[k]);
        }
        lemma_tie_totals(rs, rotw, kind, snap, prev, up);
        let out1 = tie_effect(rs, rotw, kind, snap, prev, up)->Ok_0;
        let j = positions.last();
        assert(positions[positions.len() - 1] == j);
        let q = snap[j];
        let q2 = if up {
            with_rank(q, q.rank + 1)
        } else {
            with_rank(q, q.rank - 1)
        };
        assert(out1[j].id == rs[j].id);
        assert(same_row_key(out1[j], q2));
        assert(tie_effect(rs, rotw, kind, snap, positions, up) == after_update_effect(
            out1.update(j, q2),
            rotw,
            kind,
            out1[j],
            q2,
        ));
        lemma_hook_totals(out1, rotw, kind, j, q2);
        lemma_same_entries_trans(rs, out1, after_update_effect(out1.update(j, q2), rotw, kind, out1[j], q2)->Ok_0);
    }
}

/// A country's overall score in a round is the sum of the televote and jury points it got
/// there: one more televote or jury point for an entry, with every update it makes and the
/// hooks that follow them, keeps every overall entry kept under the Rest of the World at
/// that sum.
pub proof fn law_increment_keeps_totals(
    rs: Seq<Ranking>,
    rotw: RotwCountry,
    round_id: u16,
    kind: RankingKind,
    from: u16,
    to: u16,
)
    requires
        kind != RankingKind::Overall,
        totals_hold(rs, rotw.country_id),
        increment_effect(rs, Some(rotw), round_id, kind, from, to) is Ok,
    ensures
        totals_hold(increment_effect(rs, Some(rotw), round_id, kind, from, to)->Ok_0, rotw.country_id),
{
    let o = Some(rotw);
    lemma_lookup_found(rs, round_id, kind, from, to);
    let p = lookup(rs, round_id, kind, from, to)->Ok_0;
    let entry = rs[p];
    let s = entry.score as int;
    let c = crate::ranking::count_with_score(rs, round_id, kind, from, s + 1) as u16;
    let e1 = with_rank(entry, entry.rank - c);
    lemma_hook_totals(rs, o, kind, p, e1);
    let rs1 = after_update_effect(rs.update(p, e1), o, kind, rs[p], e1)->Ok_0;
    let e2 = with_score(e1, s + 1);
    assert(rs1[p].id == rs[p].id);
    lemma_hook_totals(rs1, o, kind, p, e2);
    let rs2 = after_update_effect(rs1.update(p, e2), o, kind, rs1[p], e2)->Ok_0;
    let positions = score_positions(rs2, round_id, kind, from, s, rs2.len() as int);
    lemma_score_positions(rs2, round_id, kind, from, s, rs2.len() as int);
    assert(increment_effect(rs, o, round_id, kind, from, to) == tie_effect(rs2, o, kind, rs2, positions, true));
    lemma_tie_totals(rs2, o, kind, rs2, positions, true);
}

/// One televote or jury point less for an entry keeps every overall entry kept under the
/// Rest of the World at the sum of the televote and jury points of its receiver.
pub proof fn law_decrement_keeps_totals(
    rs: Seq<Ranking>,
    rotw: RotwCountry,
    round_id: u16,
    kind: RankingKind,
    from: u16,
    to: u16,
)
    requires
        kind != RankingKind::Overall,
        totals_hold(rs, rotw.country_id),
        decrement_effect(rs, Some(rotw), round_id, kind, from, to) is Ok,
    ensures
        totals_hold(decrement_effect(rs, Some(rotw), round_id, kind, from, to)->Ok_0, rotw.country_id),
{
    let o = Some(rotw);
    lemma_lookup_found(rs, round_id, kind, from, to);
    let p = lookup(rs, round_id, kind, from, to)->Ok_0;
    let entry = rs[p];
    let s = entry.score as int;
    let positions = score_positions(rs, round_id, kind, from, s - 1, rs.len() as int);
    lemma_score_positions(rs, round_id, kind, from, s - 1, rs.len() as int);
    lemma_tie_totals(rs, o, kind, rs, positions, false);
    let rs1 = tie_effect(rs, o, kind, rs, positions, false)->Ok_0;
    let e1 = with_score(entry, s - 1);
    assert(rs1[p].id == rs[p].id);
    lemma_hook_totals(rs1, o, kind, p, e1);
    let rs2 = after_update_effect(rs1.update(p, e1), o, kind, rs1[p], e1)->Ok_0;
    lemma_same_entries_trans(rs, rs1, rs2);
    let c = crate::ranking::count_with_score(rs2, round_id, kind, from, s) as u16;
    let e2 = with_rank(e1, e1.rank + c);
    assert(rs2[p].id == rs[p].id);
    lemma_hook_totals(rs2, o, kind, p, e2);
}

} // verus!
