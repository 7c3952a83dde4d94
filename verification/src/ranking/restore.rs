use vstd::prelude::*;

use crate::country::RotwCountry;
use crate::ranking::laws::{
    agree_off_overall, band, decremented, groups_fit, incremented, lemma_count_frame, lemma_hooked_decrement,
    lemma_hooked_increment, law_decrement_keeps_ranks, law_increment_keeps_ranks, overall_ranked, rank_is_place,
    ranks_are_places,
};
use crate::ranking::totals::{
    law_decrement_keeps_totals, law_increment_keeps_totals, lemma_lookup_unique, lemma_owed_frame, owed_by, total_at,
    totals_hold,
};
use crate::ranking::{
    decrement_effect, has_key, in_group, increment_effect, lookup, same_entries, Ranking, RankingKind,
};

verus! {

/// Every overall entry is kept under the Rest of the World (`rotw_from`).
pub open spec fn overall_under(rs: Seq<Ranking>, rotw_from: u16) -> bool {
    forall|i: int| 0 <= i < rs.len() && #[trigger] rs[i].kind == RankingKind::Overall ==> rs[i].from_country_id == rotw_from
}

/// Entries agree on their rows and their group counts agree on scores in the band.
proof fn lemma_counts_agree(a: Seq<Ranking>, b: Seq<Ranking>, round_id: u16, kind: RankingKind, from: u16, lo: int, hi: int)
    requires
        same_entries(a, b),
        forall|j: int| 0 <= j < a.len() && in_group(a[j], round_id, kind, from) ==> #[trigger] a[j].score == b[j].score,
    ensures
        crate::ranking::count_in_band(a, round_id, kind, from, lo, hi) == crate::ranking::count_in_band(
            b,
            round_id,
            kind,
            from,
            lo,
            hi,
        ),
{
    assert forall|j: int| 0 <= j < a.len() implies #[trigger] band(a[j], round_id, kind, from, lo, hi) == band(
        b[j],
        round_id,
        kind,
        from,
        lo,
        hi,
    ) by {
        assert(a[j].id == b[j].id);
    }
    lemma_count_frame(a, b, round_id, kind, from, lo, hi);
}

/// Rankings whose ranks are places and whose overall scores are the points of their
/// receivers are fixed by the rows and by the scores of the televote and jury entries.
pub proof fn lemma_sound_rankings_determined(a: Seq<Ranking>, b: Seq<Ranking>, rotw_from: u16)
    requires
        same_entries(a, b),
        ranks_are_places(a),
        ranks_are_places(b),
        totals_hold(a, rotw_from),
        totals_hold(b, rotw_from),
        overall_under(a, rotw_from),
        forall|i: int| 0 <= i < a.len() && a[i].kind != RankingKind::Overall ==> #[trigger] a[i].score == b[i].score,
    ensures
        a == b,
{
    // the televote and jury entries agree
    assert forall|i: int| 0 <= i < a.len() && a[i].kind != RankingKind::Overall implies #[trigger] a[i] == b[i] by {
        let r = a[i];
        assert(a[i].id == b[i].id);
        assert forall|j: int| 0 <= j < a.len() && in_group(a[j], r.round_id, r.kind, r.from_country_id) implies #[trigger] a[j].score
            == b[j].score by {
            assert(a[j].kind != RankingKind::Overall);
        }
        lemma_counts_agree(a, b, r.round_id, r.kind, r.from_country_id, r.score + 1, u32::MAX as int);
        assert(rank_is_place(a, i));
        assert(rank_is_place(b, i));
    }
    // so do the points they give and the overall scores
    assert forall|i: int| 0 <= i < a.len() implies #[trigger] a[i].score == b[i].score by {
        assert(a[i].id == b[i].id);
        if a[i].kind == RankingKind::Overall {
            let round_id = a[i].round_id;
            let to = a[i].to_country_id;
            assert forall|j: int| 0 <= j < a.len() implies #[trigger] owed_by(a[j], round_id, to) == owed_by(b[j], round_id, to) by {
                assert(a[j].id == b[j].id);
                if a[j].kind != RankingKind::Overall {
                    assert(a[j] == b[j]);
                }
            }
            lemma_owed_frame(a, b, round_id, to);
            assert(total_at(a, i, rotw_from));
            assert(total_at(b, i, rotw_from));
        }
    }
    // and the overall ranks
    assert forall|i: int| 0 <= i < a.len() implies #[trigger] a[i] == b[i] by {
        let r = a[i];
        assert(a[i].id == b[i].id);
        assert(a[i].score == b[i].score);
        if r.kind == RankingKind::Overall {
            assert forall|j: int| 0 <= j < a.len() && in_group(a[j], r.round_id, r.kind, r.from_country_id) implies #[trigger] a[j].score
                == b[j].score by {
                assert(a[j].score == b[j].score);
            }
            lemma_counts_agree(a, b, r.round_id, r.kind, r.from_country_id, r.score + 1, u32::MAX as int);
            assert(rank_is_place(a, i));
            assert(rank_is_place(b, i));
        }
    }
    assert(a =~= b);
}

/// The rankings are sound: ranks are places, groups fit the ranks, every overall entry is
/// kept under the Rest of the World and holds the points of its receiver.
pub open spec fn sound(rs: Seq<Ranking>, rotw_from: u16) -> bool {
    &&& ranks_are_places(rs)
    &&& groups_fit(rs)
    &&& totals_hold(rs, rotw_from)
    &&& overall_under(rs, rotw_from)
}

/// A televote or jury point given and then taken back leaves sound rankings as they were.
pub proof fn law_increment_then_decrement(
    rs: Seq<Ranking>,
    rotw: RotwCountry,
    round_id: u16,
    kind: RankingKind,
    from: u16,
    to: u16,
)
    requires
        kind != RankingKind::Overall,
        sound(rs, rotw.country_id),
        increment_effect(rs, Some(rotw), round_id, kind, from, to) is Ok,
        decrement_effect(increment_effect(rs, Some(rotw), round_id, kind, from, to)->Ok_0, Some(rotw), round_id, kind, from, to) is Ok,
    ensures
        decrement_effect(increment_effect(rs, Some(rotw), round_id, kind, from, to)->Ok_0, Some(rotw), round_id, kind, from, to)->Ok_0
            == rs,
{
    let o = Some(rotw);
    let c = rotw.country_id;
    let mid = increment_effect(rs, o, round_id, kind, from, to)->Ok_0;
    let out = decrement_effect(mid, o, round_id, kind, from, to)->Ok_0;
    assert(overall_ranked(rs));
    lemma_hooked_increment(rs, o, round_id, kind, from, to);
    law_increment_keeps_ranks(rs, o, round_id, kind, from, to);
    law_increment_keeps_totals(rs, rotw, round_id, kind, from, to);
    let p = lookup(rs, round_id, kind, from, to)->Ok_0;
    let ci = crate::ranking::count_with_score(rs, round_id, kind, from, rs[p].score + 1) as u16;
    let inc = incremented(rs, p, ci);
    assert(overall_ranked(mid));
    lemma_hooked_decrement(mid, o, round_id, kind, from, to);
    law_decrement_keeps_ranks(mid, o, round_id, kind, from, to);
    law_decrement_keeps_totals(mid, rotw, round_id, kind, from, to);
    let q = lookup(mid, round_id, kind, from, to)->Ok_0;
    let moved = crate::ranking::with_score(mid[q], mid[q].score - 1);
    let cd = crate::ranking::count_with_score(mid.update(q, moved), round_id, kind, from, mid[q].score as int) as u16;
    let dec = decremented(mid, q, cd);
    // the entry is found at the same place both times
    assert(agree_off_overall(mid, inc));
    assert(crate::ranking::same_row_key(mid[p], inc[p]));
    lemma_lookup_unique(mid, round_id, kind, from, to, p);
    assert(q == p);
    // the rows stay, and the televote and jury scores come back
    assert(same_entries(rs, out)) by {
        assert forall|i: int| 0 <= i < rs.len() implies {
            &&& #[trigger] rs[i].id == out[i].id
            &&& rs[i].round_id == out[i].round_id
            &&& rs[i].kind == out[i].kind
            &&& rs[i].from_country_id == out[i].from_country_id
            &&& rs[i].to_country_id == out[i].to_country_id
        } by {
            assert(crate::ranking::same_row_key(mid[i], inc[i]));
            assert(crate::ranking::same_row_key(out[i], dec[i]));
        }
    }
    assert forall|i: int| 0 <= i < rs.len() && rs[i].kind != RankingKind::Overall implies #[trigger] rs[i].score
        == out[i].score by {
        assert(crate::ranking::same_row_key(mid[i], inc[i]));
        assert(crate::ranking::same_row_key(out[i], dec[i]));
        assert(mid[i] == inc[i]);
        assert(out[i] == dec[i]);
    }
    assert(overall_under(out, c)) by {
        assert forall|i: int| 0 <= i < out.len() && #[trigger] out[i].kind == RankingKind::Overall implies out[i].from_country_id
            == c by {
            assert(rs[i].id == out[i].id);
            assert(rs[i].kind == RankingKind::Overall);
        }
    }
    assert(overall_under(rs, c));
    lemma_sound_rankings_determined(out, rs, c);
}

/// A televote or jury point taken and then given back leaves sound rankings as they were.
pub proof fn law_decrement_then_increment(
    rs: Seq<Ranking>,
    rotw: RotwCountry,
    round_id: u16,
    kind: RankingKind,
    from: u16,
    to: u16,
)
    requires
        kind != RankingKind::Overall,
        sound(rs, rotw.country_id),
        decrement_effect(rs, Some(rotw), round_id, kind, from, to) is Ok,
        increment_effect(decrement_effect(rs, Some(rotw), round_id, kind, from, to)->Ok_0, Some(rotw), round_id, kind, from, to) is Ok,
    ensures
        increment_effect(decrement_effect(rs, Some(rotw), round_id, kind, from, to)->Ok_0, Some(rotw), round_id, kind, from, to)->Ok_0
            == rs,
{
    let o = Some(rotw);
    let c = rotw.country_id;
    let mid = decrement_effect(rs, o, round_id, kind, from, to)->Ok_0;
    let out = increment_effect(mid, o, round_id, kind, from, to)->Ok_0;
    assert(overall_ranked(rs));
    lemma_hooked_decrement(rs, o, round_id, kind, from, to);
    law_decrement_keeps_ranks(rs, o, round_id, kind, from, to);
    law_decrement_keeps_totals(rs, rotw, round_id, kind, from, to);
    let p = lookup(rs, round_id, kind, from, to)->Ok_0;
    let moved = crate::ranking::with_score(rs[p], rs[p].score - 1);
    let cd = crate::ranking::count_with_score(rs.update(p, moved), round_id, kind, from, rs[p].score as int) as u16;
    let dec = decremented(rs, p, cd);
    assert(overall_ranked(mid));
    lemma_hooked_increment(mid, o, round_id, kind, from, to);
    law_increment_keeps_ranks(mid, o, round_id, kind, from, to);
    law_increment_keeps_totals(mid, rotw, round_id, kind, from, to);
    let q = lookup(mid, round_id, kind, from, to)->Ok_0;
    let ci = crate::ranking::count_with_score(mid, round_id, kind, from, mid[q].score + 1) as u16;
    let inc = incremented(mid, q, ci);
    // the entry is found at the same place both times
    assert(agree_off_overall(mid, dec));
    assert(crate::ranking::same_row_key(mid[p], dec[p]));
    lemma_lookup_unique(mid, round_id, kind, from, to, p);
    assert(q == p);
    // the rows stay, and the televote and jury scores come back
    assert(same_entries(rs, out)) by {
        assert forall|i: int| 0 <= i < rs.len() implies {
            &&& #[trigger] rs[i].id == out[i].id
            &&& rs[i].round_id == out[i].round_id
            &&& rs[i].kind == out[i].kind
            &&& rs[i].from_country_id == out[i].from_country_id
            &&& rs[i].to_country_id == out[i].to_country_id
        } by {
            assert(crate::ranking::same_row_key(mid[i], dec[i]));
            assert(crate::ranking::same_row_key(out[i], inc[i]));
        }
    }
    assert forall|i: int| 0 <= i < rs.len() && rs[i].kind != RankingKind::Overall implies #[trigger] rs[i].score
        == out[i].score by {
        assert(crate::ranking::same_row_key(mid[i], dec[i]));
        assert(crate::ranking::same_row_key(out[i], inc[i]));
        assert(mid[i] == dec[i]);
        assert(out[i] == inc[i]);
    }
    assert(overall_under(out, c)) by {
        assert forall|i: int| 0 <= i < out.len() && #[trigger] out[i].kind == RankingKind::Overall implies out[i].from_country_id
            == c by {
            assert(rs[i].id == out[i].id);
            assert(rs[i].kind == RankingKind::Overall);
        }
    }
    lemma_sound_rankings_determined(out, rs, c);
}

/// `out` has the rows of `rs` in their places, and its televote and jury scores are those
/// of `rs` but for the entry with the key, moved by `d`.
pub open spec fn scores_moved(rs: Seq<Ranking>, out: Seq<Ranking>, round_id: u16, kind: RankingKind, from: u16, to: u16, d: int) -> bool {
    &&& same_entries(rs, out)
    &&& forall|i: int|
        0 <= i < rs.len() && rs[i].kind != RankingKind::Overall ==> #[trigger] out[i].score == rs[i].score + if has_key(
            rs[i],
            round_id,
            kind,
            from,
            to,
        ) {
            d
        } else {
            0int
        }
}

/// One televote or jury point more or less moves the score of its entry by one and the
/// score of no other televote or jury entry; the rows stay in their places.
pub proof fn lemma_step_scores(
    rs: Seq<Ranking>,
    rotw: Option<RotwCountry>,
    round_id: u16,
    kind: RankingKind,
    from: u16,
    to: u16,
    up: bool,
)
    requires
        kind != RankingKind::Overall,
        overall_ranked(rs),
        groups_fit(rs),
        up ==> increment_effect(rs, rotw, round_id, kind, from, to) is Ok,
        !up ==> decrement_effect(rs, rotw, round_id, kind, from, to) is Ok,
    ensures
        up ==> scores_moved(rs, increment_effect(rs, rotw, round_id, kind, from, to)->Ok_0, round_id, kind, from, to, 1),
        !up ==> scores_moved(rs, decrement_effect(rs, rotw, round_id, kind, from, to)->Ok_0, round_id, kind, from, to, -1),
{
    let p = lookup(rs, round_id, kind, from, to)->Ok_0;
    if up {
        lemma_hooked_increment(rs, rotw, round_id, kind, from, to);
        let out = increment_effect(rs, rotw, round_id, kind, from, to)->Ok_0;
        let c = crate::ranking::count_with_score(rs, round_id, kind, from, rs[p].score + 1) as u16;
        let inc = incremented(rs, p, c);
        assert forall|i: int| 0 <= i < rs.len() implies {
            &&& #[trigger] rs[i].id == out[i].id
            &&& rs[i].round_id == out[i].round_id
            &&& rs[i].kind == out[i].kind
            &&& rs[i].from_country_id == out[i].from_country_id
            &&& rs[i].to_country_id == out[i].to_country_id
        } by {
            assert(crate::ranking::same_row_key(out[i], inc[i]));
        }
        assert forall|i: int| 0 <= i < rs.len() && rs[i].kind != RankingKind::Overall implies #[trigger] out[i].score
            == rs[i].score + if has_key(rs[i], round_id, kind, from, to) {
            1int
        } else {
            0int
        } by {
            assert(crate::ranking::same_row_key(out[i], inc[i]));
            assert(out[i] == inc[i]);
            if has_key(rs[i], round_id, kind, from, to) {
                lemma_lookup_unique(rs, round_id, kind, from, to, i);
            }
        }
    } else {
        lemma_hooked_decrement(rs, rotw, round_id, kind, from, to);
        let out = decrement_effect(rs, rotw, round_id, kind, from, to)->Ok_0;
        let moved = crate::ranking::with_score(rs[p], rs[p].score - 1);
        let c = crate::ranking::count_with_score(rs.update(p, moved), round_id, kind, from, rs[p].score as int) as u16;
        let dec = decremented(rs, p, c);
        assert forall|i: int| 0 <= i < rs.len() implies {
            &&& #[trigger] rs[i].id == out[i].id
            &&& rs[i].round_id == out[i].round_id
            &&& rs[i].kind == out[i].kind
            &&& rs[i].from_country_id == out[i].from_country_id
            &&& rs[i].to_country_id == out[i].to_country_id
        } by {
            assert(crate::ranking::same_row_key(out[i], dec[i]));
        }
        assert forall|i: int| 0 <= i < rs.len() && rs[i].kind != RankingKind::Overall implies #[trigger] out[i].score
            == rs[i].score + if has_key(rs[i], round_id, kind, from, to) {
            -1int
        } else {
            0int
        } by {
            assert(crate::ranking::same_row_key(out[i], dec[i]));
            assert(out[i] == dec[i]);
            if has_key(rs[i], round_id, kind, from, to) {
                lemma_lookup_unique(rs, round_id, kind, from, to, i);
            }
        }
    }
}

/// Moves of the scores of one entry add up.
pub proof fn lemma_scores_moved_trans(
    a: Seq<Ranking>,
    b: Seq<Ranking>,
    c: Seq<Ranking>,
    round_id: u16,
    kind: RankingKind,
    from: u16,
    to: u16,
    d1: int,
    d2: int,
)
    requires
        scores_moved(a, b, round_id, kind, from, to, d1),
        scores_moved(b, c, round_id, kind, from, to, d2),
    ensures
        scores_moved(a, c, round_id, kind, from, to, d1 + d2),
{
    crate::ranking::lemma_same_entries_trans(a, b, c);
    assert forall|i: int| 0 <= i < a.len() && a[i].kind != RankingKind::Overall implies #[trigger] c[i].score == a[i].score
        + if has_key(a[i], round_id, kind, from, to) {
        d1 + d2
    } else {
        0int
    } by {
        assert(a[i].id == b[i].id);
        assert(b[i].score == a[i].score + if has_key(a[i], round_id, kind, from, to) {
            d1
        } else {
            0int
        });
        assert(c[i].score == b[i].score + if has_key(b[i], round_id, kind, from, to) {
            d2
        } else {
            0int
        });
    }
}

/// What one televote or jury point more or less does, on rankings whose ranks are places
/// and whose groups fit: the keyed score moves by one, no other televote or jury score
/// moves, the ranks stay places and the groups keep fitting; where the overall entries held
/// their receivers' points, they still do.
pub proof fn lemma_step_keeps_sound(
    rs: Seq<Ranking>,
    rotw: Option<RotwCountry>,
    round_id: u16,
    kind: RankingKind,
    from: u16,
    to: u16,
    up: bool,
)
    ensures
        ({
            let res = if up {
                increment_effect(rs, rotw, round_id, kind, from, to)
            } else {
                decrement_effect(rs, rotw, round_id, kind, from, to)
            };
            res is Ok && kind != RankingKind::Overall && ranks_are_places(rs) && groups_fit(rs) ==> {
                &&& scores_moved(rs, res->Ok_0, round_id, kind, from, to, if up { 1int } else { -1int })
                &&& ranks_are_places(res->Ok_0)
                &&& groups_fit(res->Ok_0)
            }
        }),
        ({
            let res = if up {
                increment_effect(rs, rotw, round_id, kind, from, to)
            } else {
                decrement_effect(rs, rotw, round_id, kind, from, to)
            };
            res is Ok && kind != RankingKind::Overall && rotw is Some && totals_hold(rs, rotw->Some_0.country_id)
                ==> totals_hold(res->Ok_0, rotw->Some_0.country_id)
        }),
{
    let res = if up {
        increment_effect(rs, rotw, round_id, kind, from, to)
    } else {
        decrement_effect(rs, rotw, round_id, kind, from, to)
    };
    if res is Ok && kind != RankingKind::Overall {
        if ranks_are_places(rs) && groups_fit(rs) {
            assert(overall_ranked(rs));
            lemma_step_scores(rs, rotw, round_id, kind, from, to, up);
            if up {
                law_increment_keeps_ranks(rs, rotw, round_id, kind, from, to);
            } else {
                law_decrement_keeps_ranks(rs, rotw, round_id, kind, from, to);
            }
        }
        if rotw is Some && totals_hold(rs, rotw->Some_0.country_id) {
            if up {
                law_increment_keeps_totals(rs, rotw->Some_0, round_id, kind, from, to);
            } else {
                law_decrement_keeps_totals(rs, rotw->Some_0, round_id, kind, from, to);
            }
        }
    }
}

} // verus!
