use vstd::prelude::*;

use crate::database::Tables;
use crate::ranking::bound::keys_distinct;
use crate::ranking::laws::{rank_is_place, ranks_are_places};
use crate::ranking::{has_key, in_group, points, Ranking, RankingKind};
use crate::round::admin::{
    entry_with_key, keyed_entries, lex_le, overall_entries, running_position, sorted_by_tie_key, tele_givers,
    tele_points_total, tele_sets, tie_key,
};

verus! {

/// The televote entries of a round for a receiver.
pub open spec fn televote_of(round_id: u16, to: u16) -> spec_fn(Ranking) -> bool {
    |r: Ranking| r.kind == RankingKind::TeleVote && r.round_id == round_id && r.to_country_id == to
}

/// The points that a sequence of entries gives, added up.
pub open spec fn sum_points(s: Seq<Ranking>) -> int
    decreases s.len(),
{
    if s.len() == 0 {
        0
    } else {
        sum_points(s.drop_last()) + points(s.last())
    }
}

/// The televote points that a receiver got in a round: the points of its televote entries
/// only.
pub open spec fn televote_points(rs: Seq<Ranking>, round_id: u16, to: u16) -> int {
    sum_points(rs.filter(televote_of(round_id, to)))
}

/// The televote entries of a round for a receiver that award it points: a score above 0
/// and one of the ten best places.
pub open spec fn awards_televote_points(round_id: u16, to: u16) -> spec_fn(Ranking) -> bool {
    |r: Ranking| r.kind == RankingKind::TeleVote && r.round_id == round_id && r.to_country_id == to && r.score > 0 && r.rank
        < 10
}

/// How many countries gave a receiver televote points in a round.
pub open spec fn televote_givers(rs: Seq<Ranking>, round_id: u16, to: u16) -> nat {
    rs.filter(awards_televote_points(round_id, to)).len()
}

/// The first part of the tie key after the place counts the televote points, and nothing
/// else, up to `u64::MAX`.
pub proof fn law_tie_key_counts_televote_points(rs: Seq<Ranking>, round_id: u16, to: u16)
    ensures
        televote_points(rs, round_id, to) >= 0,
        tele_points_total(rs, round_id, to) == if televote_points(rs, round_id, to) > u64::MAX {
            u64::MAX as int
        } else {
            televote_points(rs, round_id, to)
        },
    decreases rs.len(),
{
    if rs.len() > 0 {
        let prev = rs.drop_last();
        let x = rs.last();
        law_tie_key_counts_televote_points(prev, round_id, to);
        assert(prev.push(x) =~= rs);
        prev.lemma_filter_push(x, televote_of(round_id, to));
        let f = prev.filter(televote_of(round_id, to));
        assert(f.push(x).drop_last() =~= f);
        assert(points(x) >= 0);
    }
}

/// The second part of the tie key counts the countries whose televote entry awards the
/// receiver points, and no entry that got votes without reaching the ten best places.
pub proof fn law_tie_key_counts_televote_givers(rs: Seq<Ranking>, round_id: u16, to: u16)
    ensures
        tele_givers(rs, round_id, to) == televote_givers(rs, round_id, to),
        televote_givers(rs, round_id, to) <= rs.len(),
    decreases rs.len(),
{
    rs.lemma_filter_len(awards_televote_points(round_id, to));
    if rs.len() > 0 {
        let prev = rs.drop_last();
        let x = rs.last();
        law_tie_key_counts_televote_givers(prev, round_id, to);
        assert(prev.push(x) =~= rs);
        prev.lemma_filter_push(x, awards_televote_points(round_id, to));
        crate::ranking::law_points_top_ten(x, x);
    }
}

/// The televote entries of a round for a receiver that award it exactly `value` points.
pub open spec fn televote_set_of(round_id: u16, to: u16, value: int) -> spec_fn(Ranking) -> bool {
    |r: Ranking| r.kind == RankingKind::TeleVote && r.round_id == round_id && r.to_country_id == to && points(r) == value
}

/// The later parts of the tie key count, for 12, 10, 8 and so on down to 1 point, the
/// countries whose televote entry awards the receiver exactly that many points.
pub proof fn law_tie_key_counts_televote_sets(rs: Seq<Ranking>, round_id: u16, to: u16, value: int)
    ensures
        tele_sets(rs, round_id, to, value) == rs.filter(televote_set_of(round_id, to, value)).len(),
        tele_sets(rs, round_id, to, value) <= rs.len(),
    decreases rs.len(),
{
    rs.lemma_filter_len(televote_set_of(round_id, to, value));
    if rs.len() > 0 {
        let prev = rs.drop_last();
        let x = rs.last();
        law_tie_key_counts_televote_sets(prev, round_id, to, value);
        assert(prev.push(x) =~= rs);
        prev.lemma_filter_push(x, televote_set_of(round_id, to, value));
    }
}

/// The last part of the tie key is the running order: the first place of the receiver among
/// the round's performers, or after all of them when it does not perform.
pub proof fn law_tie_key_running_order(ps: Seq<u16>, to: u16)
    ensures
        running_position(ps, to) <= ps.len(),
        running_position(ps, to) < ps.len() ==> ps[running_position(ps, to) as int] == to,
        forall|k: int| 0 <= k < running_position(ps, to) ==> ps[k] != to,
    decreases ps.len(),
{
    if ps.len() > 0 {
        let prev = ps.drop_last();
        law_tie_key_running_order(prev, to);
        assert forall|k: int| 0 <= k < prev.len() implies prev[k] == ps[k] by {}
    }
}

/// Every overall entry of the ranking a round is ordered by is an entry of the table.
proof fn lemma_overall_entry_at(rs: Seq<Ranking>, round_id: u16, c: u16, k: int) -> (m: int)
    requires
        0 <= k < overall_entries(rs, round_id, c).len(),
    ensures
        0 <= m < rs.len(),
        in_group(rs[m], round_id, RankingKind::Overall, c),
        overall_entries(rs, round_id, c)[k] == (rs[m].rank, rs[m].to_country_id),
    decreases rs.len(),
{
    let prev = rs.drop_last();
    let e = overall_entries(prev, round_id, c);
    if k < e.len() {
        let m = lemma_overall_entry_at(prev, round_id, c, k);
        assert(rs[m] == prev[m]);
        m
    } else {
        (rs.len() - 1) as int
    }
}

/// The key of each entry of the sorted overall ranking is the tie key of the receiver's
/// overall entry.
proof fn lemma_sorted_entry(t: Tables, round_id: u16, c: u16, sorted: Seq<([u64; 14], u16)>, i: int) -> (m: int)
    requires
        sorted_by_tie_key(t, round_id, c, sorted),
        0 <= i < sorted.len(),
    ensures
        0 <= m < t.rankings.len(),
        in_group(t.rankings[m], round_id, RankingKind::Overall, c),
        t.rankings[m].to_country_id == sorted[i].1,
        sorted[i].0@ == tie_key(t, round_id, t.rankings[m].rank, sorted[i].1),
{
    let keyed = choose|keyed: Seq<([u64; 14], u16)>|
        #[trigger] keyed_entries(t, round_id, c, keyed) && crate::round::admin::is_stable_sort_by_key(keyed, sorted);
    let x = sorted[i];
    let p = entry_with_key(x.0);
    sorted.lemma_filter_contains(p, i);
    assert(sorted.filter(p) == keyed.filter(p));
    keyed.lemma_filter_contains_rev(p, x);
    let k = choose|k: int| 0 <= k < keyed.len() && keyed[k] == x;
    let e = overall_entries(t.rankings, round_id, c);
    assert(keyed_entries(t, round_id, c, keyed));
    assert(keyed.len() == e.len());
    assert(keyed[k].1 == e[k].1);
    assert(keyed[k].0@ == tie_key(t, round_id, e[k].0, e[k].1));
    lemma_overall_entry_at(t.rankings, round_id, c, k)
}

/// With distinct keys, a receiver has one overall entry in a round.
proof fn lemma_one_overall_entry(rs: Seq<Ranking>, round_id: u16, c: u16, m: int, p: int)
    requires
        keys_distinct(rs),
        0 <= m < rs.len(),
        0 <= p < rs.len(),
        in_group(rs[m], round_id, RankingKind::Overall, c),
        in_group(rs[p], round_id, RankingKind::Overall, c),
        rs[m].to_country_id == rs[p].to_country_id,
    ensures
        m == p,
{
    if m < p {
        assert(!has_key(rs[p], rs[m].round_id, rs[m].kind, rs[m].from_country_id, rs[m].to_country_id));
    } else if p < m {
        assert(!has_key(rs[m], rs[p].round_id, rs[p].kind, rs[p].from_country_id, rs[p].to_country_id));
    }
}

/// Keys that agree on their first `n` parts and differ at part `n` are ordered by that part.
proof fn lemma_lex_at(a: Seq<u64>, b: Seq<u64>, n: int)
    requires
        0 <= n < a.len(),
        a.len() == b.len(),
        forall|k: int| 0 <= k < n ==> a[k] == b[k],
        a[n] < b[n],
    ensures
        !lex_le(b, a),
    decreases n,
{
    if n > 0 {
        let a1 = a.subrange(1, a.len() as int);
        let b1 = b.subrange(1, b.len() as int);
        assert forall|k: int| 0 <= k < n - 1 implies a1[k] == b1[k] by {
            assert(a1[k] == a[k + 1] && b1[k] == b[k + 1]);
        }
        assert(a1[n - 1] == a[n] && b1[n - 1] == b[n]);
        lemma_lex_at(a1, b1, n - 1);
        assert(a[0] == b[0]);
    }
}

/// Two performers with the same overall score in a round share its place.
proof fn lemma_same_place(rs: Seq<Ranking>, round_id: u16, c: u16, m: int, p: int)
    requires
        ranks_are_places(rs),
        0 <= m < rs.len(),
        0 <= p < rs.len(),
        in_group(rs[m], round_id, RankingKind::Overall, c),
        in_group(rs[p], round_id, RankingKind::Overall, c),
        rs[m].score == rs[p].score,
    ensures
        rs[m].rank == rs[p].rank,
{
    assert(rank_is_place(rs, m));
    assert(rank_is_place(rs, p));
}

/// The tie-break rules apply to every place of a round's standings: of two performers with
/// the same overall score, the one with strictly more televote points (the points of its
/// televote entries alone) comes first.
pub proof fn law_more_televote_points_first(
    t: Tables,
    round_id: u16,
    c: u16,
    sorted: Seq<([u64; 14], u16)>,
    i: int,
    j: int,
    pi: int,
    pj: int,
)
    requires
        sorted_by_tie_key(t, round_id, c, sorted),
        ranks_are_places(t.rankings),
        keys_distinct(t.rankings),
        0 <= i < sorted.len(),
        0 <= j < sorted.len(),
        0 <= pi < t.rankings.len(),
        0 <= pj < t.rankings.len(),
        in_group(t.rankings[pi], round_id, RankingKind::Overall, c),
        in_group(t.rankings[pj], round_id, RankingKind::Overall, c),
        t.rankings[pi].to_country_id == sorted[i].1,
        t.rankings[pj].to_country_id == sorted[j].1,
        t.rankings[pi].score == t.rankings[pj].score,
        televote_points(t.rankings, round_id, sorted[j].1) < televote_points(t.rankings, round_id, sorted[i].1),
        televote_points(t.rankings, round_id, sorted[i].1) <= u64::MAX,
    ensures
        i < j,
{
    let rs = t.rankings;
    let mi = lemma_sorted_entry(t, round_id, c, sorted, i);
    let mj = lemma_sorted_entry(t, round_id, c, sorted, j);
    lemma_one_overall_entry(rs, round_id, c, mi, pi);
    lemma_one_overall_entry(rs, round_id, c, mj, pj);
    lemma_same_place(rs, round_id, c, pi, pj);
    law_tie_key_counts_televote_points(rs, round_id, sorted[i].1);
    law_tie_key_counts_televote_points(rs, round_id, sorted[j].1);
    let a = sorted[i].0@;
    let b = sorted[j].0@;
    assert(a[0] == b[0]);
    assert(a[1] < b[1]);
    lemma_lex_at(a, b, 1);
    if j < i {
        assert(lex_le(sorted[j].0@, sorted[i].0@));
    }
}

/// The tie-break rules apply to every place of a round's standings: of two performers with
/// the same overall score and the same televote points, the one that got televote points
/// from strictly more countries comes first; a country whose televote entry got votes but
/// none of the ten best places does not count.
pub proof fn law_more_televote_givers_first(
    t: Tables,
    round_id: u16,
    c: u16,
    sorted: Seq<([u64; 14], u16)>,
    i: int,
    j: int,
    pi: int,
    pj: int,
)
    requires
        sorted_by_tie_key(t, round_id, c, sorted),
        ranks_are_places(t.rankings),
        keys_distinct(t.rankings),
        t.rankings.len() <= u64::MAX,
        0 <= i < sorted.len(),
        0 <= j < sorted.len(),
        0 <= pi < t.rankings.len(),
        0 <= pj < t.rankings.len(),
        in_group(t.rankings[pi], round_id, RankingKind::Overall, c),
        in_group(t.rankings[pj], round_id, RankingKind::Overall, c),
        t.rankings[pi].to_country_id == sorted[i].1,
        t.rankings[pj].to_country_id == sorted[j].1,
        t.rankings[pi].score == t.rankings[pj].score,
        televote_points(t.rankings, round_id, sorted[j].1) == televote_points(t.rankings, round_id, sorted[i].1),
        televote_points(t.rankings, round_id, sorted[i].1) <= u64::MAX,
        televote_givers(t.rankings, round_id, sorted[j].1) < televote_givers(t.rankings, round_id, sorted[i].1),
    ensures
        i < j,
{
    let rs = t.rankings;
    let mi = lemma_sorted_entry(t, round_id, c, sorted, i);
    let mj = lemma_sorted_entry(t, round_id, c, sorted, j);
    lemma_one_overall_entry(rs, round_id, c, mi, pi);
    lemma_one_overall_entry(rs, round_id, c, mj, pj);
    lemma_same_place(rs, round_id, c, pi, pj);
    law_tie_key_counts_televote_points(rs, round_id, sorted[i].1);
    law_tie_key_counts_televote_points(rs, round_id, sorted[j].1);
    law_tie_key_counts_televote_givers(rs, round_id, sorted[i].1);
    law_tie_key_counts_televote_givers(rs, round_id, sorted[j].1);
    let a = sorted[i].0@;
    let b = sorted[j].0@;
    assert(a[0] == b[0]);
    assert(a[1] == b[1]);
    assert(a[2] < b[2]);
    lemma_lex_at(a, b, 2);
    if j < i {
        assert(lex_le(sorted[j].0@, sorted[i].0@));
    }
}

} // verus!
