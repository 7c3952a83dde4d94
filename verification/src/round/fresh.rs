use vstd::prelude::*;
use vstd::set_lib::{lemma_int_range, lemma_len_subset, set_int_range};

use crate::database::{any_match, Tables};
use crate::ranking::bound::keys_distinct;
use crate::ranking::laws::{groups_fit, rank_is_place, ranks_are_places};
use crate::ranking::totals::{owed_by, points_owed, total_at, totals_hold};
use crate::ranking::{count_in_band, create_ranking_effect, has_key, in_group, key_present, Ranking, RankingKind};
use crate::country::ParticipatingCountry;
use crate::round::admin::{
    add_finalists_effect, advance_round_effect, contenders, create_semi_finals_effect, finalist_ids, qualifiers,
    split_participations_effect,
};
use crate::country::country_with_id;
use crate::ranking::bound::givers_known;
use crate::round::performers::{
    add_performer_effect, country_ids, create_entries_effect, lemma_create_entries_frame, participant_countries,
};
use crate::database::{first_match, lemma_first_index};
use crate::round::{create_participation_effect, create_round_effect, round_position, round_with_id, Round, RoundKind};
use crate::vote::tally::{jury_tally, tallied, tele_tally, jury_entry_tallied, tele_entry_tallied};
use crate::vote::laws::{rankings_sound, totals_kept};
use crate::vote::{JurorVote, TeleVote};
use crate::voter::{juror_with_id, viewer_with_id};

verus! {

/// The receivers of a group's entries.
pub open spec fn group_receivers(rs: Seq<Ranking>, round_id: u16, kind: RankingKind, from: u16) -> Set<int>
    decreases rs.len(),
{
    if rs.len() == 0 {
        Set::empty()
    } else {
        let prev = group_receivers(rs.drop_last(), round_id, kind, from);
        if in_group(rs.last(), round_id, kind, from) {
            prev.insert(rs.last().to_country_id as int)
        } else {
            prev
        }
    }
}

/// With distinct keys, a group holds one entry per receiver.
proof fn lemma_group_receivers(rs: Seq<Ranking>, round_id: u16, kind: RankingKind, from: u16)
    requires
        keys_distinct(rs),
    ensures
        group_receivers(rs, round_id, kind, from).finite(),
        group_receivers(rs, round_id, kind, from).subset_of(set_int_range(0, u16::MAX + 1)),
        count_in_band(rs, round_id, kind, from, 0, u32::MAX as int) == group_receivers(rs, round_id, kind, from).len(),
        forall|x: int|
            #[trigger] group_receivers(rs, round_id, kind, from).contains(x) ==> exists|j: int|
                0 <= j < rs.len() && in_group(#[trigger] rs[j], round_id, kind, from) && rs[j].to_country_id == x,
    decreases rs.len(),
{
    if rs.len() > 0 {
        let prev = rs.drop_last();
        let n = rs.len() - 1;
        assert forall|i: int, j: int| 0 <= i < j < prev.len() implies !has_key(
            #[trigger] prev[j],
            (#[trigger] prev[i]).round_id,
            prev[i].kind,
            prev[i].from_country_id,
            prev[i].to_country_id,
        ) by {
            assert(prev[i] == rs[i] && prev[j] == rs[j]);
        }
        lemma_group_receivers(prev, round_id, kind, from);
        let s = group_receivers(prev, round_id, kind, from);
        let last = rs.last();
        if in_group(last, round_id, kind, from) {
            if s.contains(last.to_country_id as int) {
                let j = choose|j: int|
                    0 <= j < prev.len() && in_group(#[trigger] prev[j], round_id, kind, from) && prev[j].to_country_id
                        == last.to_country_id as int;
                assert(prev[j] == rs[j]);
                assert(!has_key(rs[n], rs[j].round_id, rs[j].kind, rs[j].from_country_id, rs[j].to_country_id));
            }
        }
        assert forall|x: int| #[trigger] group_receivers(rs, round_id, kind, from).contains(x) implies exists|j: int|
            0 <= j < rs.len() && in_group(#[trigger] rs[j], round_id, kind, from) && rs[j].to_country_id == x by {
            if s.contains(x) {
                let j = choose|j: int|
                    0 <= j < prev.len() && in_group(#[trigger] prev[j], round_id, kind, from) && prev[j].to_country_id == x;
                assert(prev[j] == rs[j]);
            } else {
                assert(in_group(rs[n], round_id, kind, from));
            }
        }
    }
}

/// Distinct keys keep every group within the ranks: a group holds at most one entry per
/// receiver.
pub proof fn lemma_keys_distinct_groups_fit(rs: Seq<Ranking>)
    requires
        keys_distinct(rs),
    ensures
        groups_fit(rs),
{
    assert forall|i: int| 0 <= i < rs.len() implies #[trigger] count_in_band(
        rs,
        rs[i].round_id,
        rs[i].kind,
        rs[i].from_country_id,
        0,
        u32::MAX as int,
    ) <= u16::MAX + 1 by {
        lemma_group_receivers(rs, rs[i].round_id, rs[i].kind, rs[i].from_country_id);
        lemma_int_range(0, u16::MAX + 1);
        lemma_len_subset(group_receivers(rs, rs[i].round_id, rs[i].kind, rs[i].from_country_id), set_int_range(0, u16::MAX + 1));
    }
}

/// Every entry of the rounds `r1` and `r2` is empty: score 0.
pub open spec fn rounds_empty(rs: Seq<Ranking>, r1: u16, r2: u16) -> bool {
    forall|i: int| 0 <= i < rs.len() && ((#[trigger] rs[i]).round_id == r1 || rs[i].round_id == r2) ==> rs[i].score == 0
}

/// No entry of a round whose entries are empty scores above 0.
proof fn lemma_count_above_empty(rs: Seq<Ranking>, r1: u16, r2: u16, round_id: u16, kind: RankingKind, from: u16, lo: int)
    requires
        rounds_empty(rs, r1, r2),
        round_id == r1 || round_id == r2,
        lo >= 1,
    ensures
        count_in_band(rs, round_id, kind, from, lo, u32::MAX as int) == 0,
    decreases rs.len(),
{
    if rs.len() > 0 {
        let prev = rs.drop_last();
        assert forall|i: int| 0 <= i < prev.len() && ((#[trigger] prev[i]).round_id == r1 || prev[i].round_id == r2) implies prev[i].score
            == 0 by {
            assert(prev[i] == rs[i]);
        }
        lemma_count_above_empty(prev, r1, r2, round_id, kind, from, lo);
        assert(rs[rs.len() - 1] == rs.last());
    }
}

/// What the entries of a round whose entries are empty give a receiver: nothing.
proof fn lemma_owed_empty(rs: Seq<Ranking>, r1: u16, r2: u16, round_id: u16, to: u16)
    requires
        rounds_empty(rs, r1, r2),
        round_id == r1 || round_id == r2,
    ensures
        points_owed(rs, round_id, to) == 0,
    decreases rs.len(),
{
    if rs.len() > 0 {
        let prev = rs.drop_last();
        assert forall|i: int| 0 <= i < prev.len() && ((#[trigger] prev[i]).round_id == r1 || prev[i].round_id == r2) implies prev[i].score
            == 0 by {
            assert(prev[i] == rs[i]);
        }
        lemma_owed_empty(prev, r1, r2, round_id, to);
        assert(rs[rs.len() - 1] == rs.last());
    }
}

/// Appending an empty entry of a round whose entries are empty, under a new key, keeps the
/// ranks places, the keys distinct, the overall entries at their receivers' points and the
/// round empty.
pub proof fn lemma_push_empty(rs: Seq<Ranking>, row: Ranking, r1: u16, r2: u16, rotw_from: u16)
    requires
        ranks_are_places(rs),
        keys_distinct(rs),
        totals_hold(rs, rotw_from),
        rounds_empty(rs, r1, r2),
        row.round_id == r1 || row.round_id == r2,
        row.score == 0,
        row.rank == 0,
        !key_present(rs, row.round_id, row.kind, row.from_country_id, row.to_country_id),
    ensures
        ranks_are_places(rs.push(row)),
        keys_distinct(rs.push(row)),
        totals_hold(rs.push(row), rotw_from),
        rounds_empty(rs.push(row), r1, r2),
{
    let out = rs.push(row);
    let n = rs.len() as int;
    assert(out.drop_last() =~= rs);
    assert(out.last() == row);
    assert forall|i: int| 0 <= i < out.len() implies #[trigger] rank_is_place(out, i) by {
        if i < n {
            assert(out[i] == rs[i]);
            assert(rank_is_place(rs, i));
        } else {
            lemma_count_above_empty(rs, r1, r2, row.round_id, row.kind, row.from_country_id, 1);
        }
    }
    assert forall|i: int, j: int| 0 <= i < j < out.len() implies !has_key(
        #[trigger] out[j],
        (#[trigger] out[i]).round_id,
        out[i].kind,
        out[i].from_country_id,
        out[i].to_country_id,
    ) by {
        assert(out[i] == rs[i]);
        if j < n {
            assert(out[j] == rs[j]);
        } else {
            if has_key(out[j], rs[i].round_id, rs[i].kind, rs[i].from_country_id, rs[i].to_country_id) {
                assert(has_key(rs[i], row.round_id, row.kind, row.from_country_id, row.to_country_id));
            }
        }
    }
    assert(owed_by(row, row.round_id, row.to_country_id) == 0);
    assert forall|i: int| 0 <= i < out.len() implies #[trigger] total_at(out, i, rotw_from) by {
        if i < n {
            assert(out[i] == rs[i]);
            assert(total_at(rs, i, rotw_from));
            assert(points_owed(out, out[i].round_id, out[i].to_country_id) == points_owed(rs, rs[i].round_id, rs[i].to_country_id)
                + owed_by(row, rs[i].round_id, rs[i].to_country_id));
        } else {
            lemma_owed_empty(rs, r1, r2, row.round_id, row.to_country_id);
            assert(points_owed(out, row.round_id, row.to_country_id) == points_owed(rs, row.round_id, row.to_country_id)
                + owed_by(row, row.round_id, row.to_country_id));
        }
    }
    assert forall|i: int| 0 <= i < out.len() && ((#[trigger] out[i]).round_id == r1 || out[i].round_id == r2) implies out[i].score
        == 0 by {
        if i < n {
            assert(out[i] == rs[i]);
        }
    }
}

/// Every ranking entry and every vote is of a round in the table.
pub open spec fn rounds_referenced(t: Tables) -> bool {
    &&& forall|i: int| 0 <= i < t.rankings.len() ==> any_match(t.rounds, round_with_id((#[trigger] t.rankings[i]).round_id))
    &&& forall|i: int| 0 <= i < t.tele_votes.len() ==> any_match(t.rounds, round_with_id((#[trigger] t.tele_votes[i]).round_id))
    &&& forall|i: int|
        0 <= i < t.juror_votes.len() ==> any_match(t.rounds, round_with_id((#[trigger] t.juror_votes[i]).round_id))
}

/// Every televote is of a viewer in the table, and every juror vote of a juror in it.
pub open spec fn voters_referenced(t: Tables) -> bool {
    &&& forall|i: int| 0 <= i < t.tele_votes.len() ==> any_match(t.viewers, viewer_with_id((#[trigger] t.tele_votes[i]).viewer_id))
    &&& forall|i: int| 0 <= i < t.juror_votes.len() ==> any_match(t.jurors, juror_with_id((#[trigger] t.juror_votes[i]).juror_id))
}

/// No vote is of the rounds `r1` and `r2`.
pub open spec fn no_votes_in(t: Tables, r1: u16, r2: u16) -> bool {
    &&& forall|i: int| 0 <= i < t.tele_votes.len() ==> (#[trigger] t.tele_votes[i]).round_id != r1 && t.tele_votes[i].round_id != r2
    &&& forall|i: int|
        0 <= i < t.juror_votes.len() ==> (#[trigger] t.juror_votes[i]).round_id != r1 && t.juror_votes[i].round_id != r2
}

/// The state while the performers of the new rounds `r1` and `r2` get their entries: the
/// rankings are sound and tallied with distinct keys, everything names a round of the table,
/// and the new rounds hold no vote and only empty entries.
pub open spec fn filling(t: Tables, r1: u16, r2: u16) -> bool {
    &&& ranks_are_places(t.rankings)
    &&& keys_distinct(t.rankings)
    &&& totals_kept(t)
    &&& tallied(t)
    &&& rounds_referenced(t)
    &&& voters_referenced(t)
    &&& givers_known(t)
    &&& rounds_empty(t.rankings, r1, r2)
    &&& no_votes_in(t, r1, r2)
}

/// Televotes of other rounds count nothing for a round.
proof fn lemma_tele_tally_none(votes: Seq<TeleVote>, viewers: Seq<crate::voter::Viewer>, round_id: u16, from: u16, to: u16)
    requires
        forall|i: int| 0 <= i < votes.len() ==> (#[trigger] votes[i]).round_id != round_id,
    ensures
        tele_tally(votes, viewers, round_id, from, to) == 0,
    decreases votes.len(),
{
    if votes.len() > 0 {
        let prev = votes.drop_last();
        assert forall|i: int| 0 <= i < prev.len() implies (#[trigger] prev[i]).round_id != round_id by {
            assert(prev[i] == votes[i]);
        }
        lemma_tele_tally_none(prev, viewers, round_id, from, to);
        assert(votes[votes.len() - 1] == votes.last());
    }
}

/// Juror votes of other rounds give nothing in a round.
proof fn lemma_jury_tally_none(
    votes: Seq<JurorVote>,
    jurors: Seq<crate::voter::Juror>,
    pcs: Seq<ParticipatingCountry>,
    round_id: u16,
    from: u16,
    to: u16,
)
    requires
        forall|i: int| 0 <= i < votes.len() ==> (#[trigger] votes[i]).round_id != round_id,
    ensures
        jury_tally(votes, jurors, pcs, round_id, from, to) == 0,
    decreases votes.len(),
{
    if votes.len() > 0 {
        let prev = votes.drop_last();
        assert forall|i: int| 0 <= i < prev.len() implies (#[trigger] prev[i]).round_id != round_id by {
            assert(prev[i] == votes[i]);
        }
        lemma_jury_tally_none(prev, jurors, pcs, round_id, from, to);
        assert(votes[votes.len() - 1] == votes.last());
    }
}

/// An empty entry of a new round, under a new key, keeps the state filling.
pub proof fn lemma_create_ranking_filling(t: Tables, round_id: u16, kind: RankingKind, from: u16, to: u16, r1: u16, r2: u16)
    requires
        filling(t, r1, r2),
        round_id == r1 || round_id == r2,
        kind == RankingKind::JuryVote ==> exists|q: int|
            0 <= q < t.participating_countries.len() && (#[trigger] t.participating_countries[q]).country_id == from,
        create_ranking_effect(t, round_id, kind, from, to, 0, 0) is Ok,
    ensures
        filling(create_ranking_effect(t, round_id, kind, from, to, 0, 0)->Ok_0.0, r1, r2),
        create_ranking_effect(t, round_id, kind, from, to, 0, 0)->Ok_0.0 == (Tables {
            rankings: create_ranking_effect(t, round_id, kind, from, to, 0, 0)->Ok_0.0.rankings,
            sequences: create_ranking_effect(t, round_id, kind, from, to, 0, 0)->Ok_0.0.sequences,
            ..t
        }),
{
    let out = create_ranking_effect(t, round_id, kind, from, to, 0, 0)->Ok_0.0;
    let row = create_ranking_effect(t, round_id, kind, from, to, 0, 0)->Ok_0.1;
    assert(out.rankings == t.rankings.push(row));
    let c = match t.rotw_country {
        Some(r) => r.country_id,
        None => 0u16,
    };
    if t.rotw_country is Some {
        lemma_push_empty(t.rankings, row, r1, r2, c);
    } else {
        lemma_push_empty_no_totals(t.rankings, row, r1, r2);
    }
    let n = t.rankings.len() as int;
    assert forall|i: int| 0 <= i < out.rankings.len() implies #[trigger] tele_entry_tallied(out, i) by {
        if i < n {
            assert(out.rankings[i] == t.rankings[i]);
            assert(tele_entry_tallied(t, i));
        } else {
            lemma_tele_tally_none(t.tele_votes, t.viewers, round_id, from, to);
        }
    }
    assert forall|i: int| 0 <= i < out.rankings.len() implies #[trigger] jury_entry_tallied(out, i) by {
        if i < n {
            assert(out.rankings[i] == t.rankings[i]);
            assert(jury_entry_tallied(t, i));
        } else {
            lemma_jury_tally_none(t.juror_votes, t.jurors, t.participating_countries, round_id, from, to);
        }
    }
    assert forall|i: int| 0 <= i < out.rankings.len() implies any_match(
        out.rounds,
        round_with_id((#[trigger] out.rankings[i]).round_id),
    ) by {
        if i < n {
            assert(out.rankings[i] == t.rankings[i]);
        }
    }
    assert(out.countries == t.countries && out.participating_countries == t.participating_countries);
    assert forall|i: int| 0 <= i < out.rankings.len() implies {
        &&& (#[trigger] out.rankings[i]).kind == RankingKind::TeleVote ==> exists|c: int|
            0 <= c < out.countries.len() && (#[trigger] out.countries[c]).id == out.rankings[i].from_country_id
        &&& out.rankings[i].kind == RankingKind::JuryVote ==> exists|q: int|
            0 <= q < out.participating_countries.len() && (#[trigger] out.participating_countries[q]).country_id
                == out.rankings[i].from_country_id
    } by {
        if i < n {
            assert(out.rankings[i] == t.rankings[i]);
            assert(givers_known(t));
        } else if kind == RankingKind::TeleVote {
            let c = choose|c: int| 0 <= c < t.countries.len() && #[trigger] country_with_id(from)(t.countries[c]);
            assert(out.countries[c].id == from);
        }
    }
}

/// Appending an empty entry of a round whose entries are empty, under a new key, keeps the
/// ranks places, the keys distinct and the round empty.
proof fn lemma_push_empty_no_totals(rs: Seq<Ranking>, row: Ranking, r1: u16, r2: u16)
    requires
        ranks_are_places(rs),
        keys_distinct(rs),
        rounds_empty(rs, r1, r2),
        row.round_id == r1 || row.round_id == r2,
        row.score == 0,
        row.rank == 0,
        !key_present(rs, row.round_id, row.kind, row.from_country_id, row.to_country_id),
    ensures
        ranks_are_places(rs.push(row)),
        keys_distinct(rs.push(row)),
        rounds_empty(rs.push(row), r1, r2),
{
    let out = rs.push(row);
    let n = rs.len() as int;
    assert(out.drop_last() =~= rs);
    assert forall|i: int| 0 <= i < out.len() implies #[trigger] rank_is_place(out, i) by {
        if i < n {
            assert(out[i] == rs[i]);
            assert(rank_is_place(rs, i));
        } else {
            lemma_count_above_empty(rs, r1, r2, row.round_id, row.kind, row.from_country_id, 1);
        }
    }
    assert forall|i: int, j: int| 0 <= i < j < out.len() implies !has_key(
        #[trigger] out[j],
        (#[trigger] out[i]).round_id,
        out[i].kind,
        out[i].from_country_id,
        out[i].to_country_id,
    ) by {
        assert(out[i] == rs[i]);
        if j < n {
            assert(out[j] == rs[j]);
        } else {
            if has_key(out[j], rs[i].round_id, rs[i].kind, rs[i].from_country_id, rs[i].to_country_id) {
                assert(has_key(rs[i], row.round_id, row.kind, row.from_country_id, row.to_country_id));
            }
        }
    }
    assert forall|i: int| 0 <= i < out.len() && ((#[trigger] out[i]).round_id == r1 || out[i].round_id == r2) implies out[i].score
        == 0 by {
        if i < n {
            assert(out[i] == rs[i]);
        }
    }
}

/// States that agree on the rankings, the votes, the voters, the participating countries
/// and the Rest of the World, and whose rankings and votes name rounds of the table, are
/// filling alike.
pub proof fn lemma_filling_frame(a: Tables, b: Tables, r1: u16, r2: u16)
    requires
        filling(a, r1, r2),
        b.rankings == a.rankings,
        b.tele_votes == a.tele_votes,
        b.juror_votes == a.juror_votes,
        b.viewers == a.viewers,
        b.jurors == a.jurors,
        b.participating_countries == a.participating_countries,
        b.countries == a.countries,
        b.rotw_country == a.rotw_country,
        rounds_referenced(b),
    ensures
        filling(b, r1, r2),
{
    assert forall|i: int| 0 <= i < b.rankings.len() implies {
        &&& (#[trigger] b.rankings[i]).kind == RankingKind::TeleVote ==> exists|c: int|
            0 <= c < b.countries.len() && (#[trigger] b.countries[c]).id == b.rankings[i].from_country_id
        &&& b.rankings[i].kind == RankingKind::JuryVote ==> exists|q: int|
            0 <= q < b.participating_countries.len() && (#[trigger] b.participating_countries[q]).country_id
                == b.rankings[i].from_country_id
    } by {
        assert(a.rankings[i] == b.rankings[i]);
    }
    assert forall|i: int| 0 <= i < b.rankings.len() implies #[trigger] tele_entry_tallied(b, i) by {
        assert(tele_entry_tallied(a, i));
    }
    assert forall|i: int| 0 <= i < b.rankings.len() implies #[trigger] jury_entry_tallied(b, i) by {
        assert(jury_entry_tallied(a, i));
    }
}

/// Empty entries of a new round for a receiver keep the state filling.
pub proof fn lemma_create_entries_filling(t: Tables, round_id: u16, kind: RankingKind, froms: Seq<u16>, to: u16, r1: u16, r2: u16)
    requires
        filling(t, r1, r2),
        round_id == r1 || round_id == r2,
        kind == RankingKind::JuryVote ==> forall|k: int|
            0 <= k < froms.len() ==> exists|q: int|
                0 <= q < t.participating_countries.len() && (#[trigger] t.participating_countries[q]).country_id
                    == #[trigger] froms[k],
        create_entries_effect(t, round_id, kind, froms, to) is Ok,
    ensures
        filling(create_entries_effect(t, round_id, kind, froms, to)->Ok_0, r1, r2),
    decreases froms.len(),
{
    if froms.len() > 0 {
        let prev = froms.drop_last();
        assert forall|k: int| 0 <= k < prev.len() implies #[trigger] prev[k] == froms[k] by {}
        lemma_create_entries_filling(t, round_id, kind, prev, to, r1, r2);
        let t1 = create_entries_effect(t, round_id, kind, prev, to)->Ok_0;
        lemma_create_entries_frame(t, round_id, kind, prev, to);
        assert(froms[froms.len() - 1] == froms.last());
        lemma_create_ranking_filling(t1, round_id, kind, froms.last(), to, r1, r2);
    }
}

/// A performer joining a new round keeps the state filling.
pub proof fn lemma_add_performer_filling(t: Tables, round_id: u16, pc_id: u16, with_jury: bool, r1: u16, r2: u16)
    requires
        filling(t, r1, r2),
        round_id == r1 || round_id == r2,
        add_performer_effect(t, round_id, pc_id, with_jury) is Ok,
    ensures
        filling(add_performer_effect(t, round_id, pc_id, with_jury)->Ok_0, r1, r2),
{
    let t1 = create_participation_effect(t, round_id, pc_id)->Ok_0;
    lemma_filling_frame(t, t1, r1, r2);
    lemma_create_entries_filling(t1, round_id, RankingKind::TeleVote, country_ids(t1.countries), pc_id, r1, r2);
    let t2 = create_entries_effect(t1, round_id, RankingKind::TeleVote, country_ids(t1.countries), pc_id)->Ok_0;
    lemma_create_entries_frame(t1, round_id, RankingKind::TeleVote, country_ids(t1.countries), pc_id);
    if with_jury {
        let froms = participant_countries(t2.participating_countries);
        assert forall|k: int| 0 <= k < froms.len() implies exists|q: int|
            0 <= q < t2.participating_countries.len() && (#[trigger] t2.participating_countries[q]).country_id
                == #[trigger] froms[k] by {
            assert(t2.participating_countries[k].country_id == froms[k]);
        }
        lemma_create_entries_filling(
            t2,
            round_id,
            RankingKind::JuryVote,
            participant_countries(t2.participating_countries),
            pc_id,
            r1,
            r2,
        );
    }
    let t3 = if with_jury {
        create_entries_effect(t2, round_id, RankingKind::JuryVote, participant_countries(t2.participating_countries), pc_id)->Ok_0
    } else {
        t2
    };
    let c = t3.rotw_country->Some_0;
    lemma_create_ranking_filling(t3, round_id, RankingKind::Overall, c.country_id, pc_id, r1, r2);
}

/// Dealing performers into two new semi-finals keeps the state filling.
pub proof fn lemma_split_participations_filling(t: Tables, sf1: u16, sf2: u16, countries: Seq<ParticipatingCountry>, n: int)
    requires
        filling(t, sf1, sf2),
        split_participations_effect(t, sf1, sf2, countries, n) is Ok,
    ensures
        filling(split_participations_effect(t, sf1, sf2, countries, n)->Ok_0, sf1, sf2),
    decreases n,
{
    if n > 0 {
        lemma_split_participations_filling(t, sf1, sf2, countries, n - 1);
        let t1 = split_participations_effect(t, sf1, sf2, countries, n - 1)->Ok_0;
        lemma_add_performer_filling(t1, if (n - 1) % 2 == 0 { sf1 } else { sf2 }, countries[n - 1].id, false, sf1, sf2);
    }
}

/// Adding finalists to a new grand final keeps the state filling.
pub proof fn lemma_add_finalists_filling(t: Tables, gf: u16, countries: Seq<u16>)
    requires
        filling(t, gf, gf),
        add_finalists_effect(t, gf, countries) is Ok,
    ensures
        filling(add_finalists_effect(t, gf, countries)->Ok_0, gf, gf),
    decreases countries.len(),
{
    if countries.len() > 0 {
        lemma_add_finalists_filling(t, gf, countries.drop_last());
        let t1 = add_finalists_effect(t, gf, countries.drop_last())->Ok_0;
        lemma_add_performer_filling(t1, gf, countries.last(), true, gf, gf);
    }
}

/// The rankings are sound and tallied, no two entries share a key, every entry names a
/// round of the table and a giver that may give it, and every vote a round and a voter of
/// the table.
pub open spec fn votes_sound(t: Tables) -> bool {
    &&& rankings_sound(t)
    &&& tallied(t)
    &&& keys_distinct(t.rankings)
    &&& rounds_referenced(t)
    &&& voters_referenced(t)
    &&& givers_known(t)
}

/// A state that keeps the rankings, votes, voters, participating countries and Rest of the
/// World of a sound one, and every round id of it, is sound too; and filling for rounds that
/// were not there.
proof fn lemma_votes_sound_frame(a: Tables, b: Tables, r1: u16, r2: u16)
    requires
        votes_sound(a),
        b.rankings == a.rankings,
        b.tele_votes == a.tele_votes,
        b.juror_votes == a.juror_votes,
        b.viewers == a.viewers,
        b.jurors == a.jurors,
        b.participating_countries == a.participating_countries,
        b.countries == a.countries,
        b.rotw_country == a.rotw_country,
        forall|x: u16| #[trigger] any_match(a.rounds, round_with_id(x)) ==> any_match(b.rounds, round_with_id(x)),
        !any_match(a.rounds, round_with_id(r1)),
        !any_match(a.rounds, round_with_id(r2)),
    ensures
        votes_sound(b),
        filling(b, r1, r2),
{
    assert forall|i: int| 0 <= i < b.rankings.len() implies any_match(b.rounds, round_with_id((#[trigger] b.rankings[i]).round_id)) by {
        assert(any_match(a.rounds, round_with_id(a.rankings[i].round_id)));
    }
    assert forall|i: int| 0 <= i < b.tele_votes.len() implies any_match(b.rounds, round_with_id((#[trigger] b.tele_votes[i]).round_id)) by {
        assert(any_match(a.rounds, round_with_id(a.tele_votes[i].round_id)));
    }
    assert forall|i: int| 0 <= i < b.juror_votes.len() implies any_match(b.rounds, round_with_id((#[trigger] b.juror_votes[i]).round_id)) by {
        assert(any_match(a.rounds, round_with_id(a.juror_votes[i].round_id)));
    }
    assert forall|i: int| 0 <= i < b.rankings.len() && ((#[trigger] b.rankings[i]).round_id == r1 || b.rankings[i].round_id == r2) implies b.rankings[i].score
        == 0 by {
        assert(any_match(a.rounds, round_with_id(a.rankings[i].round_id)));
    }
    assert forall|i: int| 0 <= i < b.tele_votes.len() implies (#[trigger] b.tele_votes[i]).round_id != r1 && b.tele_votes[i].round_id != r2 by {
        assert(any_match(a.rounds, round_with_id(a.tele_votes[i].round_id)));
    }
    assert forall|i: int| 0 <= i < b.juror_votes.len() implies (#[trigger] b.juror_votes[i]).round_id != r1 && b.juror_votes[i].round_id
        != r2 by {
        assert(any_match(a.rounds, round_with_id(a.juror_votes[i].round_id)));
    }
    assert forall|i: int| 0 <= i < b.rankings.len() implies {
        &&& (#[trigger] b.rankings[i]).kind == RankingKind::TeleVote ==> exists|c: int|
            0 <= c < b.countries.len() && (#[trigger] b.countries[c]).id == b.rankings[i].from_country_id
        &&& b.rankings[i].kind == RankingKind::JuryVote ==> exists|q: int|
            0 <= q < b.participating_countries.len() && (#[trigger] b.participating_countries[q]).country_id
                == b.rankings[i].from_country_id
    } by {
        assert(a.rankings[i] == b.rankings[i]);
    }
    assert forall|i: int| 0 <= i < b.rankings.len() implies #[trigger] tele_entry_tallied(b, i) by {
        assert(tele_entry_tallied(a, i));
    }
    assert forall|i: int| 0 <= i < b.rankings.len() implies #[trigger] jury_entry_tallied(b, i) by {
        assert(jury_entry_tallied(a, i));
    }
}

/// A filling state is sound once its new rounds are in place.
proof fn lemma_filled_sound(t: Tables, r1: u16, r2: u16)
    requires
        filling(t, r1, r2),
    ensures
        votes_sound(t),
{
    lemma_keys_distinct_groups_fit(t.rankings);
}

/// A round appended to the table keeps every round id that was there.
proof fn lemma_push_keeps_ids(rounds: Seq<Round>, r: Round)
    ensures
        forall|x: u16| #[trigger] any_match(rounds, round_with_id(x)) ==> any_match(rounds.push(r), round_with_id(x)),
{
    assert forall|x: u16| #[trigger] any_match(rounds, round_with_id(x)) implies any_match(rounds.push(r), round_with_id(x)) by {
        let j = choose|j: int| 0 <= j < rounds.len() && #[trigger] round_with_id(x)(rounds[j]);
        assert(rounds.push(r)[j] == rounds[j]);
    }
}

/// Where a round has the id, the first such round is at a position of the table.
proof fn lemma_round_position_found(rounds: Seq<Round>, id: u16)
    requires
        any_match(rounds, round_with_id(id)),
    ensures
        0 <= round_position(rounds, id) < rounds.len(),
        round_with_id(id)(rounds[round_position(rounds, id)]),
{
    let i = lemma_first_index(rounds, round_with_id(id));
    assert(0 <= i < rounds.len() && round_with_id(id)(rounds[i]) && forall|j: int| 0 <= j < i ==> !round_with_id(id)(rounds[j]));
}

/// Creating the semi-finals keeps the rankings sound and tallied: every performer gets only
/// empty entries of a new round, and the overall entries still hold their receivers'
/// points.
pub proof fn law_create_semi_finals_keeps_votes_sound(t: Tables, year: u16)
    requires
        votes_sound(t),
        create_semi_finals_effect(t, year) is Ok,
    ensures
        votes_sound(create_semi_finals_effect(t, year)->Ok_0),
{
    let (t1, sf1) = create_round_effect(t, year, RoundKind::SemiFinal1, true)->Ok_0;
    let (t2, sf2) = create_round_effect(t1, year, RoundKind::SemiFinal2, true)->Ok_0;
    lemma_push_keeps_ids(t.rounds, sf1);
    lemma_push_keeps_ids(t1.rounds, sf2);
    assert(t2.rounds == t.rounds.push(sf1).push(sf2));
    assert forall|x: u16| #[trigger] any_match(t.rounds, round_with_id(x)) implies any_match(t2.rounds, round_with_id(x)) by {
        assert(any_match(t1.rounds, round_with_id(x)));
    }
    if any_match(t.rounds, round_with_id(sf2.id)) {
        assert(any_match(t1.rounds, round_with_id(sf2.id)));
    }
    lemma_votes_sound_frame(t, t2, sf1.id, sf2.id);
    let cs = contenders(t2.participating_countries);
    lemma_split_participations_filling(t2, sf1.id, sf2.id, cs, cs.len() as int);
    let t3 = split_participations_effect(t2, sf1.id, sf2.id, cs, cs.len() as int)->Ok_0;
    lemma_filled_sound(t3, sf1.id, sf2.id);
    let out = create_semi_finals_effect(t, year)->Ok_0;
    assert forall|x: u16| #[trigger] any_match(t3.rounds, round_with_id(x)) implies any_match(out.rounds, round_with_id(x)) by {}
    lemma_votes_sound_frame_same_rounds(t3, out);
}

/// Advancing the contest keeps the rankings sound and tallied: closing the voting or moving
/// the active round touches neither, and the performers of a new grand final get only empty
/// entries.
pub proof fn law_advance_round_keeps_votes_sound(t: Tables, s1: Seq<([u64; 14], u16)>, s2: Seq<([u64; 14], u16)>)
    requires
        votes_sound(t),
        advance_round_effect(t, s1, s2) is Ok,
    ensures
        votes_sound(advance_round_effect(t, s1, s2)->Ok_0),
{
    let out = advance_round_effect(t, s1, s2)->Ok_0;
    let a = t.active_round->Some_0;
    let cur = first_match(t.rounds, round_with_id(a.round_id))->Some_0;
    if cur.voting_open {
        let closed = Round { voting_open: false, ..cur };
        let pos = round_position(t.rounds, cur.id);
        assert(any_match(t.rounds, round_with_id(cur.id)));
        lemma_round_position_found(t.rounds, cur.id);
        assert(out.rounds == t.rounds.update(pos, closed));
        assert forall|x: u16| #[trigger] any_match(t.rounds, round_with_id(x)) implies any_match(out.rounds, round_with_id(x)) by {
            let j = choose|j: int| 0 <= j < t.rounds.len() && #[trigger] round_with_id(x)(t.rounds[j]);
            assert(round_with_id(x)(out.rounds[j]));
        }
        lemma_votes_sound_frame_same_rounds(t, out);
    } else if cur.kind == RoundKind::SemiFinal2 {
        let (t1, gf) = create_round_effect(t, cur.year, RoundKind::GrandFinal, true)->Ok_0;
        lemma_push_keeps_ids(t.rounds, gf);
        lemma_votes_sound_frame(t, t1, gf.id, gf.id);
        let countries = qualifiers(s1) + qualifiers(s2) + finalist_ids(t.participating_countries);
        lemma_add_finalists_filling(t1, gf.id, countries);
        let t2 = add_finalists_effect(t1, gf.id, countries)->Ok_0;
        lemma_filled_sound(t2, gf.id, gf.id);
        assert forall|x: u16| #[trigger] any_match(t2.rounds, round_with_id(x)) implies any_match(out.rounds, round_with_id(x)) by {}
        lemma_votes_sound_frame_same_rounds(t2, out);
    } else {
        lemma_votes_sound_frame_same_rounds(t, out);
    }
}

/// A state that keeps the rankings, votes, voters, participating countries and Rest of the
/// World of a sound one, and every round id of it, is sound too.
proof fn lemma_votes_sound_frame_same_rounds(a: Tables, b: Tables)
    requires
        votes_sound(a),
        b.rankings == a.rankings,
        b.tele_votes == a.tele_votes,
        b.juror_votes == a.juror_votes,
        b.viewers == a.viewers,
        b.jurors == a.jurors,
        b.participating_countries == a.participating_countries,
        b.countries == a.countries,
        b.rotw_country == a.rotw_country,
        forall|x: u16| #[trigger] any_match(a.rounds, round_with_id(x)) ==> any_match(b.rounds, round_with_id(x)),
    ensures
        votes_sound(b),
{
    assert forall|i: int| 0 <= i < b.rankings.len() implies any_match(b.rounds, round_with_id((#[trigger] b.rankings[i]).round_id)) by {
        assert(any_match(a.rounds, round_with_id(a.rankings[i].round_id)));
    }
    assert forall|i: int| 0 <= i < b.tele_votes.len() implies any_match(b.rounds, round_with_id((#[trigger] b.tele_votes[i]).round_id)) by {
        assert(any_match(a.rounds, round_with_id(a.tele_votes[i].round_id)));
    }
    assert forall|i: int| 0 <= i < b.juror_votes.len() implies any_match(b.rounds, round_with_id((#[trigger] b.juror_votes[i]).round_id)) by {
        assert(any_match(a.rounds, round_with_id(a.juror_votes[i].round_id)));
    }
    assert forall|i: int| 0 <= i < b.rankings.len() implies {
        &&& (#[trigger] b.rankings[i]).kind == RankingKind::TeleVote ==> exists|c: int|
            0 <= c < b.countries.len() && (#[trigger] b.countries[c]).id == b.rankings[i].from_country_id
        &&& b.rankings[i].kind == RankingKind::JuryVote ==> exists|q: int|
            0 <= q < b.participating_countries.len() && (#[trigger] b.participating_countries[q]).country_id
                == b.rankings[i].from_country_id
    } by {
        assert(a.rankings[i] == b.rankings[i]);
    }
    assert forall|i: int| 0 <= i < b.rankings.len() implies #[trigger] tele_entry_tallied(b, i) by {
        assert(tele_entry_tallied(a, i));
    }
    assert forall|i: int| 0 <= i < b.rankings.len() implies #[trigger] jury_entry_tallied(b, i) by {
        assert(jury_entry_tallied(a, i));
    }
}

} // verus!
