use vstd::prelude::*;
use vstd::set_lib::{lemma_len_subset, lemma_len_union, lemma_map_size_bound};

use crate::country::{Country, ParticipatingCountry};
use crate::database::Tables;
use crate::ranking::totals::{owed_by, points_owed, total_at, totals_hold};
use crate::ranking::{has_key, points, Ranking, RankingKind};

verus! {

/// No two entries share a round, kind, giver and receiver.
pub open spec fn keys_distinct(rs: Seq<Ranking>) -> bool {
    forall|i: int, j: int|
        0 <= i < j < rs.len() ==> !has_key(
            #[trigger] rs[j],
            (#[trigger] rs[i]).round_id,
            rs[i].kind,
            rs[i].from_country_id,
            rs[i].to_country_id,
        )
}

/// The (kind, giver) pairs of the televote and jury entries that give a receiver points in
/// a round.
pub open spec fn scoring_givers(rs: Seq<Ranking>, round_id: u16, to: u16) -> Set<(RankingKind, u16)>
    decreases rs.len(),
{
    if rs.len() == 0 {
        Set::empty()
    } else {
        let prev = scoring_givers(rs.drop_last(), round_id, to);
        let r = rs.last();
        if owed_by(r, round_id, to) > 0 {
            prev.insert((r.kind, r.from_country_id))
        } else {
            prev
        }
    }
}

/// Every televote entry is given by a country, and every jury entry by the country of a
/// participating country.
pub open spec fn givers_known(t: Tables) -> bool {
    forall|j: int|
        0 <= j < t.rankings.len() ==> {
            &&& (#[trigger] t.rankings[j]).kind == RankingKind::TeleVote ==> exists|c: int|
                0 <= c < t.countries.len() && (#[trigger] t.countries[c]).id == t.rankings[j].from_country_id
            &&& t.rankings[j].kind == RankingKind::JuryVote ==> exists|q: int|
                0 <= q < t.participating_countries.len() && (#[trigger] t.participating_countries[q]).country_id
                    == t.rankings[j].from_country_id
        }
}

/// No televote or jury entry gives points to a performer of the giver's own country.
pub open spec fn no_points_to_own(t: Tables) -> bool {
    forall|j: int, q: int|
        0 <= j < t.rankings.len() && 0 <= q < t.participating_countries.len() && (#[trigger] t.rankings[j]).kind
            != RankingKind::Overall && (#[trigger] t.participating_countries[q]).id == t.rankings[j].to_country_id
            && t.participating_countries[q].country_id == t.rankings[j].from_country_id ==> points(t.rankings[j]) == 0
}

/// What the entries give a receiver is at most 12 per scoring giver, and the scoring givers
/// are those of the entries that give it points.
pub proof fn lemma_owed_by_givers(rs: Seq<Ranking>, round_id: u16, to: u16)
    requires
        keys_distinct(rs),
    ensures
        scoring_givers(rs, round_id, to).finite(),
        points_owed(rs, round_id, to) <= 12 * scoring_givers(rs, round_id, to).len(),
        forall|g: (RankingKind, u16)|
            #[trigger] scoring_givers(rs, round_id, to).contains(g) ==> exists|j: int|
                0 <= j < rs.len() && owed_by(#[trigger] rs[j], round_id, to) > 0 && rs[j].kind == g.0 && rs[j].from_country_id
                    == g.1,
    decreases rs.len(),
{
    if rs.len() > 0 {
        let prev = rs.drop_last();
        assert forall|i: int, j: int| 0 <= i < j < prev.len() implies !has_key(
            #[trigger] prev[j],
            (#[trigger] prev[i]).round_id,
            prev[i].kind,
            prev[i].from_country_id,
            prev[i].to_country_id,
        ) by {
            assert(prev[i] == rs[i] && prev[j] == rs[j]);
        }
        lemma_owed_by_givers(prev, round_id, to);
        let s = scoring_givers(prev, round_id, to);
        let r = rs.last();
        let n = rs.len() - 1;
        if owed_by(r, round_id, to) > 0 {
            if s.contains((r.kind, r.from_country_id)) {
                let j = choose|j: int|
                    0 <= j < prev.len() && owed_by(#[trigger] prev[j], round_id, to) > 0 && prev[j].kind == r.kind
                        && prev[j].from_country_id == r.from_country_id;
                assert(rs[j] == prev[j]);
                assert(!has_key(rs[n], rs[j].round_id, rs[j].kind, rs[j].from_country_id, rs[j].to_country_id));
            }
            assert(s.insert((r.kind, r.from_country_id)).len() == s.len() + 1);
            assert(points(r) <= 12);
        }
        assert forall|g: (RankingKind, u16)| #[trigger] scoring_givers(rs, round_id, to).contains(g) implies exists|j: int|
            0 <= j < rs.len() && owed_by(#[trigger] rs[j], round_id, to) > 0 && rs[j].kind == g.0 && rs[j].from_country_id
                == g.1 by {
            if s.contains(g) {
                let j = choose|j: int|
                    0 <= j < prev.len() && owed_by(#[trigger] prev[j], round_id, to) > 0 && prev[j].kind == g.0
                        && prev[j].from_country_id == g.1;
                assert(rs[j] == prev[j]);
            } else {
                assert(owed_by(rs[n], round_id, to) > 0);
            }
        }
    }
}

/// The countries other than `own`, by id.
pub open spec fn other_countries(cs: Seq<Country>, own: u16) -> Set<u16> {
    cs.map_values(|c: Country| c.id).to_set().remove(own)
}

/// The countries of the participating countries other than `own`.
pub open spec fn other_participants(ps: Seq<ParticipatingCountry>, own: u16) -> Set<u16> {
    ps.map_values(|p: ParticipatingCountry| p.country_id).to_set().remove(own)
}

/// Removing a member of a sequence's set leaves at most one less than the sequence's length.
pub proof fn lemma_to_set_remove_len(s: Seq<u16>, i: int)
    requires
        0 <= i < s.len(),
    ensures
        s.to_set().remove(s[i]).finite(),
        s.to_set().remove(s[i]).len() <= s.len() - 1,
{
    s.lemma_cardinality_of_set();
    assert(s.to_set().contains(s[i]));
}

/// The most a performer can score in a round: 12 from each country but its own by
/// televote, and 12 from each participating country but its own by jury. With N
/// participating countries and the Rest of the World, that is 12 * N + 12 * (N - 1): the
/// overall entry kept under the Rest of the World never holds more.
pub proof fn law_overall_score_bound(t: Tables, i: int, p: int)
    requires
        t.rotw_country is Some,
        totals_hold(t.rankings, t.rotw_country->Some_0.country_id),
        keys_distinct(t.rankings),
        givers_known(t),
        no_points_to_own(t),
        0 <= i < t.rankings.len(),
        t.rankings[i].kind == RankingKind::Overall,
        t.rankings[i].from_country_id == t.rotw_country->Some_0.country_id,
        0 <= p < t.participating_countries.len(),
        t.participating_countries[p].id == t.rankings[i].to_country_id,
        exists|c: int| 0 <= c < t.countries.len() && (#[trigger] t.countries[c]).id == t.participating_countries[p].country_id,
    ensures
        t.rankings[i].score <= 12 * (t.countries.len() - 1) + 12 * (t.participating_countries.len() - 1),
{
    let rs = t.rankings;
    let e = rs[i];
    let own = t.participating_countries[p].country_id;
    assert(total_at(rs, i, t.rotw_country->Some_0.country_id));
    lemma_owed_by_givers(rs, e.round_id, e.to_country_id);
    let keys = scoring_givers(rs, e.round_id, e.to_country_id);
    let tele = other_countries(t.countries, own);
    let jury = other_participants(t.participating_countries, own);
    let tele_keys = tele.map(|f: u16| (RankingKind::TeleVote, f));
    let jury_keys = jury.map(|f: u16| (RankingKind::JuryVote, f));
    let ids = t.countries.map_values(|c: Country| c.id);
    let pids = t.participating_countries.map_values(|q: ParticipatingCountry| q.country_id);
    let c = choose|c: int| 0 <= c < t.countries.len() && (#[trigger] t.countries[c]).id == own;
    assert(ids[c] == own);
    lemma_to_set_remove_len(ids, c);
    assert(pids[p] == own);
    lemma_to_set_remove_len(pids, p);
    lemma_map_size_bound(tele, tele_keys, |f: u16| (RankingKind::TeleVote, f));
    lemma_map_size_bound(jury, jury_keys, |f: u16| (RankingKind::JuryVote, f));
    lemma_len_union(tele_keys, jury_keys);
    assert(keys.subset_of(tele_keys.union(jury_keys))) by {
        assert forall|g: (RankingKind, u16)| #[trigger] keys.contains(g) implies tele_keys.union(jury_keys).contains(g) by {
            let j = choose|j: int|
                0 <= j < rs.len() && owed_by(#[trigger] rs[j], e.round_id, e.to_country_id) > 0 && rs[j].kind == g.0
                    && rs[j].from_country_id == g.1;
            assert(points(rs[j]) != 0);
            if g.1 == own {
                assert(t.participating_countries[p].id == rs[j].to_country_id);
            }
            if g.0 == RankingKind::TeleVote {
                let k = choose|k: int| 0 <= k < t.countries.len() && (#[trigger] t.countries[k]).id == rs[j].from_country_id;
                assert(ids[k] == g.1);
                assert(ids.to_set().contains(g.1));
                assert(tele.contains(g.1));
                assert(tele_keys.contains((RankingKind::TeleVote, g.1)));
            } else {
                let k = choose|k: int|
                    0 <= k < t.participating_countries.len() && (#[trigger] t.participating_countries[k]).country_id
                        == rs[j].from_country_id;
                assert(pids[k] == g.1);
                assert(pids.to_set().contains(g.1));
                assert(jury.contains(g.1));
                assert(jury_keys.contains((RankingKind::JuryVote, g.1)));
            }
        }
    }
    lemma_len_subset(keys, tele_keys.union(jury_keys));
}

} // verus!
