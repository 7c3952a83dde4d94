use vstd::prelude::*;

use crate::country::{seeded_countries, seeded_participants, RotwCountry, SEED_COUNT};
use crate::database::{first_match, Tables};
use crate::ranking::bound::{law_overall_score_bound, no_points_to_own};
use crate::ranking::RankingKind;
use crate::round::admin::{
    add_finalists_effect, advance_round_effect, contenders, create_semi_finals_effect, finalist_ids,
    lemma_add_finalists_frame, lemma_split_participations_frame, qualifiers,
};
use crate::round::fresh::{law_advance_round_keeps_votes_sound, law_create_semi_finals_keeps_votes_sound, votes_sound};
use crate::round::laws::{lemma_update_round_distinct, round_ids_distinct};
use crate::round::{create_round_effect, round_with_id, Round, RoundKind};
use crate::user::Identity;
use crate::vote::resubmit::{lemma_submit_juror_votes_frame, lemma_submit_tele_votes_frame};
use crate::vote::submit::{submit_juror_votes_effect, submit_tele_votes_effect};
use crate::vote::sound::{
    law_empty_votes_sound, law_register_keeps_votes_sound, law_submit_juror_votes_keeps_votes_sound,
    law_submit_tele_votes_keeps_votes_sound,
};
use crate::voter::{law_register_keeps_voters_with_users, register_effect, voters_have_users, VoterRole};

verus! {

/// The country tables agree: the Rest of the World is set and does not participate, and
/// every other country is marked participating by exactly one row.
pub open spec fn countries_consistent(t: Tables) -> bool {
    &&& t.rotw_country is Some
    &&& forall|k: int|
        0 <= k < t.participating_countries.len() ==> (#[trigger] t.participating_countries[k]).country_id
            != t.rotw_country->Some_0.country_id
    &&& forall|i: int|
        0 <= i < t.countries.len() && (#[trigger] t.countries[i]).id != t.rotw_country->Some_0.country_id ==> exists|k: int|
            0 <= k < t.participating_countries.len() && (#[trigger] t.participating_countries[k]).country_id == t.countries[i].id
                && forall|k2: int|
                0 <= k2 < t.participating_countries.len() && (#[trigger] t.participating_countries[k2]).country_id
                    == t.countries[i].id ==> k2 == k
}

/// What holds of every state of a contest: the country tables agree, no two rounds share an
/// id, every viewer and juror belongs to a user, and the rankings are sound and tallied
/// (`votes_sound`): every rank is its entry's place, every overall score the sum of its
/// receiver's points, every televote or jury score what the votes give it.
pub open spec fn contest_invariant(t: Tables) -> bool {
    &&& countries_consistent(t)
    &&& round_ids_distinct(t.rounds)
    &&& voters_have_users(t)
    &&& votes_sound(t)
}

/// Two states with the same countries, participating countries and Rest of the World.
pub open spec fn same_countries(a: Tables, b: Tables) -> bool {
    &&& a.countries == b.countries
    &&& a.participating_countries == b.participating_countries
    &&& a.rotw_country == b.rotw_country
}

/// States with the same country tables agree on whether the tables are consistent.
pub proof fn lemma_same_countries_consistent(a: Tables, b: Tables)
    requires
        same_countries(a, b),
        countries_consistent(a),
    ensures
        countries_consistent(b),
{
    assert forall|i: int|
        0 <= i < b.countries.len() && (#[trigger] b.countries[i]).id != b.rotw_country->Some_0.country_id implies exists|k: int|
        0 <= k < b.participating_countries.len() && (#[trigger] b.participating_countries[k]).country_id == b.countries[i].id
            && forall|k2: int|
            0 <= k2 < b.participating_countries.len() && (#[trigger] b.participating_countries[k2]).country_id
                == b.countries[i].id ==> k2 == k by {
        assert(a.countries[i] == b.countries[i]);
        let k = choose|k: int|
            0 <= k < a.participating_countries.len() && (#[trigger] a.participating_countries[k]).country_id == a.countries[i].id
                && forall|k2: int|
                0 <= k2 < a.participating_countries.len() && (#[trigger] a.participating_countries[k2]).country_id
                    == a.countries[i].id ==> k2 == k;
        assert(b.participating_countries[k] == a.participating_countries[k]);
    }
    assert forall|k: int| 0 <= k < b.participating_countries.len() implies (#[trigger] b.participating_countries[k]).country_id
        != b.rotw_country->Some_0.country_id by {
        assert(b.participating_countries[k] == a.participating_countries[k]);
    }
}

/// The seeded state holds the contest invariant: the Rest of the World does not
/// participate, every other country is marked participating by exactly one row, and there
/// are no rounds, voters, entries or votes yet.
pub proof fn law_init_holds_invariant(t: Tables)
    requires
        seeded_countries(t.countries, SEED_COUNT as int),
        seeded_participants(t.participating_countries, (SEED_COUNT - 1) as int),
        t.rotw_country == Some(RotwCountry { country_id: SEED_COUNT as u16 }),
        t.rounds.len() == 0,
        t.rankings.len() == 0,
        t.tele_votes.len() == 0,
        t.juror_votes.len() == 0,
        t.viewers.len() == 0,
        t.jurors.len() == 0,
    ensures
        contest_invariant(t),
{
    law_empty_votes_sound(t);
    let ps = t.participating_countries;
    assert forall|i: int|
        0 <= i < t.countries.len() && (#[trigger] t.countries[i]).id != t.rotw_country->Some_0.country_id implies exists|k: int|
        0 <= k < ps.len() && (#[trigger] ps[k]).country_id == t.countries[i].id && forall|k2: int|
            0 <= k2 < ps.len() && (#[trigger] ps[k2]).country_id == t.countries[i].id ==> k2 == k by {
        assert(ps[i].country_id == t.countries[i].id);
        assert forall|k2: int| 0 <= k2 < ps.len() && (#[trigger] ps[k2]).country_id == t.countries[i].id implies k2 == i by {
            assert(ps[k2].country_id == k2 + 1);
        }
    }
}

/// Registering touches neither the country tables nor the rounds.
pub proof fn law_register_keeps_contest(t: Tables, sender: Identity, role: VoterRole)
    requires
        register_effect(t, sender, role) is Ok,
    ensures
        same_countries(t, register_effect(t, sender, role)->Ok_0),
        register_effect(t, sender, role)->Ok_0.rounds == t.rounds,
        contest_invariant(t) ==> contest_invariant(register_effect(t, sender, role)->Ok_0),
{
    let out = register_effect(t, sender, role)->Ok_0;
    if contest_invariant(t) {
        lemma_same_countries_consistent(t, out);
        law_register_keeps_votes_sound(t, sender, role);
        law_register_keeps_voters_with_users(t, sender, role);
    }
}

/// Submitting televotes touches neither the country tables nor the rounds.
pub proof fn law_submit_tele_votes_keeps_contest(t: Tables, sender: Identity, votes: Seq<u16>)
    requires
        submit_tele_votes_effect(t, sender, votes) is Ok,
    ensures
        same_countries(t, submit_tele_votes_effect(t, sender, votes)->Ok_0),
        submit_tele_votes_effect(t, sender, votes)->Ok_0.rounds == t.rounds,
        contest_invariant(t) ==> contest_invariant(submit_tele_votes_effect(t, sender, votes)->Ok_0),
{
    lemma_submit_tele_votes_frame(t, sender, votes);
    if contest_invariant(t) {
        lemma_same_countries_consistent(t, submit_tele_votes_effect(t, sender, votes)->Ok_0);
        law_submit_tele_votes_keeps_votes_sound(t, sender, votes);
    }
}

/// Submitting a juror's ranking touches neither the country tables nor the rounds.
pub proof fn law_submit_juror_votes_keeps_contest(t: Tables, sender: Identity, ranking: Seq<u16>)
    requires
        submit_juror_votes_effect(t, sender, ranking) is Ok,
    ensures
        same_countries(t, submit_juror_votes_effect(t, sender, ranking)->Ok_0),
        submit_juror_votes_effect(t, sender, ranking)->Ok_0.rounds == t.rounds,
        contest_invariant(t) ==> contest_invariant(submit_juror_votes_effect(t, sender, ranking)->Ok_0),
{
    lemma_submit_juror_votes_frame(t, sender, ranking);
    if contest_invariant(t) {
        lemma_same_countries_consistent(t, submit_juror_votes_effect(t, sender, ranking)->Ok_0);
        law_submit_juror_votes_keeps_votes_sound(t, sender, ranking);
    }
}

/// A created round is appended under a fresh id.
pub proof fn lemma_create_round_distinct(t: Tables, year: u16, kind: RoundKind, voting_open: bool)
    requires
        create_round_effect(t, year, kind, voting_open) is Ok,
        round_ids_distinct(t.rounds),
    ensures
        round_ids_distinct(create_round_effect(t, year, kind, voting_open)->Ok_0.0.rounds),
{
    let r = create_round_effect(t, year, kind, voting_open)->Ok_0.1;
    let rounds = create_round_effect(t, year, kind, voting_open)->Ok_0.0.rounds;
    assert(rounds == t.rounds.push(r));
    assert forall|i: int, j: int| 0 <= i < j < rounds.len() implies #[trigger] rounds[i].id != #[trigger] rounds[j].id by {
        if j < t.rounds.len() {
            assert(t.rounds[i].id != t.rounds[j].id);
        } else {
            assert(rounds[i] == t.rounds[i]);
            if rounds[i].id == r.id {
                assert(round_with_id(r.id)(t.rounds[i]));
            }
        }
    }
}

/// Creating the semi-finals adds rounds and performers, but leaves the country tables as
/// they are and keeps round ids distinct.
pub proof fn law_create_semi_finals_keeps_contest(t: Tables, year: u16)
    requires
        create_semi_finals_effect(t, year) is Ok,
    ensures
        same_countries(t, create_semi_finals_effect(t, year)->Ok_0),
        contest_invariant(t) ==> contest_invariant(create_semi_finals_effect(t, year)->Ok_0),
{
    let (t1, sf1) = create_round_effect(t, year, RoundKind::SemiFinal1, true)->Ok_0;
    let (t2, sf2) = create_round_effect(t1, year, RoundKind::SemiFinal2, true)->Ok_0;
    let cs = contenders(t2.participating_countries);
    lemma_split_participations_frame(t2, sf1.id, sf2.id, cs, cs.len() as int);
    if round_ids_distinct(t.rounds) {
        lemma_create_round_distinct(t, year, RoundKind::SemiFinal1, true);
        lemma_create_round_distinct(t1, year, RoundKind::SemiFinal2, true);
    }
    if contest_invariant(t) {
        lemma_same_countries_consistent(t, create_semi_finals_effect(t, year)->Ok_0);
        law_create_semi_finals_keeps_votes_sound(t, year);
    }
}

/// Advancing the contest adds at most a round and its performers, but leaves the country
/// tables as they are and keeps round ids distinct.
pub proof fn law_advance_round_keeps_contest(t: Tables, s1: Seq<([u64; 14], u16)>, s2: Seq<([u64; 14], u16)>)
    requires
        advance_round_effect(t, s1, s2) is Ok,
    ensures
        same_countries(t, advance_round_effect(t, s1, s2)->Ok_0),
        contest_invariant(t) ==> contest_invariant(advance_round_effect(t, s1, s2)->Ok_0),
{
    let out = advance_round_effect(t, s1, s2)->Ok_0;
    let a = t.active_round->Some_0;
    let cur = first_match(t.rounds, round_with_id(a.round_id))->Some_0;
    if cur.voting_open {
        if round_ids_distinct(t.rounds) {
            lemma_update_round_distinct(t.rounds, cur.id, Round { voting_open: false, ..cur });
        }
    } else if cur.kind == RoundKind::SemiFinal2 {
        let (t1, gf) = create_round_effect(t, cur.year, RoundKind::GrandFinal, true)->Ok_0;
        let countries = qualifiers(s1) + qualifiers(s2) + finalist_ids(t.participating_countries);
        lemma_add_finalists_frame(t1, gf.id, countries);
        if round_ids_distinct(t.rounds) {
            lemma_create_round_distinct(t, cur.year, RoundKind::GrandFinal, true);
        }
        assert(out.rounds == add_finalists_effect(t1, gf.id, countries)->Ok_0.rounds);
    }
    if contest_invariant(t) {
        lemma_same_countries_consistent(t, out);
        law_advance_round_keeps_votes_sound(t, s1, s2);
    }
}

/// In every state of a contest, no performer's overall score in a round exceeds 12 from
/// each country but its own by televote and 12 from each participating country but its own
/// by jury, as long as nobody awards points to their own country.
pub proof fn law_contest_overall_score_bound(t: Tables, i: int, p: int)
    requires
        contest_invariant(t),
        no_points_to_own(t),
        0 <= i < t.rankings.len(),
        t.rankings[i].kind == RankingKind::Overall,
        t.rankings[i].from_country_id == t.rotw_country->Some_0.country_id,
        0 <= p < t.participating_countries.len(),
        t.participating_countries[p].id == t.rankings[i].to_country_id,
        exists|c: int| 0 <= c < t.countries.len() && (#[trigger] t.countries[c]).id == t.participating_countries[p].country_id,
    ensures
        t.rankings[i].score <= 12 * (t.countries.len() - 1) + 12 * (t.participating_countries.len() - 1),
{
    law_overall_score_bound(t, i, p);
}

} // verus!
