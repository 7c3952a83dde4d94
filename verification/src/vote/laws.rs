use vstd::prelude::*;

use crate::country::participating_with_id;
use crate::database::{any_match, first_match, Tables};
use crate::filters::{lemma_filter_narrower, lemma_filter_removed};
use crate::ranking::laws::{groups_fit, law_decrement_keeps_ranks, law_increment_keeps_ranks, ranks_are_places};
use crate::ranking::totals::{law_decrement_keeps_totals, law_increment_keeps_totals, totals_hold};
use crate::ranking::RankingKind;
use crate::round::{round_participants, round_with_id, RoundKind};
use crate::user::{user_with_identity, Identity};
use crate::vote::submit::{
    check_vote, create_juror_votes_effect, create_tele_votes_effect, law_other_performer_count_filters,
    lemma_validate_votes_each, of_other_country, other_performer_count, submit_juror_votes_effect, submit_tele_votes_effect,
    validate_votes_spec,
};
use crate::vote::{
    create_juror_vote_effect, create_tele_vote_effect, delete_juror_votes_effect, delete_tele_votes_effect,
    juror_vote_for, juror_vote_not_of, juror_vote_of, jury_hooks_effect, jury_ranking_effect, repeated_effect, tele_hooks_effect,
    tele_ranking_effect, tele_vote_not_of, tele_vote_of, JurorVote, TeleVote, AVAILABLE_TELE_VOTES,
};
use crate::voter::{juror_with_user, viewer_with_user};

verus! {

/// Every overall entry kept under the Rest of the World holds the televote and jury points
/// that its receiver got in its round.
pub open spec fn totals_kept(t: Tables) -> bool {
    match t.rotw_country {
        Some(r) => totals_hold(t.rankings, r.country_id),
        None => true,
    }
}

/// The rankings are sound: every rank is its entry's place in its group, no group holds
/// more entries than there are ranks, and the overall scores are the points the receivers got.
pub open spec fn rankings_sound(t: Tables) -> bool {
    &&& totals_kept(t)
    &&& ranks_are_places(t.rankings)
    &&& groups_fit(t.rankings)
}

/// Counting or uncounting a televote or jury entry any number of times keeps the rankings sound.
pub proof fn lemma_repeated_sound(
    t: Tables,
    round_id: u16,
    kind: RankingKind,
    from: u16,
    to: u16,
    increment: bool,
    n: nat,
)
    requires
        kind != RankingKind::Overall,
        rankings_sound(t),
        repeated_effect(t, round_id, kind, from, to, increment, n) is Ok,
    ensures
        rankings_sound(Tables { rankings: repeated_effect(t, round_id, kind, from, to, increment, n)->Ok_0, ..t }),
    decreases n,
{
    if n > 0 {
        let m = (n - 1) as nat;
        assert(repeated_effect(t, round_id, kind, from, to, increment, m) is Ok);
        lemma_repeated_sound(t, round_id, kind, from, to, increment, m);
        let rs = repeated_effect(t, round_id, kind, from, to, increment, m)->Ok_0;
        if increment {
            law_increment_keeps_ranks(rs, t.rotw_country, round_id, kind, from, to);
        } else {
            law_decrement_keeps_ranks(rs, t.rotw_country, round_id, kind, from, to);
        }
        if let Some(r) = t.rotw_country {
            if increment {
                law_increment_keeps_totals(rs, r, round_id, kind, from, to);
            } else {
                law_decrement_keeps_totals(rs, r, round_id, kind, from, to);
            }
        }
    }
}

/// Counting or uncounting one televote keeps the rankings sound.
pub proof fn lemma_tele_ranking_sound(t: Tables, vote: TeleVote, increment: bool)
    requires
        rankings_sound(t),
        tele_ranking_effect(t, vote, increment) is Ok,
    ensures
        rankings_sound(Tables { rankings: tele_ranking_effect(t, vote, increment)->Ok_0, ..t }),
{
    let v = crate::database::first_match(t.viewers, crate::voter::viewer_with_id(vote.viewer_id))->Some_0;
    lemma_repeated_sound(t, vote.round_id, RankingKind::TeleVote, v.country_id, vote.to_country_id, increment, 1);
}

/// Counting or uncounting one juror's vote keeps the rankings sound.
pub proof fn lemma_jury_ranking_sound(t: Tables, vote: JurorVote, increment: bool)
    requires
        rankings_sound(t),
        jury_ranking_effect(t, vote, increment) is Ok,
    ensures
        rankings_sound(Tables { rankings: jury_ranking_effect(t, vote, increment)->Ok_0, ..t }),
{
    let j = crate::database::first_match(t.jurors, crate::voter::juror_with_id(vote.juror_id))->Some_0;
    let pc = crate::database::first_match(
        t.participating_countries,
        crate::country::participating_with_id(j.participating_country_id),
    )->Some_0;
    lemma_repeated_sound(
        t,
        vote.round_id,
        RankingKind::JuryVote,
        pc.country_id,
        vote.ranked_country_id,
        increment,
        crate::vote::rank_weight(vote.rank),
    );
}

/// Counting or uncounting televotes one after the other keeps the rankings sound.
pub proof fn lemma_tele_hooks_sound(t: Tables, votes: Seq<TeleVote>, increment: bool)
    requires
        rankings_sound(t),
        tele_hooks_effect(t, votes, increment) is Ok,
    ensures
        rankings_sound(Tables { rankings: tele_hooks_effect(t, votes, increment)->Ok_0, ..t }),
    decreases votes.len(),
{
    if votes.len() > 0 {
        lemma_tele_hooks_sound(t, votes.drop_last(), increment);
        let rs = tele_hooks_effect(t, votes.drop_last(), increment)->Ok_0;
        lemma_tele_ranking_sound(Tables { rankings: rs, ..t }, votes.last(), increment);
    }
}

/// Counting or uncounting juror votes one after the other keeps the rankings sound.
pub proof fn lemma_jury_hooks_sound(t: Tables, votes: Seq<JurorVote>, increment: bool)
    requires
        rankings_sound(t),
        jury_hooks_effect(t, votes, increment) is Ok,
    ensures
        rankings_sound(Tables { rankings: jury_hooks_effect(t, votes, increment)->Ok_0, ..t }),
    decreases votes.len(),
{
    if votes.len() > 0 {
        lemma_jury_hooks_sound(t, votes.drop_last(), increment);
        let rs = jury_hooks_effect(t, votes.drop_last(), increment)->Ok_0;
        lemma_jury_ranking_sound(Tables { rankings: rs, ..t }, votes.last(), increment);
    }
}

/// Creating a televote keeps the rankings sound.
pub proof fn lemma_create_tele_vote_sound(t: Tables, viewer_id: u64, round_id: u16, to_country_id: u16)
    requires
        rankings_sound(t),
        create_tele_vote_effect(t, viewer_id, round_id, to_country_id) is Ok,
    ensures
        rankings_sound(create_tele_vote_effect(t, viewer_id, round_id, to_country_id)->Ok_0),
{
    reveal(create_tele_vote_effect);
    let row = TeleVote { id: (t.sequences.tele_vote + 1) as u64, viewer_id, round_id, to_country_id };
    let t1 = Tables {
        tele_votes: t.tele_votes.push(row),
        sequences: crate::database::Sequences { tele_vote: row.id, ..t.sequences },
        ..t
    };
    lemma_tele_ranking_sound(t1, row, true);
}

/// Creating a juror's vote keeps the rankings sound.
pub proof fn lemma_create_juror_vote_sound(t: Tables, juror_id: u64, round_id: u16, ranked_country_id: u16, rank: u16)
    requires
        rankings_sound(t),
        create_juror_vote_effect(t, juror_id, round_id, ranked_country_id, rank) is Ok,
    ensures
        rankings_sound(create_juror_vote_effect(t, juror_id, round_id, ranked_country_id, rank)->Ok_0),
{
    reveal(create_juror_vote_effect);
    let row = JurorVote { id: (t.sequences.juror_vote + 1) as u64, juror_id, round_id, ranked_country_id, rank };
    let t1 = Tables {
        juror_votes: t.juror_votes.push(row),
        sequences: crate::database::Sequences { juror_vote: row.id, ..t.sequences },
        ..t
    };
    lemma_jury_ranking_sound(t1, row, true);
}

/// Deleting a viewer's televotes of a round keeps the rankings sound.
pub proof fn lemma_delete_tele_votes_sound(t: Tables, viewer_id: u64, round_id: u16)
    requires
        rankings_sound(t),
        delete_tele_votes_effect(t, viewer_id, round_id) is Ok,
    ensures
        rankings_sound(delete_tele_votes_effect(t, viewer_id, round_id)->Ok_0),
{
    reveal(delete_tele_votes_effect);
    let t1 = Tables { tele_votes: t.tele_votes.filter(crate::vote::tele_vote_not_of(viewer_id, round_id)), ..t };
    lemma_tele_hooks_sound(t1, t.tele_votes.filter(crate::vote::tele_vote_of(viewer_id, round_id)), false);
}

/// Deleting a juror's votes of a round keeps the rankings sound.
pub proof fn lemma_delete_juror_votes_sound(t: Tables, juror_id: u64, round_id: u16)
    requires
        rankings_sound(t),
        delete_juror_votes_effect(t, juror_id, round_id) is Ok,
    ensures
        rankings_sound(delete_juror_votes_effect(t, juror_id, round_id)->Ok_0),
{
    reveal(delete_juror_votes_effect);
    let t1 = Tables { juror_votes: t.juror_votes.filter(crate::vote::juror_vote_not_of(juror_id, round_id)), ..t };
    lemma_jury_hooks_sound(t1, t.juror_votes.filter(crate::vote::juror_vote_of(juror_id, round_id)), false);
}

/// Creating televotes one after the other keeps the rankings sound.
pub proof fn lemma_create_tele_votes_sound(t: Tables, viewer_id: u64, round_id: u16, votes: Seq<u16>)
    requires
        rankings_sound(t),
        create_tele_votes_effect(t, viewer_id, round_id, votes) is Ok,
    ensures
        rankings_sound(create_tele_votes_effect(t, viewer_id, round_id, votes)->Ok_0),
    decreases votes.len(),
{
    if votes.len() > 0 {
        lemma_create_tele_votes_sound(t, viewer_id, round_id, votes.drop_last());
        let t1 = create_tele_votes_effect(t, viewer_id, round_id, votes.drop_last())->Ok_0;
        lemma_create_tele_vote_sound(t1, viewer_id, round_id, votes.last());
    }
}

/// Creating a juror's votes one after the other keeps the rankings sound.
pub proof fn lemma_create_juror_votes_sound(t: Tables, juror_id: u64, round_id: u16, ranking: Seq<u16>, n: int)
    requires
        rankings_sound(t),
        create_juror_votes_effect(t, juror_id, round_id, ranking, n) is Ok,
    ensures
        rankings_sound(create_juror_votes_effect(t, juror_id, round_id, ranking, n)->Ok_0),
    decreases n,
{
    if n > 0 {
        lemma_create_juror_votes_sound(t, juror_id, round_id, ranking, n - 1);
        let t1 = create_juror_votes_effect(t, juror_id, round_id, ranking, n - 1)->Ok_0;
        lemma_create_juror_vote_sound(t1, juror_id, round_id, ranking[n - 1], n as u16);
    }
}

/// A country's score is the sum of the point sets it got, and each set follows the 1224
/// ranking: once a viewer's televotes are submitted, every rank is still its entry's place
/// and every overall entry kept under the Rest of the World still holds the televote and
/// jury points that its receiver got in its round.
pub proof fn law_submit_tele_votes_keeps_rankings_sound(t: Tables, sender: Identity, votes: Seq<u16>)
    requires
        rankings_sound(t),
        submit_tele_votes_effect(t, sender, votes) is Ok,
    ensures
        rankings_sound(submit_tele_votes_effect(t, sender, votes)->Ok_0),
{
    let user = crate::database::first_match(t.users, crate::user::user_with_identity(sender))->Some_0;
    let viewer = crate::database::first_match(t.viewers, crate::voter::viewer_with_user(user.id))->Some_0;
    let active = t.active_round->Some_0;
    lemma_delete_tele_votes_sound(t, viewer.id, active.round_id);
    let t1 = delete_tele_votes_effect(t, viewer.id, active.round_id)->Ok_0;
    lemma_create_tele_votes_sound(t1, viewer.id, active.round_id, votes);
}

/// Once a juror's ranking is submitted, every rank is still its entry's place and every
/// overall entry kept under the Rest of the World still holds the televote and jury points
/// that its receiver got in its round.
pub proof fn law_submit_juror_votes_keeps_rankings_sound(t: Tables, sender: Identity, ranking: Seq<u16>)
    requires
        rankings_sound(t),
        submit_juror_votes_effect(t, sender, ranking) is Ok,
    ensures
        rankings_sound(submit_juror_votes_effect(t, sender, ranking)->Ok_0),
{
    let active = t.active_round->Some_0;
    let round = crate::database::first_match(t.rounds, crate::round::round_with_id(active.round_id))->Some_0;
    let user = crate::database::first_match(t.users, crate::user::user_with_identity(sender))->Some_0;
    let juror = crate::database::first_match(t.jurors, crate::voter::juror_with_user(user.id))->Some_0;
    lemma_delete_juror_votes_sound(t, juror.id, round.id);
    let t1 = delete_juror_votes_effect(t, juror.id, round.id)->Ok_0;
    lemma_create_juror_votes_sound(t1, juror.id, round.id, ranking, ranking.len() as int);
}

/// The countries that a viewer voted for in a round, in the order of the votes.
pub open spec fn tele_ballot(tele_votes: Seq<TeleVote>, viewer_id: u64, round_id: u16) -> Seq<u16> {
    tele_votes.filter(tele_vote_of(viewer_id, round_id)).map_values(|v: TeleVote| v.to_country_id)
}

/// The (country, rank) pairs of a juror's votes in a round, in the order of the votes.
pub open spec fn jury_ballot(juror_votes: Seq<JurorVote>, juror_id: u64, round_id: u16) -> Seq<(u16, u16)> {
    juror_votes.filter(juror_vote_of(juror_id, round_id)).map_values(|v: JurorVote| (v.ranked_country_id, v.rank))
}

/// The first `n` countries of a ranking, each with its rank counted from 1.
pub open spec fn ranked(ranking: Seq<u16>, n: int) -> Seq<(u16, u16)> {
    Seq::new(n as nat, |k: int| (ranking[k], (k + 1) as u16))
}

/// A created televote is appended to the table, under the next number of its sequence.
pub proof fn lemma_create_tele_vote_row(t: Tables, viewer_id: u64, round_id: u16, to_country_id: u16)
    requires
        create_tele_vote_effect(t, viewer_id, round_id, to_country_id) is Ok,
    ensures
        create_tele_vote_effect(t, viewer_id, round_id, to_country_id)->Ok_0.tele_votes == t.tele_votes.push(
            TeleVote { id: (t.sequences.tele_vote + 1) as u64, viewer_id, round_id, to_country_id },
        ),
{
    reveal(create_tele_vote_effect);
}

/// Creating televotes appends them, in order, to the viewer's votes of the round.
pub proof fn lemma_create_tele_votes_ballot(t: Tables, viewer_id: u64, round_id: u16, votes: Seq<u16>)
    requires
        create_tele_votes_effect(t, viewer_id, round_id, votes) is Ok,
    ensures
        ({
            let out = create_tele_votes_effect(t, viewer_id, round_id, votes)->Ok_0;
            &&& tele_ballot(out.tele_votes, viewer_id, round_id) == tele_ballot(t.tele_votes, viewer_id, round_id) + votes
            &&& out.tele_votes.filter(tele_vote_not_of(viewer_id, round_id)) == t.tele_votes.filter(
                tele_vote_not_of(viewer_id, round_id),
            )
        }),
    decreases votes.len(),
{
    if votes.len() == 0 {
        assert(tele_ballot(t.tele_votes, viewer_id, round_id) + votes =~= tele_ballot(t.tele_votes, viewer_id, round_id));
    } else {
        let prev = votes.drop_last();
        lemma_create_tele_votes_ballot(t, viewer_id, round_id, prev);
        let t1 = create_tele_votes_effect(t, viewer_id, round_id, prev)->Ok_0;
        lemma_create_tele_vote_row(t1, viewer_id, round_id, votes.last());
        let row = TeleVote { id: (t1.sequences.tele_vote + 1) as u64, viewer_id, round_id, to_country_id: votes.last() };
        let out = create_tele_votes_effect(t, viewer_id, round_id, votes)->Ok_0;
        assert(out.tele_votes == t1.tele_votes.push(row));
        t1.tele_votes.lemma_filter_push(row, tele_vote_of(viewer_id, round_id));
        t1.tele_votes.lemma_filter_push(row, tele_vote_not_of(viewer_id, round_id));
        assert(tele_ballot(out.tele_votes, viewer_id, round_id) =~= tele_ballot(t1.tele_votes, viewer_id, round_id).push(
            votes.last(),
        ));
        assert(votes =~= prev.push(votes.last()));
        assert(tele_ballot(t.tele_votes, viewer_id, round_id) + votes =~= (tele_ballot(t.tele_votes, viewer_id, round_id)
            + prev).push(votes.last()));
    }
}

/// A created juror vote is appended to the table, under the next number of its sequence.
pub proof fn lemma_create_juror_vote_row(t: Tables, juror_id: u64, round_id: u16, ranked_country_id: u16, rank: u16)
    requires
        create_juror_vote_effect(t, juror_id, round_id, ranked_country_id, rank) is Ok,
    ensures
        create_juror_vote_effect(t, juror_id, round_id, ranked_country_id, rank)->Ok_0.juror_votes == t.juror_votes.push(
            JurorVote { id: (t.sequences.juror_vote + 1) as u64, juror_id, round_id, ranked_country_id, rank },
        ),
{
    reveal(create_juror_vote_effect);
}

/// Creating a juror's votes appends them, in order and ranked from 1, to the juror's votes
/// of the round.
pub proof fn lemma_create_juror_votes_ballot(t: Tables, juror_id: u64, round_id: u16, ranking: Seq<u16>, n: int)
    requires
        0 <= n <= ranking.len(),
        create_juror_votes_effect(t, juror_id, round_id, ranking, n) is Ok,
    ensures
        ({
            let out = create_juror_votes_effect(t, juror_id, round_id, ranking, n)->Ok_0;
            &&& jury_ballot(out.juror_votes, juror_id, round_id) == jury_ballot(t.juror_votes, juror_id, round_id) + ranked(
                ranking,
                n,
            )
            &&& out.juror_votes.filter(juror_vote_not_of(juror_id, round_id)) == t.juror_votes.filter(
                juror_vote_not_of(juror_id, round_id),
            )
        }),
    decreases n,
{
    if n == 0 {
        assert(jury_ballot(t.juror_votes, juror_id, round_id) + ranked(ranking, n) =~= jury_ballot(
            t.juror_votes,
            juror_id,
            round_id,
        ));
    } else {
        lemma_create_juror_votes_ballot(t, juror_id, round_id, ranking, n - 1);
        let t1 = create_juror_votes_effect(t, juror_id, round_id, ranking, n - 1)->Ok_0;
        lemma_create_juror_vote_row(t1, juror_id, round_id, ranking[n - 1], n as u16);
        let row = JurorVote {
            id: (t1.sequences.juror_vote + 1) as u64,
            juror_id,
            round_id,
            ranked_country_id: ranking[n - 1],
            rank: n as u16,
        };
        let out = create_juror_votes_effect(t, juror_id, round_id, ranking, n)->Ok_0;
        assert(out.juror_votes == t1.juror_votes.push(row));
        t1.juror_votes.lemma_filter_push(row, juror_vote_of(juror_id, round_id));
        t1.juror_votes.lemma_filter_push(row, juror_vote_not_of(juror_id, round_id));
        assert(jury_ballot(out.juror_votes, juror_id, round_id) =~= jury_ballot(t1.juror_votes, juror_id, round_id).push(
            (ranking[n - 1], n as u16),
        ));
        assert(ranked(ranking, n) =~= ranked(ranking, n - 1).push((ranking[n - 1], n as u16)));
        assert(jury_ballot(t.juror_votes, juror_id, round_id) + ranked(ranking, n) =~= (jury_ballot(
            t.juror_votes,
            juror_id,
            round_id,
        ) + ranked(ranking, n - 1)).push((ranking[n - 1], n as u16)));
    }
}

/// A viewer's submission is taken only while the active round is open for voting; it
/// replaces the viewer's televotes in that round by the submitted ones, at most twenty, in
/// their order, and leaves every other televote as it was; each submitted vote is for a
/// country that performs in the round and is not the viewer's own.
pub proof fn law_submit_tele_votes_replaces_ballot(t: Tables, sender: Identity, votes: Seq<u16>)
    requires
        submit_tele_votes_effect(t, sender, votes) is Ok,
    ensures
        ({
            let user = first_match(t.users, user_with_identity(sender))->Some_0;
            let viewer = first_match(t.viewers, viewer_with_user(user.id))->Some_0;
            let round_id = t.active_round->Some_0.round_id;
            let out = submit_tele_votes_effect(t, sender, votes)->Ok_0;
            &&& first_match(t.rounds, round_with_id(round_id)) is Some
            &&& first_match(t.rounds, round_with_id(round_id))->Some_0.voting_open
            &&& votes.len() <= AVAILABLE_TELE_VOTES
            &&& forall|k: int| 0 <= k < votes.len() ==> #[trigger] check_vote(t, round_id, viewer.country_id, votes[k]) is Ok
            &&& tele_ballot(out.tele_votes, viewer.id, round_id) == votes
            &&& out.tele_votes.filter(tele_vote_not_of(viewer.id, round_id)) == t.tele_votes.filter(
                tele_vote_not_of(viewer.id, round_id),
            )
        }),
{
    let user = first_match(t.users, user_with_identity(sender))->Some_0;
    let viewer = first_match(t.viewers, viewer_with_user(user.id))->Some_0;
    let round_id = t.active_round->Some_0.round_id;
    lemma_validate_votes_each(t, round_id, viewer.country_id, votes);
    reveal(delete_tele_votes_effect);
    let t1 = delete_tele_votes_effect(t, viewer.id, round_id)->Ok_0;
    assert(t1.tele_votes == t.tele_votes.filter(tele_vote_not_of(viewer.id, round_id)));
    lemma_filter_removed(t.tele_votes, tele_vote_of(viewer.id, round_id), tele_vote_not_of(viewer.id, round_id));
    lemma_create_tele_votes_ballot(t1, viewer.id, round_id, votes);
    assert(tele_ballot(t1.tele_votes, viewer.id, round_id) =~= Seq::<u16>::empty());
    assert(Seq::<u16>::empty() + votes =~= votes);
}

/// A juror's submission is taken only in a grand final open for voting; it replaces the
/// juror's votes there by the submitted ranking, the first country ranked 1, the next 2
/// and so on, and leaves every other juror vote as it was; each ranked country performs in
/// the round and is not the juror's own.
pub proof fn law_submit_juror_votes_replaces_ballot(t: Tables, sender: Identity, ranking: Seq<u16>)
    requires
        submit_juror_votes_effect(t, sender, ranking) is Ok,
    ensures
        ({
            let round = first_match(t.rounds, round_with_id(t.active_round->Some_0.round_id))->Some_0;
            let round_id = round.id;
            let user = first_match(t.users, user_with_identity(sender))->Some_0;
            let juror = first_match(t.jurors, juror_with_user(user.id))->Some_0;
            let from = first_match(t.participating_countries, participating_with_id(juror.participating_country_id))->Some_0.country_id;
            let out = submit_juror_votes_effect(t, sender, ranking)->Ok_0;
            &&& round.kind == RoundKind::GrandFinal
            &&& round.voting_open
            &&& forall|k: int| 0 <= k < ranking.len() ==> #[trigger] check_vote(t, round_id, from, ranking[k]) is Ok
            &&& jury_ballot(out.juror_votes, juror.id, round_id) == ranked(ranking, ranking.len() as int)
            &&& out.juror_votes.filter(juror_vote_not_of(juror.id, round_id)) == t.juror_votes.filter(
                juror_vote_not_of(juror.id, round_id),
            )
        }),
{
    let active = t.active_round->Some_0;
    let round = first_match(t.rounds, round_with_id(active.round_id))->Some_0;
    let round_id = round.id;
    let user = first_match(t.users, user_with_identity(sender))->Some_0;
    let juror = first_match(t.jurors, juror_with_user(user.id))->Some_0;
    let from = first_match(t.participating_countries, participating_with_id(juror.participating_country_id))->Some_0.country_id;
    lemma_validate_votes_each(t, round_id, from, ranking);
    reveal(delete_juror_votes_effect);
    let t1 = delete_juror_votes_effect(t, juror.id, round_id)->Ok_0;
    lemma_filter_removed(t.juror_votes, juror_vote_of(juror.id, round_id), juror_vote_not_of(juror.id, round_id));
    lemma_create_juror_votes_ballot(t1, juror.id, round_id, ranking, ranking.len() as int);
    assert(jury_ballot(t1.juror_votes, juror.id, round_id) =~= Seq::<(u16, u16)>::empty());
    assert(Seq::<(u16, u16)>::empty() + ranked(ranking, ranking.len() as int) =~= ranked(ranking, ranking.len() as int));
}

/// No viewer holds more than twenty televotes in a round.
pub open spec fn tele_votes_within_limit(tele_votes: Seq<TeleVote>) -> bool {
    forall|viewer_id: u64, round_id: u16|
        #[trigger] tele_votes.filter(tele_vote_of(viewer_id, round_id)).len() <= AVAILABLE_TELE_VOTES
}

/// Each viewer can have up to twenty televotes per round: a submission keeps it so.
pub proof fn law_submit_tele_votes_keeps_limit(t: Tables, sender: Identity, votes: Seq<u16>)
    requires
        tele_votes_within_limit(t.tele_votes),
        submit_tele_votes_effect(t, sender, votes) is Ok,
    ensures
        tele_votes_within_limit(submit_tele_votes_effect(t, sender, votes)->Ok_0.tele_votes),
{
    let user = first_match(t.users, user_with_identity(sender))->Some_0;
    let viewer = first_match(t.viewers, viewer_with_user(user.id))->Some_0;
    let round_id = t.active_round->Some_0.round_id;
    let out = submit_tele_votes_effect(t, sender, votes)->Ok_0;
    law_submit_tele_votes_replaces_ballot(t, sender, votes);
    assert forall|v: u64, r: u16| #[trigger] out.tele_votes.filter(tele_vote_of(v, r)).len() <= AVAILABLE_TELE_VOTES by {
        if v == viewer.id && r == round_id {
            assert(tele_ballot(out.tele_votes, v, r).len() == out.tele_votes.filter(tele_vote_of(v, r)).len());
        } else {
            let not_mine = tele_vote_not_of(viewer.id, round_id);
            assert forall|x: TeleVote| #[trigger] tele_vote_of(v, r)(x) implies not_mine(x) by {}
            lemma_filter_narrower(out.tele_votes, not_mine, tele_vote_of(v, r));
            lemma_filter_narrower(t.tele_votes, not_mine, tele_vote_of(v, r));
            assert(t.tele_votes.filter(tele_vote_of(v, r)).len() <= AVAILABLE_TELE_VOTES);
        }
    }
}

/// A juror's vote is refused for a country that the juror ranked already in the round.
pub proof fn lemma_create_juror_vote_unique_country(
    t: Tables,
    juror_id: u64,
    round_id: u16,
    ranked_country_id: u16,
    rank: u16,
)
    requires
        create_juror_vote_effect(t, juror_id, round_id, ranked_country_id, rank) is Ok,
    ensures
        !any_match(t.juror_votes, juror_vote_for(juror_id, round_id, ranked_country_id)),
{
    reveal(create_juror_vote_effect);
}

/// Creating a juror's votes for the first `n` countries of a ranking succeeds only when
/// none of them repeats.
pub proof fn lemma_create_juror_votes_distinct(t: Tables, juror_id: u64, round_id: u16, ranking: Seq<u16>, n: int)
    requires
        0 <= n <= ranking.len(),
        create_juror_votes_effect(t, juror_id, round_id, ranking, n) is Ok,
    ensures
        forall|i: int, j: int| 0 <= i < j < n ==> ranking[i] != ranking[j],
    decreases n,
{
    if n > 0 {
        lemma_create_juror_votes_distinct(t, juror_id, round_id, ranking, n - 1);
        lemma_create_juror_votes_ballot(t, juror_id, round_id, ranking, n - 1);
        let t1 = create_juror_votes_effect(t, juror_id, round_id, ranking, n - 1)->Ok_0;
        lemma_create_juror_vote_unique_country(t1, juror_id, round_id, ranking[n - 1], n as u16);
        assert forall|i: int, j: int| 0 <= i < j < n implies ranking[i] != ranking[j] by {
            if j == n - 1 && ranking[i] == ranking[j] {
                // the earlier vote for the same country is in the table
                let mine = t1.juror_votes.filter(juror_vote_of(juror_id, round_id));
                let ballot = jury_ballot(t1.juror_votes, juror_id, round_id);
                let before = jury_ballot(t.juror_votes, juror_id, round_id);
                assert(ballot == before + ranked(ranking, n - 1));
                let k = before.len() + i;
                assert(ballot.len() == before.len() + n - 1);
                assert(ballot[k] == (ranking[i], (i + 1) as u16));
                assert(ballot.len() == mine.len());
                assert(0 <= k < mine.len());
                assert(ballot[k] == (mine[k].ranked_country_id, mine[k].rank));
                assert(mine[k].ranked_country_id == ranking[i]);
                t1.juror_votes.lemma_filter_pred(juror_vote_of(juror_id, round_id), k);
                assert(mine.contains(mine[k]));
                t1.juror_votes.lemma_filter_contains_rev(juror_vote_of(juror_id, round_id), mine[k]);
                let x = choose|x: int| 0 <= x < t1.juror_votes.len() && t1.juror_votes[x] == mine[k];
                assert(juror_vote_for(juror_id, round_id, ranking[n - 1])(t1.juror_votes[x]));
            }
        }
    }
}

/// A juror ranks each performing country once: a juror's submission succeeds only with a
/// ranking that names no country twice.
pub proof fn law_submit_juror_votes_distinct(t: Tables, sender: Identity, ranking: Seq<u16>)
    requires
        submit_juror_votes_effect(t, sender, ranking) is Ok,
    ensures
        forall|i: int, j: int| 0 <= i < j < ranking.len() ==> ranking[i] != ranking[j],
{
    let active = t.active_round->Some_0;
    let round = first_match(t.rounds, round_with_id(active.round_id))->Some_0;
    let user = first_match(t.users, user_with_identity(sender))->Some_0;
    let juror = first_match(t.jurors, juror_with_user(user.id))->Some_0;
    let t1 = delete_juror_votes_effect(t, juror.id, round.id)->Ok_0;
    lemma_create_juror_votes_distinct(t1, juror.id, round.id, ranking, ranking.len() as int);
}

/// Each juror ranks all performing songs but the one of the juror's own country: a
/// juror's submission succeeds only with a ranking that names each performer of another
/// country once, and as many countries as there are such performers.
pub proof fn law_submit_juror_votes_ranks_every_other_performer(t: Tables, sender: Identity, ranking: Seq<u16>)
    requires
        submit_juror_votes_effect(t, sender, ranking) is Ok,
    ensures
        ({
            let round = first_match(t.rounds, round_with_id(t.active_round->Some_0.round_id))->Some_0;
            let user = first_match(t.users, user_with_identity(sender))->Some_0;
            let juror = first_match(t.jurors, juror_with_user(user.id))->Some_0;
            let from = first_match(t.participating_countries, participating_with_id(juror.participating_country_id))->Some_0.country_id;
            let performers = round_participants(t.participations, round.id);
            &&& ranking.len() == other_performer_count(performers, t.participating_countries, from)
            &&& ranking.len() == performers.filter(of_other_country(t.participating_countries, from)).len()
            &&& forall|i: int, j: int| 0 <= i < j < ranking.len() ==> ranking[i] != ranking[j]
            &&& forall|k: int| 0 <= k < ranking.len() ==> {
                &&& performers.contains(#[trigger] ranking[k])
                &&& first_match(t.participating_countries, participating_with_id(ranking[k])) matches Some(pc)
                    && pc.country_id != from
            }
        }),
{
    let round = first_match(t.rounds, round_with_id(t.active_round->Some_0.round_id))->Some_0;
    let user = first_match(t.users, user_with_identity(sender))->Some_0;
    let juror = first_match(t.jurors, juror_with_user(user.id))->Some_0;
    let from = first_match(t.participating_countries, participating_with_id(juror.participating_country_id))->Some_0.country_id;
    lemma_validate_votes_each(t, round.id, from, ranking);
    law_submit_juror_votes_distinct(t, sender, ranking);
    law_other_performer_count_filters(round_participants(t.participations, round.id), t.participating_countries, from);
    assert forall|k: int| 0 <= k < ranking.len() implies {
        &&& round_participants(t.participations, round.id).contains(#[trigger] ranking[k])
        &&& first_match(t.participating_countries, participating_with_id(ranking[k])) matches Some(pc)
            && pc.country_id != from
    } by {
        assert(check_vote(t, round.id, from, ranking[k]) is Ok);
    }
}

/// A juror ranking that names as many countries as there are performers of other
/// countries, all of them valid, is not refused for its length: in a grand final open for
/// voting, the juror's earlier votes there are replaced by it.
pub proof fn law_complete_juror_ranking_is_taken(t: Tables, sender: Identity, ranking: Seq<u16>)
    requires
        t.active_round is Some,
        first_match(t.rounds, round_with_id(t.active_round->Some_0.round_id)) is Some,
        first_match(t.rounds, round_with_id(t.active_round->Some_0.round_id))->Some_0.voting_open,
        first_match(t.rounds, round_with_id(t.active_round->Some_0.round_id))->Some_0.kind == RoundKind::GrandFinal,
        first_match(t.users, user_with_identity(sender)) is Some,
        first_match(t.jurors, juror_with_user(first_match(t.users, user_with_identity(sender))->Some_0.id)) is Some,
        first_match(
            t.participating_countries,
            participating_with_id(
                first_match(t.jurors, juror_with_user(first_match(t.users, user_with_identity(sender))->Some_0.id))->Some_0.participating_country_id,
            ),
        ) is Some,
    ensures
        ({
            let round = first_match(t.rounds, round_with_id(t.active_round->Some_0.round_id))->Some_0;
            let user = first_match(t.users, user_with_identity(sender))->Some_0;
            let juror = first_match(t.jurors, juror_with_user(user.id))->Some_0;
            let from = first_match(t.participating_countries, participating_with_id(juror.participating_country_id))->Some_0.country_id;
            let performers = round_participants(t.participations, round.id);
            validate_votes_spec(t, round.id, from, ranking) is Ok && ranking.len() == performers.filter(
                of_other_country(t.participating_countries, from),
            ).len() ==> submit_juror_votes_effect(t, sender, ranking) == match delete_juror_votes_effect(t, juror.id, round.id) {
                Err(e) => Err(e),
                Ok(t1) => create_juror_votes_effect(t1, juror.id, round.id, ranking, ranking.len() as int),
            }
        }),
{
    let round = first_match(t.rounds, round_with_id(t.active_round->Some_0.round_id))->Some_0;
    let user = first_match(t.users, user_with_identity(sender))->Some_0;
    let juror = first_match(t.jurors, juror_with_user(user.id))->Some_0;
    let from = first_match(t.participating_countries, participating_with_id(juror.participating_country_id))->Some_0.country_id;
    law_other_performer_count_filters(round_participants(t.participations, round.id), t.participating_countries, from);
}

} // verus!
