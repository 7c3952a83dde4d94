use vstd::prelude::*;

use crate::country::ParticipatingCountry;
use crate::database::{first_match, Tables};
use crate::ranking::restore::{lemma_sound_rankings_determined, overall_under};
use crate::ranking::{same_entries, RankingKind};
use crate::user::{user_with_identity, Identity};
use crate::round::{round_with_id};
use crate::vote::laws::{
    jury_ballot, law_submit_juror_votes_keeps_rankings_sound, law_submit_juror_votes_replaces_ballot,
    law_submit_tele_votes_keeps_rankings_sound, law_submit_tele_votes_replaces_ballot, rankings_sound, tele_ballot,
};
use crate::vote::submit::{
    create_juror_votes_effect, create_tele_votes_effect, submit_juror_votes_effect, submit_tele_votes_effect,
};
use crate::vote::tally::{
    jury_entry_tallied, jury_tally, jury_vote_counts, jury_weight, law_submit_juror_votes_keeps_tallies,
    law_submit_tele_votes_keeps_tallies, lemma_create_juror_vote_parts, lemma_create_tele_vote_parts,
    lemma_jury_tally_split, lemma_tele_tally_split, tallied, tele_entry_tallied, tele_tally, tele_vote_counts,
};
use crate::vote::{
    delete_juror_votes_effect, delete_tele_votes_effect, juror_vote_not_of, juror_vote_of, tele_vote_not_of,
    tele_vote_of, JurorVote, TeleVote,
};
use crate::voter::{juror_with_user, viewer_with_user, Juror, Viewer};

verus! {

/// How many of a viewer's votes in a round, listed by receiver, count for the televote
/// entry of `from` and `to` in round `r`.
pub open spec fn ballot_tally(
    ballot: Seq<u16>,
    viewers: Seq<Viewer>,
    viewer_id: u64,
    round_id: u16,
    r: u16,
    from: u16,
    to: u16,
) -> int
    decreases ballot.len(),
{
    if ballot.len() == 0 {
        0
    } else {
        ballot_tally(ballot.drop_last(), viewers, viewer_id, round_id, r, from, to) + if tele_vote_counts(
            TeleVote { id: 0, viewer_id, round_id, to_country_id: ballot.last() },
            viewers,
            r,
            from,
            to,
        ) {
            1int
        } else {
            0int
        }
    }
}

/// The televotes of one viewer in one round count as their receivers say.
pub proof fn lemma_ballot_tally(
    votes: Seq<TeleVote>,
    viewers: Seq<Viewer>,
    viewer_id: u64,
    round_id: u16,
    r: u16,
    from: u16,
    to: u16,
)
    requires
        forall|i: int| 0 <= i < votes.len() ==> #[trigger] tele_vote_of(viewer_id, round_id)(votes[i]),
    ensures
        tele_tally(votes, viewers, r, from, to) == ballot_tally(
            votes.map_values(|v: TeleVote| v.to_country_id),
            viewers,
            viewer_id,
            round_id,
            r,
            from,
            to,
        ),
    decreases votes.len(),
{
    if votes.len() > 0 {
        let prev = votes.drop_last();
        assert forall|i: int| 0 <= i < prev.len() implies #[trigger] tele_vote_of(viewer_id, round_id)(prev[i]) by {
            assert(tele_vote_of(viewer_id, round_id)(votes[i]));
        }
        lemma_ballot_tally(prev, viewers, viewer_id, round_id, r, from, to);
        let b = votes.map_values(|v: TeleVote| v.to_country_id);
        assert(b.drop_last() =~= prev.map_values(|v: TeleVote| v.to_country_id));
        assert(tele_vote_of(viewer_id, round_id)(votes[votes.len() - 1]));
    }
}

/// What a viewer's televotes of a round give every televote entry, as their receivers say.
pub proof fn lemma_tally_by_ballot(votes: Seq<TeleVote>, viewers: Seq<Viewer>, viewer_id: u64, round_id: u16, r: u16, from: u16, to: u16)
    ensures
        tele_tally(votes, viewers, r, from, to) == tele_tally(
            votes.filter(tele_vote_not_of(viewer_id, round_id)),
            viewers,
            r,
            from,
            to,
        ) + ballot_tally(tele_ballot(votes, viewer_id, round_id), viewers, viewer_id, round_id, r, from, to),
{
    lemma_tele_tally_split(
        votes,
        viewers,
        tele_vote_of(viewer_id, round_id),
        tele_vote_not_of(viewer_id, round_id),
        r,
        from,
        to,
    );
    let mine = votes.filter(tele_vote_of(viewer_id, round_id));
    assert forall|i: int| 0 <= i < mine.len() implies #[trigger] tele_vote_of(viewer_id, round_id)(mine[i]) by {
        votes.lemma_filter_pred(tele_vote_of(viewer_id, round_id), i);
    }
    lemma_ballot_tally(mine, viewers, viewer_id, round_id, r, from, to);
}

/// Creating televotes changes only the televotes, their sequence and the rankings.
pub proof fn lemma_create_tele_votes_frame(t: Tables, viewer_id: u64, round_id: u16, votes: Seq<u16>)
    requires
        create_tele_votes_effect(t, viewer_id, round_id, votes) is Ok,
    ensures
        ({
            let out = create_tele_votes_effect(t, viewer_id, round_id, votes)->Ok_0;
            out == (Tables { tele_votes: out.tele_votes, rankings: out.rankings, sequences: out.sequences, ..t })
        }),
    decreases votes.len(),
{
    if votes.len() > 0 {
        lemma_create_tele_votes_frame(t, viewer_id, round_id, votes.drop_last());
        let t1 = create_tele_votes_effect(t, viewer_id, round_id, votes.drop_last())->Ok_0;
        lemma_create_tele_vote_parts(t1, viewer_id, round_id, votes.last());
    }
}

/// A viewer's submission changes only the televotes, their sequence and the rankings.
pub proof fn lemma_submit_tele_votes_frame(t: Tables, sender: Identity, votes: Seq<u16>)
    requires
        submit_tele_votes_effect(t, sender, votes) is Ok,
    ensures
        ({
            let out = submit_tele_votes_effect(t, sender, votes)->Ok_0;
            out == (Tables { tele_votes: out.tele_votes, rankings: out.rankings, sequences: out.sequences, ..t })
        }),
{
    let user = first_match(t.users, user_with_identity(sender))->Some_0;
    let viewer = first_match(t.viewers, viewer_with_user(user.id))->Some_0;
    let round_id = t.active_round->Some_0.round_id;
    reveal(delete_tele_votes_effect);
    let t1 = delete_tele_votes_effect(t, viewer.id, round_id)->Ok_0;
    lemma_create_tele_votes_frame(t1, viewer.id, round_id, votes);
}

/// Submitting the same televotes again leaves the rankings as they are: the rankings hold
/// what the votes give, and the new votes give what the old ones gave.
pub proof fn law_resubmit_tele_votes_keeps_rankings(t: Tables, sender: Identity, votes: Seq<u16>)
    requires
        rankings_sound(t),
        tallied(t),
        t.rotw_country is Some,
        overall_under(t.rankings, t.rotw_country->Some_0.country_id),
        submit_tele_votes_effect(t, sender, votes) is Ok,
        submit_tele_votes_effect(submit_tele_votes_effect(t, sender, votes)->Ok_0, sender, votes) is Ok,
    ensures
        submit_tele_votes_effect(submit_tele_votes_effect(t, sender, votes)->Ok_0, sender, votes)->Ok_0.rankings
            == submit_tele_votes_effect(t, sender, votes)->Ok_0.rankings,
{
    let c = t.rotw_country->Some_0.country_id;
    let t1 = submit_tele_votes_effect(t, sender, votes)->Ok_0;
    let t2 = submit_tele_votes_effect(t1, sender, votes)->Ok_0;
    lemma_submit_tele_votes_frame(t, sender, votes);
    lemma_submit_tele_votes_frame(t1, sender, votes);
    law_submit_tele_votes_keeps_rankings_sound(t, sender, votes);
    law_submit_tele_votes_keeps_rankings_sound(t1, sender, votes);
    law_submit_tele_votes_keeps_tallies(t, sender, votes);
    law_submit_tele_votes_keeps_tallies(t1, sender, votes);
    law_submit_tele_votes_replaces_ballot(t, sender, votes);
    law_submit_tele_votes_replaces_ballot(t1, sender, votes);
    let user = first_match(t.users, user_with_identity(sender))->Some_0;
    let viewer = first_match(t.viewers, viewer_with_user(user.id))->Some_0;
    let round_id = t.active_round->Some_0.round_id;
    // the televote scores come back to what the same votes give
    assert forall|i: int| 0 <= i < t1.rankings.len() && t1.rankings[i].kind != RankingKind::Overall implies #[trigger] t1.rankings[i].score
        == t2.rankings[i].score by {
        let e = t1.rankings[i];
        assert(e.id == t2.rankings[i].id);
        if e.kind == RankingKind::TeleVote {
            assert(tele_entry_tallied(t1, i));
            assert(tele_entry_tallied(t2, i));
            lemma_tally_by_ballot(t1.tele_votes, t.viewers, viewer.id, round_id, e.round_id, e.from_country_id, e.to_country_id);
            lemma_tally_by_ballot(t2.tele_votes, t.viewers, viewer.id, round_id, e.round_id, e.from_country_id, e.to_country_id);
        }
    }
    // the rows stay, so every overall entry is still kept under the Rest of the World
    crate::ranking::lemma_same_entries_trans(t.rankings, t1.rankings, t2.rankings);
    assert(overall_under(t1.rankings, c)) by {
        assert forall|i: int| 0 <= i < t1.rankings.len() && #[trigger] t1.rankings[i].kind == RankingKind::Overall implies t1.rankings[i].from_country_id
            == c by {
            assert(t.rankings[i].id == t1.rankings[i].id);
            assert(t.rankings[i].kind == RankingKind::Overall);
        }
    }
    lemma_sound_rankings_determined(t1.rankings, t2.rankings, c);
}

/// What a juror's votes in a round, listed as (country, rank), give the jury entry of
/// `from` and `to` in round `r`.
pub open spec fn jury_ballot_tally(
    ballot: Seq<(u16, u16)>,
    jurors: Seq<Juror>,
    pcs: Seq<ParticipatingCountry>,
    juror_id: u64,
    round_id: u16,
    r: u16,
    from: u16,
    to: u16,
) -> int
    decreases ballot.len(),
{
    if ballot.len() == 0 {
        0
    } else {
        let v = JurorVote { id: 0, juror_id, round_id, ranked_country_id: ballot.last().0, rank: ballot.last().1 };
        jury_ballot_tally(ballot.drop_last(), jurors, pcs, juror_id, round_id, r, from, to) + if jury_vote_counts(
            v,
            jurors,
            pcs,
            r,
            from,
            to,
        ) {
            jury_weight(v)
        } else {
            0int
        }
    }
}

/// The votes of one juror in one round give what their countries and ranks say.
pub proof fn lemma_jury_ballot_tally(
    votes: Seq<JurorVote>,
    jurors: Seq<Juror>,
    pcs: Seq<ParticipatingCountry>,
    juror_id: u64,
    round_id: u16,
    r: u16,
    from: u16,
    to: u16,
)
    requires
        forall|i: int| 0 <= i < votes.len() ==> #[trigger] juror_vote_of(juror_id, round_id)(votes[i]),
    ensures
        jury_tally(votes, jurors, pcs, r, from, to) == jury_ballot_tally(
            votes.map_values(|v: JurorVote| (v.ranked_country_id, v.rank)),
            jurors,
            pcs,
            juror_id,
            round_id,
            r,
            from,
            to,
        ),
    decreases votes.len(),
{
    if votes.len() > 0 {
        let prev = votes.drop_last();
        assert forall|i: int| 0 <= i < prev.len() implies #[trigger] juror_vote_of(juror_id, round_id)(prev[i]) by {
            assert(juror_vote_of(juror_id, round_id)(votes[i]));
        }
        lemma_jury_ballot_tally(prev, jurors, pcs, juror_id, round_id, r, from, to);
        let b = votes.map_values(|v: JurorVote| (v.ranked_country_id, v.rank));
        assert(b.drop_last() =~= prev.map_values(|v: JurorVote| (v.ranked_country_id, v.rank)));
        assert(juror_vote_of(juror_id, round_id)(votes[votes.len() - 1]));
    }
}

/// What a juror's votes of a round give every jury entry, as their countries and ranks say.
pub proof fn lemma_jury_tally_by_ballot(
    votes: Seq<JurorVote>,
    jurors: Seq<Juror>,
    pcs: Seq<ParticipatingCountry>,
    juror_id: u64,
    round_id: u16,
    r: u16,
    from: u16,
    to: u16,
)
    ensures
        jury_tally(votes, jurors, pcs, r, from, to) == jury_tally(
            votes.filter(juror_vote_not_of(juror_id, round_id)),
            jurors,
            pcs,
            r,
            from,
            to,
        ) + jury_ballot_tally(
            jury_ballot(votes, juror_id, round_id),
            jurors,
            pcs,
            juror_id,
            round_id,
            r,
            from,
            to,
        ),
{
    lemma_jury_tally_split(
        votes,
        jurors,
        pcs,
        juror_vote_of(juror_id, round_id),
        juror_vote_not_of(juror_id, round_id),
        r,
        from,
        to,
    );
    let mine = votes.filter(juror_vote_of(juror_id, round_id));
    assert forall|i: int| 0 <= i < mine.len() implies #[trigger] juror_vote_of(juror_id, round_id)(mine[i]) by {
        votes.lemma_filter_pred(juror_vote_of(juror_id, round_id), i);
    }
    lemma_jury_ballot_tally(mine, jurors, pcs, juror_id, round_id, r, from, to);
}

/// Creating a juror's votes changes only the juror votes, their sequence and the rankings.
pub proof fn lemma_create_juror_votes_frame(t: Tables, juror_id: u64, round_id: u16, ranking: Seq<u16>, n: int)
    requires
        create_juror_votes_effect(t, juror_id, round_id, ranking, n) is Ok,
    ensures
        ({
            let out = create_juror_votes_effect(t, juror_id, round_id, ranking, n)->Ok_0;
            out == (Tables { juror_votes: out.juror_votes, rankings: out.rankings, sequences: out.sequences, ..t })
        }),
    decreases n,
{
    if n > 0 {
        lemma_create_juror_votes_frame(t, juror_id, round_id, ranking, n - 1);
        let t1 = create_juror_votes_effect(t, juror_id, round_id, ranking, n - 1)->Ok_0;
        lemma_create_juror_vote_parts(t1, juror_id, round_id, ranking[n - 1], n as u16);
    }
}

/// A juror's submission changes only the juror votes, their sequence and the rankings.
pub proof fn lemma_submit_juror_votes_frame(t: Tables, sender: Identity, ranking: Seq<u16>)
    requires
        submit_juror_votes_effect(t, sender, ranking) is Ok,
    ensures
        ({
            let out = submit_juror_votes_effect(t, sender, ranking)->Ok_0;
            out == (Tables { juror_votes: out.juror_votes, rankings: out.rankings, sequences: out.sequences, ..t })
        }),
{
    let active = t.active_round->Some_0;
    let round = first_match(t.rounds, round_with_id(active.round_id))->Some_0;
    let user = first_match(t.users, user_with_identity(sender))->Some_0;
    let juror = first_match(t.jurors, juror_with_user(user.id))->Some_0;
    reveal(delete_juror_votes_effect);
    let t1 = delete_juror_votes_effect(t, juror.id, round.id)->Ok_0;
    lemma_create_juror_votes_frame(t1, juror.id, round.id, ranking, ranking.len() as int);
}

/// Submitting the same juror ranking again leaves the rankings as they are.
pub proof fn law_resubmit_juror_votes_keeps_rankings(t: Tables, sender: Identity, ranking: Seq<u16>)
    requires
        rankings_sound(t),
        tallied(t),
        t.rotw_country is Some,
        overall_under(t.rankings, t.rotw_country->Some_0.country_id),
        submit_juror_votes_effect(t, sender, ranking) is Ok,
        submit_juror_votes_effect(submit_juror_votes_effect(t, sender, ranking)->Ok_0, sender, ranking) is Ok,
    ensures
        submit_juror_votes_effect(submit_juror_votes_effect(t, sender, ranking)->Ok_0, sender, ranking)->Ok_0.rankings
            == submit_juror_votes_effect(t, sender, ranking)->Ok_0.rankings,
{
    let c = t.rotw_country->Some_0.country_id;
    let t1 = submit_juror_votes_effect(t, sender, ranking)->Ok_0;
    let t2 = submit_juror_votes_effect(t1, sender, ranking)->Ok_0;
    lemma_submit_juror_votes_frame(t, sender, ranking);
    lemma_submit_juror_votes_frame(t1, sender, ranking);
    law_submit_juror_votes_keeps_rankings_sound(t, sender, ranking);
    law_submit_juror_votes_keeps_rankings_sound(t1, sender, ranking);
    law_submit_juror_votes_keeps_tallies(t, sender, ranking);
    law_submit_juror_votes_keeps_tallies(t1, sender, ranking);
    law_submit_juror_votes_replaces_ballot(t, sender, ranking);
    law_submit_juror_votes_replaces_ballot(t1, sender, ranking);
    let round = first_match(t.rounds, round_with_id(t.active_round->Some_0.round_id))->Some_0;
    let user = first_match(t.users, user_with_identity(sender))->Some_0;
    let juror = first_match(t.jurors, juror_with_user(user.id))->Some_0;
    // the jury scores come back to what the same ranking gives
    assert forall|i: int| 0 <= i < t1.rankings.len() && t1.rankings[i].kind != RankingKind::Overall implies #[trigger] t1.rankings[i].score
        == t2.rankings[i].score by {
        let e = t1.rankings[i];
        assert(e.id == t2.rankings[i].id);
        if e.kind == RankingKind::JuryVote {
            assert(jury_entry_tallied(t1, i));
            assert(jury_entry_tallied(t2, i));
            lemma_jury_tally_by_ballot(
                t1.juror_votes,
                t.jurors,
                t.participating_countries,
                juror.id,
                round.id,
                e.round_id,
                e.from_country_id,
                e.to_country_id,
            );
            lemma_jury_tally_by_ballot(
                t2.juror_votes,
                t.jurors,
                t.participating_countries,
                juror.id,
                round.id,
                e.round_id,
                e.from_country_id,
                e.to_country_id,
            );
        }
    }
    crate::ranking::lemma_same_entries_trans(t.rankings, t1.rankings, t2.rankings);
    assert(overall_under(t1.rankings, c)) by {
        assert forall|i: int| 0 <= i < t1.rankings.len() && #[trigger] t1.rankings[i].kind == RankingKind::Overall implies t1.rankings[i].from_country_id
            == c by {
            assert(t.rankings[i].id == t1.rankings[i].id);
            assert(t.rankings[i].kind == RankingKind::Overall);
        }
    }
    lemma_sound_rankings_determined(t1.rankings, t2.rankings, c);
}

} // verus!
