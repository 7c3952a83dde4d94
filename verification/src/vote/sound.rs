use vstd::prelude::*;

use crate::country::ParticipatingCountry;
use crate::database::{any_match, first_match, lemma_first_match_found, lemma_first_match_push, Tables};
use crate::ranking::bound::{givers_known, keys_distinct};
use crate::ranking::has_key;
use crate::round::fresh::{rounds_referenced, voters_referenced, votes_sound};
use crate::round::round_with_id;
use crate::user::{user_with_identity, Identity};
use crate::vote::laws::{
    law_submit_juror_votes_keeps_rankings_sound, law_submit_juror_votes_replaces_ballot,
    law_submit_tele_votes_keeps_rankings_sound, law_submit_tele_votes_replaces_ballot,
};
use crate::vote::resubmit::{lemma_submit_juror_votes_frame, lemma_submit_tele_votes_frame};
use crate::vote::submit::{submit_juror_votes_effect, submit_tele_votes_effect};
use crate::vote::tally::{
    jury_entry_tallied, jury_tally, kept_apart, law_submit_juror_votes_keeps_tallies, law_submit_tele_votes_keeps_tallies,
    tele_entry_tallied, tele_tally,
};
use crate::vote::{juror_vote_not_of, juror_vote_of, tele_vote_not_of, tele_vote_of, JurorVote, TeleVote};
use crate::voter::{juror_with_id, juror_with_user, register_effect, viewer_with_id, viewer_with_user, Juror, Viewer, VoterRole};
use crate::ranking::RankingKind;

verus! {

/// A new viewer does not change what the televotes of existing viewers count for.
proof fn lemma_tele_tally_viewer_push(votes: Seq<TeleVote>, viewers: Seq<Viewer>, w: Viewer, round_id: u16, from: u16, to: u16)
    requires
        forall|i: int| 0 <= i < votes.len() ==> any_match(viewers, viewer_with_id((#[trigger] votes[i]).viewer_id)),
    ensures
        tele_tally(votes, viewers.push(w), round_id, from, to) == tele_tally(votes, viewers, round_id, from, to),
    decreases votes.len(),
{
    if votes.len() > 0 {
        let prev = votes.drop_last();
        assert forall|i: int| 0 <= i < prev.len() implies any_match(viewers, viewer_with_id((#[trigger] prev[i]).viewer_id)) by {
            assert(prev[i] == votes[i]);
        }
        lemma_tele_tally_viewer_push(prev, viewers, w, round_id, from, to);
        assert(votes[votes.len() - 1] == votes.last());
        lemma_first_match_push(viewers, viewer_with_id(votes.last().viewer_id), w);
    }
}

/// A new juror does not change what the votes of existing jurors give.
proof fn lemma_jury_tally_juror_push(
    votes: Seq<JurorVote>,
    jurors: Seq<Juror>,
    j: Juror,
    pcs: Seq<ParticipatingCountry>,
    round_id: u16,
    from: u16,
    to: u16,
)
    requires
        forall|i: int| 0 <= i < votes.len() ==> any_match(jurors, juror_with_id((#[trigger] votes[i]).juror_id)),
    ensures
        jury_tally(votes, jurors.push(j), pcs, round_id, from, to) == jury_tally(votes, jurors, pcs, round_id, from, to),
    decreases votes.len(),
{
    if votes.len() > 0 {
        let prev = votes.drop_last();
        assert forall|i: int| 0 <= i < prev.len() implies any_match(jurors, juror_with_id((#[trigger] prev[i]).juror_id)) by {
            assert(prev[i] == votes[i]);
        }
        lemma_jury_tally_juror_push(prev, jurors, j, pcs, round_id, from, to);
        assert(votes[votes.len() - 1] == votes.last());
        lemma_first_match_push(jurors, juror_with_id(votes.last().juror_id), j);
    }
}

/// The seeded state, with no entries and no votes, is sound.
pub proof fn law_empty_votes_sound(t: Tables)
    requires
        t.rankings.len() == 0,
        t.tele_votes.len() == 0,
        t.juror_votes.len() == 0,
    ensures
        votes_sound(t),
{
}

/// Entries with the same givers in their places, among the same countries, keep their
/// givers known.
proof fn lemma_givers_known_frame(a: Tables, b: Tables)
    requires
        givers_known(a),
        crate::ranking::same_entries(a.rankings, b.rankings),
        b.countries == a.countries,
        b.participating_countries == a.participating_countries,
    ensures
        givers_known(b),
{
    assert forall|i: int| 0 <= i < b.rankings.len() implies {
        &&& (#[trigger] b.rankings[i]).kind == RankingKind::TeleVote ==> exists|c: int|
            0 <= c < b.countries.len() && (#[trigger] b.countries[c]).id == b.rankings[i].from_country_id
        &&& b.rankings[i].kind == RankingKind::JuryVote ==> exists|q: int|
            0 <= q < b.participating_countries.len() && (#[trigger] b.participating_countries[q]).country_id
                == b.rankings[i].from_country_id
    } by {
        assert(a.rankings[i].id == b.rankings[i].id);
    }
}

/// Registering keeps the rankings sound and tallied: the new voter has cast no vote.
pub proof fn law_register_keeps_votes_sound(t: Tables, sender: Identity, role: VoterRole)
    requires
        votes_sound(t),
        register_effect(t, sender, role) is Ok,
    ensures
        votes_sound(register_effect(t, sender, role)->Ok_0),
{
    let out = register_effect(t, sender, role)->Ok_0;
    assert(crate::ranking::same_entries(t.rankings, out.rankings));
    lemma_givers_known_frame(t, out);
    assert forall|i: int| 0 <= i < out.rankings.len() implies #[trigger] tele_entry_tallied(out, i) by {
        assert(tele_entry_tallied(t, i));
        let r = t.rankings[i];
        if out.viewers != t.viewers {
            let w = out.viewers.last();
            assert(out.viewers == t.viewers.push(w));
            lemma_tele_tally_viewer_push(t.tele_votes, t.viewers, w, r.round_id, r.from_country_id, r.to_country_id);
        }
    }
    assert forall|i: int| 0 <= i < out.rankings.len() implies #[trigger] jury_entry_tallied(out, i) by {
        assert(jury_entry_tallied(t, i));
        let r = t.rankings[i];
        if out.jurors != t.jurors {
            let j = out.jurors.last();
            assert(out.jurors == t.jurors.push(j));
            lemma_jury_tally_juror_push(
                t.juror_votes,
                t.jurors,
                j,
                t.participating_countries,
                r.round_id,
                r.from_country_id,
                r.to_country_id,
            );
        }
    }
    assert forall|i: int| 0 <= i < out.tele_votes.len() implies any_match(out.viewers, viewer_with_id((#[trigger] out.tele_votes[i]).viewer_id)) by {
        assert(any_match(t.viewers, viewer_with_id(t.tele_votes[i].viewer_id)));
        if out.viewers != t.viewers {
            lemma_first_match_push(t.viewers, viewer_with_id(t.tele_votes[i].viewer_id), out.viewers.last());
            assert(out.viewers == t.viewers.push(out.viewers.last()));
        }
    }
    assert forall|i: int| 0 <= i < out.juror_votes.len() implies any_match(out.jurors, juror_with_id((#[trigger] out.juror_votes[i]).juror_id)) by {
        assert(any_match(t.jurors, juror_with_id(t.juror_votes[i].juror_id)));
        if out.jurors != t.jurors {
            lemma_first_match_push(t.jurors, juror_with_id(t.juror_votes[i].juror_id), out.jurors.last());
            assert(out.jurors == t.jurors.push(out.jurors.last()));
        }
    }
}

/// Entries with the same keys in their places keep the keys distinct.
proof fn lemma_keys_distinct_same_entries(a: Seq<crate::ranking::Ranking>, b: Seq<crate::ranking::Ranking>)
    requires
        keys_distinct(a),
        crate::ranking::same_entries(a, b),
    ensures
        keys_distinct(b),
{
    assert forall|i: int, j: int| 0 <= i < j < b.len() implies !has_key(
        #[trigger] b[j],
        (#[trigger] b[i]).round_id,
        b[i].kind,
        b[i].from_country_id,
        b[i].to_country_id,
    ) by {
        assert(a[i].id == b[i].id && a[j].id == b[j].id);
    }
}

/// A submission that replaced the televotes of an existing viewer in an existing round, and
/// kept everything else, keeps every entry and vote of a round and a voter of the table.
proof fn lemma_tele_submission_refs(t: Tables, out: Tables, viewer_id: u64, round_id: u16)
    requires
        rounds_referenced(t),
        voters_referenced(t),
        out.rounds == t.rounds,
        out.viewers == t.viewers,
        out.jurors == t.jurors,
        out.juror_votes == t.juror_votes,
        crate::ranking::same_entries(t.rankings, out.rankings),
        out.tele_votes.filter(tele_vote_not_of(viewer_id, round_id)) == t.tele_votes.filter(tele_vote_not_of(viewer_id, round_id)),
        any_match(t.viewers, viewer_with_id(viewer_id)),
        any_match(t.rounds, round_with_id(round_id)),
        givers_known(t),
        out.countries == t.countries,
        out.participating_countries == t.participating_countries,
    ensures
        rounds_referenced(out),
        voters_referenced(out),
        givers_known(out),
{
    lemma_givers_known_frame(t, out);
    assert forall|i: int| 0 <= i < out.tele_votes.len() implies ({
        &&& any_match(out.rounds, round_with_id((#[trigger] out.tele_votes[i]).round_id))
        &&& any_match(out.viewers, viewer_with_id(out.tele_votes[i].viewer_id))
    }) by {
        let x = out.tele_votes[i];
        if !tele_vote_of(viewer_id, round_id)(x) {
            out.tele_votes.lemma_filter_contains(tele_vote_not_of(viewer_id, round_id), i);
            t.tele_votes.lemma_filter_contains_rev(tele_vote_not_of(viewer_id, round_id), x);
            let k = choose|k: int| 0 <= k < t.tele_votes.len() && t.tele_votes[k] == x;
            assert(any_match(t.rounds, round_with_id(t.tele_votes[k].round_id)));
            assert(any_match(t.viewers, viewer_with_id(t.tele_votes[k].viewer_id)));
        }
    }
    assert forall|i: int| 0 <= i < out.rankings.len() implies any_match(out.rounds, round_with_id((#[trigger] out.rankings[i]).round_id)) by {
        assert(t.rankings[i].id == out.rankings[i].id);
        assert(any_match(t.rounds, round_with_id(t.rankings[i].round_id)));
    }
    assert forall|i: int| 0 <= i < out.juror_votes.len() implies any_match(out.rounds, round_with_id((#[trigger] out.juror_votes[i]).round_id)) by {
        assert(any_match(t.rounds, round_with_id(t.juror_votes[i].round_id)));
    }
    assert forall|i: int| 0 <= i < out.juror_votes.len() implies any_match(out.jurors, juror_with_id((#[trigger] out.juror_votes[i]).juror_id)) by {
        assert(any_match(t.jurors, juror_with_id(t.juror_votes[i].juror_id)));
    }
}

/// A submission that replaced the votes of an existing juror in an existing round, and kept
/// everything else, keeps every entry and vote of a round and a voter of the table.
proof fn lemma_jury_submission_refs(t: Tables, out: Tables, juror_id: u64, round_id: u16)
    requires
        rounds_referenced(t),
        voters_referenced(t),
        out.rounds == t.rounds,
        out.viewers == t.viewers,
        out.jurors == t.jurors,
        out.tele_votes == t.tele_votes,
        crate::ranking::same_entries(t.rankings, out.rankings),
        out.juror_votes.filter(juror_vote_not_of(juror_id, round_id)) == t.juror_votes.filter(juror_vote_not_of(juror_id, round_id)),
        any_match(t.jurors, juror_with_id(juror_id)),
        any_match(t.rounds, round_with_id(round_id)),
        givers_known(t),
        out.countries == t.countries,
        out.participating_countries == t.participating_countries,
    ensures
        rounds_referenced(out),
        voters_referenced(out),
        givers_known(out),
{
    lemma_givers_known_frame(t, out);
    assert forall|i: int| 0 <= i < out.juror_votes.len() implies ({
        &&& any_match(out.rounds, round_with_id((#[trigger] out.juror_votes[i]).round_id))
        &&& any_match(out.jurors, juror_with_id(out.juror_votes[i].juror_id))
    }) by {
        let x = out.juror_votes[i];
        if !juror_vote_of(juror_id, round_id)(x) {
            out.juror_votes.lemma_filter_contains(juror_vote_not_of(juror_id, round_id), i);
            t.juror_votes.lemma_filter_contains_rev(juror_vote_not_of(juror_id, round_id), x);
            let k = choose|k: int| 0 <= k < t.juror_votes.len() && t.juror_votes[k] == x;
            assert(any_match(t.rounds, round_with_id(t.juror_votes[k].round_id)));
            assert(any_match(t.jurors, juror_with_id(t.juror_votes[k].juror_id)));
        }
    }
    assert forall|i: int| 0 <= i < out.rankings.len() implies any_match(out.rounds, round_with_id((#[trigger] out.rankings[i]).round_id)) by {
        assert(t.rankings[i].id == out.rankings[i].id);
        assert(any_match(t.rounds, round_with_id(t.rankings[i].round_id)));
    }
    assert forall|i: int| 0 <= i < out.tele_votes.len() implies any_match(out.rounds, round_with_id((#[trigger] out.tele_votes[i]).round_id)) by {
        assert(any_match(t.rounds, round_with_id(t.tele_votes[i].round_id)));
    }
    assert forall|i: int| 0 <= i < out.tele_votes.len() implies any_match(out.viewers, viewer_with_id((#[trigger] out.tele_votes[i]).viewer_id)) by {
        assert(any_match(t.viewers, viewer_with_id(t.tele_votes[i].viewer_id)));
    }
}

/// Submitting televotes keeps the rankings sound and tallied, the keys distinct, and every
/// vote of a round and a viewer of the table.
pub proof fn law_submit_tele_votes_keeps_votes_sound(t: Tables, sender: Identity, votes: Seq<u16>)
    requires
        votes_sound(t),
        submit_tele_votes_effect(t, sender, votes) is Ok,
    ensures
        votes_sound(submit_tele_votes_effect(t, sender, votes)->Ok_0),
{
    let out = submit_tele_votes_effect(t, sender, votes)->Ok_0;
    law_submit_tele_votes_keeps_rankings_sound(t, sender, votes);
    law_submit_tele_votes_keeps_tallies(t, sender, votes);
    lemma_submit_tele_votes_frame(t, sender, votes);
    law_submit_tele_votes_replaces_ballot(t, sender, votes);
    lemma_keys_distinct_same_entries(t.rankings, out.rankings);
    let user = first_match(t.users, user_with_identity(sender))->Some_0;
    let viewer = first_match(t.viewers, viewer_with_user(user.id))->Some_0;
    let round_id = t.active_round->Some_0.round_id;
    let k = lemma_first_match_found(t.viewers, viewer_with_user(user.id));
    assert(viewer_with_id(viewer.id)(t.viewers[k]));
    let q = lemma_first_match_found(t.rounds, round_with_id(round_id));
    lemma_tele_submission_refs(t, out, viewer.id, round_id);
}

/// Submitting a juror's ranking keeps the rankings sound and tallied, the keys distinct,
/// and every vote of a round and a voter of the table.
#[verifier::rlimit(40)]
pub proof fn law_submit_juror_votes_keeps_votes_sound(t: Tables, sender: Identity, ranking: Seq<u16>)
    requires
        votes_sound(t),
        submit_juror_votes_effect(t, sender, ranking) is Ok,
    ensures
        votes_sound(submit_juror_votes_effect(t, sender, ranking)->Ok_0),
{
    let out = submit_juror_votes_effect(t, sender, ranking)->Ok_0;
    law_submit_juror_votes_keeps_rankings_sound(t, sender, ranking);
    law_submit_juror_votes_keeps_tallies(t, sender, ranking);
    lemma_submit_juror_votes_frame(t, sender, ranking);
    law_submit_juror_votes_replaces_ballot(t, sender, ranking);
    lemma_keys_distinct_same_entries(t.rankings, out.rankings);
    let active_id = t.active_round->Some_0.round_id;
    let round = first_match(t.rounds, round_with_id(active_id))->Some_0;
    let user = first_match(t.users, user_with_identity(sender))->Some_0;
    let juror = first_match(t.jurors, juror_with_user(user.id))->Some_0;
    let k = lemma_first_match_found(t.jurors, juror_with_user(user.id));
    assert(juror_with_id(juror.id)(t.jurors[k]));
    let q = lemma_first_match_found(t.rounds, round_with_id(active_id));
    assert(round_with_id(round.id)(t.rounds[q]));
    lemma_jury_submission_refs(t, out, juror.id, round.id);
}

} // verus!
