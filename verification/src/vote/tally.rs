use vstd::prelude::*;

use crate::country::{participating_with_id, ParticipatingCountry};
use crate::database::{first_match, Sequences, Tables};
use crate::ranking::laws::{overall_ranked, rank_is_place};
use crate::ranking::restore::{lemma_scores_moved_trans, lemma_step_scores, scores_moved};
use crate::round::round_with_id;
use crate::ranking::{has_key, same_entries, Ranking, RankingKind};
use crate::user::{user_with_identity, Identity};
use crate::vote::laws::{
    lemma_create_juror_votes_sound, lemma_create_tele_votes_sound, lemma_delete_juror_votes_sound,
    lemma_jury_hooks_sound, lemma_repeated_sound, lemma_tele_hooks_sound, rankings_sound,
};
use crate::vote::submit::{
    create_juror_votes_effect, create_tele_votes_effect, submit_juror_votes_effect, submit_tele_votes_effect,
};
use crate::vote::{
    create_juror_vote_effect, delete_juror_votes_effect, jury_hooks_effect, juror_vote_not_of, juror_vote_of,
    create_tele_vote_effect, delete_tele_votes_effect, jury_ranking_effect, rank_weight, repeated_effect,
    step_effect, tele_hooks_effect, tele_ranking_effect, tele_vote_not_of, tele_vote_of, JurorVote, TeleVote,
};
use crate::voter::{juror_with_id, juror_with_user, viewer_with_id, viewer_with_user, Juror, Viewer};

verus! {

/// Whether a televote counts for the televote entry of giver `from` and receiver `to` in a
/// round: it is a vote of that round for `to`, cast by a viewer of `from`.
pub open spec fn tele_vote_counts(v: TeleVote, viewers: Seq<Viewer>, round_id: u16, from: u16, to: u16) -> bool {
    &&& v.round_id == round_id
    &&& v.to_country_id == to
    &&& match first_match(viewers, viewer_with_id(v.viewer_id)) {
        Some(w) => w.country_id == from,
        None => false,
    }
}

/// How many of the televotes count for the entry of `from` and `to` in a round.
pub open spec fn tele_tally(votes: Seq<TeleVote>, viewers: Seq<Viewer>, round_id: u16, from: u16, to: u16) -> int
    decreases votes.len(),
{
    if votes.len() == 0 {
        0
    } else {
        tele_tally(votes.drop_last(), viewers, round_id, from, to) + if tele_vote_counts(
            votes.last(),
            viewers,
            round_id,
            from,
            to,
        ) {
            1int
        } else {
            0int
        }
    }
}

/// The entry at `i`, if it is a televote entry, scores the televotes that count for it.
pub open spec fn tele_entry_tallied(t: Tables, i: int) -> bool {
    t.rankings[i].kind == RankingKind::TeleVote ==> t.rankings[i].score == tele_tally(
        t.tele_votes,
        t.viewers,
        t.rankings[i].round_id,
        t.rankings[i].from_country_id,
        t.rankings[i].to_country_id,
    )
}

/// Every televote entry scores the televotes cast in its round for its receiver by the
/// viewers of its giver.
pub open spec fn tele_tallied(t: Tables) -> bool {
    forall|i: int| 0 <= i < t.rankings.len() ==> #[trigger] tele_entry_tallied(t, i)
}

/// The televotes split into those that pass a filter and those that fail it.
pub proof fn lemma_tele_tally_split(
    votes: Seq<TeleVote>,
    viewers: Seq<Viewer>,
    p: spec_fn(TeleVote) -> bool,
    q: spec_fn(TeleVote) -> bool,
    round_id: u16,
    from: u16,
    to: u16,
)
    requires
        forall|x: TeleVote| #[trigger] q(x) == !p(x),
    ensures
        tele_tally(votes, viewers, round_id, from, to) == tele_tally(votes.filter(p), viewers, round_id, from, to)
            + tele_tally(votes.filter(q), viewers, round_id, from, to),
    decreases votes.len(),
{
    if votes.len() > 0 {
        let prev = votes.drop_last();
        let last = votes.last();
        lemma_tele_tally_split(prev, viewers, p, q, round_id, from, to);
        assert(prev.push(last) =~= votes);
        prev.lemma_filter_push(last, p);
        prev.lemma_filter_push(last, q);
        assert(prev.filter(p).push(last).drop_last() =~= prev.filter(p));
        assert(prev.filter(q).push(last).drop_last() =~= prev.filter(q));
    }
}

/// Ranks that are places keep the overall entries at their places.
proof fn lemma_sound_overall_ranked(t: Tables)
    requires
        rankings_sound(t),
    ensures
        overall_ranked(t.rankings),
{
    assert forall|i: int| 0 <= i < t.rankings.len() && t.rankings[i].kind == RankingKind::Overall implies #[trigger] rank_is_place(
        t.rankings,
        i,
    ) by {}
}

/// Counting or uncounting one televote moves the score of the one televote entry that it
/// counts for, by one, and no other televote or jury score.
pub proof fn lemma_tele_ranking_scores(t: Tables, vote: TeleVote, increment: bool)
    requires
        rankings_sound(t),
        tele_ranking_effect(t, vote, increment) is Ok,
    ensures
        ({
            let out = tele_ranking_effect(t, vote, increment)->Ok_0;
            &&& same_entries(t.rankings, out)
            &&& forall|i: int|
                0 <= i < t.rankings.len() && t.rankings[i].kind != RankingKind::Overall ==> #[trigger] out[i].score
                    == t.rankings[i].score + if t.rankings[i].kind == RankingKind::TeleVote && tele_vote_counts(
                    vote,
                    t.viewers,
                    t.rankings[i].round_id,
                    t.rankings[i].from_country_id,
                    t.rankings[i].to_country_id,
                ) {
                    if increment {
                        1int
                    } else {
                        -1int
                    }
                } else {
                    0int
                }
        }),
{
    let w = first_match(t.viewers, viewer_with_id(vote.viewer_id))->Some_0;
    let kind = RankingKind::TeleVote;
    assert(repeated_effect(t, vote.round_id, kind, w.country_id, vote.to_country_id, increment, 0) == Ok::<
        Seq<Ranking>,
        crate::error::VoteError,
    >(t.rankings));
    assert(tele_ranking_effect(t, vote, increment) == step_effect(
        t.rankings,
        t,
        vote.round_id,
        kind,
        w.country_id,
        vote.to_country_id,
        increment,
    ));
    lemma_sound_overall_ranked(t);
    lemma_step_scores(t.rankings, t.rotw_country, vote.round_id, kind, w.country_id, vote.to_country_id, increment);
    let out = tele_ranking_effect(t, vote, increment)->Ok_0;
    let d: int = if increment {
        1
    } else {
        -1
    };
    assert(scores_moved(t.rankings, out, vote.round_id, kind, w.country_id, vote.to_country_id, d));
    assert forall|i: int| 0 <= i < t.rankings.len() && t.rankings[i].kind != RankingKind::Overall implies #[trigger] out[i].score
        == t.rankings[i].score + if t.rankings[i].kind == RankingKind::TeleVote && tele_vote_counts(
        vote,
        t.viewers,
        t.rankings[i].round_id,
        t.rankings[i].from_country_id,
        t.rankings[i].to_country_id,
    ) {
        if increment {
            1int
        } else {
            -1int
        }
    } else {
        0int
    } by {
        let r = t.rankings[i];
        assert(out[i].score == r.score + if has_key(r, vote.round_id, kind, w.country_id, vote.to_country_id) {
            d
        } else {
            0int
        });
        assert(has_key(r, vote.round_id, kind, w.country_id, vote.to_country_id) <==> (r.kind == kind && tele_vote_counts(
            vote,
            t.viewers,
            r.round_id,
            r.from_country_id,
            r.to_country_id,
        )));
    }
}

/// Counting or uncounting televotes one after the other moves each televote score by the
/// number of them that count for it, and no jury score.
pub proof fn lemma_tele_hooks_scores(t: Tables, votes: Seq<TeleVote>, increment: bool)
    requires
        rankings_sound(t),
        tele_hooks_effect(t, votes, increment) is Ok,
    ensures
        ({
            let out = tele_hooks_effect(t, votes, increment)->Ok_0;
            &&& same_entries(t.rankings, out)
            &&& forall|i: int|
                0 <= i < t.rankings.len() && t.rankings[i].kind != RankingKind::Overall ==> #[trigger] out[i].score
                    == t.rankings[i].score + if t.rankings[i].kind == RankingKind::TeleVote {
                    (if increment {
                        1int
                    } else {
                        -1int
                    }) * tele_tally(
                        votes,
                        t.viewers,
                        t.rankings[i].round_id,
                        t.rankings[i].from_country_id,
                        t.rankings[i].to_country_id,
                    )
                } else {
                    0int
                }
        }),
    decreases votes.len(),
{
    let sign: int = if increment {
        1
    } else {
        -1
    };
    if votes.len() == 0 {
        assert(same_entries(t.rankings, t.rankings));
    } else {
        let prev = votes.drop_last();
        lemma_tele_hooks_scores(t, prev, increment);
        lemma_tele_hooks_sound(t, prev, increment);
        let rs = tele_hooks_effect(t, prev, increment)->Ok_0;
        let t2 = Tables { rankings: rs, ..t };
        lemma_tele_ranking_scores(t2, votes.last(), increment);
        let out = tele_hooks_effect(t, votes, increment)->Ok_0;
        crate::ranking::lemma_same_entries_trans(t.rankings, rs, out);
        assert forall|i: int| 0 <= i < t.rankings.len() && t.rankings[i].kind != RankingKind::Overall implies #[trigger] out[i].score
            == t.rankings[i].score + if t.rankings[i].kind == RankingKind::TeleVote {
            sign * tele_tally(
                votes,
                t.viewers,
                t.rankings[i].round_id,
                t.rankings[i].from_country_id,
                t.rankings[i].to_country_id,
            )
        } else {
            0int
        } by {
            let r = t.rankings[i];
            assert(rs[i].id == r.id);
            assert(rs[i].score == r.score + if r.kind == RankingKind::TeleVote {
                sign * tele_tally(prev, t.viewers, r.round_id, r.from_country_id, r.to_country_id)
            } else {
                0int
            });
            assert(out[i].score == rs[i].score + if r.kind == RankingKind::TeleVote && tele_vote_counts(
                votes.last(),
                t.viewers,
                r.round_id,
                r.from_country_id,
                r.to_country_id,
            ) {
                sign
            } else {
                0int
            });
            assert(sign * tele_tally(votes, t.viewers, r.round_id, r.from_country_id, r.to_country_id) == sign * tele_tally(
                prev,
                t.viewers,
                r.round_id,
                r.from_country_id,
                r.to_country_id,
            ) + if tele_vote_counts(votes.last(), t.viewers, r.round_id, r.from_country_id, r.to_country_id) {
                sign
            } else {
                0int
            }) by (nonlinear_arith)
                requires
                    tele_tally(votes, t.viewers, r.round_id, r.from_country_id, r.to_country_id) == tele_tally(
                        prev,
                        t.viewers,
                        r.round_id,
                        r.from_country_id,
                        r.to_country_id,
                    ) + if tele_vote_counts(votes.last(), t.viewers, r.round_id, r.from_country_id, r.to_country_id) {
                        1int
                    } else {
                        0int
                    },
            ;
        }
    }
}

/// `b` has the rows of `a` in their places, and the televote or jury entries of the kind
/// other than `kind` keep their scores.
pub open spec fn kept_apart(a: Seq<Ranking>, b: Seq<Ranking>, kind: RankingKind) -> bool {
    &&& same_entries(a, b)
    &&& forall|i: int|
        0 <= i < a.len() && a[i].kind != RankingKind::Overall && a[i].kind != kind ==> #[trigger] b[i].score == a[i].score
}

/// Keeping the other kind apart carries over from one table to the next.
pub proof fn lemma_kept_apart_trans(a: Seq<Ranking>, b: Seq<Ranking>, c: Seq<Ranking>, kind: RankingKind)
    requires
        kept_apart(a, b, kind),
        kept_apart(b, c, kind),
    ensures
        kept_apart(a, c, kind),
{
    crate::ranking::lemma_same_entries_trans(a, b, c);
    assert forall|i: int| 0 <= i < a.len() && a[i].kind != RankingKind::Overall && a[i].kind != kind implies #[trigger] c[i].score
        == a[i].score by {
        assert(a[i].id == b[i].id);
        assert(b[i].score == a[i].score);
    }
}

/// A created televote is appended under the next number of its sequence, and the rankings
/// are what counting it gives.
pub proof fn lemma_create_tele_vote_parts(t: Tables, viewer_id: u64, round_id: u16, to_country_id: u16)
    requires
        create_tele_vote_effect(t, viewer_id, round_id, to_country_id) is Ok,
    ensures
        ({
            let row = TeleVote { id: (t.sequences.tele_vote + 1) as u64, viewer_id, round_id, to_country_id };
            let t1 = Tables {
                tele_votes: t.tele_votes.push(row),
                sequences: Sequences { tele_vote: row.id, ..t.sequences },
                ..t
            };
            &&& tele_ranking_effect(t1, row, true) is Ok
            &&& create_tele_vote_effect(t, viewer_id, round_id, to_country_id)->Ok_0 == (Tables {
                rankings: tele_ranking_effect(t1, row, true)->Ok_0,
                ..t1
            })
        }),
{
    reveal(create_tele_vote_effect);
}

/// Creating a televote keeps every televote entry at the televotes that count for it.
pub proof fn lemma_create_tele_vote_tallied(t: Tables, viewer_id: u64, round_id: u16, to_country_id: u16)
    requires
        rankings_sound(t),
        tallied(t),
        create_tele_vote_effect(t, viewer_id, round_id, to_country_id) is Ok,
    ensures
        tallied(create_tele_vote_effect(t, viewer_id, round_id, to_country_id)->Ok_0),
        kept_apart(t.rankings, create_tele_vote_effect(t, viewer_id, round_id, to_country_id)->Ok_0.rankings, RankingKind::TeleVote),
{
    lemma_create_tele_vote_parts(t, viewer_id, round_id, to_country_id);
    let row = TeleVote { id: (t.sequences.tele_vote + 1) as u64, viewer_id, round_id, to_country_id };
    let t1 = Tables { tele_votes: t.tele_votes.push(row), sequences: Sequences { tele_vote: row.id, ..t.sequences }, ..t };
    lemma_tele_ranking_scores(t1, row, true);
    let out = create_tele_vote_effect(t, viewer_id, round_id, to_country_id)->Ok_0;
    assert forall|i: int| 0 <= i < out.rankings.len() implies #[trigger] tele_entry_tallied(out, i) by {
        let r = t.rankings[i];
        assert(r.id == out.rankings[i].id);
        if r.kind == RankingKind::TeleVote {
            assert(tele_entry_tallied(t, i));
            assert(t.tele_votes.push(row).drop_last() =~= t.tele_votes);
        }
    }
    assert forall|i: int| 0 <= i < out.rankings.len() implies #[trigger] jury_entry_tallied(out, i) by {
        assert(t.rankings[i].id == out.rankings[i].id);
        assert(jury_entry_tallied(t, i));
    }
}

/// Creating televotes one after the other keeps every televote entry at the televotes that
/// count for it.
pub proof fn lemma_create_tele_votes_tallied(t: Tables, viewer_id: u64, round_id: u16, votes: Seq<u16>)
    requires
        rankings_sound(t),
        tallied(t),
        create_tele_votes_effect(t, viewer_id, round_id, votes) is Ok,
    ensures
        tallied(create_tele_votes_effect(t, viewer_id, round_id, votes)->Ok_0),
        kept_apart(t.rankings, create_tele_votes_effect(t, viewer_id, round_id, votes)->Ok_0.rankings, RankingKind::TeleVote),
    decreases votes.len(),
{
    if votes.len() > 0 {
        let prev = votes.drop_last();
        lemma_create_tele_votes_tallied(t, viewer_id, round_id, prev);
        lemma_create_tele_votes_sound(t, viewer_id, round_id, prev);
        let t1 = create_tele_votes_effect(t, viewer_id, round_id, prev)->Ok_0;
        lemma_create_tele_vote_tallied(t1, viewer_id, round_id, votes.last());
        lemma_kept_apart_trans(
            t.rankings,
            t1.rankings,
            create_tele_votes_effect(t, viewer_id, round_id, votes)->Ok_0.rankings,
            RankingKind::TeleVote,
        );
    } else {
        assert(same_entries(t.rankings, t.rankings));
    }
}

/// Deleting a viewer's televotes of a round keeps every televote entry at the televotes
/// that count for it.
pub proof fn lemma_delete_tele_votes_tallied(t: Tables, viewer_id: u64, round_id: u16)
    requires
        rankings_sound(t),
        tallied(t),
        delete_tele_votes_effect(t, viewer_id, round_id) is Ok,
    ensures
        tallied(delete_tele_votes_effect(t, viewer_id, round_id)->Ok_0),
        kept_apart(t.rankings, delete_tele_votes_effect(t, viewer_id, round_id)->Ok_0.rankings, RankingKind::TeleVote),
{
    reveal(delete_tele_votes_effect);
    let kept = t.tele_votes.filter(tele_vote_not_of(viewer_id, round_id));
    let removed = t.tele_votes.filter(tele_vote_of(viewer_id, round_id));
    let t1 = Tables { tele_votes: kept, ..t };
    lemma_tele_hooks_scores(t1, removed, false);
    let out = delete_tele_votes_effect(t, viewer_id, round_id)->Ok_0;
    assert forall|i: int| 0 <= i < out.rankings.len() implies #[trigger] tele_entry_tallied(out, i) by {
        let r = t.rankings[i];
        assert(r.id == out.rankings[i].id);
        if r.kind == RankingKind::TeleVote {
            assert(tele_entry_tallied(t, i));
            lemma_tele_tally_split(
                t.tele_votes,
                t.viewers,
                tele_vote_of(viewer_id, round_id),
                tele_vote_not_of(viewer_id, round_id),
                r.round_id,
                r.from_country_id,
                r.to_country_id,
            );
        }
    }
    assert forall|i: int| 0 <= i < out.rankings.len() implies #[trigger] jury_entry_tallied(out, i) by {
        assert(t.rankings[i].id == out.rankings[i].id);
        assert(jury_entry_tallied(t, i));
    }
}

/// Votes are tallied into the rankings of the voters' countries: after a viewer's
/// submission, each televote entry still scores the televotes cast in its round for its
/// receiver by the viewers of its giver, and each jury entry what the votes of its giver's
/// jurors for its receiver give.
pub proof fn law_submit_tele_votes_keeps_tallies(t: Tables, sender: Identity, votes: Seq<u16>)
    requires
        rankings_sound(t),
        tallied(t),
        submit_tele_votes_effect(t, sender, votes) is Ok,
    ensures
        tallied(submit_tele_votes_effect(t, sender, votes)->Ok_0),
        kept_apart(t.rankings, submit_tele_votes_effect(t, sender, votes)->Ok_0.rankings, RankingKind::TeleVote),
{
    let user = first_match(t.users, user_with_identity(sender))->Some_0;
    let viewer = first_match(t.viewers, viewer_with_user(user.id))->Some_0;
    let round_id = t.active_round->Some_0.round_id;
    lemma_delete_tele_votes_tallied(t, viewer.id, round_id);
    crate::vote::laws::lemma_delete_tele_votes_sound(t, viewer.id, round_id);
    let t1 = delete_tele_votes_effect(t, viewer.id, round_id)->Ok_0;
    lemma_create_tele_votes_tallied(t1, viewer.id, round_id, votes);
    lemma_kept_apart_trans(
        t.rankings,
        t1.rankings,
        submit_tele_votes_effect(t, sender, votes)->Ok_0.rankings,
        RankingKind::TeleVote,
    );
}

/// Whether a juror's vote counts for the jury entry of giver `from` and receiver `to` in a
/// round: it ranks `to` in that round, cast by a juror of the participating country of `from`.
pub open spec fn jury_vote_counts(
    v: JurorVote,
    jurors: Seq<Juror>,
    pcs: Seq<ParticipatingCountry>,
    round_id: u16,
    from: u16,
    to: u16,
) -> bool {
    &&& v.round_id == round_id
    &&& v.ranked_country_id == to
    &&& match first_match(jurors, juror_with_id(v.juror_id)) {
        Some(j) => match first_match(pcs, participating_with_id(j.participating_country_id)) {
            Some(pc) => pc.country_id == from,
            None => false,
        },
        None => false,
    }
}

/// What a juror's vote gives: the weight of its rank.
pub open spec fn jury_weight(v: JurorVote) -> int {
    rank_weight(v.rank) as int
}

/// What the juror votes that count for the entry of `from` and `to` in a round give.
pub open spec fn jury_tally(
    votes: Seq<JurorVote>,
    jurors: Seq<Juror>,
    pcs: Seq<ParticipatingCountry>,
    round_id: u16,
    from: u16,
    to: u16,
) -> int
    decreases votes.len(),
{
    if votes.len() == 0 {
        0
    } else {
        jury_tally(votes.drop_last(), jurors, pcs, round_id, from, to) + if jury_vote_counts(
            votes.last(),
            jurors,
            pcs,
            round_id,
            from,
            to,
        ) {
            jury_weight(votes.last())
        } else {
            0int
        }
    }
}

/// The entry at `i`, if it is a jury entry, scores what the juror votes that count for it give.
pub open spec fn jury_entry_tallied(t: Tables, i: int) -> bool {
    t.rankings[i].kind == RankingKind::JuryVote ==> t.rankings[i].score == jury_tally(
        t.juror_votes,
        t.jurors,
        t.participating_countries,
        t.rankings[i].round_id,
        t.rankings[i].from_country_id,
        t.rankings[i].to_country_id,
    )
}

/// Every jury entry scores what the votes cast in its round for its receiver by the jurors
/// of its giver give.
pub open spec fn jury_tallied(t: Tables) -> bool {
    forall|i: int| 0 <= i < t.rankings.len() ==> #[trigger] jury_entry_tallied(t, i)
}

/// The rankings hold what the votes give: televote entries count their televotes and
/// jury entries add up the weights of their juror votes.
pub open spec fn tallied(t: Tables) -> bool {
    &&& tele_tallied(t)
    &&& jury_tallied(t)
}

/// The juror votes split into those that pass a filter and those that fail it.
pub proof fn lemma_jury_tally_split(
    votes: Seq<JurorVote>,
    jurors: Seq<Juror>,
    pcs: Seq<ParticipatingCountry>,
    p: spec_fn(JurorVote) -> bool,
    q: spec_fn(JurorVote) -> bool,
    round_id: u16,
    from: u16,
    to: u16,
)
    requires
        forall|x: JurorVote| #[trigger] q(x) == !p(x),
    ensures
        jury_tally(votes, jurors, pcs, round_id, from, to) == jury_tally(
            votes.filter(p),
            jurors,
            pcs,
            round_id,
            from,
            to,
        ) + jury_tally(votes.filter(q), jurors, pcs, round_id, from, to),
    decreases votes.len(),
{
    if votes.len() > 0 {
        let prev = votes.drop_last();
        let last = votes.last();
        lemma_jury_tally_split(prev, jurors, pcs, p, q, round_id, from, to);
        assert(prev.push(last) =~= votes);
        prev.lemma_filter_push(last, p);
        prev.lemma_filter_push(last, q);
        assert(prev.filter(p).push(last).drop_last() =~= prev.filter(p));
        assert(prev.filter(q).push(last).drop_last() =~= prev.filter(q));
    }
}

/// Counting or uncounting an entry `n` times moves its score by `n` and no other televote
/// or jury score.
pub proof fn lemma_repeated_scores(
    t: Tables,
    round_id: u16,
    kind: RankingKind,
    from: u16,
    to: u16,
    increment: bool,
    n: nat,
)
    requires
        kind != RankingKind::Overall,
        rankings_sound(t),
        repeated_effect(t, round_id, kind, from, to, increment, n) is Ok,
    ensures
        scores_moved(
            t.rankings,
            repeated_effect(t, round_id, kind, from, to, increment, n)->Ok_0,
            round_id,
            kind,
            from,
            to,
            if increment {
                n as int
            } else {
                -(n as int)
            },
        ),
    decreases n,
{
    if n == 0 {
        assert(same_entries(t.rankings, t.rankings));
    } else {
        let m = (n - 1) as nat;
        assert(repeated_effect(t, round_id, kind, from, to, increment, m) is Ok);
        lemma_repeated_scores(t, round_id, kind, from, to, increment, m);
        lemma_repeated_sound(t, round_id, kind, from, to, increment, m);
        let rs = repeated_effect(t, round_id, kind, from, to, increment, m)->Ok_0;
        lemma_sound_overall_ranked(Tables { rankings: rs, ..t });
        lemma_step_scores(rs, t.rotw_country, round_id, kind, from, to, increment);
        let out = repeated_effect(t, round_id, kind, from, to, increment, n)->Ok_0;
        let d: int = if increment {
            1
        } else {
            -1
        };
        assert(scores_moved(rs, out, round_id, kind, from, to, d));
        lemma_scores_moved_trans(t.rankings, rs, out, round_id, kind, from, to, if increment {
            m as int
        } else {
            -(m as int)
        }, d);
    }
}

/// Counting or uncounting a juror's vote moves the score of the one jury entry that it
/// counts for by its weight, and no other televote or jury score.
pub proof fn lemma_jury_ranking_scores(t: Tables, vote: JurorVote, increment: bool)
    requires
        rankings_sound(t),
        jury_ranking_effect(t, vote, increment) is Ok,
    ensures
        ({
            let out = jury_ranking_effect(t, vote, increment)->Ok_0;
            &&& same_entries(t.rankings, out)
            &&& jury_weight(vote) >= 0
            &&& forall|i: int|
                0 <= i < t.rankings.len() && t.rankings[i].kind != RankingKind::Overall ==> #[trigger] out[i].score
                    == t.rankings[i].score + if t.rankings[i].kind == RankingKind::JuryVote && jury_vote_counts(
                    vote,
                    t.jurors,
                    t.participating_countries,
                    t.rankings[i].round_id,
                    t.rankings[i].from_country_id,
                    t.rankings[i].to_country_id,
                ) {
                    if increment {
                        jury_weight(vote)
                    } else {
                        -jury_weight(vote)
                    }
                } else {
                    0int
                }
        }),
{
    let j = first_match(t.jurors, juror_with_id(vote.juror_id))->Some_0;
    let pc = first_match(t.participating_countries, participating_with_id(j.participating_country_id))->Some_0;
    let kind = RankingKind::JuryVote;
    let n = rank_weight(vote.rank);
    lemma_repeated_scores(t, vote.round_id, kind, pc.country_id, vote.ranked_country_id, increment, n);
    let out = jury_ranking_effect(t, vote, increment)->Ok_0;
    let d: int = if increment {
        n as int
    } else {
        -(n as int)
    };
    assert(scores_moved(t.rankings, out, vote.round_id, kind, pc.country_id, vote.ranked_country_id, d));
    assert forall|i: int| 0 <= i < t.rankings.len() && t.rankings[i].kind != RankingKind::Overall implies #[trigger] out[i].score
        == t.rankings[i].score + if t.rankings[i].kind == RankingKind::JuryVote && jury_vote_counts(
        vote,
        t.jurors,
        t.participating_countries,
        t.rankings[i].round_id,
        t.rankings[i].from_country_id,
        t.rankings[i].to_country_id,
    ) {
        if increment {
            jury_weight(vote)
        } else {
            -jury_weight(vote)
        }
    } else {
        0int
    } by {
        let r = t.rankings[i];
        assert(out[i].score == r.score + if has_key(r, vote.round_id, kind, pc.country_id, vote.ranked_country_id) {
            d
        } else {
            0int
        });
        assert(has_key(r, vote.round_id, kind, pc.country_id, vote.ranked_country_id) <==> (r.kind == kind
            && jury_vote_counts(vote, t.jurors, t.participating_countries, r.round_id, r.from_country_id, r.to_country_id)));
    }
}

/// Counting or uncounting juror votes one after the other moves each jury score by what
/// the votes that count for it give, and no televote score.
pub proof fn lemma_jury_hooks_scores(t: Tables, votes: Seq<JurorVote>, increment: bool)
    requires
        rankings_sound(t),
        jury_hooks_effect(t, votes, increment) is Ok,
    ensures
        ({
            let out = jury_hooks_effect(t, votes, increment)->Ok_0;
            &&& same_entries(t.rankings, out)
            &&& forall|i: int|
                0 <= i < t.rankings.len() && t.rankings[i].kind != RankingKind::Overall ==> #[trigger] out[i].score
                    == t.rankings[i].score + if t.rankings[i].kind == RankingKind::JuryVote {
                    let n = jury_tally(
                        votes,
                        t.jurors,
                        t.participating_countries,
                        t.rankings[i].round_id,
                        t.rankings[i].from_country_id,
                        t.rankings[i].to_country_id,
                    );
                    if increment {
                        n
                    } else {
                        -n
                    }
                } else {
                    0int
                }
        }),
    decreases votes.len(),
{
    if votes.len() == 0 {
        assert(same_entries(t.rankings, t.rankings));
    } else {
        let prev = votes.drop_last();
        lemma_jury_hooks_scores(t, prev, increment);
        lemma_jury_hooks_sound(t, prev, increment);
        let rs = jury_hooks_effect(t, prev, increment)->Ok_0;
        let t2 = Tables { rankings: rs, ..t };
        lemma_jury_ranking_scores(t2, votes.last(), increment);
        let out = jury_hooks_effect(t, votes, increment)->Ok_0;
        crate::ranking::lemma_same_entries_trans(t.rankings, rs, out);
        assert forall|i: int| 0 <= i < t.rankings.len() && t.rankings[i].kind != RankingKind::Overall implies #[trigger] out[i].score
            == t.rankings[i].score + if t.rankings[i].kind == RankingKind::JuryVote {
            let n = jury_tally(
                votes,
                t.jurors,
                t.participating_countries,
                t.rankings[i].round_id,
                t.rankings[i].from_country_id,
                t.rankings[i].to_country_id,
            );
            if increment {
                n
            } else {
                -n
            }
        } else {
            0int
        } by {
            let r = t.rankings[i];
            assert(rs[i].id == r.id);
        }
    }
}

/// A created juror vote is appended under the next number of its sequence, and the
/// rankings are what counting it gives.
pub proof fn lemma_create_juror_vote_parts(t: Tables, juror_id: u64, round_id: u16, ranked_country_id: u16, rank: u16)
    requires
        create_juror_vote_effect(t, juror_id, round_id, ranked_country_id, rank) is Ok,
    ensures
        ({
            let row = JurorVote { id: (t.sequences.juror_vote + 1) as u64, juror_id, round_id, ranked_country_id, rank };
            let t1 = Tables {
                juror_votes: t.juror_votes.push(row),
                sequences: Sequences { juror_vote: row.id, ..t.sequences },
                ..t
            };
            &&& jury_ranking_effect(t1, row, true) is Ok
            &&& create_juror_vote_effect(t, juror_id, round_id, ranked_country_id, rank)->Ok_0 == (Tables {
                rankings: jury_ranking_effect(t1, row, true)->Ok_0,
                ..t1
            })
        }),
{
    reveal(create_juror_vote_effect);
}

/// Creating a juror's vote keeps the rankings at what the votes give.
pub proof fn lemma_create_juror_vote_tallied(t: Tables, juror_id: u64, round_id: u16, ranked_country_id: u16, rank: u16)
    requires
        rankings_sound(t),
        tallied(t),
        create_juror_vote_effect(t, juror_id, round_id, ranked_country_id, rank) is Ok,
    ensures
        tallied(create_juror_vote_effect(t, juror_id, round_id, ranked_country_id, rank)->Ok_0),
        kept_apart(
            t.rankings,
            create_juror_vote_effect(t, juror_id, round_id, ranked_country_id, rank)->Ok_0.rankings,
            RankingKind::JuryVote,
        ),
{
    lemma_create_juror_vote_parts(t, juror_id, round_id, ranked_country_id, rank);
    let row = JurorVote { id: (t.sequences.juror_vote + 1) as u64, juror_id, round_id, ranked_country_id, rank };
    let t1 = Tables { juror_votes: t.juror_votes.push(row), sequences: Sequences { juror_vote: row.id, ..t.sequences }, ..t };
    lemma_jury_ranking_scores(t1, row, true);
    let out = create_juror_vote_effect(t, juror_id, round_id, ranked_country_id, rank)->Ok_0;
    assert forall|i: int| 0 <= i < out.rankings.len() implies #[trigger] jury_entry_tallied(out, i) by {
        let r = t.rankings[i];
        assert(r.id == out.rankings[i].id);
        if r.kind == RankingKind::JuryVote {
            assert(jury_entry_tallied(t, i));
            assert(t.juror_votes.push(row).drop_last() =~= t.juror_votes);
        }
    }
    assert forall|i: int| 0 <= i < out.rankings.len() implies #[trigger] tele_entry_tallied(out, i) by {
        assert(t.rankings[i].id == out.rankings[i].id);
        assert(tele_entry_tallied(t, i));
    }
}

/// Creating a juror's votes one after the other keeps the rankings at what the votes give.
pub proof fn lemma_create_juror_votes_tallied(t: Tables, juror_id: u64, round_id: u16, ranking: Seq<u16>, n: int)
    requires
        rankings_sound(t),
        tallied(t),
        create_juror_votes_effect(t, juror_id, round_id, ranking, n) is Ok,
    ensures
        tallied(create_juror_votes_effect(t, juror_id, round_id, ranking, n)->Ok_0),
        kept_apart(t.rankings, create_juror_votes_effect(t, juror_id, round_id, ranking, n)->Ok_0.rankings, RankingKind::JuryVote),
    decreases n,
{
    if n > 0 {
        lemma_create_juror_votes_tallied(t, juror_id, round_id, ranking, n - 1);
        lemma_create_juror_votes_sound(t, juror_id, round_id, ranking, n - 1);
        let t1 = create_juror_votes_effect(t, juror_id, round_id, ranking, n - 1)->Ok_0;
        lemma_create_juror_vote_tallied(t1, juror_id, round_id, ranking[n - 1], n as u16);
        lemma_kept_apart_trans(
            t.rankings,
            t1.rankings,
            create_juror_votes_effect(t, juror_id, round_id, ranking, n)->Ok_0.rankings,
            RankingKind::JuryVote,
        );
    } else {
        assert(same_entries(t.rankings, t.rankings));
    }
}

/// Deleting a juror's votes of a round keeps the rankings at what the votes give.
pub proof fn lemma_delete_juror_votes_tallied(t: Tables, juror_id: u64, round_id: u16)
    requires
        rankings_sound(t),
        tallied(t),
        delete_juror_votes_effect(t, juror_id, round_id) is Ok,
    ensures
        tallied(delete_juror_votes_effect(t, juror_id, round_id)->Ok_0),
        kept_apart(t.rankings, delete_juror_votes_effect(t, juror_id, round_id)->Ok_0.rankings, RankingKind::JuryVote),
{
    reveal(delete_juror_votes_effect);
    let kept = t.juror_votes.filter(juror_vote_not_of(juror_id, round_id));
    let removed = t.juror_votes.filter(juror_vote_of(juror_id, round_id));
    let t1 = Tables { juror_votes: kept, ..t };
    lemma_jury_hooks_scores(t1, removed, false);
    let out = delete_juror_votes_effect(t, juror_id, round_id)->Ok_0;
    assert forall|i: int| 0 <= i < out.rankings.len() implies #[trigger] jury_entry_tallied(out, i) by {
        let r = t.rankings[i];
        assert(r.id == out.rankings[i].id);
        if r.kind == RankingKind::JuryVote {
            assert(jury_entry_tallied(t, i));
            lemma_jury_tally_split(
                t.juror_votes,
                t.jurors,
                t.participating_countries,
                juror_vote_of(juror_id, round_id),
                juror_vote_not_of(juror_id, round_id),
                r.round_id,
                r.from_country_id,
                r.to_country_id,
            );
        }
    }
    assert forall|i: int| 0 <= i < out.rankings.len() implies #[trigger] tele_entry_tallied(out, i) by {
        assert(t.rankings[i].id == out.rankings[i].id);
        assert(tele_entry_tallied(t, i));
    }
}

/// After a juror's submission, each jury entry still scores what the votes of its giver's
/// jurors for its receiver in its round give (performers minus rank, each), and each
/// televote entry the televotes that count for it.
pub proof fn law_submit_juror_votes_keeps_tallies(t: Tables, sender: Identity, ranking: Seq<u16>)
    requires
        rankings_sound(t),
        tallied(t),
        submit_juror_votes_effect(t, sender, ranking) is Ok,
    ensures
        tallied(submit_juror_votes_effect(t, sender, ranking)->Ok_0),
        kept_apart(t.rankings, submit_juror_votes_effect(t, sender, ranking)->Ok_0.rankings, RankingKind::JuryVote),
{
    let active = t.active_round->Some_0;
    let round = first_match(t.rounds, round_with_id(active.round_id))->Some_0;
    let user = first_match(t.users, user_with_identity(sender))->Some_0;
    let juror = first_match(t.jurors, juror_with_user(user.id))->Some_0;
    lemma_delete_juror_votes_tallied(t, juror.id, round.id);
    lemma_delete_juror_votes_sound(t, juror.id, round.id);
    let t1 = delete_juror_votes_effect(t, juror.id, round.id)->Ok_0;
    lemma_create_juror_votes_tallied(t1, juror.id, round.id, ranking, ranking.len() as int);
    lemma_kept_apart_trans(
        t.rankings,
        t1.rankings,
        submit_juror_votes_effect(t, sender, ranking)->Ok_0.rankings,
        RankingKind::JuryVote,
    );
}

} // verus!
