use vstd::prelude::*;

use crate::country::participating_with_id;
use crate::database::{first_match, Tables};
use crate::ranking::restore::{law_increment_then_decrement, overall_under, sound};
use crate::ranking::RankingKind;
use crate::vote::laws::{lemma_repeated_sound, rankings_sound};
use crate::vote::tally::lemma_repeated_scores;
use crate::vote::{
    jury_ranking_effect, lemma_repeated_effect_err, rank_weight, repeated_effect, tele_ranking_effect, JurorVote, TeleVote,
};
use crate::voter::{juror_with_id, viewer_with_id};

verus! {

/// Counting an entry `k` times, for any `k` up to a count that succeeded, succeeds too and
/// leaves sound rankings.
proof fn lemma_repeated_prefix_sound(t: Tables, round_id: u16, kind: RankingKind, from: u16, to: u16, k: nat, n: nat)
    requires
        kind != RankingKind::Overall,
        t.rotw_country is Some,
        rankings_sound(t),
        overall_under(t.rankings, t.rotw_country->Some_0.country_id),
        k <= n,
        repeated_effect(t, round_id, kind, from, to, true, n) is Ok,
    ensures
        repeated_effect(t, round_id, kind, from, to, true, k) is Ok,
        sound(repeated_effect(t, round_id, kind, from, to, true, k)->Ok_0, t.rotw_country->Some_0.country_id),
{
    let c = t.rotw_country->Some_0.country_id;
    if repeated_effect(t, round_id, kind, from, to, true, k) is Err {
        lemma_repeated_effect_err(t, round_id, kind, from, to, true, k, n);
    }
    let rs = repeated_effect(t, round_id, kind, from, to, true, k)->Ok_0;
    lemma_repeated_sound(t, round_id, kind, from, to, true, k);
    lemma_repeated_scores(t, round_id, kind, from, to, true, k);
    assert forall|i: int| 0 <= i < rs.len() && #[trigger] rs[i].kind == RankingKind::Overall implies rs[i].from_country_id
        == c by {
        assert(t.rankings[i].id == rs[i].id);
    }
}

/// Counting an entry `n` times and then uncounting it `j` times, `j` up to `n`, gives the
/// rankings of counting it `n - j` times.
proof fn lemma_repeated_undo_prefix(t: Tables, round_id: u16, kind: RankingKind, from: u16, to: u16, n: nat, j: nat)
    requires
        kind != RankingKind::Overall,
        t.rotw_country is Some,
        rankings_sound(t),
        overall_under(t.rankings, t.rotw_country->Some_0.country_id),
        j <= n,
        repeated_effect(t, round_id, kind, from, to, true, n) is Ok,
        repeated_effect(
            Tables { rankings: repeated_effect(t, round_id, kind, from, to, true, n)->Ok_0, ..t },
            round_id,
            kind,
            from,
            to,
            false,
            j,
        ) is Ok,
    ensures
        repeated_effect(
            Tables { rankings: repeated_effect(t, round_id, kind, from, to, true, n)->Ok_0, ..t },
            round_id,
            kind,
            from,
            to,
            false,
            j,
        )->Ok_0 == repeated_effect(t, round_id, kind, from, to, true, (n - j) as nat)->Ok_0,
    decreases j,
{
    let t1 = Tables { rankings: repeated_effect(t, round_id, kind, from, to, true, n)->Ok_0, ..t };
    if j > 0 {
        let m = (j - 1) as nat;
        if repeated_effect(t1, round_id, kind, from, to, false, m) is Err {
            lemma_repeated_effect_err(t1, round_id, kind, from, to, false, m, j);
        }
        lemma_repeated_undo_prefix(t, round_id, kind, from, to, n, m);
        let k = (n - j) as nat;
        lemma_repeated_prefix_sound(t, round_id, kind, from, to, k, n);
        lemma_repeated_prefix_sound(t, round_id, kind, from, to, (k + 1) as nat, n);
        let below = repeated_effect(t, round_id, kind, from, to, true, k)->Ok_0;
        assert((n - m) as nat == k + 1);
        law_increment_then_decrement(below, t.rotw_country->Some_0, round_id, kind, from, to);
    }
}

/// Counting an entry `n` times and then uncounting it `n` times leaves sound rankings as
/// they were.
pub proof fn law_repeated_count_then_uncount(t: Tables, round_id: u16, kind: RankingKind, from: u16, to: u16, n: nat)
    requires
        kind != RankingKind::Overall,
        t.rotw_country is Some,
        rankings_sound(t),
        overall_under(t.rankings, t.rotw_country->Some_0.country_id),
        repeated_effect(t, round_id, kind, from, to, true, n) is Ok,
        repeated_effect(
            Tables { rankings: repeated_effect(t, round_id, kind, from, to, true, n)->Ok_0, ..t },
            round_id,
            kind,
            from,
            to,
            false,
            n,
        ) is Ok,
    ensures
        repeated_effect(
            Tables { rankings: repeated_effect(t, round_id, kind, from, to, true, n)->Ok_0, ..t },
            round_id,
            kind,
            from,
            to,
            false,
            n,
        )->Ok_0 == t.rankings,
{
    lemma_repeated_undo_prefix(t, round_id, kind, from, to, n, n);
}

/// A juror's vote inserted and then deleted, with nothing in between, leaves every ranking
/// entry, jury and overall, with the score and rank it had: the hook after the insertion
/// adds the weight of the vote's rank to its jury entry one point at a time, and the hook
/// after the deletion takes each point back.
pub proof fn law_juror_vote_insert_then_delete(t: Tables, vote: JurorVote)
    requires
        t.rotw_country is Some,
        rankings_sound(t),
        overall_under(t.rankings, t.rotw_country->Some_0.country_id),
        jury_ranking_effect(t, vote, true) is Ok,
        jury_ranking_effect(Tables { rankings: jury_ranking_effect(t, vote, true)->Ok_0, ..t }, vote, false) is Ok,
    ensures
        jury_ranking_effect(Tables { rankings: jury_ranking_effect(t, vote, true)->Ok_0, ..t }, vote, false)->Ok_0
            == t.rankings,
{
    let j = first_match(t.jurors, juror_with_id(vote.juror_id))->Some_0;
    let pc = first_match(t.participating_countries, participating_with_id(j.participating_country_id))->Some_0;
    law_repeated_count_then_uncount(
        t,
        vote.round_id,
        RankingKind::JuryVote,
        pc.country_id,
        vote.ranked_country_id,
        rank_weight(vote.rank),
    );
}

/// A televote inserted and then deleted, with nothing in between, leaves every ranking
/// entry, televote and overall, with the score and rank it had.
pub proof fn law_tele_vote_insert_then_delete(t: Tables, vote: TeleVote)
    requires
        t.rotw_country is Some,
        rankings_sound(t),
        overall_under(t.rankings, t.rotw_country->Some_0.country_id),
        tele_ranking_effect(t, vote, true) is Ok,
        tele_ranking_effect(Tables { rankings: tele_ranking_effect(t, vote, true)->Ok_0, ..t }, vote, false) is Ok,
    ensures
        tele_ranking_effect(Tables { rankings: tele_ranking_effect(t, vote, true)->Ok_0, ..t }, vote, false)->Ok_0
            == t.rankings,
{
    let v = first_match(t.viewers, viewer_with_id(vote.viewer_id))->Some_0;
    law_repeated_count_then_uncount(t, vote.round_id, RankingKind::TeleVote, v.country_id, vote.to_country_id, 1);
}

} // verus!
