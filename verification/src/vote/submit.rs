use vstd::prelude::*;

use std::collections::HashSet;

use crate::country::{participating_with_id, ParticipatingCountry};
use crate::database::{first_match, Database, Tables};
use crate::error::{Table, VoteError};
use crate::round::{round_participants, round_with_id, RoundKind};
use crate::user::{user_with_identity, Identity};
use crate::vote::{
    create_juror_vote_effect, create_tele_vote_effect, delete_juror_votes_effect, delete_tele_votes_effect,
    AVAILABLE_TELE_VOTES,
};
use crate::voter::{juror_with_user, viewer_with_user};

verus! {

broadcast use vstd::std_specs::hash::group_hash_axioms;

/// Whether one vote may be cast by a voter of country `from` in a round: the voted country
/// takes part in the contest, is not the voter's own and performs in the round.
pub open spec fn check_vote(t: Tables, round_id: u16, from: u16, vote: u16) -> Result<(), VoteError> {
    match first_match(t.participating_countries, participating_with_id(vote)) {
        None => Err(VoteError::NotFound(Table::ParticipatingCountry)),
        Some(pc) => if pc.country_id == from {
            Err(VoteError::OwnCountryVote)
        } else if !round_participants(t.participations, round_id).contains(vote) {
            Err(VoteError::NotParticipating)
        } else {
            Ok(())
        },
    }
}

/// The votes checked in order; the first that may not be cast gives the error.
pub open spec fn validate_votes_spec(t: Tables, round_id: u16, from: u16, votes: Seq<u16>) -> Result<(), VoteError>
    decreases votes.len(),
{
    if votes.len() == 0 {
        Ok(())
    } else {
        match validate_votes_spec(t, round_id, from, votes.drop_last()) {
            Err(e) => Err(e),
            Ok(()) => check_vote(t, round_id, from, votes.last()),
        }
    }
}

/// A televote for each country in turn.
pub open spec fn create_tele_votes_effect(t: Tables, viewer_id: u64, round_id: u16, votes: Seq<u16>) -> Result<Tables, VoteError>
    decreases votes.len(),
{
    if votes.len() == 0 {
        Ok(t)
    } else {
        match create_tele_votes_effect(t, viewer_id, round_id, votes.drop_last()) {
            Err(e) => Err(e),
            Ok(t1) => create_tele_vote_effect(t1, viewer_id, round_id, votes.last()),
        }
    }
}

/// A juror's vote for each of the first `n` countries of a ranking, the first ranked 1.
pub open spec fn create_juror_votes_effect(t: Tables, juror_id: u64, round_id: u16, ranking: Seq<u16>, n: int) -> Result<Tables, VoteError>
    decreases n,
{
    if n <= 0 {
        Ok(t)
    } else {
        match create_juror_votes_effect(t, juror_id, round_id, ranking, n - 1) {
            Err(e) => Err(e),
            Ok(t1) => create_juror_vote_effect(t1, juror_id, round_id, ranking[n - 1], n as u16),
        }
    }
}

/// The `submit_tele_votes` reducer: while the active round is open for voting, the sender's
/// viewer replaces its televotes in it by `votes`, at most twenty, none for its own country
/// and all for performers.
pub open spec fn submit_tele_votes_effect(t: Tables, sender: Identity, votes: Seq<u16>) -> Result<Tables, VoteError> {
    match first_match(t.users, user_with_identity(sender)) {
        None => Err(VoteError::NotFound(Table::User)),
        Some(user) => match first_match(t.viewers, viewer_with_user(user.id)) {
            None => Err(VoteError::NotFound(Table::Viewer)),
            Some(viewer) => match t.active_round {
                None => Err(VoteError::NotFound(Table::ActiveRound)),
                Some(active) => match first_match(t.rounds, round_with_id(active.round_id)) {
                    None => Err(VoteError::NotFound(Table::Round)),
                    Some(round) => if !round.voting_open {
                        Err(VoteError::VotingClosed)
                    } else if votes.len() > AVAILABLE_TELE_VOTES {
                        Err(VoteError::TooManyVotes)
                    } else {
                        match validate_votes_spec(t, active.round_id, viewer.country_id, votes) {
                            Err(e) => Err(e),
                            Ok(()) => match delete_tele_votes_effect(t, viewer.id, active.round_id) {
                                Err(e) => Err(e),
                                Ok(t1) => create_tele_votes_effect(t1, viewer.id, active.round_id, votes),
                            },
                        }
                    },
                },
            },
        },
    }
}

/// How many of the performers `ps` belong to a country other than `from`: those that a
/// voter of `from` may rank.
pub open spec fn other_performer_count(ps: Seq<u16>, pcs: Seq<ParticipatingCountry>, from: u16) -> nat
    decreases ps.len(),
{
    if ps.len() == 0 {
        0
    } else {
        other_performer_count(ps.drop_last(), pcs, from) + match first_match(pcs, participating_with_id(ps.last())) {
            Some(pc) => if pc.country_id != from {
                1nat
            } else {
                0nat
            },
            None => 0nat,
        }
    }
}

/// Whether a performer belongs to a participating country of a country other than `from`.
pub open spec fn of_other_country(pcs: Seq<ParticipatingCountry>, from: u16) -> spec_fn(u16) -> bool {
    |id: u16| first_match(pcs, participating_with_id(id)) matches Some(pc) && pc.country_id != from
}

/// The count of performers of other countries is the number of performers that pass the
/// filter `of_other_country`.
pub proof fn law_other_performer_count_filters(ps: Seq<u16>, pcs: Seq<ParticipatingCountry>, from: u16)
    ensures
        other_performer_count(ps, pcs, from) == ps.filter(of_other_country(pcs, from)).len(),
    decreases ps.len(),
{
    if ps.len() > 0 {
        let prev = ps.drop_last();
        law_other_performer_count_filters(prev, pcs, from);
        assert(prev.push(ps.last()) =~= ps);
        prev.lemma_filter_push(ps.last(), of_other_country(pcs, from));
    }
}

/// The `submit_juror_votes` reducer: in a grand final open for voting, the sender's juror
/// replaces its ranking by `ranking`, best first, none for its own country and all for
/// performers.
pub open spec fn submit_juror_votes_effect(t: Tables, sender: Identity, ranking: Seq<u16>) -> Result<Tables, VoteError> {
    match t.active_round {
        None => Err(VoteError::NotFound(Table::ActiveRound)),
        Some(active) => match first_match(t.rounds, round_with_id(active.round_id)) {
            None => Err(VoteError::NotFound(Table::Round)),
            Some(round) => if !round.voting_open {
                Err(VoteError::VotingClosed)
            } else if round.kind != RoundKind::GrandFinal {
                Err(VoteError::JurorsOnlyInGrandFinal)
            } else {
                match first_match(t.users, user_with_identity(sender)) {
                    None => Err(VoteError::NotFound(Table::User)),
                    Some(user) => match first_match(t.jurors, juror_with_user(user.id)) {
                        None => Err(VoteError::NotFound(Table::Juror)),
                        Some(juror) => match first_match(t.participating_countries, participating_with_id(juror.participating_country_id)) {
                            None => Err(VoteError::NotFound(Table::ParticipatingCountry)),
                            Some(pc) => match validate_votes_spec(t, round.id, pc.country_id, ranking) {
                                Err(e) => Err(e),
                                Ok(()) => if ranking.len() != other_performer_count(
                                    round_participants(t.participations, round.id),
                                    t.participating_countries,
                                    pc.country_id,
                                ) {
                                    Err(VoteError::IncompleteRanking)
                                } else {
                                    match delete_juror_votes_effect(t, juror.id, round.id) {
                                        Err(e) => Err(e),
                                        Ok(t1) => create_juror_votes_effect(t1, juror.id, round.id, ranking, ranking.len() as int),
                                    }
                                },
                            },
                        },
                    },
                }
            },
        },
    }
}

/// Once a prefix of the votes fails the checks, all of them fail the same way.
pub proof fn lemma_validate_prefix_err(t: Tables, round_id: u16, from: u16, votes: Seq<u16>, k: int)
    requires
        0 <= k <= votes.len(),
        validate_votes_spec(t, round_id, from, votes.take(k)) is Err,
    ensures
        validate_votes_spec(t, round_id, from, votes) == validate_votes_spec(t, round_id, from, votes.take(k)),
    decreases votes.len() - k,
{
    if k < votes.len() {
        assert(votes.take(k + 1).drop_last() =~= votes.take(k));
        lemma_validate_prefix_err(t, round_id, from, votes, k + 1);
    } else {
        assert(votes.take(k) =~= votes);
    }
}

/// Votes that pass the checks pass them one by one.
pub proof fn lemma_validate_votes_each(t: Tables, round_id: u16, from: u16, votes: Seq<u16>)
    requires
        validate_votes_spec(t, round_id, from, votes) is Ok,
    ensures
        forall|k: int| 0 <= k < votes.len() ==> #[trigger] check_vote(t, round_id, from, votes[k]) is Ok,
{
    assert forall|k: int| 0 <= k < votes.len() implies #[trigger] check_vote(t, round_id, from, votes[k]) is Ok by {
        if validate_votes_spec(t, round_id, from, votes.take(k + 1)) is Err {
            lemma_validate_prefix_err(t, round_id, from, votes, k + 1);
        }
        if validate_votes_spec(t, round_id, from, votes.take(k)) is Err {
            lemma_validate_prefix_err(t, round_id, from, votes, k);
        }
        assert(votes.take(k + 1).drop_last() =~= votes.take(k));
        assert(votes.take(k + 1).last() == votes[k]);
    }
}

/// Once a prefix of the televotes fails, all of them fail the same way.
pub proof fn lemma_create_tele_votes_err(t: Tables, viewer_id: u64, round_id: u16, votes: Seq<u16>, k: int)
    requires
        0 <= k <= votes.len(),
        create_tele_votes_effect(t, viewer_id, round_id, votes.take(k)) is Err,
    ensures
        create_tele_votes_effect(t, viewer_id, round_id, votes) == create_tele_votes_effect(t, viewer_id, round_id, votes.take(k)),
    decreases votes.len() - k,
{
    if k < votes.len() {
        assert(votes.take(k + 1).drop_last() =~= votes.take(k));
        lemma_create_tele_votes_err(t, viewer_id, round_id, votes, k + 1);
    } else {
        assert(votes.take(k) =~= votes);
    }
}

/// Once a prefix of the ranking fails, all of it fails the same way.
pub proof fn lemma_create_juror_votes_err(t: Tables, juror_id: u64, round_id: u16, ranking: Seq<u16>, k: int, n: int)
    requires
        0 <= k <= n,
        create_juror_votes_effect(t, juror_id, round_id, ranking, k) is Err,
    ensures
        create_juror_votes_effect(t, juror_id, round_id, ranking, n) == create_juror_votes_effect(t, juror_id, round_id, ranking, k),
    decreases n - k,
{
    if k < n {
        lemma_create_juror_votes_err(t, juror_id, round_id, ranking, k, n - 1);
    }
}

impl Database {
    /// How many performers of a round belong to a country other than `from`.
    pub fn count_other_performers(&self, round_id: u16, from: u16) -> (n: usize)
        ensures
            n == other_performer_count(round_participants(self@.participations, round_id), self@.participating_countries, from),
            n == round_participants(self@.participations, round_id).filter(of_other_country(self@.participating_countries, from)).len(),
    {
        proof {
            law_other_performer_count_filters(round_participants(self@.participations, round_id), self@.participating_countries, from);
        }
        let ps = self.get_participants_by_round_id(round_id);
        let mut n: usize = 0;
        let mut i: usize = 0;
        while i < ps.len()
            invariant
                i <= ps@.len(),
                ps@ == round_participants(self@.participations, round_id),
                n == other_performer_count(ps@.take(i as int), self@.participating_countries, from),
                n <= i,
            decreases ps@.len() - i,
        {
            assert(ps@.take(i + 1).drop_last() =~= ps@.take(i as int));
            assert(ps@.take(i + 1).last() == ps@[i as int]);
            if let Ok(pc) = self.get_participating_country_by_id(ps[i]) {
                if pc.country_id != from {
                    n = n + 1;
                }
            }
            i = i + 1;
        }
        assert(ps@.take(i as int) =~= ps@);
        n
    }

    /// Checks the votes of a voter of country `from` for a round, in order.
    pub fn validate_votes(&self, round_id: u16, from_country_id: u16, votes: &Vec<u16>) -> (r: Result<(), VoteError>)
        ensures
            r == validate_votes_spec(self@, round_id, from_country_id, votes@),
    {
        let participants = self.get_participants_by_round_id(round_id);
        let mut round_participants_set: HashSet<u16> = HashSet::new();
        let mut i: usize = 0;
        while i < participants.len()
            invariant
                i <= participants@.len(),
                round_participants_set@ == participants@.take(i as int).to_set(),
            decreases participants@.len() - i,
        {
            assert(participants@.take(i + 1) =~= participants@.take(i as int).push(participants@[i as int]));
            proof {
                participants@.take(i as int).lemma_push_to_set_commute(participants@[i as int]);
            }
            round_participants_set.insert(participants[i]);
            i = i + 1;
        }
        assert(participants@.take(i as int) =~= participants@);
        let mut k: usize = 0;
        while k < votes.len()
            invariant
                k <= votes@.len(),
                round_participants_set@ == participants@.to_set(),
                participants@ == round_participants(self@.participations, round_id),
                validate_votes_spec(self@, round_id, from_country_id, votes@.take(k as int)) == Ok::<(), VoteError>(()),
            decreases votes@.len() - k,
        {
            assert(votes@.take(k + 1).drop_last() =~= votes@.take(k as int));
            assert(votes@.take(k + 1).last() == votes@[k as int]);
            let vote = votes[k];
            let pc = match self.get_participating_country_by_id(vote) {
                Ok(pc) => pc,
                Err(e) => {
                    proof {
                        lemma_validate_prefix_err(self@, round_id, from_country_id, votes@, k + 1);
                    }
                    return Err(e);
                },
            };
            if pc.country_id == from_country_id {
                proof {
                    lemma_validate_prefix_err(self@, round_id, from_country_id, votes@, k + 1);
                }
                return Err(VoteError::OwnCountryVote);
            }
            if !round_participants_set.contains(&vote) {
                proof {
                    lemma_validate_prefix_err(self@, round_id, from_country_id, votes@, k + 1);
                }
                return Err(VoteError::NotParticipating);
            }
            k = k + 1;
        }
        assert(votes@.take(k as int) =~= votes@);
        Ok(())
    }

    /// The reducer by which a viewer replaces its televotes in the active round.
    pub fn submit_tele_votes(&mut self, sender: Identity, votes: Vec<u16>) -> (r: Result<(), VoteError>)
        ensures
            match submit_tele_votes_effect(old(self)@, sender, votes@) {
                Ok(t) => r is Ok && final(self)@ == t,
                Err(e) => r == Err::<(), VoteError>(e) && final(self)@ == old(self)@,
            },
    {
        let saved = self.snapshot();
        let r = self.submit_tele_votes_in_transaction(sender, &votes);
        if r.is_err() {
            *self = saved;
        }
        r
    }

    #[verifier::rlimit(80)]
    fn submit_tele_votes_in_transaction(&mut self, sender: Identity, votes: &Vec<u16>) -> (r: Result<(), VoteError>)
        ensures
            match submit_tele_votes_effect(old(self)@, sender, votes@) {
                Ok(t) => r is Ok && final(self)@ == t,
                Err(e) => r == Err::<(), VoteError>(e),
            },
    {
        let user = self.get_user_by_identity(sender)?;
        let viewer = self.get_viewer_by_user_id(user.id)?;
        let round_id = self.get_active_round()?.round_id;
        let round = self.get_round_by_id(round_id)?;
        if !round.voting_open {
            return Err(VoteError::VotingClosed);
        }
        if votes.len() > AVAILABLE_TELE_VOTES {
            return Err(VoteError::TooManyVotes);
        }
        self.validate_votes(round_id, viewer.country_id, votes)?;
        self.delete_tele_votes_by_viewer_and_round(viewer.id, round_id)?;
        let ghost t1 = self@;
        assert(submit_tele_votes_effect(old(self)@, sender, votes@) == create_tele_votes_effect(t1, viewer.id, round_id, votes@));
        self.create_tele_votes(viewer.id, round_id, votes)
    }

    /// A televote of a viewer in a round for each country in turn.
    fn create_tele_votes(&mut self, viewer_id: u64, round_id: u16, votes: &Vec<u16>) -> (r: Result<(), VoteError>)
        ensures
            match create_tele_votes_effect(old(self)@, viewer_id, round_id, votes@) {
                Ok(t) => r is Ok && final(self)@ == t,
                Err(e) => r == Err::<(), VoteError>(e),
            },
    {
        let ghost t1 = self@;
        let mut k: usize = 0;
        while k < votes.len()
            invariant
                k <= votes@.len(),
                t1 == old(self)@,
                create_tele_votes_effect(t1, viewer_id, round_id, votes@.take(k as int)) == Ok::<Tables, VoteError>(self@),
            decreases votes@.len() - k,
        {
            assert(votes@.take(k + 1).drop_last() =~= votes@.take(k as int));
            assert(votes@.take(k + 1).last() == votes@[k as int]);
            let res = self.create_tele_vote(viewer_id, round_id, votes[k]);
            if let Err(e) = res {
                proof {
                    lemma_create_tele_votes_err(t1, viewer_id, round_id, votes@, k + 1);
                }
                return Err(e);
            }
            k = k + 1;
        }
        assert(votes@.take(k as int) =~= votes@);
        Ok(())
    }

    /// The reducer by which a juror replaces its ranking in the grand final.
    pub fn submit_juror_votes(&mut self, sender: Identity, ranking: Vec<u16>) -> (r: Result<(), VoteError>)
        ensures
            match submit_juror_votes_effect(old(self)@, sender, ranking@) {
                Ok(t) => r is Ok && final(self)@ == t,
                Err(e) => r == Err::<(), VoteError>(e) && final(self)@ == old(self)@,
            },
    {
        let saved = self.snapshot();
        let r = self.submit_juror_votes_in_transaction(sender, &ranking);
        if r.is_err() {
            *self = saved;
        }
        r
    }

    #[verifier::rlimit(80)]
    fn submit_juror_votes_in_transaction(&mut self, sender: Identity, ranking: &Vec<u16>) -> (r: Result<(), VoteError>)
        ensures
            match submit_juror_votes_effect(old(self)@, sender, ranking@) {
                Ok(t) => r is Ok && final(self)@ == t,
                Err(e) => r == Err::<(), VoteError>(e),
            },
    {
        let round = self.get_round_by_id(self.get_active_round()?.round_id)?;
        if !round.voting_open {
            return Err(VoteError::VotingClosed);
        }
        if round.kind != RoundKind::GrandFinal {
            return Err(VoteError::JurorsOnlyInGrandFinal);
        }
        let user = self.get_user_by_identity(sender)?;
        let juror = self.get_juror_by_user_id(user.id)?;
        let juror_country_id = self.get_participating_country_by_id(juror.participating_country_id)?.country_id;
        self.validate_votes(round.id, juror_country_id, ranking)?;
        if ranking.len() != self.count_other_performers(round.id, juror_country_id) {
            return Err(VoteError::IncompleteRanking);
        }
        self.delete_juror_votes_by_juror_and_round(juror.id, round.id)?;
        let ghost t1 = self@;
        assert(submit_juror_votes_effect(old(self)@, sender, ranking@) == create_juror_votes_effect(t1, juror.id, round.id, ranking@, ranking@.len() as int));
        self.create_juror_votes(juror.id, round.id, ranking)
    }

    /// A vote of a juror in a round for each country of a ranking in turn, the first ranked 1.
    fn create_juror_votes(&mut self, juror_id: u64, round_id: u16, ranking: &Vec<u16>) -> (r: Result<(), VoteError>)
        ensures
            match create_juror_votes_effect(old(self)@, juror_id, round_id, ranking@, ranking@.len() as int) {
                Ok(t) => r is Ok && final(self)@ == t,
                Err(e) => r == Err::<(), VoteError>(e),
            },
    {
        let ghost t1 = self@;
        let mut k: usize = 0;
        while k < ranking.len()
            invariant
                k <= ranking@.len(),
                t1 == old(self)@,
                create_juror_votes_effect(t1, juror_id, round_id, ranking@, k as int) == Ok::<Tables, VoteError>(self@),
            decreases ranking@.len() - k,
        {
            let rank = #[verifier::truncate] ((k + 1) as u16);
            let res = self.create_juror_vote(juror_id, round_id, ranking[k], rank);
            if let Err(e) = res {
                proof {
                    lemma_create_juror_votes_err(t1, juror_id, round_id, ranking@, k + 1, ranking@.len() as int);
                }
                return Err(e);
            }
            k = k + 1;
        }
        Ok(())
    }
}

} // verus!
