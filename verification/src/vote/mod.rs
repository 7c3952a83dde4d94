use vstd::prelude::*;

use crate::country::participating_with_id;
use crate::database::{any_match, first_match, Database, Sequences, Tables};
use crate::error::{Table, VoteError};
use crate::ranking::{decrement_effect, increment_effect, Ranking, RankingKind};
use crate::round::{round_participants, round_with_id};
use crate::voter::{juror_with_id, viewer_with_id};

pub mod submit;
pub mod laws;
pub mod tally;
pub mod resubmit;
pub mod undo;
pub mod sound;
pub mod weights;

verus! {

/// How many televotes a viewer may cast in one round.
pub const AVAILABLE_TELE_VOTES: usize = 20;

/// A single televote tap. Each viewer can have up to 20 rows per round.
#[derive(Clone, Copy, PartialEq, Eq, Structural, Debug)]
pub struct TeleVote {
    pub id: u64,
    pub viewer_id: u64,
    pub round_id: u16,
    pub to_country_id: u16,
}

/// A juror's rank for one country in a round.
#[derive(Clone, Copy, PartialEq, Eq, Structural, Debug)]
pub struct JurorVote {
    pub id: u64,
    pub juror_id: u64,
    pub round_id: u16,
    pub ranked_country_id: u16,
    pub rank: u16,
}

/// The televotes with this id.
pub open spec fn tele_vote_with_id(id: u64) -> spec_fn(TeleVote) -> bool {
    |v: TeleVote| v.id == id
}

/// The televotes of a viewer in a round.
pub open spec fn tele_vote_of(viewer_id: u64, round_id: u16) -> spec_fn(TeleVote) -> bool {
    |v: TeleVote| v.viewer_id == viewer_id && v.round_id == round_id
}

/// The televotes that are not of a viewer in a round.
pub open spec fn tele_vote_not_of(viewer_id: u64, round_id: u16) -> spec_fn(TeleVote) -> bool {
    |v: TeleVote| !(v.viewer_id == viewer_id && v.round_id == round_id)
}

/// The juror votes with this id.
pub open spec fn juror_vote_with_id(id: u64) -> spec_fn(JurorVote) -> bool {
    |v: JurorVote| v.id == id
}

/// The votes of a juror in a round.
pub open spec fn juror_vote_of(juror_id: u64, round_id: u16) -> spec_fn(JurorVote) -> bool {
    |v: JurorVote| v.juror_id == juror_id && v.round_id == round_id
}

/// The juror votes that are not of a juror in a round.
pub open spec fn juror_vote_not_of(juror_id: u64, round_id: u16) -> spec_fn(JurorVote) -> bool {
    |v: JurorVote| !(v.juror_id == juror_id && v.round_id == round_id)
}

/// The votes of a juror in a round with this rank.
pub open spec fn juror_vote_with_rank(juror_id: u64, round_id: u16, rank: u16) -> spec_fn(JurorVote) -> bool {
    |v: JurorVote| v.juror_id == juror_id && v.round_id == round_id && v.rank == rank
}

/// The votes of a juror in a round for this country.
pub open spec fn juror_vote_for(juror_id: u64, round_id: u16, country: u16) -> spec_fn(JurorVote) -> bool {
    |v: JurorVote| v.juror_id == juror_id && v.round_id == round_id && v.ranked_country_id == country
}

/// One increment or decrement of a ranking entry.
pub open spec fn step_effect(
    rs: Seq<Ranking>,
    t: Tables,
    round_id: u16,
    kind: RankingKind,
    from: u16,
    to: u16,
    increment: bool,
) -> Result<Seq<Ranking>, VoteError> {
    if increment {
        increment_effect(rs, t.rotw_country, round_id, kind, from, to)
    } else {
        decrement_effect(rs, t.rotw_country, round_id, kind, from, to)
    }
}

/// `n` increments or decrements of a ranking entry, stopping at the first error.
pub open spec fn repeated_effect(
    t: Tables,
    round_id: u16,
    kind: RankingKind,
    from: u16,
    to: u16,
    increment: bool,
    n: nat,
) -> Result<Seq<Ranking>, VoteError>
    decreases n,
{
    if n == 0 {
        Ok(t.rankings)
    } else {
        match repeated_effect(t, round_id, kind, from, to, increment, (n - 1) as nat) {
            Err(e) => Err(e),
            Ok(rs) => step_effect(rs, t, round_id, kind, from, to, increment),
        }
    }
}

/// What a televote adds to (or, removed, takes from) the rankings: one point in the
/// televote ranking of the viewer's country.
pub open spec fn tele_ranking_effect(t: Tables, vote: TeleVote, increment: bool) -> Result<Seq<Ranking>, VoteError> {
    match first_match(t.viewers, viewer_with_id(vote.viewer_id)) {
        None => Err(VoteError::NotFound(Table::Viewer)),
        Some(v) => repeated_effect(t, vote.round_id, RankingKind::TeleVote, v.country_id, vote.to_country_id, increment, 1),
    }
}

/// Two to the power `k`.
pub open spec fn two_to(k: nat) -> nat
    decreases k,
{
    if k == 0 {
        1
    } else {
        2 * two_to((k - 1) as nat)
    }
}

/// What a juror's vote of a rank weighs, on an exponential scale: 4096 halved once per
/// place, so 2048 for the first place, 1024 for the second and so on. Scores are whole
/// numbers, so the places past the twelfth, worth less than one, weigh nothing.
pub open spec fn rank_weight(rank: u16) -> nat {
    if rank > 12 {
        0nat
    } else {
        (4096nat / two_to(rank as nat)) as nat
    }
}

/// The juror of a vote, or the juror's participating country, is not in the tables.
pub open spec fn jury_voter_missing(t: Tables, vote: JurorVote) -> bool {
    match first_match(t.jurors, juror_with_id(vote.juror_id)) {
        None => true,
        Some(j) => first_match(t.participating_countries, participating_with_id(j.participating_country_id)) is None,
    }
}

/// What a juror's vote adds to (or, removed, takes from) the rankings: the weight of its
/// rank, in points of the jury ranking of the juror's country.
pub open spec fn jury_ranking_effect(t: Tables, vote: JurorVote, increment: bool) -> Result<Seq<Ranking>, VoteError> {
    match first_match(t.jurors, juror_with_id(vote.juror_id)) {
        None => Err(VoteError::NotFound(Table::Juror)),
        Some(j) => match first_match(t.participating_countries, participating_with_id(j.participating_country_id)) {
            None => Err(VoteError::NotFound(Table::ParticipatingCountry)),
            Some(pc) => repeated_effect(
                t,
                vote.round_id,
                RankingKind::JuryVote,
                pc.country_id,
                vote.ranked_country_id,
                increment,
                rank_weight(vote.rank),
            ),
        },
    }
}

/// The hook of each vote in turn, stopping at the first error.
pub open spec fn tele_hooks_effect(t: Tables, votes: Seq<TeleVote>, increment: bool) -> Result<Seq<Ranking>, VoteError>
    decreases votes.len(),
{
    if votes.len() == 0 {
        Ok(t.rankings)
    } else {
        match tele_hooks_effect(t, votes.drop_last(), increment) {
            Err(e) => Err(e),
            Ok(rs) => tele_ranking_effect(Tables { rankings: rs, ..t }, votes.last(), increment),
        }
    }
}

/// The hook of each vote in turn, stopping at the first error.
pub open spec fn jury_hooks_effect(t: Tables, votes: Seq<JurorVote>, increment: bool) -> Result<Seq<Ranking>, VoteError>
    decreases votes.len(),
{
    if votes.len() == 0 {
        Ok(t.rankings)
    } else {
        match jury_hooks_effect(t, votes.drop_last(), increment) {
            Err(e) => Err(e),
            Ok(rs) => jury_ranking_effect(Tables { rankings: rs, ..t }, votes.last(), increment),
        }
    }
}

/// Creating a televote and counting it.
#[verifier::opaque]
pub open spec fn create_tele_vote_effect(t: Tables, viewer_id: u64, round_id: u16, to_country_id: u16) -> Result<Tables, VoteError> {
    if !any_match(t.viewers, viewer_with_id(viewer_id)) || !any_match(t.rounds, round_with_id(round_id))
        || !any_match(t.participating_countries, participating_with_id(to_country_id)) {
        Err(VoteError::ReferenceIntegrityViolation(Table::TeleVote))
    } else if t.sequences.tele_vote == u64::MAX {
        Err(VoteError::AutoIncOverflow(Table::TeleVote))
    } else {
        let row = TeleVote { id: (t.sequences.tele_vote + 1) as u64, viewer_id, round_id, to_country_id };
        if any_match(t.tele_votes, tele_vote_with_id(row.id)) {
            Err(VoteError::UniqueViolation(Table::TeleVote))
        } else {
            let t1 = Tables { tele_votes: t.tele_votes.push(row), sequences: Sequences { tele_vote: row.id, ..t.sequences }, ..t };
            match tele_ranking_effect(t1, row, true) {
                Err(e) => Err(e),
                Ok(rs) => Ok(Tables { rankings: rs, ..t1 }),
            }
        }
    }
}

/// Creating a juror's vote and counting it.
#[verifier::opaque]
pub open spec fn create_juror_vote_effect(t: Tables, juror_id: u64, round_id: u16, ranked_country_id: u16, rank: u16) -> Result<Tables, VoteError> {
    if any_match(t.juror_votes, juror_vote_with_rank(juror_id, round_id, rank))
        || any_match(t.juror_votes, juror_vote_for(juror_id, round_id, ranked_country_id)) {
        Err(VoteError::UniqueViolation(Table::JurorVote))
    } else if !any_match(t.jurors, juror_with_id(juror_id)) || !any_match(t.rounds, round_with_id(round_id))
        || !any_match(t.participating_countries, participating_with_id(ranked_country_id)) {
        Err(VoteError::ReferenceIntegrityViolation(Table::JurorVote))
    } else if t.sequences.juror_vote == u64::MAX {
        Err(VoteError::AutoIncOverflow(Table::JurorVote))
    } else {
        let row = JurorVote { id: (t.sequences.juror_vote + 1) as u64, juror_id, round_id, ranked_country_id, rank };
        if any_match(t.juror_votes, juror_vote_with_id(row.id)) {
            Err(VoteError::UniqueViolation(Table::JurorVote))
        } else {
            let t1 = Tables { juror_votes: t.juror_votes.push(row), sequences: Sequences { juror_vote: row.id, ..t.sequences }, ..t };
            match jury_ranking_effect(t1, row, true) {
                Err(e) => Err(e),
                Ok(rs) => Ok(Tables { rankings: rs, ..t1 }),
            }
        }
    }
}

/// Deleting the televotes of a viewer in a round, then uncounting each.
#[verifier::opaque]
pub open spec fn delete_tele_votes_effect(t: Tables, viewer_id: u64, round_id: u16) -> Result<Tables, VoteError> {
    let t1 = Tables { tele_votes: t.tele_votes.filter(tele_vote_not_of(viewer_id, round_id)), ..t };
    match tele_hooks_effect(t1, t.tele_votes.filter(tele_vote_of(viewer_id, round_id)), false) {
        Err(e) => Err(e),
        Ok(rs) => Ok(Tables { rankings: rs, ..t1 }),
    }
}

/// Deleting the votes of a juror in a round, then uncounting each.
#[verifier::opaque]
pub open spec fn delete_juror_votes_effect(t: Tables, juror_id: u64, round_id: u16) -> Result<Tables, VoteError> {
    let t1 = Tables { juror_votes: t.juror_votes.filter(juror_vote_not_of(juror_id, round_id)), ..t };
    match jury_hooks_effect(t1, t.juror_votes.filter(juror_vote_of(juror_id, round_id)), false) {
        Err(e) => Err(e),
        Ok(rs) => Ok(Tables { rankings: rs, ..t1 }),
    }
}

/// Once a prefix of the repeated steps fails, all of them fail the same way.
pub proof fn lemma_repeated_effect_err(t: Tables, round_id: u16, kind: RankingKind, from: u16, to: u16, increment: bool, k: nat, n: nat)
    requires
        k <= n,
        repeated_effect(t, round_id, kind, from, to, increment, k) is Err,
    ensures
        repeated_effect(t, round_id, kind, from, to, increment, n) == repeated_effect(t, round_id, kind, from, to, increment, k),
    decreases n - k,
{
    if k < n {
        lemma_repeated_effect_err(t, round_id, kind, from, to, increment, k, (n - 1) as nat);
    }
}

/// Once the hooks of a prefix of the votes fail, the hooks of all fail the same way.
pub proof fn lemma_tele_hooks_err(t: Tables, votes: Seq<TeleVote>, increment: bool, k: int)
    requires
        0 <= k <= votes.len(),
        tele_hooks_effect(t, votes.take(k), increment) is Err,
    ensures
        tele_hooks_effect(t, votes, increment) == tele_hooks_effect(t, votes.take(k), increment),
    decreases votes.len() - k,
{
    if k < votes.len() {
        assert(votes.take(k + 1).drop_last() =~= votes.take(k));
        lemma_tele_hooks_err(t, votes, increment, k + 1);
    } else {
        assert(votes.take(k) =~= votes);
    }
}

/// Once the hooks of a prefix of the votes fail, the hooks of all fail the same way.
pub proof fn lemma_jury_hooks_err(t: Tables, votes: Seq<JurorVote>, increment: bool, k: int)
    requires
        0 <= k <= votes.len(),
        jury_hooks_effect(t, votes.take(k), increment) is Err,
    ensures
        jury_hooks_effect(t, votes, increment) == jury_hooks_effect(t, votes.take(k), increment),
    decreases votes.len() - k,
{
    if k < votes.len() {
        assert(votes.take(k + 1).drop_last() =~= votes.take(k));
        lemma_jury_hooks_err(t, votes, increment, k + 1);
    } else {
        assert(votes.take(k) =~= votes);
    }
}

/// The weight of a juror's rank.
pub fn weight_of_rank(rank: u16) -> (w: usize)
    ensures
        w == rank_weight(rank),
{
    proof {
        reveal_with_fuel(two_to, 13);
        assert(two_to(0) == 1 && two_to(1) == 2 && two_to(2) == 4 && two_to(3) == 8);
        assert(two_to(4) == 16 && two_to(5) == 32 && two_to(6) == 64 && two_to(7) == 128);
        assert(two_to(8) == 256 && two_to(9) == 512 && two_to(10) == 1024);
        assert(two_to(11) == 2048 && two_to(12) == 4096);
    }
    match rank {
        0 => 4096,
        1 => 2048,
        2 => 1024,
        3 => 512,
        4 => 256,
        5 => 128,
        6 => 64,
        7 => 32,
        8 => 16,
        9 => 8,
        10 => 4,
        11 => 2,
        12 => 1,
        _ => 0,
    }
}

impl Database {
    /// One increment or decrement of a ranking entry.
    fn apply_step(&mut self, round_id: u16, kind: RankingKind, from: u16, to: u16, increment: bool) -> (r: Result<(), VoteError>)
        ensures
            final(self)@ == (Tables { rankings: final(self)@.rankings, ..old(self)@ }),
            match step_effect(old(self)@.rankings, old(self)@, round_id, kind, from, to, increment) {
                Ok(rs) => r is Ok && final(self)@.rankings == rs,
                Err(e) => r == Err::<(), VoteError>(e),
            },
    {
        if increment {
            self.increment_ranking_score(round_id, kind, from, to)
        } else {
            self.decrement_ranking_score(round_id, kind, from, to)
        }
    }

    /// `n` increments or decrements of a ranking entry.
    fn apply_steps(&mut self, round_id: u16, kind: RankingKind, from: u16, to: u16, increment: bool, n: usize) -> (r: Result<(), VoteError>)
        ensures
            final(self)@ == (Tables { rankings: final(self)@.rankings, ..old(self)@ }),
            match repeated_effect(old(self)@, round_id, kind, from, to, increment, n as nat) {
                Ok(rs) => r is Ok && final(self)@.rankings == rs,
                Err(e) => r == Err::<(), VoteError>(e),
            },
    {
        let ghost t0 = self@;
        let mut i: usize = 0;
        while i < n
            invariant
                i <= n,
                t0 == old(self)@,
                self@ == (Tables { rankings: self@.rankings, ..t0 }),
                repeated_effect(t0, round_id, kind, from, to, increment, i as nat) == Ok::<Seq<Ranking>, VoteError>(self@.rankings),
            decreases n - i,
        {
            let res = self.apply_step(round_id, kind, from, to, increment);
            if let Err(e) = res {
                proof {
                    lemma_repeated_effect_err(t0, round_id, kind, from, to, increment, (i + 1) as nat, n as nat);
                }
                return Err(e);
            }
            i = i + 1;
        }
        Ok(())
    }

    /// Counts a televote in, or out of, the televote ranking of the viewer's country.
    pub fn update_tele_ranking(&mut self, vote: &TeleVote, increment: bool) -> (r: Result<(), VoteError>)
        ensures
            first_match(old(self)@.viewers, viewer_with_id(vote.viewer_id)) is None ==> final(self)@ == old(self)@,
            final(self)@ == (Tables { rankings: final(self)@.rankings, ..old(self)@ }),
            match tele_ranking_effect(old(self)@, *vote, increment) {
                Ok(rs) => r is Ok && final(self)@.rankings == rs,
                Err(e) => r == Err::<(), VoteError>(e),
            },
    {
        let viewer = self.get_viewer_by_id(vote.viewer_id)?;
        self.apply_steps(vote.round_id, RankingKind::TeleVote, viewer.country_id, vote.to_country_id, increment, 1)
    }

    /// The hook that follows the insertion of a televote.
    pub fn after_tele_vote_insert(&mut self, vote: &TeleVote) -> (r: Result<(), VoteError>)
        ensures
            first_match(old(self)@.viewers, viewer_with_id(vote.viewer_id)) is None ==> final(self)@ == old(self)@,
            final(self)@ == (Tables { rankings: final(self)@.rankings, ..old(self)@ }),
            match tele_ranking_effect(old(self)@, *vote, true) {
                Ok(rs) => r is Ok && final(self)@.rankings == rs,
                Err(e) => r == Err::<(), VoteError>(e),
            },
    {
        self.update_tele_ranking(vote, true)
    }

    /// The hook that follows the deletion of a televote.
    pub fn after_tele_vote_delete(&mut self, vote: &TeleVote) -> (r: Result<(), VoteError>)
        ensures
            first_match(old(self)@.viewers, viewer_with_id(vote.viewer_id)) is None ==> final(self)@ == old(self)@,
            final(self)@ == (Tables { rankings: final(self)@.rankings, ..old(self)@ }),
            match tele_ranking_effect(old(self)@, *vote, false) {
                Ok(rs) => r is Ok && final(self)@.rankings == rs,
                Err(e) => r == Err::<(), VoteError>(e),
            },
    {
        self.update_tele_ranking(vote, false)
    }

    /// Counts a juror's vote in, or out of, the jury ranking of the juror's country: the
    /// entry of the ranked country moves by the weight of the rank.
    pub fn update_jury_ranking(&mut self, vote: &JurorVote, increment: bool) -> (r: Result<(), VoteError>)
        ensures
            jury_voter_missing(old(self)@, *vote) ==> final(self)@ == old(self)@,
            final(self)@ == (Tables { rankings: final(self)@.rankings, ..old(self)@ }),
            match jury_ranking_effect(old(self)@, *vote, increment) {
                Ok(rs) => r is Ok && final(self)@.rankings == rs,
                Err(e) => r == Err::<(), VoteError>(e),
            },
    {
        let juror = self.get_juror_by_id(vote.juror_id)?;
        let juror_country_id = self.get_participating_country_by_id(juror.participating_country_id)?.country_id;
        let score = weight_of_rank(vote.rank);
        self.apply_steps(vote.round_id, RankingKind::JuryVote, juror_country_id, vote.ranked_country_id, increment, score)
    }

    /// The hook that follows the insertion of a juror's vote.
    pub fn after_juror_vote_insert(&mut self, vote: &JurorVote) -> (r: Result<(), VoteError>)
        ensures
            jury_voter_missing(old(self)@, *vote) ==> final(self)@ == old(self)@,
            final(self)@ == (Tables { rankings: final(self)@.rankings, ..old(self)@ }),
            match jury_ranking_effect(old(self)@, *vote, true) {
                Ok(rs) => r is Ok && final(self)@.rankings == rs,
                Err(e) => r == Err::<(), VoteError>(e),
            },
    {
        self.update_jury_ranking(vote, true)
    }

    /// The hook that follows the deletion of a juror's vote.
    pub fn after_juror_vote_delete(&mut self, vote: &JurorVote) -> (r: Result<(), VoteError>)
        ensures
            jury_voter_missing(old(self)@, *vote) ==> final(self)@ == old(self)@,
            final(self)@ == (Tables { rankings: final(self)@.rankings, ..old(self)@ }),
            match jury_ranking_effect(old(self)@, *vote, false) {
                Ok(rs) => r is Ok && final(self)@.rankings == rs,
                Err(e) => r == Err::<(), VoteError>(e),
            },
    {
        self.update_jury_ranking(vote, false)
    }
}


impl Database {
    /// Whether a televote has this id.
    fn tele_vote_exists(&self, id: u64) -> (b: bool)
        ensures
            b == any_match(self@.tele_votes, tele_vote_with_id(id)),
    {
        let mut i: usize = 0;
        while i < self.tele_votes.len()
            invariant
                i <= self.tele_votes@.len(),
                forall|j: int| 0 <= j < i ==> !tele_vote_with_id(id)(#[trigger] self.tele_votes@[j]),
            decreases self.tele_votes@.len() - i,
        {
            if self.tele_votes[i].id == id {
                assert(tele_vote_with_id(id)(self.tele_votes@[i as int]));
                return true;
            }
            i = i + 1;
        }
        false
    }

    /// Whether a juror's vote satisfies a test, for the unique indices of the table.
    fn juror_vote_exists(&self, id: u64, juror_id: u64, round_id: u16, rank: u16, country: u16) -> (b: (bool, bool, bool))
        ensures
            b.0 == any_match(self@.juror_votes, juror_vote_with_id(id)),
            b.1 == any_match(self@.juror_votes, juror_vote_with_rank(juror_id, round_id, rank)),
            b.2 == any_match(self@.juror_votes, juror_vote_for(juror_id, round_id, country)),
    {
        let mut by_id = false;
        let mut by_rank = false;
        let mut by_country = false;
        let mut i: usize = 0;
        while i < self.juror_votes.len()
            invariant
                i <= self.juror_votes@.len(),
                by_id == exists|j: int| 0 <= j < i && #[trigger] juror_vote_with_id(id)(self.juror_votes@[j]),
                by_rank == exists|j: int| 0 <= j < i && #[trigger] juror_vote_with_rank(juror_id, round_id, rank)(self.juror_votes@[j]),
                by_country == exists|j: int| 0 <= j < i && #[trigger] juror_vote_for(juror_id, round_id, country)(self.juror_votes@[j]),
            decreases self.juror_votes@.len() - i,
        {
            let v = self.juror_votes[i];
            if v.id == id {
                assert(juror_vote_with_id(id)(self.juror_votes@[i as int]));
                by_id = true;
            }
            if v.juror_id == juror_id && v.round_id == round_id && v.rank == rank {
                assert(juror_vote_with_rank(juror_id, round_id, rank)(self.juror_votes@[i as int]));
                by_rank = true;
            }
            if v.juror_id == juror_id && v.round_id == round_id && v.ranked_country_id == country {
                assert(juror_vote_for(juror_id, round_id, country)(self.juror_votes@[i as int]));
                by_country = true;
            }
            i = i + 1;
        }
        (by_id, by_rank, by_country)
    }

    /// Whether a viewer has this id.
    fn viewer_exists(&self, id: u64) -> (b: bool)
        ensures
            b == any_match(self@.viewers, viewer_with_id(id)),
    {
        self.get_viewer_by_id(id).is_ok()
    }

    /// Whether a juror has this id.
    fn juror_exists(&self, id: u64) -> (b: bool)
        ensures
            b == any_match(self@.jurors, juror_with_id(id)),
    {
        self.get_juror_by_id(id).is_ok()
    }

    /// Create a row in the `tele_vote` table; the hook after the insertion counts it.
    pub fn create_tele_vote(&mut self, viewer_id: u64, round_id: u16, to_country_id: u16) -> (r: Result<TeleVote, VoteError>)
        ensures
            match create_tele_vote_effect(old(self)@, viewer_id, round_id, to_country_id) {
                Ok(t) => r == Ok::<TeleVote, VoteError>(t.tele_votes.last()) && final(self)@ == t,
                Err(e) => r == Err::<TeleVote, VoteError>(e) && final(self)@ == (Tables {
                    tele_votes: final(self)@.tele_votes,
                    rankings: final(self)@.rankings,
                    sequences: final(self)@.sequences,
                    ..old(self)@
                }),
            },
    {
        reveal(create_tele_vote_effect);
        if !self.viewer_exists(viewer_id) || !self.round_exists(round_id) || !self.participating_country_exists(to_country_id) {
            return Err(VoteError::ReferenceIntegrityViolation(Table::TeleVote));
        }
        if self.sequences.tele_vote == u64::MAX {
            return Err(VoteError::AutoIncOverflow(Table::TeleVote));
        }
        let row = TeleVote { id: self.sequences.tele_vote + 1, viewer_id, round_id, to_country_id };
        if self.tele_vote_exists(row.id) {
            return Err(VoteError::UniqueViolation(Table::TeleVote));
        }
        self.tele_votes.push(row);
        self.sequences.tele_vote = row.id;
        self.after_tele_vote_insert(&row)?;
        Ok(row)
    }

    /// Create a row in the `juror_vote` table; the hook after the insertion counts it.
    pub fn create_juror_vote(&mut self, juror_id: u64, round_id: u16, ranked_country_id: u16, rank: u16) -> (r: Result<JurorVote, VoteError>)
        ensures
            match create_juror_vote_effect(old(self)@, juror_id, round_id, ranked_country_id, rank) {
                Ok(t) => r == Ok::<JurorVote, VoteError>(t.juror_votes.last()) && final(self)@ == t,
                Err(e) => r == Err::<JurorVote, VoteError>(e) && final(self)@ == (Tables {
                    juror_votes: final(self)@.juror_votes,
                    rankings: final(self)@.rankings,
                    sequences: final(self)@.sequences,
                    ..old(self)@
                }),
            },
    {
        reveal(create_juror_vote_effect);
        let next = if self.sequences.juror_vote == u64::MAX { 0 } else { self.sequences.juror_vote + 1 };
        let (_, by_rank, by_country) = self.juror_vote_exists(next, juror_id, round_id, rank, ranked_country_id);
        if by_rank || by_country {
            return Err(VoteError::UniqueViolation(Table::JurorVote));
        }
        if !self.juror_exists(juror_id) || !self.round_exists(round_id) || !self.participating_country_exists(ranked_country_id) {
            return Err(VoteError::ReferenceIntegrityViolation(Table::JurorVote));
        }
        if self.sequences.juror_vote == u64::MAX {
            return Err(VoteError::AutoIncOverflow(Table::JurorVote));
        }
        let row = JurorVote { id: next, juror_id, round_id, ranked_country_id, rank };
        let (by_id, _, _) = self.juror_vote_exists(next, juror_id, round_id, rank, ranked_country_id);
        if by_id {
            return Err(VoteError::UniqueViolation(Table::JurorVote));
        }
        self.juror_votes.push(row);
        self.sequences.juror_vote = row.id;
        self.after_juror_vote_insert(&row)?;
        Ok(row)
    }

    /// Delete the televotes of a viewer in a round; the hook after the deletion uncounts
    /// each, in table order.
    #[verifier::rlimit(60)]
    pub fn delete_tele_votes_by_viewer_and_round(&mut self, viewer_id: u64, round_id: u16) -> (r: Result<(), VoteError>)
        ensures
            match delete_tele_votes_effect(old(self)@, viewer_id, round_id) {
                Ok(t) => r is Ok && final(self)@ == t,
                Err(e) => r == Err::<(), VoteError>(e) && final(self)@ == (Tables {
                    rankings: final(self)@.rankings,
                    tele_votes: old(self)@.tele_votes.filter(tele_vote_not_of(viewer_id, round_id)),
                    ..old(self)@
                }),
            },
    {
        reveal(delete_tele_votes_effect);
        let ghost vs = self@.tele_votes;
        let mut kept: Vec<TeleVote> = Vec::new();
        let mut removed: Vec<TeleVote> = Vec::new();
        let mut i: usize = 0;
        while i < self.tele_votes.len()
            invariant
                vs == self@.tele_votes,
                i <= vs.len(),
                kept@ == vs.take(i as int).filter(tele_vote_not_of(viewer_id, round_id)),
                removed@ == vs.take(i as int).filter(tele_vote_of(viewer_id, round_id)),
            decreases vs.len() - i,
        {
            assert(vs.take(i + 1).drop_last() =~= vs.take(i as int));
            proof {
                reveal(Seq::filter);
            }
            let v = self.tele_votes[i];
            if v.viewer_id == viewer_id && v.round_id == round_id {
                removed.push(v);
            } else {
                kept.push(v);
            }
            i = i + 1;
        }
        assert(vs.take(i as int) =~= vs);
        self.tele_votes = kept;
        let ghost t1 = self@;
        let mut k: usize = 0;
        while k < removed.len()
            invariant
                k <= removed@.len(),
                removed@ == vs.filter(tele_vote_of(viewer_id, round_id)),
                vs == old(self)@.tele_votes,
                t1 == (Tables { tele_votes: vs.filter(tele_vote_not_of(viewer_id, round_id)), ..old(self)@ }),
                self@ == (Tables { rankings: self@.rankings, ..t1 }),
                tele_hooks_effect(t1, removed@.take(k as int), false) == Ok::<Seq<Ranking>, VoteError>(self@.rankings),
            decreases removed@.len() - k,
        {
            assert(removed@.take(k + 1).drop_last() =~= removed@.take(k as int));
            let v = removed[k];
            let res = self.after_tele_vote_delete(&v);
            if let Err(e) = res {
                proof {
                    reveal(delete_tele_votes_effect);
                    lemma_tele_hooks_err(t1, removed@, false, k + 1);
                }
                return Err(e);
            }
            k = k + 1;
        }
        assert(removed@.take(k as int) =~= removed@);
        Ok(())
    }

    /// Delete the votes of a juror in a round; the hook after the deletion uncounts each,
    /// in table order.
    #[verifier::rlimit(60)]
    pub fn delete_juror_votes_by_juror_and_round(&mut self, juror_id: u64, round_id: u16) -> (r: Result<(), VoteError>)
        ensures
            match delete_juror_votes_effect(old(self)@, juror_id, round_id) {
                Ok(t) => r is Ok && final(self)@ == t,
                Err(e) => r == Err::<(), VoteError>(e) && final(self)@ == (Tables {
                    rankings: final(self)@.rankings,
                    juror_votes: old(self)@.juror_votes.filter(juror_vote_not_of(juror_id, round_id)),
                    ..old(self)@
                }),
            },
    {
        reveal(delete_juror_votes_effect);
        let ghost vs = self@.juror_votes;
        let mut kept: Vec<JurorVote> = Vec::new();
        let mut removed: Vec<JurorVote> = Vec::new();
        let mut i: usize = 0;
        while i < self.juror_votes.len()
            invariant
                vs == self@.juror_votes,
                i <= vs.len(),
                kept@ == vs.take(i as int).filter(juror_vote_not_of(juror_id, round_id)),
                removed@ == vs.take(i as int).filter(juror_vote_of(juror_id, round_id)),
            decreases vs.len() - i,
        {
            assert(vs.take(i + 1).drop_last() =~= vs.take(i as int));
            proof {
                reveal(Seq::filter);
            }
            let v = self.juror_votes[i];
            if v.juror_id == juror_id && v.round_id == round_id {
                removed.push(v);
            } else {
                kept.push(v);
            }
            i = i + 1;
        }
        assert(vs.take(i as int) =~= vs);
        self.juror_votes = kept;
        let ghost t1 = self@;
        let mut k: usize = 0;
        while k < removed.len()
            invariant
                k <= removed@.len(),
                removed@ == vs.filter(juror_vote_of(juror_id, round_id)),
                vs == old(self)@.juror_votes,
                t1 == (Tables { juror_votes: vs.filter(juror_vote_not_of(juror_id, round_id)), ..old(self)@ }),
                self@ == (Tables { rankings: self@.rankings, ..t1 }),
                jury_hooks_effect(t1, removed@.take(k as int), false) == Ok::<Seq<Ranking>, VoteError>(self@.rankings),
            decreases removed@.len() - k,
        {
            assert(removed@.take(k + 1).drop_last() =~= removed@.take(k as int));
            let v = removed[k];
            let res = self.after_juror_vote_delete(&v);
            if let Err(e) = res {
                proof {
                    reveal(delete_juror_votes_effect);
                    lemma_jury_hooks_err(t1, removed@, false, k + 1);
                }
                return Err(e);
            }
            k = k + 1;
        }
        assert(removed@.take(k as int) =~= removed@);
        Ok(())
    }
}

} // verus!
