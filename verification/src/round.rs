use vstd::prelude::*;

use crate::country::participating_with_id;
use crate::database::{any_match, first_match, lemma_first_match_at, lemma_first_match_none, Database, Sequences, Tables};
use crate::error::{Table, VoteError};

pub mod admin;
pub mod laws;
pub mod performers;
pub mod fresh;
pub mod tiebreak;

verus! {

/// The three shows of a contest year.
#[derive(Clone, Copy, PartialEq, Eq, Structural, Debug)]
pub enum RoundKind {
    SemiFinal1,
    SemiFinal2,
    GrandFinal,
}

impl RoundKind {
    /// The name by which the kind is displayed.
    pub fn display_name(&self) -> (s: &'static str)
        ensures
            s@ == match *self {
                RoundKind::SemiFinal1 => "SemiFinal1"@,
                RoundKind::SemiFinal2 => "SemiFinal2"@,
                RoundKind::GrandFinal => "GrandFinal"@,
            },
    {
        match self {
            RoundKind::SemiFinal1 => "SemiFinal1",
            RoundKind::SemiFinal2 => "SemiFinal2",
            RoundKind::GrandFinal => "GrandFinal",
        }
    }
}

/// A voting round: Semi-Final 1, Semi-Final 2, or Grand Final.
#[derive(Clone, Copy, PartialEq, Eq, Structural, Debug)]
pub struct Round {
    pub id: u16,
    pub year: u16,
    pub kind: RoundKind,
    pub voting_open: bool,
}

/// A participating country performing in a round.
#[derive(Clone, Copy, PartialEq, Eq, Structural, Debug)]
pub struct Participation {
    pub id: u64,
    pub round_id: u16,
    pub participating_country_id: u16,
}

/// The round that is currently being voted on.
#[derive(Clone, Copy, PartialEq, Eq, Structural, Debug)]
pub struct ActiveRound {
    pub round_id: u16,
}

/// The rounds with this id.
pub open spec fn round_with_id(id: u16) -> spec_fn(Round) -> bool {
    |r: Round| r.id == id
}

/// The rounds of this year and kind.
pub open spec fn round_with_year_and_kind(year: u16, kind: RoundKind) -> spec_fn(Round) -> bool {
    |r: Round| r.year == year && r.kind == kind
}

/// The participations with this id.
pub open spec fn participation_with_id(id: u64) -> spec_fn(Participation) -> bool {
    |p: Participation| p.id == id
}

/// Two rounds of the same year and kind.
pub open spec fn year_and_kind_repeated(rounds: Seq<Round>, year: u16, kind: RoundKind) -> bool {
    exists|i: int, j: int|
        0 <= i < j < rounds.len() && #[trigger] round_with_year_and_kind(year, kind)(rounds[i])
            && #[trigger] round_with_year_and_kind(year, kind)(rounds[j])
}

/// The lookup through the unique index over (year, kind).
pub open spec fn round_by_year_and_kind(rounds: Seq<Round>, year: u16, kind: RoundKind) -> Result<Round, VoteError> {
    if year_and_kind_repeated(rounds, year, kind) {
        Err(VoteError::UniqueViolation(Table::Round))
    } else {
        match first_match(rounds, round_with_year_and_kind(year, kind)) {
            Some(r) => Ok(r),
            None => Err(VoteError::NotFound(Table::Round)),
        }
    }
}

/// Creating a round: its year and kind must be new.
pub open spec fn create_round_effect(t: Tables, year: u16, kind: RoundKind, voting_open: bool) -> Result<(Tables, Round), VoteError> {
    if any_match(t.rounds, round_with_year_and_kind(year, kind)) {
        Err(VoteError::UniqueViolation(Table::Round))
    } else if t.sequences.round == u16::MAX {
        Err(VoteError::AutoIncOverflow(Table::Round))
    } else {
        let row = Round { id: (t.sequences.round + 1) as u16, year, kind, voting_open };
        if any_match(t.rounds, round_with_id(row.id)) {
            Err(VoteError::UniqueViolation(Table::Round))
        } else {
            Ok((Tables { rounds: t.rounds.push(row), sequences: Sequences { round: row.id, ..t.sequences }, ..t }, row))
        }
    }
}

/// The position of the first round with an id.
pub open spec fn round_position(rounds: Seq<Round>, id: u16) -> int {
    choose|i: int| 0 <= i < rounds.len() && #[trigger] round_with_id(id)(rounds[i]) && forall|j: int| 0 <= j < i ==> !round_with_id(id)(rounds[j])
}

/// Writing a round back over the stored one with its id.
pub open spec fn update_round_effect(t: Tables, round: Round) -> Result<Tables, VoteError> {
    if exists|i: int| 0 <= i < t.rounds.len() && #[trigger] round_with_year_and_kind(round.year, round.kind)(t.rounds[i]) && t.rounds[i].id != round.id {
        Err(VoteError::UniqueViolation(Table::Round))
    } else if !any_match(t.rounds, round_with_id(round.id)) {
        Err(VoteError::NotFound(Table::Round))
    } else {
        Ok(Tables { rounds: t.rounds.update(round_position(t.rounds, round.id), round), ..t })
    }
}

/// Adding a country to a round.
pub open spec fn create_participation_effect(t: Tables, round_id: u16, participating_country_id: u16) -> Result<Tables, VoteError> {
    if !any_match(t.rounds, round_with_id(round_id))
        || !any_match(t.participating_countries, participating_with_id(participating_country_id)) {
        Err(VoteError::ReferenceIntegrityViolation(Table::Participation))
    } else if t.sequences.participation == u64::MAX {
        Err(VoteError::AutoIncOverflow(Table::Participation))
    } else {
        let row = Participation { id: (t.sequences.participation + 1) as u64, round_id, participating_country_id };
        if any_match(t.participations, participation_with_id(row.id)) {
            Err(VoteError::UniqueViolation(Table::Participation))
        } else {
            Ok(Tables {
                participations: t.participations.push(row),
                sequences: Sequences { participation: row.id, ..t.sequences },
                ..t
            })
        }
    }
}

/// Making a round the active one: it must exist and no round be active.
pub open spec fn create_active_round_effect(t: Tables, round_id: u16) -> Result<Tables, VoteError> {
    if !any_match(t.rounds, round_with_id(round_id)) {
        Err(VoteError::ReferenceIntegrityViolation(Table::ActiveRound))
    } else if t.active_round is Some {
        Err(VoteError::UniqueViolation(Table::ActiveRound))
    } else {
        Ok(Tables { active_round: Some(ActiveRound { round_id }), ..t })
    }
}

/// The countries taking part in a round, in table order.
pub open spec fn round_participants(ps: Seq<Participation>, round_id: u16) -> Seq<u16>
    decreases ps.len(),
{
    if ps.len() == 0 {
        seq![]
    } else {
        let prev = round_participants(ps.drop_last(), round_id);
        if ps.last().round_id == round_id {
            prev.push(ps.last().participating_country_id)
        } else {
            prev
        }
    }
}

/// The round being voted on, if any.
pub open spec fn active_round_spec(t: Tables) -> Option<Round> {
    match t.active_round {
        None => None,
        Some(a) => first_match(t.rounds, round_with_id(a.round_id)),
    }
}

impl Database {
    /// The round with this id.
    pub fn get_round_by_id(&self, id: u16) -> (r: Result<Round, VoteError>)
        ensures
            match first_match(self@.rounds, round_with_id(id)) {
                Some(x) => r == Ok::<Round, VoteError>(x),
                None => r == Err::<Round, VoteError>(VoteError::NotFound(Table::Round)),
            },
    {
        let mut i: usize = 0;
        while i < self.rounds.len()
            invariant
                i <= self.rounds@.len(),
                forall|j: int| 0 <= j < i ==> !round_with_id(id)(#[trigger] self.rounds@[j]),
            decreases self.rounds@.len() - i,
        {
            if self.rounds[i].id == id {
                proof {
                    lemma_first_match_at(self@.rounds, round_with_id(id), i as int);
                }
                return Ok(self.rounds[i]);
            }
            i = i + 1;
        }
        proof {
            lemma_first_match_none(self@.rounds, round_with_id(id));
        }
        Err(VoteError::NotFound(Table::Round))
    }

    /// Whether a round has this id.
    pub fn round_exists(&self, id: u16) -> (b: bool)
        ensures
            b == any_match(self@.rounds, round_with_id(id)),
    {
        self.get_round_by_id(id).is_ok()
    }

    /// The round of a year and kind.
    pub fn get_round_by_year_and_kind(&self, year: u16, kind: RoundKind) -> (r: Result<Round, VoteError>)
        ensures
            r == round_by_year_and_kind(self@.rounds, year, kind),
    {
        let ghost rs = self@.rounds;
        let mut found: Option<usize> = None;
        let mut i: usize = 0;
        while i < self.rounds.len()
            invariant
                rs == self@.rounds,
                i <= rs.len(),
                match found {
                    None => forall|j: int| 0 <= j < i ==> !#[trigger] round_with_year_and_kind(year, kind)(rs[j]),
                    Some(f) => f < i && round_with_year_and_kind(year, kind)(rs[f as int])
                        && forall|j: int| 0 <= j < i && j != f ==> !#[trigger] round_with_year_and_kind(year, kind)(rs[j]),
                },
            decreases rs.len() - i,
        {
            if self.rounds[i].year == year && self.rounds[i].kind == kind {
                match found {
                    Some(f) => {
                        assert(round_with_year_and_kind(year, kind)(rs[f as int]));
                        assert(round_with_year_and_kind(year, kind)(rs[i as int]));
                        assert(year_and_kind_repeated(rs, year, kind));
                        return Err(VoteError::UniqueViolation(Table::Round));
                    },
                    None => {
                        found = Some(i);
                    },
                }
            }
            i = i + 1;
        }
        match found {
            None => {
                proof {
                    lemma_first_match_none(rs, round_with_year_and_kind(year, kind));
                }
                Err(VoteError::NotFound(Table::Round))
            },
            Some(f) => {
                proof {
                    lemma_first_match_at(rs, round_with_year_and_kind(year, kind), f as int);
                }
                Ok(self.rounds[f])
            },
        }
    }

    /// Create a row in the `round` table.
    pub fn create_round(&mut self, year: u16, kind: RoundKind, voting_open: bool) -> (r: Result<Round, VoteError>)
        ensures
            match create_round_effect(old(self)@, year, kind, voting_open) {
                Ok((t, x)) => r == Ok::<Round, VoteError>(x) && final(self)@ == t,
                Err(e) => r == Err::<Round, VoteError>(e) && final(self)@ == old(self)@,
            },
    {
        let mut i: usize = 0;
        while i < self.rounds.len()
            invariant
                i <= self.rounds@.len(),
                forall|j: int| 0 <= j < i ==> !round_with_year_and_kind(year, kind)(#[trigger] self.rounds@[j]),
            decreases self.rounds@.len() - i,
        {
            if self.rounds[i].year == year && self.rounds[i].kind == kind {
                assert(round_with_year_and_kind(year, kind)(self.rounds@[i as int]));
                return Err(VoteError::UniqueViolation(Table::Round));
            }
            i = i + 1;
        }
        if self.sequences.round == u16::MAX {
            return Err(VoteError::AutoIncOverflow(Table::Round));
        }
        let row = Round { id: self.sequences.round + 1, year, kind, voting_open };
        if self.round_exists(row.id) {
            return Err(VoteError::UniqueViolation(Table::Round));
        }
        self.rounds.push(row);
        self.sequences.round = row.id;
        Ok(row)
    }

    /// Try to update a `Round` row of the `round` table by its id.
    pub fn update_round_by_id(&mut self, round: Round) -> (r: Result<Round, VoteError>)
        ensures
            match update_round_effect(old(self)@, round) {
                Ok(t) => r == Ok::<Round, VoteError>(round) && final(self)@ == t,
                Err(e) => r == Err::<Round, VoteError>(e) && final(self)@ == old(self)@,
            },
    {
        let mut i: usize = 0;
        while i < self.rounds.len()
            invariant
                i <= self.rounds@.len(),
                forall|j: int| 0 <= j < i ==> !(#[trigger] round_with_year_and_kind(round.year, round.kind)(self.rounds@[j]) && self.rounds@[j].id != round.id),
            decreases self.rounds@.len() - i,
        {
            if self.rounds[i].year == round.year && self.rounds[i].kind == round.kind && self.rounds[i].id != round.id {
                assert(round_with_year_and_kind(round.year, round.kind)(self.rounds@[i as int]));
                return Err(VoteError::UniqueViolation(Table::Round));
            }
            i = i + 1;
        }
        let mut k: usize = 0;
        while k < self.rounds.len()
            invariant
                k <= self.rounds@.len(),
                self@ == old(self)@,
                forall|j: int| 0 <= j < self.rounds@.len() ==> !(#[trigger] round_with_year_and_kind(round.year, round.kind)(self.rounds@[j]) && self.rounds@[j].id != round.id),
                forall|j: int| 0 <= j < k ==> !round_with_id(round.id)(#[trigger] self.rounds@[j]),
            decreases self.rounds@.len() - k,
        {
            if self.rounds[k].id == round.id {
                let ghost c = round_position(self@.rounds, round.id);
                proof {
                    lemma_first_match_at(self@.rounds, round_with_id(round.id), k as int);
                    assert(round_with_id(round.id)(self@.rounds[k as int]));
                    assert(0 <= c < self@.rounds.len() && round_with_id(round.id)(self@.rounds[c]) && forall|j: int| 0 <= j < c ==> !round_with_id(round.id)(self@.rounds[j]));
                    if c < k {
                        assert(!round_with_id(round.id)(self@.rounds[c]));
                    } else if c > k {
                        assert(!round_with_id(round.id)(self@.rounds[k as int]));
                    }
                }
                self.rounds.set(k, round);
                return Ok(round);
            }
            k = k + 1;
        }
        proof {
            lemma_first_match_none(self@.rounds, round_with_id(round.id));
        }
        Err(VoteError::NotFound(Table::Round))
    }

    /// Create a row in the `participation` table.
    pub fn create_participation(&mut self, round_id: u16, participating_country_id: u16) -> (r: Result<Participation, VoteError>)
        ensures
            match create_participation_effect(old(self)@, round_id, participating_country_id) {
                Ok(t) => r == Ok::<Participation, VoteError>(t.participations.last()) && final(self)@ == t,
                Err(e) => r == Err::<Participation, VoteError>(e) && final(self)@ == old(self)@,
            },
    {
        if !self.round_exists(round_id) || !self.participating_country_exists(participating_country_id) {
            return Err(VoteError::ReferenceIntegrityViolation(Table::Participation));
        }
        if self.sequences.participation == u64::MAX {
            return Err(VoteError::AutoIncOverflow(Table::Participation));
        }
        let row = Participation { id: self.sequences.participation + 1, round_id, participating_country_id };
        let mut i: usize = 0;
        while i < self.participations.len()
            invariant
                i <= self.participations@.len(),
                any_match(self@.rounds, round_with_id(round_id)),
                any_match(self@.participating_countries, participating_with_id(participating_country_id)),
                self.sequences.participation != u64::MAX,
                row.id == self.sequences.participation + 1,
                row == (Participation { id: row.id, round_id, participating_country_id }),
                forall|j: int| 0 <= j < i ==> !participation_with_id(row.id)(#[trigger] self.participations@[j]),
            decreases self.participations@.len() - i,
        {
            if self.participations[i].id == row.id {
                assert(participation_with_id(row.id)(self.participations@[i as int]));
                return Err(VoteError::UniqueViolation(Table::Participation));
            }
            i = i + 1;
        }
        self.participations.push(row);
        self.sequences.participation = row.id;
        Ok(row)
    }

    /// The participating countries of a round, in table order.
    pub fn get_participants_by_round_id(&self, round_id: u16) -> (v: Vec<u16>)
        ensures
            v@ == round_participants(self@.participations, round_id),
    {
        let ghost ps = self@.participations;
        let mut v: Vec<u16> = Vec::new();
        let mut i: usize = 0;
        while i < self.participations.len()
            invariant
                ps == self@.participations,
                i <= ps.len(),
                v@ == round_participants(ps.take(i as int), round_id),
            decreases ps.len() - i,
        {
            assert(ps.take(i + 1).drop_last() =~= ps.take(i as int));
            if self.participations[i].round_id == round_id {
                v.push(self.participations[i].participating_country_id);
            }
            i = i + 1;
        }
        assert(ps.take(i as int) =~= ps);
        v
    }

    /// The active round marker.
    pub fn get_active_round(&self) -> (r: Result<ActiveRound, VoteError>)
        ensures
            match self@.active_round {
                Some(a) => r == Ok::<ActiveRound, VoteError>(a),
                None => r == Err::<ActiveRound, VoteError>(VoteError::NotFound(Table::ActiveRound)),
            },
    {
        match self.active_round {
            Some(a) => Ok(a),
            None => Err(VoteError::NotFound(Table::ActiveRound)),
        }
    }

    /// Remove the active round marker.
    pub fn delete_active_round(&mut self) -> (r: Result<(), VoteError>)
        ensures
            final(self)@ == (Tables { active_round: None, ..old(self)@ }),
            (r is Ok) <==> (old(self)@.active_round is Some),
            r is Err ==> r == Err::<(), VoteError>(VoteError::NotFound(Table::ActiveRound)),
    {
        match self.active_round {
            Some(_) => {
                self.active_round = None;
                Ok(())
            },
            None => Err(VoteError::NotFound(Table::ActiveRound)),
        }
    }

    /// Create the row of the single-row `active_round` table.
    pub fn create_active_round(&mut self, round_id: u16) -> (r: Result<ActiveRound, VoteError>)
        ensures
            match create_active_round_effect(old(self)@, round_id) {
                Ok(t) => r == Ok::<ActiveRound, VoteError>(ActiveRound { round_id }) && final(self)@ == t,
                Err(e) => r == Err::<ActiveRound, VoteError>(e) && final(self)@ == old(self)@,
            },
    {
        if !self.round_exists(round_id) {
            return Err(VoteError::ReferenceIntegrityViolation(Table::ActiveRound));
        }
        if self.active_round.is_some() {
            return Err(VoteError::UniqueViolation(Table::ActiveRound));
        }
        self.active_round = Some(ActiveRound { round_id });
        Ok(ActiveRound { round_id })
    }

    /// The round being voted on, if any.
    pub fn active_round_view(&self) -> (r: Option<Round>)
        ensures
            r == active_round_spec(self@),
    {
        let a = match self.get_active_round() {
            Ok(a) => a,
            Err(_) => {
                return None;
            },
        };
        match self.get_round_by_id(a.round_id) {
            Ok(round) => Some(round),
            Err(_) => None,
        }
    }
}

} // verus!
