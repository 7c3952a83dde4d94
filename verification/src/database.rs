use vstd::prelude::*;

use crate::country::{Country, ParticipatingCountry, RotwCountry};
use crate::ranking::Ranking;
use crate::round::{ActiveRound, Participation, Round};
use crate::user::User;
use crate::vote::{JurorVote, TeleVote};
use crate::voter::{Juror, Viewer};

verus! {

/// The last number that the sequence of each auto-incremented primary key handed out;
/// the next row gets the number after it, and none is left after the type's maximum.
#[derive(Clone, Copy, PartialEq, Eq, Structural, Debug)]
pub struct Sequences {
    pub country: u16,
    pub participating_country: u16,
    pub user: u64,
    pub viewer: u64,
    pub juror: u64,
    pub round: u16,
    pub participation: u64,
    pub ranking: u64,
    pub tele_vote: u64,
    pub juror_vote: u64,
}

/// The tables of the voting module: each a sequence of rows in insertion order,
/// the two single-row tables as options.
#[derive(Debug)]
pub struct Database {
    pub countries: Vec<Country>,
    pub participating_countries: Vec<ParticipatingCountry>,
    pub rotw_country: Option<RotwCountry>,
    pub users: Vec<User>,
    pub viewers: Vec<Viewer>,
    pub jurors: Vec<Juror>,
    pub rounds: Vec<Round>,
    pub participations: Vec<Participation>,
    pub active_round: Option<ActiveRound>,
    pub rankings: Vec<Ranking>,
    pub tele_votes: Vec<TeleVote>,
    pub juror_votes: Vec<JurorVote>,
    pub sequences: Sequences,
}

/// The rows of every table, as the contracts speak of them.
pub struct Tables {
    pub countries: Seq<Country>,
    pub participating_countries: Seq<ParticipatingCountry>,
    pub rotw_country: Option<RotwCountry>,
    pub users: Seq<User>,
    pub viewers: Seq<Viewer>,
    pub jurors: Seq<Juror>,
    pub rounds: Seq<Round>,
    pub participations: Seq<Participation>,
    pub active_round: Option<ActiveRound>,
    pub rankings: Seq<Ranking>,
    pub tele_votes: Seq<TeleVote>,
    pub juror_votes: Seq<JurorVote>,
    pub sequences: Sequences,
}

impl View for Database {
    type V = Tables;

    open spec fn view(&self) -> Tables {
        Tables {
            countries: self.countries@,
            participating_countries: self.participating_countries@,
            rotw_country: self.rotw_country,
            users: self.users@,
            viewers: self.viewers@,
            jurors: self.jurors@,
            rounds: self.rounds@,
            participations: self.participations@,
            active_round: self.active_round,
            rankings: self.rankings@,
            tele_votes: self.tele_votes@,
            juror_votes: self.juror_votes@,
            sequences: self.sequences,
        }
    }
}

/// The first row of a table that satisfies `p`: what a lookup through an index returns.
pub open spec fn first_match<T>(s: Seq<T>, p: spec_fn(T) -> bool) -> Option<T> {
    if exists|i: int| 0 <= i < s.len() && #[trigger] p(s[i]) {
        Some(
            s[choose|i: int|
                0 <= i < s.len() && #[trigger] p(s[i]) && forall|j: int| 0 <= j < i ==> !p(s[j])],
        )
    } else {
        None
    }
}

/// Some row of a table satisfies `p`.
pub open spec fn any_match<T>(s: Seq<T>, p: spec_fn(T) -> bool) -> bool {
    exists|i: int| 0 <= i < s.len() && #[trigger] p(s[i])
}

/// The row at `i` is the first that satisfies `p`.
pub proof fn lemma_first_match_at<T>(s: Seq<T>, p: spec_fn(T) -> bool, i: int)
    requires
        0 <= i < s.len(),
        p(s[i]),
        forall|j: int| 0 <= j < i ==> !p(#[trigger] s[j]),
    ensures
        first_match(s, p) == Some(s[i]),
{
    let c = choose|c: int| 0 <= c < s.len() && #[trigger] p(s[c]) && forall|j: int| 0 <= j < c ==> !p(s[j]);
    assert(0 <= c < s.len() && p(s[c]) && forall|j: int| 0 <= j < c ==> !p(s[j]));
    if c < i {
        assert(!p(s[c]));
    } else if c > i {
        assert(!p(s[i]));
    }
}

/// Where some row satisfies `p`, a first one does.
pub proof fn lemma_first_index<T>(s: Seq<T>, p: spec_fn(T) -> bool) -> (i: int)
    requires
        any_match(s, p),
    ensures
        0 <= i < s.len(),
        p(s[i]),
        forall|j: int| 0 <= j < i ==> !p(#[trigger] s[j]),
    decreases s.len(),
{
    let prev = s.drop_last();
    if any_match(prev, p) {
        let i = lemma_first_index(prev, p);
        assert forall|j: int| 0 <= j < i implies !p(#[trigger] s[j]) by {
            assert(s[j] == prev[j]);
        }
        assert(s[i] == prev[i]);
        i
    } else {
        let n = s.len() - 1;
        let k = choose|k: int| 0 <= k < s.len() && #[trigger] p(s[k]);
        if k < n {
            assert(prev[k] == s[k]);
        }
        assert forall|j: int| 0 <= j < n implies !p(#[trigger] s[j]) by {
            assert(s[j] == prev[j]);
        }
        n
    }
}

/// The row that a successful lookup finds is a row of the table that satisfies `p`.
pub proof fn lemma_first_match_found<T>(s: Seq<T>, p: spec_fn(T) -> bool) -> (i: int)
    requires
        first_match(s, p) is Some,
    ensures
        0 <= i < s.len(),
        s[i] == first_match(s, p)->Some_0,
        p(s[i]),
        any_match(s, p),
{
    let i = lemma_first_index(s, p);
    lemma_first_match_at(s, p, i);
    i
}

/// Appending a row leaves the first row that satisfies `p` where there was one.
pub proof fn lemma_first_match_push<T>(s: Seq<T>, p: spec_fn(T) -> bool, x: T)
    requires
        any_match(s, p),
    ensures
        first_match(s.push(x), p) == first_match(s, p),
        any_match(s.push(x), p),
{
    let i = lemma_first_index(s, p);
    lemma_first_match_at(s, p, i);
    assert forall|j: int| 0 <= j < i implies !p(#[trigger] s.push(x)[j]) by {
        assert(s.push(x)[j] == s[j]);
    }
    assert(s.push(x)[i] == s[i]);
    lemma_first_match_at(s.push(x), p, i);
}

/// No row satisfies `p`.
pub proof fn lemma_first_match_none<T>(s: Seq<T>, p: spec_fn(T) -> bool)
    requires
        forall|j: int| 0 <= j < s.len() ==> !p(#[trigger] s[j]),
    ensures
        first_match(s, p) is None,
        !any_match(s, p),
{
}

/// Two states that differ at most in the rankings table.
pub open spec fn same_except_rankings(a: Database, b: Database) -> bool {
    &&& a.countries@ == b.countries@
    &&& a.participating_countries@ == b.participating_countries@
    &&& a.rotw_country == b.rotw_country
    &&& a.users@ == b.users@
    &&& a.viewers@ == b.viewers@
    &&& a.jurors@ == b.jurors@
    &&& a.rounds@ == b.rounds@
    &&& a.participations@ == b.participations@
    &&& a.active_round == b.active_round
    &&& a.tele_votes@ == b.tele_votes@
    &&& a.juror_votes@ == b.juror_votes@
    &&& a.sequences == b.sequences
}

/// Two states with the same rows in every table.
pub open spec fn same_tables(a: Database, b: Database) -> bool {
    a@ == b@
}

impl Database {
    /// A database with empty tables and fresh sequences.
    pub fn new() -> (db: Self)
        ensures
            db.countries@.len() == 0,
            db.participating_countries@.len() == 0,
            db.rotw_country is None,
            db.users@.len() == 0,
            db.viewers@.len() == 0,
            db.jurors@.len() == 0,
            db.rounds@.len() == 0,
            db.participations@.len() == 0,
            db.active_round is None,
            db.rankings@.len() == 0,
            db.tele_votes@.len() == 0,
            db.juror_votes@.len() == 0,
            db.sequences == (Sequences {
                country: 0,
                participating_country: 0,
                user: 0,
                viewer: 0,
                juror: 0,
                round: 0,
                participation: 0,
                ranking: 0,
                tele_vote: 0,
                juror_vote: 0,
            }),
    {
        Database {
            countries: Vec::new(),
            participating_countries: Vec::new(),
            rotw_country: None,
            users: Vec::new(),
            viewers: Vec::new(),
            jurors: Vec::new(),
            rounds: Vec::new(),
            participations: Vec::new(),
            active_round: None,
            rankings: Vec::new(),
            tele_votes: Vec::new(),
            juror_votes: Vec::new(),
            sequences: Sequences {
                country: 0,
                participating_country: 0,
                user: 0,
                viewer: 0,
                juror: 0,
                round: 0,
                participation: 0,
                ranking: 0,
                tele_vote: 0,
                juror_vote: 0,
            },
        }
    }

    /// A copy of every table, kept to undo a transaction that fails.
    pub fn snapshot(&self) -> (db: Self)
        ensures
            same_tables(db, *self),
    {
        let countries = self.countries.clone();
        let jurors = self.jurors.clone();
        let participating_countries = self.participating_countries.clone();
        let users = self.users.clone();
        let viewers = self.viewers.clone();
        let rounds = self.rounds.clone();
        let participations = self.participations.clone();
        let rankings = self.rankings.clone();
        let tele_votes = self.tele_votes.clone();
        let juror_votes = self.juror_votes.clone();
        assert(countries@ =~= self.countries@);
        assert(jurors@ =~= self.jurors@);
        assert(participating_countries@ =~= self.participating_countries@);
        assert(users@ =~= self.users@);
        assert(viewers@ =~= self.viewers@);
        assert(rounds@ =~= self.rounds@);
        assert(participations@ =~= self.participations@);
        assert(rankings@ =~= self.rankings@);
        assert(tele_votes@ =~= self.tele_votes@);
        assert(juror_votes@ =~= self.juror_votes@);
        Database {
            countries,
            participating_countries,
            rotw_country: self.rotw_country,
            users,
            viewers,
            jurors,
            rounds,
            participations,
            active_round: self.active_round,
            rankings,
            tele_votes,
            juror_votes,
            sequences: self.sequences,
        }
    }
}

} // verus!
