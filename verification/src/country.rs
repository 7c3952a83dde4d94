use vstd::prelude::*;

use crate::database::{any_match, first_match, lemma_first_match_at, lemma_first_match_none, Database, Sequences, Tables};
use crate::error::{Table, VoteError};
use crate::vote::laws::{rankings_sound, tele_votes_within_limit};
use crate::vote::tally::tallied;
use crate::vote::{tele_vote_of, AVAILABLE_TELE_VOTES};
use crate::voter::voters_have_users;

verus! {

/// A country: one of the participants, or the "Rest of the World".
#[derive(Debug)]
pub struct Country {
    pub id: u16,
    pub name: String,
    pub emoji: Option<String>,
}

impl Clone for Country {
    fn clone(&self) -> (c: Self)
        ensures
            c == *self,
    {
        let emoji = match &self.emoji {
            Some(e) => Some(e.clone()),
            None => None,
        };
        Country { id: self.id, name: self.name.clone(), emoji }
    }
}

/// A country participating in the contest (excludes "Rest of the World"). The Big 5 and
/// the host are automatic finalists: they go straight to the grand final.
#[derive(Clone, Copy, PartialEq, Eq, Structural, Debug)]
pub struct ParticipatingCountry {
    pub id: u16,
    pub country_id: u16,
    pub automatic_finalist: bool,
}

/// Rest of the World: the country whose viewers vote from outside the participating ones.
#[derive(Clone, Copy, PartialEq, Eq, Structural, Debug)]
pub struct RotwCountry {
    pub country_id: u16,
}

/// The countries with this id.
pub open spec fn country_with_id(id: u16) -> spec_fn(Country) -> bool {
    |c: Country| c.id == id
}

/// The participating countries with this id.
pub open spec fn participating_with_id(id: u16) -> spec_fn(ParticipatingCountry) -> bool {
    |p: ParticipatingCountry| p.id == id
}

/// The participating countries that mark this country.
pub open spec fn participating_with_country(country_id: u16) -> spec_fn(ParticipatingCountry) -> bool {
    |p: ParticipatingCountry| p.country_id == country_id
}

/// Creating a country under the next number of its sequence.
pub open spec fn create_country_effect(t: Tables, name: String, emoji: Option<String>) -> Result<(Tables, u16), VoteError> {
    if t.sequences.country == u16::MAX {
        Err(VoteError::AutoIncOverflow(Table::Country))
    } else {
        let id = (t.sequences.country + 1) as u16;
        if any_match(t.countries, country_with_id(id)) {
            Err(VoteError::UniqueViolation(Table::Country))
        } else {
            let row = Country { id, name, emoji };
            Ok((Tables { countries: t.countries.push(row), sequences: Sequences { country: id, ..t.sequences }, ..t }, id))
        }
    }
}

/// Marking a country as participating: it must exist and not be marked yet.
pub open spec fn create_participating_country_effect(
    t: Tables,
    country_id: u16,
    automatic_finalist: bool,
) -> Result<(Tables, ParticipatingCountry), VoteError> {
    if !any_match(t.countries, country_with_id(country_id)) {
        Err(VoteError::ReferenceIntegrityViolation(Table::ParticipatingCountry))
    } else if t.sequences.participating_country == u16::MAX {
        Err(VoteError::AutoIncOverflow(Table::ParticipatingCountry))
    } else {
        let row = ParticipatingCountry { id: (t.sequences.participating_country + 1) as u16, country_id, automatic_finalist };
        if any_match(t.participating_countries, participating_with_id(row.id))
            || any_match(t.participating_countries, participating_with_country(country_id)) {
            Err(VoteError::UniqueViolation(Table::ParticipatingCountry))
        } else {
            Ok((Tables {
                participating_countries: t.participating_countries.push(row),
                sequences: Sequences { participating_country: row.id, ..t.sequences },
                ..t
            }, row))
        }
    }
}

/// Naming the Rest of the World: the country must exist and the single row be free.
pub open spec fn create_rotw_country_effect(t: Tables, country_id: u16) -> Result<Tables, VoteError> {
    if !any_match(t.countries, country_with_id(country_id)) {
        Err(VoteError::ReferenceIntegrityViolation(Table::RotwCountry))
    } else if t.rotw_country is Some {
        Err(VoteError::UniqueViolation(Table::RotwCountry))
    } else {
        Ok(Tables { rotw_country: Some(RotwCountry { country_id }), ..t })
    }
}

impl Database {
    /// Whether a country has this id.
    pub fn country_exists(&self, id: u16) -> (b: bool)
        ensures
            b == any_match(self@.countries, country_with_id(id)),
    {
        let mut i: usize = 0;
        while i < self.countries.len()
            invariant
                i <= self.countries@.len(),
                forall|j: int| 0 <= j < i ==> !country_with_id(id)(#[trigger] self.countries@[j]),
            decreases self.countries@.len() - i,
        {
            if self.countries[i].id == id {
                assert(country_with_id(id)(self.countries@[i as int]));
                return true;
            }
            i = i + 1;
        }
        false
    }

    /// The participating country with this id.
    pub fn get_participating_country_by_id(&self, id: u16) -> (r: Result<ParticipatingCountry, VoteError>)
        ensures
            match first_match(self@.participating_countries, participating_with_id(id)) {
                Some(p) => r == Ok::<ParticipatingCountry, VoteError>(p),
                None => r == Err::<ParticipatingCountry, VoteError>(VoteError::NotFound(Table::ParticipatingCountry)),
            },
    {
        let mut i: usize = 0;
        while i < self.participating_countries.len()
            invariant
                i <= self.participating_countries@.len(),
                forall|j: int| 0 <= j < i ==> !participating_with_id(id)(#[trigger] self.participating_countries@[j]),
            decreases self.participating_countries@.len() - i,
        {
            if self.participating_countries[i].id == id {
                proof {
                    lemma_first_match_at(self@.participating_countries, participating_with_id(id), i as int);
                }
                return Ok(self.participating_countries[i]);
            }
            i = i + 1;
        }
        proof {
            lemma_first_match_none(self@.participating_countries, participating_with_id(id));
        }
        Err(VoteError::NotFound(Table::ParticipatingCountry))
    }

    /// Whether a participating country has this id.
    pub fn participating_country_exists(&self, id: u16) -> (b: bool)
        ensures
            b == any_match(self@.participating_countries, participating_with_id(id)),
    {
        self.get_participating_country_by_id(id).is_ok()
    }

    /// Whether a participating country refers to this country.
    pub fn country_participates(&self, country_id: u16) -> (b: bool)
        ensures
            b == any_match(self@.participating_countries, participating_with_country(country_id)),
    {
        let mut i: usize = 0;
        while i < self.participating_countries.len()
            invariant
                i <= self.participating_countries@.len(),
                forall|j: int| 0 <= j < i ==> !participating_with_country(country_id)(#[trigger] self.participating_countries@[j]),
            decreases self.participating_countries@.len() - i,
        {
            if self.participating_countries[i].country_id == country_id {
                assert(participating_with_country(country_id)(self.participating_countries@[i as int]));
                return true;
            }
            i = i + 1;
        }
        false
    }

    /// The Rest of the World.
    pub fn get_rotw_country(&self) -> (r: Result<RotwCountry, VoteError>)
        ensures
            match self@.rotw_country {
                Some(c) => r == Ok::<RotwCountry, VoteError>(c),
                None => r == Err::<RotwCountry, VoteError>(VoteError::NotFound(Table::RotwCountry)),
            },
    {
        match self.rotw_country {
            Some(c) => Ok(c),
            None => Err(VoteError::NotFound(Table::RotwCountry)),
        }
    }

    /// Create a row in the `country` table.
    pub fn create_country(&mut self, name: String, emoji: Option<String>) -> (r: Result<u16, VoteError>)
        ensures
            match create_country_effect(old(self)@, name, emoji) {
                Ok((t, id)) => r == Ok::<u16, VoteError>(id) && final(self)@ == t,
                Err(e) => r == Err::<u16, VoteError>(e) && final(self)@ == old(self)@,
            },
    {
        if self.sequences.country == u16::MAX {
            return Err(VoteError::AutoIncOverflow(Table::Country));
        }
        let id = self.sequences.country + 1;
        if self.country_exists(id) {
            return Err(VoteError::UniqueViolation(Table::Country));
        }
        self.countries.push(Country { id, name, emoji });
        self.sequences.country = id;
        Ok(id)
    }

    /// Create a row in the `participating_country` table.
    pub fn create_participating_country(&mut self, country_id: u16, automatic_finalist: bool) -> (r: Result<
        ParticipatingCountry,
        VoteError,
    >)
        ensures
            match create_participating_country_effect(old(self)@, country_id, automatic_finalist) {
                Ok((t, p)) => r == Ok::<ParticipatingCountry, VoteError>(p) && final(self)@ == t,
                Err(e) => r == Err::<ParticipatingCountry, VoteError>(e) && final(self)@ == old(self)@,
            },
    {
        if !self.country_exists(country_id) {
            return Err(VoteError::ReferenceIntegrityViolation(Table::ParticipatingCountry));
        }
        if self.sequences.participating_country == u16::MAX {
            return Err(VoteError::AutoIncOverflow(Table::ParticipatingCountry));
        }
        let row = ParticipatingCountry { id: self.sequences.participating_country + 1, country_id, automatic_finalist };
        if self.participating_country_exists(row.id) || self.country_participates(country_id) {
            return Err(VoteError::UniqueViolation(Table::ParticipatingCountry));
        }
        self.participating_countries.push(row);
        self.sequences.participating_country = row.id;
        Ok(row)
    }

    /// Create the row of the single-row `rotw_country` table.
    pub fn create_rotw_country(&mut self, country_id: u16) -> (r: Result<RotwCountry, VoteError>)
        ensures
            match create_rotw_country_effect(old(self)@, country_id) {
                Ok(t) => r == Ok::<RotwCountry, VoteError>(RotwCountry { country_id }) && final(self)@ == t,
                Err(e) => r == Err::<RotwCountry, VoteError>(e) && final(self)@ == old(self)@,
            },
    {
        if !self.country_exists(country_id) {
            return Err(VoteError::ReferenceIntegrityViolation(Table::RotwCountry));
        }
        if self.rotw_country.is_some() {
            return Err(VoteError::UniqueViolation(Table::RotwCountry));
        }
        let row = RotwCountry { country_id };
        self.rotw_country = Some(row);
        Ok(row)
    }
}


/// The number of countries that `init` creates.
pub const SEED_COUNT: usize = 11;

/// The name of the seeded country at a position.
pub open spec fn seed_name(i: int) -> Seq<char> {
    if i == 0 {
        "Sweden"@
    } else if i == 1 {
        "Switzerland"@
    } else if i == 2 {
        "France"@
    } else if i == 3 {
        "Germany"@
    } else if i == 4 {
        "Italy"@
    } else if i == 5 {
        "Spain"@
    } else if i == 6 {
        "United Kingdom"@
    } else if i == 7 {
        "Norway"@
    } else if i == 8 {
        "Finland"@
    } else if i == 9 {
        "Ukraine"@
    } else {
        "Rest of the World"@
    }
}

/// The flag of the seeded country at a position.
pub open spec fn seed_emoji(i: int) -> Seq<char> {
    if i == 0 {
        "\u{1F1F8}\u{1F1EA}"@
    } else if i == 1 {
        "\u{1F1E8}\u{1F1ED}"@
    } else if i == 2 {
        "\u{1F1EB}\u{1F1F7}"@
    } else if i == 3 {
        "\u{1F1E9}\u{1F1EA}"@
    } else if i == 4 {
        "\u{1F1EE}\u{1F1F9}"@
    } else if i == 5 {
        "\u{1F1EA}\u{1F1F8}"@
    } else if i == 6 {
        "\u{1F1EC}\u{1F1E7}"@
    } else if i == 7 {
        "\u{1F1F3}\u{1F1F4}"@
    } else if i == 8 {
        "\u{1F1EB}\u{1F1EE}"@
    } else if i == 9 {
        "\u{1F1FA}\u{1F1E6}"@
    } else {
        "\u{1F30D}"@
    }
}

/// The seeded countries that go straight to the grand final: the host, Switzerland, and
/// the Big 5, France, Germany, Italy, Spain and the United Kingdom.
pub open spec fn seed_finalist(i: int) -> bool {
    1 <= i <= 6
}

/// The seeded countries: all participate but the last, the Rest of the World.
pub fn seed(i: usize) -> (s: (&'static str, &'static str, bool))
    requires
        i < SEED_COUNT,
    ensures
        s.0@ == seed_name(i as int),
        s.1@ == seed_emoji(i as int),
        s.2 == (i == SEED_COUNT - 1),
{
    match i {
        0 => ("Sweden", "\u{1F1F8}\u{1F1EA}", false),
        1 => ("Switzerland", "\u{1F1E8}\u{1F1ED}", false),
        2 => ("France", "\u{1F1EB}\u{1F1F7}", false),
        3 => ("Germany", "\u{1F1E9}\u{1F1EA}", false),
        4 => ("Italy", "\u{1F1EE}\u{1F1F9}", false),
        5 => ("Spain", "\u{1F1EA}\u{1F1F8}", false),
        6 => ("United Kingdom", "\u{1F1EC}\u{1F1E7}", false),
        7 => ("Norway", "\u{1F1F3}\u{1F1F4}", false),
        8 => ("Finland", "\u{1F1EB}\u{1F1EE}", false),
        9 => ("Ukraine", "\u{1F1FA}\u{1F1E6}", false),
        _ => ("Rest of the World", "\u{1F30D}", true),
    }
}

/// The first `n` seeded countries, numbered from 1 in seed order.
pub open spec fn seeded_countries(cs: Seq<Country>, n: int) -> bool {
    &&& cs.len() == n
    &&& forall|j: int|
        0 <= j < n ==> {
            &&& (#[trigger] cs[j]).id == j + 1
            &&& cs[j].name@ == seed_name(j)
            &&& cs[j].emoji is Some
            &&& cs[j].emoji->Some_0@ == seed_emoji(j)
        }
}

/// The first `n` participating countries, each numbered as the country it marks.
pub open spec fn seeded_participants(ps: Seq<ParticipatingCountry>, n: int) -> bool {
    &&& ps.len() == n
    &&& forall|j: int|
        0 <= j < n ==> #[trigger] ps[j] == (ParticipatingCountry {
            id: (j + 1) as u16,
            country_id: (j + 1) as u16,
            automatic_finalist: seed_finalist(j),
        })
}

impl Database {
    /// The database right after the module is published: the eleven countries of the
    /// contest, all but the Rest of the World participating, and the Rest of the World.
    pub fn init() -> (db: Database)
        ensures
            seeded_countries(db@.countries, SEED_COUNT as int),
            seeded_participants(db@.participating_countries, (SEED_COUNT - 1) as int),
            db@.rotw_country == Some(RotwCountry { country_id: SEED_COUNT as u16 }),
            db@.users.len() == 0,
            db@.viewers.len() == 0,
            db@.jurors.len() == 0,
            db@.rounds.len() == 0,
            db@.participations.len() == 0,
            db@.active_round is None,
            db@.rankings.len() == 0,
            db@.tele_votes.len() == 0,
            db@.juror_votes.len() == 0,
            rankings_sound(db@),
            tallied(db@),
            voters_have_users(db@),
            tele_votes_within_limit(db@.tele_votes),
            db@.sequences == (Sequences {
                country: SEED_COUNT as u16,
                participating_country: (SEED_COUNT - 1) as u16,
                user: 0,
                viewer: 0,
                juror: 0,
                round: 0,
                participation: 0,
                ranking: 0,
                tele_vote: 0,
                juror_vote: 0,
            }),
    {
        let mut db = Database::new();
        let ghost empty = db@;
        let mut i: usize = 0;
        while i < SEED_COUNT
            invariant
                i <= SEED_COUNT,
                seeded_countries(db@.countries, i as int),
                seeded_participants(db@.participating_countries, if i < SEED_COUNT { i as int } else { SEED_COUNT - 1 }),
                db@.rotw_country == (if i < SEED_COUNT { None::<RotwCountry> } else { Some(RotwCountry { country_id: SEED_COUNT as u16 }) }),
                db@.sequences == (Sequences {
                    country: i as u16,
                    participating_country: (if i < SEED_COUNT { i as int } else { SEED_COUNT - 1 }) as u16,
                    ..empty.sequences
                }),
                db@ == (Tables {
                    countries: db@.countries,
                    participating_countries: db@.participating_countries,
                    rotw_country: db@.rotw_country,
                    sequences: db@.sequences,
                    ..empty
                }),
                empty.users.len() == 0,
                empty.viewers.len() == 0,
                empty.jurors.len() == 0,
                empty.rounds.len() == 0,
                empty.participations.len() == 0,
                empty.active_round is None,
                empty.rankings.len() == 0,
                empty.tele_votes.len() == 0,
                empty.juror_votes.len() == 0,
                empty.sequences == (Sequences {
                    country: 0,
                    participating_country: 0,
                    user: 0,
                    viewer: 0,
                    juror: 0,
                    round: 0,
                    participation: 0,
                    ranking: 0,
                    tele_vote: 0,
                    juror_vote: 0,
                }),
            decreases SEED_COUNT - i,
        {
            let (name, emoji, is_rotw) = seed(i);
            let finalist = 1 <= i && i <= 6;
            assert(!any_match(db@.countries, country_with_id((i + 1) as u16)));
            let country_id = match db.create_country(String::from_str(name), Some(String::from_str(emoji))) {
                Ok(id) => id,
                Err(_) => {
                    assert(false);
                    return db;
                },
            };
            assert(db@.countries[i as int].id == i + 1);
            assert(country_with_id(country_id)(db@.countries[i as int]));
            if !is_rotw {
                assert(!any_match(db@.participating_countries, participating_with_id((i + 1) as u16)));
                assert(!any_match(db@.participating_countries, participating_with_country(country_id)));
                match db.create_participating_country(country_id, finalist) {
                    Ok(_) => {},
                    Err(_) => {
                        assert(false);
                        return db;
                    },
                }
            } else {
                match db.create_rotw_country(country_id) {
                    Ok(_) => {},
                    Err(_) => {
                        assert(false);
                        return db;
                    },
                }
            }
            i = i + 1;
        }
        proof {
            assert forall|viewer_id: u64, round_id: u16| #[trigger] db@.tele_votes.filter(tele_vote_of(viewer_id, round_id)).len()
                <= AVAILABLE_TELE_VOTES by {
                db@.tele_votes.lemma_filter_len(tele_vote_of(viewer_id, round_id));
            }
        }
        db
    }
}

} // verus!
