use vstd::prelude::*;

use crate::country::{Country, ParticipatingCountry};
use crate::database::{Database, Tables};
use crate::error::{Table, VoteError};
use crate::ranking::{create_ranking_effect, RankingKind};
use crate::round::create_participation_effect;

verus! {

/// The ids of the countries, in table order.
pub open spec fn country_ids(cs: Seq<Country>) -> Seq<u16> {
    cs.map_values(|c: Country| c.id)
}

/// The countries of the participating countries, in table order.
pub open spec fn participant_countries(ps: Seq<ParticipatingCountry>) -> Seq<u16> {
    ps.map_values(|p: ParticipatingCountry| p.country_id)
}

/// An empty entry (score 0, rank 0) of a kind for receiver `to`, from each giver in turn.
pub open spec fn create_entries_effect(t: Tables, round_id: u16, kind: RankingKind, froms: Seq<u16>, to: u16) -> Result<
    Tables,
    VoteError,
>
    decreases froms.len(),
{
    if froms.len() == 0 {
        Ok(t)
    } else {
        match create_entries_effect(t, round_id, kind, froms.drop_last(), to) {
            Err(e) => Err(e),
            Ok(t1) => match create_ranking_effect(t1, round_id, kind, froms.last(), to, 0, 0) {
                Err(e) => Err(e),
                Ok((t2, _)) => Ok(t2),
            },
        }
    }
}

/// A participating country joins a round as a performer: its participation, then an
/// empty entry for it in the televote ranking of every country, in the jury ranking of
/// every participating country when the round has a jury, and in the overall ranking kept
/// under the Rest of the World, so that the votes of the round become points.
pub open spec fn add_performer_effect(t: Tables, round_id: u16, pc_id: u16, with_jury: bool) -> Result<Tables, VoteError> {
    match create_participation_effect(t, round_id, pc_id) {
        Err(e) => Err(e),
        Ok(t1) => match create_entries_effect(t1, round_id, RankingKind::TeleVote, country_ids(t1.countries), pc_id) {
            Err(e) => Err(e),
            Ok(t2) => match (if with_jury {
                create_entries_effect(
                    t2,
                    round_id,
                    RankingKind::JuryVote,
                    participant_countries(t2.participating_countries),
                    pc_id,
                )
            } else {
                Ok(t2)
            }) {
                Err(e) => Err(e),
                Ok(t3) => match t3.rotw_country {
                    None => Err(VoteError::NotFound(Table::RotwCountry)),
                    Some(c) => match create_ranking_effect(t3, round_id, RankingKind::Overall, c.country_id, pc_id, 0, 0) {
                        Err(e) => Err(e),
                        Ok((t4, _)) => Ok(t4),
                    },
                },
            },
        },
    }
}

/// Once the entries of a prefix of the givers fail, all of them fail the same way.
pub proof fn lemma_create_entries_err(t: Tables, round_id: u16, kind: RankingKind, froms: Seq<u16>, to: u16, k: int)
    requires
        0 <= k <= froms.len(),
        create_entries_effect(t, round_id, kind, froms.take(k), to) is Err,
    ensures
        create_entries_effect(t, round_id, kind, froms, to) == create_entries_effect(t, round_id, kind, froms.take(k), to),
    decreases froms.len() - k,
{
    if k < froms.len() {
        assert(froms.take(k + 1).drop_last() =~= froms.take(k));
        lemma_create_entries_err(t, round_id, kind, froms, to, k + 1);
    } else {
        assert(froms.take(k) =~= froms);
    }
}

/// Creating entries changes only the rankings and their sequence.
pub proof fn lemma_create_entries_frame(t: Tables, round_id: u16, kind: RankingKind, froms: Seq<u16>, to: u16)
    requires
        create_entries_effect(t, round_id, kind, froms, to) is Ok,
    ensures
        ({
            let out = create_entries_effect(t, round_id, kind, froms, to)->Ok_0;
            out == (Tables { rankings: out.rankings, sequences: out.sequences, ..t })
        }),
    decreases froms.len(),
{
    if froms.len() > 0 {
        lemma_create_entries_frame(t, round_id, kind, froms.drop_last(), to);
    }
}

/// Adding a performer changes only the participations, the rankings and their sequences.
pub proof fn lemma_add_performer_frame(t: Tables, round_id: u16, pc_id: u16, with_jury: bool)
    requires
        add_performer_effect(t, round_id, pc_id, with_jury) is Ok,
    ensures
        ({
            let out = add_performer_effect(t, round_id, pc_id, with_jury)->Ok_0;
            out == (Tables { participations: out.participations, rankings: out.rankings, sequences: out.sequences, ..t })
        }),
{
    let t1 = create_participation_effect(t, round_id, pc_id)->Ok_0;
    lemma_create_entries_frame(t1, round_id, RankingKind::TeleVote, country_ids(t1.countries), pc_id);
    let t2 = create_entries_effect(t1, round_id, RankingKind::TeleVote, country_ids(t1.countries), pc_id)->Ok_0;
    if with_jury {
        lemma_create_entries_frame(
            t2,
            round_id,
            RankingKind::JuryVote,
            participant_countries(t2.participating_countries),
            pc_id,
        );
    }
}

impl Database {
    /// The ids of the countries, in table order.
    fn country_id_list(&self) -> (v: Vec<u16>)
        ensures
            v@ == country_ids(self@.countries),
    {
        let mut v: Vec<u16> = Vec::new();
        let mut i: usize = 0;
        while i < self.countries.len()
            invariant
                i <= self@.countries.len(),
                v@ == country_ids(self@.countries.take(i as int)),
            decreases self@.countries.len() - i,
        {
            assert(country_ids(self@.countries.take(i + 1)) =~= country_ids(self@.countries.take(i as int)).push(
                self@.countries[i as int].id,
            ));
            v.push(self.countries[i].id);
            i = i + 1;
        }
        assert(self@.countries.take(i as int) =~= self@.countries);
        v
    }

    /// The countries of the participating countries, in table order.
    fn participant_country_list(&self) -> (v: Vec<u16>)
        ensures
            v@ == participant_countries(self@.participating_countries),
    {
        let mut v: Vec<u16> = Vec::new();
        let mut i: usize = 0;
        while i < self.participating_countries.len()
            invariant
                i <= self@.participating_countries.len(),
                v@ == participant_countries(self@.participating_countries.take(i as int)),
            decreases self@.participating_countries.len() - i,
        {
            assert(participant_countries(self@.participating_countries.take(i + 1)) =~= participant_countries(
                self@.participating_countries.take(i as int),
            ).push(self@.participating_countries[i as int].country_id));
            v.push(self.participating_countries[i].country_id);
            i = i + 1;
        }
        assert(self@.participating_countries.take(i as int) =~= self@.participating_countries);
        v
    }

    /// An empty entry of a kind for receiver `to`, from each giver in turn.
    fn create_entries(&mut self, round_id: u16, kind: RankingKind, froms: &Vec<u16>, to: u16) -> (r: Result<(), VoteError>)
        ensures
            match create_entries_effect(old(self)@, round_id, kind, froms@, to) {
                Ok(t) => r is Ok && final(self)@ == t,
                Err(e) => r == Err::<(), VoteError>(e),
            },
    {
        let ghost t0 = self@;
        let mut k: usize = 0;
        while k < froms.len()
            invariant
                k <= froms@.len(),
                t0 == old(self)@,
                create_entries_effect(t0, round_id, kind, froms@.take(k as int), to) == Ok::<Tables, VoteError>(self@),
            decreases froms@.len() - k,
        {
            assert(froms@.take(k + 1).drop_last() =~= froms@.take(k as int));
            assert(froms@.take(k + 1).last() == froms@[k as int]);
            let res = self.create_ranking(round_id, kind, froms[k], to, 0, 0);
            if let Err(e) = res {
                proof {
                    lemma_create_entries_err(t0, round_id, kind, froms@, to, k + 1);
                }
                return Err(e);
            }
            k = k + 1;
        }
        assert(froms@.take(k as int) =~= froms@);
        Ok(())
    }

    /// A participating country joins a round as a performer, with its empty ranking entries.
    pub fn add_performer(&mut self, round_id: u16, pc_id: u16, with_jury: bool) -> (r: Result<(), VoteError>)
        ensures
            match add_performer_effect(old(self)@, round_id, pc_id, with_jury) {
                Ok(t) => r is Ok && final(self)@ == t,
                Err(e) => r == Err::<(), VoteError>(e),
            },
    {
        self.create_participation(round_id, pc_id)?;
        let countries = self.country_id_list();
        self.create_entries(round_id, RankingKind::TeleVote, &countries, pc_id)?;
        if with_jury {
            let jury_countries = self.participant_country_list();
            self.create_entries(round_id, RankingKind::JuryVote, &jury_countries, pc_id)?;
        }
        let rotw = self.get_rotw_country()?;
        self.create_ranking(round_id, RankingKind::Overall, rotw.country_id, pc_id, 0, 0)?;
        Ok(())
    }
}

} // verus!
