use vstd::prelude::*;

use itertools::Itertools;

use crate::country::ParticipatingCountry;
use crate::database::{first_match, Database, Tables};
use crate::error::{Table, VoteError};
use crate::ranking::{get_points, in_group, points, Ranking, RankingKind};
use crate::round::performers::{add_performer_effect, lemma_add_performer_frame};
use crate::round::{
    create_active_round_effect, create_participation_effect, create_round_effect, round_by_year_and_kind,
    round_participants, round_with_id, update_round_effect, Round, RoundKind,
};

verus! {

/// How many countries of each semi-final advance to the grand final.
pub const QUALIFIERS_PER_SEMI: usize = 10;

/// A semi-final entry: the key it is ordered by, and its receiver.
pub open spec fn entry_with_key(key: [u64; 14]) -> spec_fn(([u64; 14], u16)) -> bool {
    |e: ([u64; 14], u16)| e.0 == key
}

/// Lexicographic order on keys: the first place where they differ decides.
pub open spec fn lex_le(a: Seq<u64>, b: Seq<u64>) -> bool
    decreases a.len(),
{
    if a.len() == 0 || b.len() == 0 {
        a.len() <= b.len()
    } else if a[0] != b[0] {
        a[0] < b[0]
    } else {
        lex_le(a.subrange(1, a.len() as int), b.subrange(1, b.len() as int))
    }
}

/// `sorted` holds the entries of `entries` in ascending lexicographic order of their keys,
/// and entries of equal key in the order they had.
pub open spec fn is_stable_sort_by_key(entries: Seq<([u64; 14], u16)>, sorted: Seq<([u64; 14], u16)>) -> bool {
    &&& sorted.len() == entries.len()
    &&& forall|i: int, j: int| 0 <= i <= j < sorted.len() ==> lex_le(#[trigger] sorted[i].0@, #[trigger] sorted[j].0@)
    &&& forall|key: [u64; 14]| #[trigger] sorted.filter(entry_with_key(key)) == entries.filter(entry_with_key(key))
}

/// Sorts the entries (key, country) by key, keeping entries of equal key in their order.
///
/// Calls `Itertools::sorted_by_key`, which its documentation calls stable, with the array
/// key, which Rust orders lexicographically; the contract claims what a stable sort
/// returns: the same entries, in ascending lexicographic order of key, those of equal key
/// in the order they came in.
#[verifier::external_body]
fn sort_by_key(entries: Vec<([u64; 14], u16)>) -> (sorted: Vec<([u64; 14], u16)>)
    ensures
        is_stable_sort_by_key(entries@, sorted@),
{
    entries.into_iter().sorted_by_key(|e| e.0).collect()
}

/// Whether an entry is a televote entry of a round for a receiver.
pub open spec fn tele_for(r: Ranking, round_id: u16, to: u16) -> bool {
    r.kind == RankingKind::TeleVote && r.round_id == round_id && r.to_country_id == to
}

/// The televote points that a receiver got in a round, counted up to `u64::MAX`.
pub open spec fn tele_points_total(rs: Seq<Ranking>, round_id: u16, to: u16) -> u64
    decreases rs.len(),
{
    if rs.len() == 0 {
        0
    } else {
        let prev = tele_points_total(rs.drop_last(), round_id, to);
        if tele_for(rs.last(), round_id, to) {
            if prev + points(rs.last()) > u64::MAX {
                u64::MAX
            } else {
                (prev + points(rs.last())) as u64
            }
        } else {
            prev
        }
    }
}

/// How many countries gave a receiver televote points in a round.
pub open spec fn tele_givers(rs: Seq<Ranking>, round_id: u16, to: u16) -> nat
    decreases rs.len(),
{
    if rs.len() == 0 {
        0
    } else {
        tele_givers(rs.drop_last(), round_id, to) + if tele_for(rs.last(), round_id, to) && points(rs.last()) > 0 {
            1nat
        } else {
            0nat
        }
    }
}

/// How many countries gave a receiver exactly `value` televote points in a round.
pub open spec fn tele_sets(rs: Seq<Ranking>, round_id: u16, to: u16, value: int) -> nat
    decreases rs.len(),
{
    if rs.len() == 0 {
        0
    } else {
        tele_sets(rs.drop_last(), round_id, to, value) + if tele_for(rs.last(), round_id, to) && points(rs.last()) == value {
            1nat
        } else {
            0nat
        }
    }
}

/// The running order of a performer: its first place among the round's performers, or
/// after all of them when it is not one.
pub open spec fn running_position(ps: Seq<u16>, to: u16) -> nat
    decreases ps.len(),
{
    if ps.len() == 0 {
        0
    } else {
        let prev = running_position(ps.drop_last(), to);
        if prev < ps.len() - 1 {
            prev
        } else if ps.last() == to {
            (ps.len() - 1) as nat
        } else {
            ps.len()
        }
    }
}

/// The key by which the overall entries of a round are ordered, smallest first: the
/// overall rank (the better the score, the smaller); on a tie, more televote points; then
/// more countries giving televote points; then more sets of 12 televote points, then of
/// 10, 8, 7, 6, 5, 4, 3, 2 and 1; then the earlier place in the running order.
pub open spec fn tie_key(t: Tables, round_id: u16, rank: u16, to: u16) -> Seq<u64> {
    let rs = t.rankings;
    seq![
        rank as u64,
        (u64::MAX - tele_points_total(rs, round_id, to)) as u64,
        (u64::MAX - tele_givers(rs, round_id, to)) as u64,
        (u64::MAX - tele_sets(rs, round_id, to, 12)) as u64,
        (u64::MAX - tele_sets(rs, round_id, to, 10)) as u64,
        (u64::MAX - tele_sets(rs, round_id, to, 8)) as u64,
        (u64::MAX - tele_sets(rs, round_id, to, 7)) as u64,
        (u64::MAX - tele_sets(rs, round_id, to, 6)) as u64,
        (u64::MAX - tele_sets(rs, round_id, to, 5)) as u64,
        (u64::MAX - tele_sets(rs, round_id, to, 4)) as u64,
        (u64::MAX - tele_sets(rs, round_id, to, 3)) as u64,
        (u64::MAX - tele_sets(rs, round_id, to, 2)) as u64,
        (u64::MAX - tele_sets(rs, round_id, to, 1)) as u64,
        running_position(round_participants(t.participations, round_id), to) as u64,
    ]
}

/// `keyed` holds the overall entries of a round, in table order, each with its tie key.
pub open spec fn keyed_entries(t: Tables, round_id: u16, rotw_country_id: u16, keyed: Seq<([u64; 14], u16)>) -> bool {
    let e = overall_entries(t.rankings, round_id, rotw_country_id);
    &&& keyed.len() == e.len()
    &&& forall|i: int|
        0 <= i < keyed.len() ==> #[trigger] keyed[i].1 == e[i].1 && keyed[i].0@ == tie_key(t, round_id, e[i].0, e[i].1)
}

/// `sorted` is the overall ranking of a round ordered by the tie key: by place, ties broken
/// by televote points, then by the number of countries giving televote points, then by the
/// counts of 12s, 10s and so on, then by running order.
pub open spec fn sorted_by_tie_key(t: Tables, round_id: u16, rotw_country_id: u16, sorted: Seq<([u64; 14], u16)>) -> bool {
    exists|keyed: Seq<([u64; 14], u16)>|
        #[trigger] keyed_entries(t, round_id, rotw_country_id, keyed) && is_stable_sort_by_key(keyed, sorted)
}

/// The (rank, receiver) of the entries of the overall ranking of a round, in table order.
pub open spec fn overall_entries(rs: Seq<Ranking>, round_id: u16, rotw_country_id: u16) -> Seq<(u16, u16)>
    decreases rs.len(),
{
    if rs.len() == 0 {
        seq![]
    } else {
        let prev = overall_entries(rs.drop_last(), round_id, rotw_country_id);
        if in_group(rs.last(), round_id, RankingKind::Overall, rotw_country_id) {
            prev.push((rs.last().rank, rs.last().to_country_id))
        } else {
            prev
        }
    }
}

/// The receivers of the first ten entries (or of all, when fewer) of a sorted ranking.
pub open spec fn qualifiers(sorted: Seq<([u64; 14], u16)>) -> Seq<u16> {
    let n = if sorted.len() < QUALIFIERS_PER_SEMI { sorted.len() as int } else { QUALIFIERS_PER_SEMI as int };
    sorted.take(n).map_values(|e: ([u64; 14], u16)| e.1)
}

/// The participating countries that compete in the semi-finals: all but the automatic
/// finalists, in table order.
pub open spec fn contenders(ps: Seq<ParticipatingCountry>) -> Seq<ParticipatingCountry>
    decreases ps.len(),
{
    if ps.len() == 0 {
        seq![]
    } else if ps.last().automatic_finalist {
        contenders(ps.drop_last())
    } else {
        contenders(ps.drop_last()).push(ps.last())
    }
}

/// The ids of the automatic finalists, the Big 5 and the host, in table order.
pub open spec fn finalist_ids(ps: Seq<ParticipatingCountry>) -> Seq<u16>
    decreases ps.len(),
{
    if ps.len() == 0 {
        seq![]
    } else if ps.last().automatic_finalist {
        finalist_ids(ps.drop_last()).push(ps.last().id)
    } else {
        finalist_ids(ps.drop_last())
    }
}

/// Each country in turn joins a grand final as a performer.
pub open spec fn add_finalists_effect(t: Tables, round_id: u16, countries: Seq<u16>) -> Result<Tables, VoteError>
    decreases countries.len(),
{
    if countries.len() == 0 {
        Ok(t)
    } else {
        match add_finalists_effect(t, round_id, countries.drop_last()) {
            Err(e) => Err(e),
            Ok(t1) => add_performer_effect(t1, round_id, countries.last(), true),
        }
    }
}

/// Each of the first `n` countries joins, as a performer, alternately the first and the
/// second semi-final.
pub open spec fn split_participations_effect(t: Tables, sf1: u16, sf2: u16, countries: Seq<ParticipatingCountry>, n: int) -> Result<Tables, VoteError>
    decreases n,
{
    if n <= 0 {
        Ok(t)
    } else {
        match split_participations_effect(t, sf1, sf2, countries, n - 1) {
            Err(e) => Err(e),
            Ok(t1) => add_performer_effect(t1, if (n - 1) % 2 == 0 { sf1 } else { sf2 }, countries[n - 1].id, false),
        }
    }
}

/// The `create_semi_finals` reducer: both semi-finals of a year, open for voting, the
/// participating countries but the automatic finalists dealt alternately between them,
/// the first made the active round.
pub open spec fn create_semi_finals_effect(t: Tables, year: u16) -> Result<Tables, VoteError> {
    match create_round_effect(t, year, RoundKind::SemiFinal1, true) {
        Err(e) => Err(e),
        Ok((t1, sf1)) => match create_round_effect(t1, year, RoundKind::SemiFinal2, true) {
            Err(e) => Err(e),
            Ok((t2, sf2)) => match split_participations_effect(
                t2,
                sf1.id,
                sf2.id,
                contenders(t2.participating_countries),
                contenders(t2.participating_countries).len() as int,
            ) {
                Err(e) => Err(e),
                Ok(t3) => create_active_round_effect(Tables { active_round: None, ..t3 }, sf1.id),
            },
        },
    }
}

/// Whether `s1` and `s2` are the sorted overall rankings of the two semi-finals that the
/// second call of `advance_round` in a second semi-final reads.
pub open spec fn advance_round_sorts(t: Tables, s1: Seq<([u64; 14], u16)>, s2: Seq<([u64; 14], u16)>) -> bool {
    match t.active_round {
        None => true,
        Some(a) => match first_match(t.rounds, round_with_id(a.round_id)) {
            None => true,
            Some(cur) => if cur.voting_open || cur.kind != RoundKind::SemiFinal2 {
                true
            } else {
                match round_by_year_and_kind(t.rounds, cur.year, RoundKind::SemiFinal1) {
                    Err(_) => true,
                    Ok(sf1) => match t.rotw_country {
                        None => true,
                        Some(c) => sorted_by_tie_key(t, sf1.id, c.country_id, s1) && sorted_by_tie_key(
                            t,
                            cur.id,
                            c.country_id,
                            s2,
                        ),
                    },
                }
            },
        },
    }
}

/// The `advance_round` reducer, given the sorted overall rankings of the semi-finals: the
/// first call in a round closes its voting; the second moves from the first semi-final to the
/// second, from the second to a new grand final with the ten best of each semi-final and
/// the automatic finalists, and from the grand final to no active round.
pub open spec fn advance_round_effect(t: Tables, s1: Seq<([u64; 14], u16)>, s2: Seq<([u64; 14], u16)>) -> Result<
    Tables,
    VoteError,
> {
    match t.active_round {
        None => Err(VoteError::NotFound(Table::ActiveRound)),
        Some(a) => match first_match(t.rounds, round_with_id(a.round_id)) {
            None => Err(VoteError::NotFound(Table::Round)),
            Some(cur) => if cur.voting_open {
                update_round_effect(t, Round { voting_open: false, ..cur })
            } else {
                match cur.kind {
                    RoundKind::SemiFinal1 => match round_by_year_and_kind(t.rounds, cur.year, RoundKind::SemiFinal2) {
                        Err(e) => Err(e),
                        Ok(sf2) => create_active_round_effect(Tables { active_round: None, ..t }, sf2.id),
                    },
                    RoundKind::SemiFinal2 => match round_by_year_and_kind(t.rounds, cur.year, RoundKind::SemiFinal1) {
                        Err(e) => Err(e),
                        Ok(_) => match t.rotw_country {
                            None => Err(VoteError::NotFound(Table::RotwCountry)),
                            Some(_) => match create_round_effect(t, cur.year, RoundKind::GrandFinal, true) {
                                Err(e) => Err(e),
                                Ok((t1, gf)) => match add_finalists_effect(
                                    t1,
                                    gf.id,
                                    qualifiers(s1) + qualifiers(s2) + finalist_ids(t.participating_countries),
                                ) {
                                    Err(e) => Err(e),
                                    Ok(t2) => create_active_round_effect(Tables { active_round: None, ..t2 }, gf.id),
                                },
                            },
                        },
                    },
                    RoundKind::GrandFinal => Ok(Tables { active_round: None, ..t }),
                }
            },
        },
    }
}

/// Once a prefix of the participations fails, all of them fail the same way.
pub proof fn lemma_add_finalists_err(t: Tables, round_id: u16, countries: Seq<u16>, k: int)
    requires
        0 <= k <= countries.len(),
        add_finalists_effect(t, round_id, countries.take(k)) is Err,
    ensures
        add_finalists_effect(t, round_id, countries) == add_finalists_effect(t, round_id, countries.take(k)),
    decreases countries.len() - k,
{
    if k < countries.len() {
        assert(countries.take(k + 1).drop_last() =~= countries.take(k));
        lemma_add_finalists_err(t, round_id, countries, k + 1);
    } else {
        assert(countries.take(k) =~= countries);
    }
}

/// Adding finalists changes only the participations, the rankings and their sequences.
pub proof fn lemma_add_finalists_frame(t: Tables, round_id: u16, countries: Seq<u16>)
    requires
        add_finalists_effect(t, round_id, countries) is Ok,
    ensures
        ({
            let out = add_finalists_effect(t, round_id, countries)->Ok_0;
            out == (Tables { participations: out.participations, rankings: out.rankings, sequences: out.sequences, ..t })
        }),
    decreases countries.len(),
{
    if countries.len() > 0 {
        lemma_add_finalists_frame(t, round_id, countries.drop_last());
        let t1 = add_finalists_effect(t, round_id, countries.drop_last())->Ok_0;
        lemma_add_performer_frame(t1, round_id, countries.last(), true);
    }
}

/// Once a prefix of the participations fails, all of them fail the same way.
pub proof fn lemma_split_participations_err(t: Tables, sf1: u16, sf2: u16, countries: Seq<ParticipatingCountry>, k: int, n: int)
    requires
        0 <= k <= n,
        split_participations_effect(t, sf1, sf2, countries, k) is Err,
    ensures
        split_participations_effect(t, sf1, sf2, countries, n) == split_participations_effect(t, sf1, sf2, countries, k),
    decreases n - k,
{
    if k < n {
        lemma_split_participations_err(t, sf1, sf2, countries, k, n - 1);
    }
}

/// Dealing performers into the semi-finals changes only the participations, the rankings
/// and their sequences.
pub proof fn lemma_split_participations_frame(t: Tables, sf1: u16, sf2: u16, countries: Seq<ParticipatingCountry>, n: int)
    requires
        split_participations_effect(t, sf1, sf2, countries, n) is Ok,
    ensures
        ({
            let out = split_participations_effect(t, sf1, sf2, countries, n)->Ok_0;
            out == (Tables { participations: out.participations, rankings: out.rankings, sequences: out.sequences, ..t })
        }),
    decreases n,
{
    if n > 0 {
        lemma_split_participations_frame(t, sf1, sf2, countries, n - 1);
        let t1 = split_participations_effect(t, sf1, sf2, countries, n - 1)->Ok_0;
        lemma_add_performer_frame(t1, if (n - 1) % 2 == 0 { sf1 } else { sf2 }, countries[n - 1].id, false);
    }
}

impl Database {
    /// The participating countries that compete in the semi-finals, and the ids of the
    /// automatic finalists.
    fn split_finalists(&self) -> (r: (Vec<ParticipatingCountry>, Vec<u16>))
        ensures
            r.0@ == contenders(self@.participating_countries),
            r.1@ == finalist_ids(self@.participating_countries),
    {
        let ghost ps = self@.participating_countries;
        let mut semis: Vec<ParticipatingCountry> = Vec::new();
        let mut finalists: Vec<u16> = Vec::new();
        let mut i: usize = 0;
        while i < self.participating_countries.len()
            invariant
                ps == self@.participating_countries,
                i <= ps.len(),
                semis@ == contenders(ps.take(i as int)),
                finalists@ == finalist_ids(ps.take(i as int)),
            decreases ps.len() - i,
        {
            assert(ps.take(i + 1).drop_last() =~= ps.take(i as int));
            let p = self.participating_countries[i];
            if p.automatic_finalist {
                finalists.push(p.id);
            } else {
                semis.push(p);
            }
            i = i + 1;
        }
        assert(ps.take(i as int) =~= ps);
        (semis, finalists)
    }

    /// The (rank, receiver) of the entries of a round's overall ranking, in table order.
    fn get_overall_entries(&self, round_id: u16, rotw_country_id: u16) -> (v: Vec<(u16, u16)>)
        ensures
            v@ == overall_entries(self@.rankings, round_id, rotw_country_id),
    {
        let ghost rs = self@.rankings;
        let mut v: Vec<(u16, u16)> = Vec::new();
        let mut i: usize = 0;
        while i < self.rankings.len()
            invariant
                rs == self@.rankings,
                i <= rs.len(),
                v@ == overall_entries(rs.take(i as int), round_id, rotw_country_id),
            decreases rs.len() - i,
        {
            assert(rs.take(i + 1).drop_last() =~= rs.take(i as int));
            let r = self.rankings[i];
            if r.round_id == round_id && r.kind == RankingKind::Overall && r.from_country_id == rotw_country_id {
                v.push((r.rank, r.to_country_id));
            }
            i = i + 1;
        }
        assert(rs.take(i as int) =~= rs);
        v
    }

    /// The tie key of a semi-final's overall entry.
    fn tie_key_of(&self, round_id: u16, rank: u16, to: u16, performers: &Vec<u16>) -> (key: [u64; 14])
        requires
            performers@ == round_participants(self@.participations, round_id),
        ensures
            key@ == tie_key(self@, round_id, rank, to),
    {
        let ghost rs = self@.rankings;
        let mut total: u64 = 0;
        let mut givers: u64 = 0;
        let mut c12: u64 = 0;
        let mut c10: u64 = 0;
        let mut c8: u64 = 0;
        let mut c7: u64 = 0;
        let mut c6: u64 = 0;
        let mut c5: u64 = 0;
        let mut c4: u64 = 0;
        let mut c3: u64 = 0;
        let mut c2: u64 = 0;
        let mut c1: u64 = 0;
        let mut i: usize = 0;
        while i < self.rankings.len()
            invariant
                rs == self@.rankings,
                i <= rs.len(),
                total == tele_points_total(rs.take(i as int), round_id, to),
                givers == tele_givers(rs.take(i as int), round_id, to),
                c12 == tele_sets(rs.take(i as int), round_id, to, 12),
                c10 == tele_sets(rs.take(i as int), round_id, to, 10),
                c8 == tele_sets(rs.take(i as int), round_id, to, 8),
                c7 == tele_sets(rs.take(i as int), round_id, to, 7),
                c6 == tele_sets(rs.take(i as int), round_id, to, 6),
                c5 == tele_sets(rs.take(i as int), round_id, to, 5),
                c4 == tele_sets(rs.take(i as int), round_id, to, 4),
                c3 == tele_sets(rs.take(i as int), round_id, to, 3),
                c2 == tele_sets(rs.take(i as int), round_id, to, 2),
                c1 == tele_sets(rs.take(i as int), round_id, to, 1),
                givers <= i,
                c12 <= i && c10 <= i && c8 <= i && c7 <= i && c6 <= i,
                c5 <= i && c4 <= i && c3 <= i && c2 <= i && c1 <= i,
            decreases rs.len() - i,
        {
            assert(rs.take(i + 1).drop_last() =~= rs.take(i as int));
            assert(rs.take(i + 1).last() == rs[i as int]);
            let r = self.rankings[i];
            if r.kind == RankingKind::TeleVote && r.round_id == round_id && r.to_country_id == to {
                let p = get_points(&r);
                total = total.saturating_add(p as u64);
                if p > 0 {
                    givers = givers + 1;
                }
                if p == 12 {
                    c12 = c12 + 1;
                } else if p == 10 {
                    c10 = c10 + 1;
                } else if p == 8 {
                    c8 = c8 + 1;
                } else if p == 7 {
                    c7 = c7 + 1;
                } else if p == 6 {
                    c6 = c6 + 1;
                } else if p == 5 {
                    c5 = c5 + 1;
                } else if p == 4 {
                    c4 = c4 + 1;
                } else if p == 3 {
                    c3 = c3 + 1;
                } else if p == 2 {
                    c2 = c2 + 1;
                } else if p == 1 {
                    c1 = c1 + 1;
                }
            }
            i = i + 1;
        }
        assert(rs.take(i as int) =~= rs);
        let ghost ps = performers@;
        let mut pos: usize = 0;
        let mut k: usize = 0;
        while k < performers.len()
            invariant
                ps == performers@,
                k <= ps.len(),
                pos == running_position(ps.take(k as int), to),
                pos <= k,
            decreases ps.len() - k,
        {
            assert(ps.take(k + 1).drop_last() =~= ps.take(k as int));
            assert(ps.take(k + 1).last() == ps[k as int]);
            if pos == k && performers[k] != to {
                pos = k + 1;
            }
            k = k + 1;
        }
        assert(ps.take(k as int) =~= ps);
        let key: [u64; 14] = [
            rank as u64,
            u64::MAX - total,
            u64::MAX - givers,
            u64::MAX - c12,
            u64::MAX - c10,
            u64::MAX - c8,
            u64::MAX - c7,
            u64::MAX - c6,
            u64::MAX - c5,
            u64::MAX - c4,
            u64::MAX - c3,
            u64::MAX - c2,
            u64::MAX - c1,
            pos as u64,
        ];
        assert(key@ =~= tie_key(self@, round_id, rank, to));
        key
    }

    /// The receivers of the first ten entries of a semi-final's overall ranking, ordered
    /// by rank with the ties broken as `tie_key` says.
    /// The overall entries of a round, each with its tie key, sorted by the key.
    fn sorted_overall(&self, round_id: u16, rotw_country_id: u16) -> (sorted: Vec<([u64; 14], u16)>)
        ensures
            sorted_by_tie_key(self@, round_id, rotw_country_id, sorted@),
    {
        let entries = self.get_overall_entries(round_id, rotw_country_id);
        let performers = self.get_participants_by_round_id(round_id);
        let mut keyed: Vec<([u64; 14], u16)> = Vec::new();
        let mut j: usize = 0;
        while j < entries.len()
            invariant
                j <= entries@.len(),
                entries@ == overall_entries(self@.rankings, round_id, rotw_country_id),
                performers@ == round_participants(self@.participations, round_id),
                keyed@.len() == j,
                forall|i: int|
                    0 <= i < j ==> #[trigger] keyed@[i].1 == entries@[i].1 && keyed@[i].0@ == tie_key(
                        self@,
                        round_id,
                        entries@[i].0,
                        entries@[i].1,
                    ),
            decreases entries@.len() - j,
        {
            let (rank, to) = entries[j];
            let key = self.tie_key_of(round_id, rank, to, &performers);
            keyed.push((key, to));
            j = j + 1;
        }
        assert(keyed_entries(self@, round_id, rotw_country_id, keyed@));
        let ghost keyed_view = keyed@;
        let sorted = sort_by_key(keyed);
        assert(is_stable_sort_by_key(keyed_view, sorted@));
        sorted
    }

    fn semi_final_qualifiers(&self, round_id: u16, rotw_country_id: u16) -> (q: (Vec<u16>, Ghost<Seq<([u64; 14], u16)>>))
        ensures
            sorted_by_tie_key(self@, round_id, rotw_country_id, q.1@),
            q.0@ == qualifiers(q.1@),
    {
        let sorted = self.sorted_overall(round_id, rotw_country_id);
        let n = if sorted.len() < QUALIFIERS_PER_SEMI { sorted.len() } else { QUALIFIERS_PER_SEMI };
        let mut q: Vec<u16> = Vec::new();
        let mut i: usize = 0;
        while i < n
            invariant
                i <= n,
                n <= sorted@.len(),
                n == (if sorted@.len() < QUALIFIERS_PER_SEMI { sorted@.len() as int } else { QUALIFIERS_PER_SEMI as int }),
                q@ == sorted@.take(i as int).map_values(|e: ([u64; 14], u16)| e.1),
            decreases n - i,
        {
            assert(sorted@.take(i + 1) =~= sorted@.take(i as int).push(sorted@[i as int]));
            q.push(sorted[i].1);
            assert(q@ =~= sorted@.take(i + 1).map_values(|e: ([u64; 14], u16)| e.1));
            i = i + 1;
        }
        (q, Ghost(sorted@))
    }

    /// The standings of a round: its performers, best first, in the order of their overall
    /// entries under the Rest of the World by place, ties broken by the tie-break rules.
    pub fn standings(&self, round_id: u16) -> (r: Result<Vec<u16>, VoteError>)
        ensures
            match self@.rotw_country {
                None => r == Err::<Vec<u16>, VoteError>(VoteError::NotFound(Table::RotwCountry)),
                Some(c) => r is Ok && exists|sorted: Seq<([u64; 14], u16)>|
                    #[trigger] sorted_by_tie_key(self@, round_id, c.country_id, sorted) && r->Ok_0@ == sorted.map_values(
                        |e: ([u64; 14], u16)| e.1,
                    ),
            },
    {
        let rotw_country_id = match self.rotw_country {
            Some(c) => c.country_id,
            None => {
                return Err(VoteError::NotFound(Table::RotwCountry));
            },
        };
        let sorted = self.sorted_overall(round_id, rotw_country_id);
        let mut v: Vec<u16> = Vec::new();
        let mut i: usize = 0;
        while i < sorted.len()
            invariant
                i <= sorted@.len(),
                v@ == sorted@.take(i as int).map_values(|e: ([u64; 14], u16)| e.1),
            decreases sorted@.len() - i,
        {
            assert(sorted@.take(i + 1) =~= sorted@.take(i as int).push(sorted@[i as int]));
            v.push(sorted[i].1);
            assert(v@ =~= sorted@.take(i + 1).map_values(|e: ([u64; 14], u16)| e.1));
            i = i + 1;
        }
        assert(sorted@.take(i as int) =~= sorted@);
        Ok(v)
    }

    /// Each country in turn joins a grand final as a performer.
    fn add_finalists(&mut self, round_id: u16, countries: &Vec<u16>) -> (r: Result<(), VoteError>)
        ensures
            match add_finalists_effect(old(self)@, round_id, countries@) {
                Ok(t) => r is Ok && final(self)@ == t,
                Err(e) => r == Err::<(), VoteError>(e),
            },
    {
        let ghost t0 = self@;
        let mut k: usize = 0;
        while k < countries.len()
            invariant
                k <= countries@.len(),
                t0 == old(self)@,
                add_finalists_effect(t0, round_id, countries@.take(k as int)) == Ok::<Tables, VoteError>(self@),
            decreases countries@.len() - k,
        {
            assert(countries@.take(k + 1).drop_last() =~= countries@.take(k as int));
            assert(countries@.take(k + 1).last() == countries@[k as int]);
            let res = self.add_performer(round_id, countries[k], true);
            if let Err(e) = res {
                proof {
                    lemma_add_finalists_err(t0, round_id, countries@, k + 1);
                }
                return Err(e);
            }
            k = k + 1;
        }
        assert(countries@.take(k as int) =~= countries@);
        Ok(())
    }

    /// The reducer that opens a contest year with its two semi-finals.
    pub fn create_semi_finals(&mut self, year: u16) -> (r: Result<(), VoteError>)
        ensures
            match create_semi_finals_effect(old(self)@, year) {
                Ok(t) => r is Ok && final(self)@ == t,
                Err(e) => r == Err::<(), VoteError>(e) && final(self)@ == old(self)@,
            },
    {
        let saved = self.snapshot();
        let r = self.create_semi_finals_in_transaction(year);
        if r.is_err() {
            *self = saved;
        }
        r
    }

    fn create_semi_finals_in_transaction(&mut self, year: u16) -> (r: Result<(), VoteError>)
        ensures
            match create_semi_finals_effect(old(self)@, year) {
                Ok(t) => r is Ok && final(self)@ == t,
                Err(e) => r == Err::<(), VoteError>(e),
            },
    {
        let sf1 = self.create_round(year, RoundKind::SemiFinal1, true)?;
        let sf2 = self.create_round(year, RoundKind::SemiFinal2, true)?;
        let ghost t2 = self@;
        let (countries, _) = self.split_finalists();
        assert(create_semi_finals_effect(old(self)@, year) == match split_participations_effect(t2, sf1.id, sf2.id, countries@, countries@.len() as int) {
            Err(e) => Err(e),
            Ok(t3) => create_active_round_effect(Tables { active_round: None, ..t3 }, sf1.id),
        });
        let mut i: usize = 0;
        while i < countries.len()
            invariant
                i <= countries@.len(),
                countries@ == contenders(t2.participating_countries),
                split_participations_effect(t2, sf1.id, sf2.id, countries@, i as int) == Ok::<Tables, VoteError>(self@),
                create_semi_finals_effect(old(self)@, year) == match split_participations_effect(t2, sf1.id, sf2.id, countries@, countries@.len() as int) {
                    Err(e) => Err(e),
                    Ok(t3) => create_active_round_effect(Tables { active_round: None, ..t3 }, sf1.id),
                },
            decreases countries@.len() - i,
        {
            let round_id = if i % 2 == 0 { sf1.id } else { sf2.id };
            let res = self.add_performer(round_id, countries[i].id, false);
            if let Err(e) = res {
                proof {
                    lemma_split_participations_err(t2, sf1.id, sf2.id, countries@, i + 1, countries@.len() as int);
                }
                return Err(e);
            }
            i = i + 1;
        }
        let _ = self.delete_active_round();
        self.create_active_round(sf1.id)?;
        Ok(())
    }

    /// The reducer that closes the voting of the active round, or moves to the next round.
    pub fn advance_round(&mut self) -> (r: Result<(), VoteError>)
        ensures
            exists|s1: Seq<([u64; 14], u16)>, s2: Seq<([u64; 14], u16)>|
                #[trigger] advance_round_sorts(old(self)@, s1, s2) && match advance_round_effect(old(self)@, s1, s2) {
                    Ok(t) => r is Ok && final(self)@ == t,
                    Err(e) => r == Err::<(), VoteError>(e) && final(self)@ == old(self)@,
                },
    {
        let saved = self.snapshot();
        let (r, Ghost(s1), Ghost(s2)) = self.advance_round_in_transaction();
        if r.is_err() {
            *self = saved;
        }
        assert(advance_round_sorts(old(self)@, s1, s2));
        r
    }

    #[verifier::rlimit(40)]
    fn advance_round_in_transaction(&mut self) -> (r: (Result<(), VoteError>, Ghost<Seq<([u64; 14], u16)>>, Ghost<Seq<([u64; 14], u16)>>))
        ensures
            advance_round_sorts(old(self)@, r.1@, r.2@),
            match advance_round_effect(old(self)@, r.1@, r.2@) {
                Ok(t) => r.0 is Ok && final(self)@ == t,
                Err(e) => r.0 == Err::<(), VoteError>(e),
            },
    {
        let none: Ghost<Seq<([u64; 14], u16)>> = Ghost(Seq::empty());
        let active = match self.get_active_round() {
            Ok(a) => a,
            Err(e) => {
                return (Err(e), none, none);
            },
        };
        let current_round = match self.get_round_by_id(active.round_id) {
            Ok(c) => c,
            Err(e) => {
                return (Err(e), none, none);
            },
        };
        if current_round.voting_open {
            let closed = Round { voting_open: false, ..current_round };
            return match self.update_round_by_id(closed) {
                Ok(_) => (Ok(()), none, none),
                Err(e) => (Err(e), none, none),
            };
        }
        match current_round.kind {
            RoundKind::SemiFinal1 => {
                let sf2 = match self.get_round_by_year_and_kind(current_round.year, RoundKind::SemiFinal2) {
                    Ok(x) => x,
                    Err(e) => {
                        return (Err(e), none, none);
                    },
                };
                if let Err(e) = self.delete_active_round() {
                    return (Err(e), none, none);
                }
                match self.create_active_round(sf2.id) {
                    Ok(_) => (Ok(()), none, none),
                    Err(e) => (Err(e), none, none),
                }
            },
            RoundKind::SemiFinal2 => {
                let sf1 = match self.get_round_by_year_and_kind(current_round.year, RoundKind::SemiFinal1) {
                    Ok(x) => x,
                    Err(e) => {
                        return (Err(e), none, none);
                    },
                };
                let rotw_country_id = match self.get_rotw_country() {
                    Ok(c) => c.country_id,
                    Err(e) => {
                        return (Err(e), none, none);
                    },
                };
                let (mut qualifiers_all, s1) = self.semi_final_qualifiers(sf1.id, rotw_country_id);
                let (mut second, s2) = self.semi_final_qualifiers(current_round.id, rotw_country_id);
                qualifiers_all.append(&mut second);
                let (_, mut finalists) = self.split_finalists();
                qualifiers_all.append(&mut finalists);
                let grand_final = match self.create_round(current_round.year, RoundKind::GrandFinal, true) {
                    Ok(x) => x,
                    Err(e) => {
                        return (Err(e), s1, s2);
                    },
                };
                let ghost t1 = self@;
                assert(qualifiers_all@ == qualifiers(s1@) + qualifiers(s2@) + finalist_ids(old(self)@.participating_countries));
                assert(create_round_effect(old(self)@, current_round.year, RoundKind::GrandFinal, true) == Ok::<
                    (Tables, Round),
                    VoteError,
                >((t1, grand_final)));
                if let Err(e) = self.add_finalists(grand_final.id, &qualifiers_all) {
                    return (Err(e), s1, s2);
                }
                proof {
                    lemma_add_finalists_frame(t1, grand_final.id, qualifiers_all@);
                }
                if let Err(e) = self.delete_active_round() {
                    return (Err(e), s1, s2);
                }
                match self.create_active_round(grand_final.id) {
                    Ok(_) => (Ok(()), s1, s2),
                    Err(e) => (Err(e), s1, s2),
                }
            },
            RoundKind::GrandFinal => {
                if let Err(e) = self.delete_active_round() {
                    return (Err(e), none, none);
                }
                (Ok(()), none, none)
            },
        }
    }
}

/// The ten best of a semi-final advance, ties broken as the rules ask: once the overall
/// entries are sorted by their tie keys, the qualifiers are the first ten (all, when there
/// are fewer), and no entry whose key comes strictly before a qualifier's stays behind.
pub proof fn law_qualifiers_lead(entries: Seq<([u64; 14], u16)>, sorted: Seq<([u64; 14], u16)>)
    requires
        is_stable_sort_by_key(entries, sorted),
    ensures
        qualifiers(sorted).len() == if entries.len() < QUALIFIERS_PER_SEMI {
            entries.len() as int
        } else {
            QUALIFIERS_PER_SEMI as int
        },
        forall|k: int, i: int|
            0 <= k < entries.len() && 0 <= i < qualifiers(sorted).len() && !lex_le(
                #[trigger] sorted[i].0@,
                #[trigger] entries[k].0@,
            ) ==> qualifiers(sorted).contains(entries[k].1),
{
    let n = qualifiers(sorted).len() as int;
    assert forall|k: int, i: int|
        0 <= k < entries.len() && 0 <= i < n && !lex_le(#[trigger] sorted[i].0@, #[trigger] entries[k].0@) implies qualifiers(
        sorted,
    ).contains(entries[k].1) by {
        let e = entries[k];
        let p = entry_with_key(e.0);
        entries.lemma_filter_contains(p, k);
        assert(sorted.filter(p) == entries.filter(p));
        sorted.lemma_filter_contains_rev(p, e);
        let j = choose|j: int| 0 <= j < sorted.len() && sorted[j] == e;
        if j >= n {
            assert(lex_le(sorted[i].0@, sorted[j].0@));
        }
        assert(qualifiers(sorted)[j] == e.1);
    }
}

} // verus!
