use vstd::prelude::*;

use crate::country::{country_with_id, participating_with_id, RotwCountry};
use crate::database::{any_match, same_except_rankings, Database, Sequences, Tables};
use crate::round::round_with_id;

pub mod laws;
pub mod totals;
pub mod restore;
pub mod bound;

use crate::ranking::laws::{groups_fit, ranks_are_places};
use crate::ranking::restore::{lemma_step_keeps_sound, scores_moved};
use crate::ranking::totals::{lemma_adjust_scores, lemma_hook_totals, overall_moved, totals_hold};
use crate::error::{Table, VoteError};

verus! {

/// Which votes a ranking counts.
#[derive(Clone, Copy, PartialEq, Eq, Structural, Debug)]
pub enum RankingKind {
    TeleVote,
    JuryVote,
    Overall,
}

/// One entry of a 1224-type ranking: how much `from_country_id` gave `to_country_id`
/// in a round, and the entry's place among all entries of the same round, kind and giver.
/// For overall rankings the giver is the Rest of the World.
#[derive(Clone, Copy, PartialEq, Eq, Structural, Debug)]
pub struct Ranking {
    pub id: u64,
    pub round_id: u16,
    pub kind: RankingKind,
    pub from_country_id: u16,
    pub to_country_id: u16,
    pub score: u32,
    /// Rank starting at 0
    pub rank: u16,
}

// ------------------------------------------------------------------------------------------
// Points
// ------------------------------------------------------------------------------------------

/// The points of the scale 12, 10, 8, 7, 6, 5, 4, 3, 2, 1 for a place counted from 0;
/// places from the eleventh on get nothing.
pub open spec fn points_for_place(rank: int) -> int {
    if rank == 0 {
        12
    } else if rank == 1 {
        10
    } else if rank == 2 {
        8
    } else if 3 <= rank <= 9 {
        10 - rank
    } else {
        0
    }
}

/// The points an entry awards: none while its score is 0, else those of its place.
pub open spec fn points(r: Ranking) -> int {
    if r.score == 0 {
        0
    } else {
        points_for_place(r.rank as int)
    }
}

/// Only the ten best places of a ranking give points, and only to an entry that got votes:
/// 12 for the first place, less for each later one down to 1 for the tenth, and nothing from
/// the eleventh place on.
pub proof fn law_points_top_ten(a: Ranking, b: Ranking)
    ensures
        a.rank >= 10 ==> points(a) == 0,
        a.score == 0 ==> points(a) == 0,
        a.score > 0 && a.rank < 10 ==> 1 <= points(a) <= 12,
        a.score > 0 && a.rank == 0 ==> points(a) == 12,
        a.score > 0 && b.score > 0 && a.rank < b.rank ==> points(b) <= points(a),
        a.score > 0 && b.score > 0 && a.rank < b.rank && a.rank < 10 ==> points(b) < points(a),
{
}

/// Calculate the points for a ranking, starting from 0
pub fn get_points(ranking: &Ranking) -> (p: u8)
    ensures
        p as int == points(*ranking),
        ranking.rank >= 10 ==> p == 0,
        ranking.score == 0 ==> p == 0,
        ranking.score > 0 && ranking.rank < 10 ==> 1 <= p <= 12,
{
    if ranking.score == 0 {
        return 0;
    }
    let scale: [u8; 10] = [12, 10, 8, 7, 6, 5, 4, 3, 2, 1];
    let place = ranking.rank as usize;
    if place < 10 {
        scale[place]
    } else {
        0
    }
}

// ------------------------------------------------------------------------------------------
// Groups, counts and lookups
// ------------------------------------------------------------------------------------------

/// Whether `r` belongs to the ranking of `round_id`, `kind` and giver `from`.
pub open spec fn in_group(r: Ranking, round_id: u16, kind: RankingKind, from: u16) -> bool {
    r.round_id == round_id && r.kind == kind && r.from_country_id == from
}

/// How many entries of a group have a score between `lo` and `hi`, both included.
pub open spec fn count_in_band(
    rs: Seq<Ranking>,
    round_id: u16,
    kind: RankingKind,
    from: u16,
    lo: int,
    hi: int,
) -> nat
    decreases rs.len(),
{
    if rs.len() == 0 {
        0
    } else {
        count_in_band(rs.drop_last(), round_id, kind, from, lo, hi) + if in_group(
            rs.last(),
            round_id,
            kind,
            from,
        ) && lo <= rs.last().score <= hi {
            1nat
        } else {
            0nat
        }
    }
}

/// How many entries of a group have exactly this score.
pub open spec fn count_with_score(
    rs: Seq<Ranking>,
    round_id: u16,
    kind: RankingKind,
    from: u16,
    score: int,
) -> nat {
    count_in_band(rs, round_id, kind, from, score, score)
}

/// How many entries of a group have a higher score.
pub open spec fn count_above(
    rs: Seq<Ranking>,
    round_id: u16,
    kind: RankingKind,
    from: u16,
    score: int,
) -> nat {
    count_in_band(rs, round_id, kind, from, score + 1, u32::MAX as int)
}

/// Whether an entry has the key (round, kind, giver, receiver).
pub open spec fn has_key(r: Ranking, round_id: u16, kind: RankingKind, from: u16, to: u16) -> bool {
    in_group(r, round_id, kind, from) && r.to_country_id == to
}

/// Some entry has the key.
pub open spec fn key_present(
    rs: Seq<Ranking>,
    round_id: u16,
    kind: RankingKind,
    from: u16,
    to: u16,
) -> bool {
    exists|i: int| 0 <= i < rs.len() && #[trigger] has_key(rs[i], round_id, kind, from, to)
}

/// Two entries have the key.
pub open spec fn key_repeated(
    rs: Seq<Ranking>,
    round_id: u16,
    kind: RankingKind,
    from: u16,
    to: u16,
) -> bool {
    exists|i: int, j: int|
        0 <= i < j < rs.len() && #[trigger] has_key(rs[i], round_id, kind, from, to)
            && #[trigger] has_key(rs[j], round_id, kind, from, to)
}

/// The lookup of the one entry with a key through the unique index over
/// (round, kind, giver, receiver): its position, or why there is none.
pub open spec fn lookup(
    rs: Seq<Ranking>,
    round_id: u16,
    kind: RankingKind,
    from: u16,
    to: u16,
) -> Result<int, VoteError> {
    if !key_present(rs, round_id, kind, from, to) {
        Err(VoteError::NotFound(Table::Ranking))
    } else if key_repeated(rs, round_id, kind, from, to) {
        Err(VoteError::UniqueViolation(Table::Ranking))
    } else {
        Ok(choose|i: int| 0 <= i < rs.len() && #[trigger] has_key(rs[i], round_id, kind, from, to))
    }
}

/// The positions, in table order, of the entries of a group with a given score,
/// among the first `n` entries.
pub open spec fn score_positions(
    rs: Seq<Ranking>,
    round_id: u16,
    kind: RankingKind,
    from: u16,
    score: int,
    n: int,
) -> Seq<int>
    decreases n,
{
    if n <= 0 {
        seq![]
    } else {
        let prev = score_positions(rs, round_id, kind, from, score, n - 1);
        if in_group(rs[n - 1], round_id, kind, from) && rs[n - 1].score == score {
            prev.push(n - 1)
        } else {
            prev
        }
    }
}

// ------------------------------------------------------------------------------------------
// What the rank updates do
// ------------------------------------------------------------------------------------------

/// The row with another rank.
pub open spec fn with_rank(r: Ranking, rank: int) -> Ranking {
    Ranking { rank: rank as u16, ..r }
}

/// The row with another score.
pub open spec fn with_score(r: Ranking, score: int) -> Ranking {
    Ranking { score: score as u32, ..r }
}

/// Overall rankings are updated by the others; they update nothing themselves.
pub open spec fn kind_level(kind: RankingKind) -> int {
    if kind == RankingKind::Overall {
        0
    } else {
        1
    }
}

/// The absolute value, the measure by which overall moves terminate.
pub open spec fn magnitude(d: int) -> int {
    if d >= 0 {
        d
    } else {
        -d
    }
}

/// What the hook that follows the update of a ranking row from `old` to `new` does to the
/// rankings `rs` (which hold `new` already): for a televote or jury entry it moves the
/// receiver's overall score, kept under the Rest of the World, by the change in points,
/// one step at a time.
pub open spec fn after_update_effect(
    rs: Seq<Ranking>,
    rotw: Option<RotwCountry>,
    kind: RankingKind,
    old: Ranking,
    new: Ranking,
) -> Result<Seq<Ranking>, VoteError>
    decreases kind_level(kind), 1int, 0int,
{
    if kind == RankingKind::Overall {
        Ok(rs)
    } else {
        match rotw {
            None => Err(VoteError::NotFound(Table::RotwCountry)),
            Some(c) => overall_adjust(
                rs,
                rotw,
                old.round_id,
                c.country_id,
                old.to_country_id,
                points(new) - points(old),
            ),
        }
    }
}

/// `d` increments (or `-d` decrements) of one overall entry, stopping at the first error.
pub open spec fn overall_adjust(
    rs: Seq<Ranking>,
    rotw: Option<RotwCountry>,
    round_id: u16,
    from: u16,
    to: u16,
    d: int,
) -> Result<Seq<Ranking>, VoteError>
    decreases 0int, 4int, magnitude(d),
{
    if d > 0 {
        match increment_effect(rs, rotw, round_id, RankingKind::Overall, from, to) {
            Ok(rs2) => overall_adjust(rs2, rotw, round_id, from, to, d - 1),
            Err(e) => Err(e),
        }
    } else if d < 0 {
        match decrement_effect(rs, rotw, round_id, RankingKind::Overall, from, to) {
            Ok(rs2) => overall_adjust(rs2, rotw, round_id, from, to, d + 1),
            Err(e) => Err(e),
        }
    } else {
        Ok(rs)
    }
}

/// Moves the entries at `positions` one place down (`up`: their rank grows by one) or up,
/// each through an update that runs the hook. `snapshot` holds the rows as the query for
/// the tied entries returned them.
pub open spec fn tie_effect(
    rs: Seq<Ranking>,
    rotw: Option<RotwCountry>,
    kind: RankingKind,
    snapshot: Seq<Ranking>,
    positions: Seq<int>,
    up: bool,
) -> Result<Seq<Ranking>, VoteError>
    decreases kind_level(kind), 2int, positions.len(),
{
    if positions.len() == 0 {
        Ok(rs)
    } else {
        match tie_effect(rs, rotw, kind, snapshot, positions.drop_last(), up) {
            Err(e) => Err(e),
            Ok(rs1) => {
                let j = positions.last();
                let q = snapshot[j];
                if up && q.rank == u16::MAX {
                    Err(VoteError::ArithmeticOverflow)
                } else if !up && q.rank == 0 {
                    Err(VoteError::ArithmeticOverflow)
                } else {
                    let q2 = if up {
                        with_rank(q, q.rank + 1)
                    } else {
                        with_rank(q, q.rank - 1)
                    };
                    after_update_effect(rs1.update(j, q2), rotw, kind, rs1[j], q2)
                }
            },
        }
    }
}

/// Adding one to the score of the entry with the key:
///
/// ```text
/// P.rank -= size(group(P.score + 1))
/// P.score += 1
/// for each Q in group(P.score - 1): Q.rank += 1
/// ```
///
/// each of the updates followed by the hook.
pub open spec fn increment_effect(
    rs: Seq<Ranking>,
    rotw: Option<RotwCountry>,
    round_id: u16,
    kind: RankingKind,
    from: u16,
    to: u16,
) -> Result<Seq<Ranking>, VoteError>
    decreases kind_level(kind), 3int, 0int,
{
    match lookup(rs, round_id, kind, from, to) {
        Err(e) => Err(e),
        Ok(p) => {
            let entry = rs[p];
            let s = entry.score as int;
            if s == u32::MAX {
                Err(VoteError::ArithmeticOverflow)
            } else {
                let c = count_with_score(rs, round_id, kind, from, s + 1) as u16;
                if entry.rank < c {
                    Err(VoteError::ArithmeticOverflow)
                } else {
                    let e1 = with_rank(entry, entry.rank - c);
                    match after_update_effect(rs.update(p, e1), rotw, kind, rs[p], e1) {
                        Err(e) => Err(e),
                        Ok(rs1) => {
                            let e2 = with_score(e1, s + 1);
                            match after_update_effect(rs1.update(p, e2), rotw, kind, rs1[p], e2) {
                                Err(e) => Err(e),
                                Ok(rs2) => tie_effect(
                                    rs2,
                                    rotw,
                                    kind,
                                    rs2,
                                    score_positions(rs2, round_id, kind, from, s, rs2.len() as int),
                                    true,
                                ),
                            }
                        },
                    }
                }
            }
        },
    }
}

/// Taking one from the score of the entry with the key:
///
/// ```text
/// for each Q in group(P.score - 1): Q.rank -= 1
/// P.score -= 1
/// P.rank += size(group(P.score + 1))
/// ```
///
/// each of the updates followed by the hook.
pub open spec fn decrement_effect(
    rs: Seq<Ranking>,
    rotw: Option<RotwCountry>,
    round_id: u16,
    kind: RankingKind,
    from: u16,
    to: u16,
) -> Result<Seq<Ranking>, VoteError>
    decreases kind_level(kind), 3int, 0int,
{
    match lookup(rs, round_id, kind, from, to) {
        Err(e) => Err(e),
        Ok(p) => {
            let entry = rs[p];
            let s = entry.score as int;
            if s == 0 {
                Err(VoteError::ArithmeticOverflow)
            } else {
                match tie_effect(
                    rs,
                    rotw,
                    kind,
                    rs,
                    score_positions(rs, round_id, kind, from, s - 1, rs.len() as int),
                    false,
                ) {
                    Err(e) => Err(e),
                    Ok(rs1) => {
                        let e1 = with_score(entry, s - 1);
                        match after_update_effect(rs1.update(p, e1), rotw, kind, rs1[p], e1) {
                            Err(e) => Err(e),
                            Ok(rs2) => {
                                let c = count_with_score(rs2, round_id, kind, from, s) as u16;
                                if e1.rank + c > u16::MAX {
                                    Err(VoteError::ArithmeticOverflow)
                                } else {
                                    let e2 = with_rank(e1, e1.rank + c);
                                    after_update_effect(rs2.update(p, e2), rotw, kind, rs2[p], e2)
                                }
                            },
                        }
                    },
                }
            }
        },
    }
}

/// Two ranking tables with the same rows in the same places, up to scores and ranks.
pub open spec fn same_entries(a: Seq<Ranking>, b: Seq<Ranking>) -> bool {
    &&& a.len() == b.len()
    &&& forall|i: int|
        0 <= i < a.len() ==> {
            &&& #[trigger] a[i].id == b[i].id
            &&& a[i].round_id == b[i].round_id
            &&& a[i].kind == b[i].kind
            &&& a[i].from_country_id == b[i].from_country_id
            &&& a[i].to_country_id == b[i].to_country_id
        }
}

/// The same row, up to score and rank.
pub open spec fn same_row_key(a: Ranking, b: Ranking) -> bool {
    &&& a.id == b.id
    &&& a.round_id == b.round_id
    &&& a.kind == b.kind
    &&& a.from_country_id == b.from_country_id
    &&& a.to_country_id == b.to_country_id
}

/// Sameness of entries carries over from one table to the next.
pub proof fn lemma_same_entries_trans(a: Seq<Ranking>, b: Seq<Ranking>, c: Seq<Ranking>)
    requires
        same_entries(a, b),
        same_entries(b, c),
    ensures
        same_entries(a, c),
{
    assert forall|i: int| 0 <= i < a.len() implies {
        &&& #[trigger] a[i].id == c[i].id
        &&& a[i].round_id == c[i].round_id
        &&& a[i].kind == c[i].kind
        &&& a[i].from_country_id == c[i].from_country_id
        &&& a[i].to_country_id == c[i].to_country_id
    } by {
        assert(a[i].id == b[i].id);
        assert(b[i].id == c[i].id);
    }
}

/// The positions of `score_positions` lie below `n` and hold entries of the group with
/// the score.
pub proof fn lemma_score_positions(
    rs: Seq<Ranking>,
    round_id: u16,
    kind: RankingKind,
    from: u16,
    score: int,
    n: int,
)
    requires
        n <= rs.len(),
    ensures
        forall|k: int|
            0 <= k < score_positions(rs, round_id, kind, from, score, n).len() ==> {
                let j = #[trigger] score_positions(rs, round_id, kind, from, score, n)[k];
                &&& 0 <= j < n
                &&& in_group(rs[j], round_id, kind, from)
                &&& rs[j].score == score
            },
    decreases n,
{
    if n > 0 {
        lemma_score_positions(rs, round_id, kind, from, score, n - 1);
    }
}

/// Once a prefix of the tied updates fails, the whole sequence fails the same way.
pub proof fn lemma_tie_effect_prefix_err(
    rs: Seq<Ranking>,
    rotw: Option<RotwCountry>,
    kind: RankingKind,
    snapshot: Seq<Ranking>,
    positions: Seq<int>,
    up: bool,
    n: int,
)
    requires
        0 <= n <= positions.len(),
        tie_effect(rs, rotw, kind, snapshot, positions.take(n), up) is Err,
    ensures
        tie_effect(rs, rotw, kind, snapshot, positions, up) == tie_effect(
            rs,
            rotw,
            kind,
            snapshot,
            positions.take(n),
            up,
        ),
    decreases positions.len() - n,
{
    if n < positions.len() {
        assert(positions.take(n + 1).drop_last() =~= positions.take(n));
        lemma_tie_effect_prefix_err(rs, rotw, kind, snapshot, positions, up, n + 1);
    } else {
        assert(positions.take(n) =~= positions);
    }
}

// ------------------------------------------------------------------------------------------
// The executable rank updates
// ------------------------------------------------------------------------------------------

impl Database {
    /// The position of the entry with the key (round, kind, giver, receiver).
    pub fn find_ranking(&self, round_id: u16, kind: RankingKind, from: u16, to: u16) -> (r: Result<
        usize,
        VoteError,
    >)
        ensures
            match r {
                Ok(i) => lookup(self.rankings@, round_id, kind, from, to) == Ok::<int, VoteError>(
                    i as int,
                ),
                Err(e) => lookup(self.rankings@, round_id, kind, from, to) == Err::<int, VoteError>(
                    e,
                ),
            },
    {
        let ghost rs = self.rankings@;
        let mut found: Option<usize> = None;
        let mut i: usize = 0;
        while i < self.rankings.len()
            invariant
                rs == self.rankings@,
                i <= rs.len(),
                match found {
                    None => forall|j: int| 0 <= j < i ==> !#[trigger] has_key(rs[j], round_id, kind, from, to),
                    Some(f) => f < i && has_key(rs[f as int], round_id, kind, from, to) && forall|j: int|
                        0 <= j < i && j != f ==> !#[trigger] has_key(rs[j], round_id, kind, from, to),
                },
            decreases rs.len() - i,
        {
            let r = self.rankings[i];
            if r.round_id == round_id && r.kind == kind && r.from_country_id == from && r.to_country_id
                == to {
                match found {
                    Some(f) => {
                        assert(has_key(rs[f as int], round_id, kind, from, to));
                        assert(has_key(rs[i as int], round_id, kind, from, to));
                        assert(key_repeated(rs, round_id, kind, from, to));
                        return Err(VoteError::UniqueViolation(Table::Ranking));
                    },
                    None => {
                        found = Some(i);
                    },
                }
            }
            i = i + 1;
        }
        match found {
            None => Err(VoteError::NotFound(Table::Ranking)),
            Some(f) => {
                assert(has_key(rs[f as int], round_id, kind, from, to));
                assert(!key_repeated(rs, round_id, kind, from, to));
                let ghost c = choose|k: int| 0 <= k < rs.len() && #[trigger] has_key(rs[k], round_id, kind, from, to);
                assert(c == f);
                Ok(f)
            },
        }
    }
}


impl Database {
    /// How many entries of the group have exactly this score.
    pub fn count_rankings_with_score(&self, round_id: u16, kind: RankingKind, from: u16, score: u32) -> (c: usize)
        ensures
            c as int == count_with_score(self.rankings@, round_id, kind, from, score as int),
    {
        let ghost rs = self.rankings@;
        let mut c: usize = 0;
        let mut i: usize = 0;
        while i < self.rankings.len()
            invariant
                rs == self.rankings@,
                i <= rs.len(),
                c <= i,
                c as int == count_in_band(rs.take(i as int), round_id, kind, from, score as int, score as int),
            decreases rs.len() - i,
        {
            assert(rs.take(i + 1).drop_last() =~= rs.take(i as int));
            let r = self.rankings[i];
            if r.round_id == round_id && r.kind == kind && r.from_country_id == from && r.score == score {
                c = c + 1;
            }
            i = i + 1;
        }
        assert(rs.take(i as int) =~= rs);
        c
    }

    /// The entries of the group with this score, with their positions, in table order.
    pub fn rankings_with_score(&self, round_id: u16, kind: RankingKind, from: u16, score: u32) -> (v: Vec<(usize, Ranking)>)
        ensures
            v@.len() == score_positions(self.rankings@, round_id, kind, from, score as int, self.rankings@.len() as int).len(),
            forall|k: int| 0 <= k < v@.len() ==> {
                &&& #[trigger] v@[k].0 as int == score_positions(self.rankings@, round_id, kind, from, score as int, self.rankings@.len() as int)[k]
                &&& v@[k].1 == self.rankings@[v@[k].0 as int]
            },
    {
        let ghost rs = self.rankings@;
        let mut v: Vec<(usize, Ranking)> = Vec::new();
        let mut i: usize = 0;
        while i < self.rankings.len()
            invariant
                rs == self.rankings@,
                i <= rs.len(),
                v@.len() == score_positions(rs, round_id, kind, from, score as int, i as int).len(),
                forall|k: int| 0 <= k < v@.len() ==> {
                    &&& #[trigger] v@[k].0 as int == score_positions(rs, round_id, kind, from, score as int, i as int)[k]
                    &&& v@[k].1 == rs[v@[k].0 as int]
                },
            decreases rs.len() - i,
        {
            let r = self.rankings[i];
            if r.round_id == round_id && r.kind == kind && r.from_country_id == from && r.score == score {
                v.push((i, r));
            }
            i = i + 1;
        }
        v
    }

    /// Writes `new` over the ranking row at position `p`, then runs the hook that follows
    /// the update of a ranking row.
    #[verifier::spinoff_prover]
    pub fn update_ranking_at(&mut self, p: usize, new: Ranking, kind: RankingKind) -> (r: Result<Ranking, VoteError>)
        requires
            p < old(self).rankings@.len(),
            old(self).rankings@[p as int].kind == kind,
            same_row_key(old(self).rankings@[p as int], new),
        ensures
            same_except_rankings(*final(self), *old(self)),
            match after_update_effect(
                old(self).rankings@.update(p as int, new),
                old(self).rotw_country,
                kind,
                old(self).rankings@[p as int],
                new,
            ) {
                Ok(rs) => r == Ok::<Ranking, VoteError>(new) && final(self).rankings@ == rs
                    && same_entries(old(self).rankings@, rs),
                Err(e) => r == Err::<Ranking, VoteError>(e),
            },
            r is Ok && kind != RankingKind::Overall && old(self).rotw_country is Some && totals_hold(
                old(self).rankings@,
                old(self).rotw_country->Some_0.country_id,
            ) ==> totals_hold(final(self).rankings@, old(self).rotw_country->Some_0.country_id),
        decreases kind_level(kind), 2int, 0int,
    {
        let stored = self.rankings[p];
        self.rankings.set(p, new);
        let ghost written = self.rankings@;
        assert(same_entries(old(self).rankings@, written));
        assert(written == old(self).rankings@.update(p as int, new));
        assert(stored == old(self).rankings@[p as int]);
        let res = self.after_ranking_update(&stored, &new);
        match res {
            Err(e) => Err(e),
            Ok(()) => {
                proof {
                    let rotw0 = old(self).rotw_country;
                    if kind != RankingKind::Overall && rotw0 is Some && totals_hold(old(self).rankings@, rotw0->Some_0.country_id) {
                        lemma_hook_totals(old(self).rankings@, rotw0, kind, p as int, new);
                    }
                }
                Ok(new)
            },
        }
    }

    /// The hook that follows every update of a ranking row: a change in the points of a
    /// televote or jury entry moves the receiver's overall score by as much.
    pub fn after_ranking_update(&mut self, old_row: &Ranking, new_row: &Ranking) -> (r: Result<(), VoteError>)
        ensures
            same_except_rankings(*final(self), *old(self)),
            match after_update_effect(
                old(self).rankings@,
                old(self).rotw_country,
                old_row.kind,
                *old_row,
                *new_row,
            ) {
                Ok(rs) => r is Ok && final(self).rankings@ == rs && same_entries(old(self).rankings@, rs),
                Err(e) => r == Err::<(), VoteError>(e),
            },
            r is Ok && old_row.kind != RankingKind::Overall ==> old(self).rotw_country is Some && overall_moved(
                old(self).rankings@,
                final(self).rankings@,
                old_row.round_id,
                old(self).rotw_country->Some_0.country_id,
                old_row.to_country_id,
                points(*new_row) - points(*old_row),
            ),
        decreases kind_level(old_row.kind), 1int, 0int,
    {
        proof {
            let rotw0 = old(self).rotw_country;
            if old_row.kind != RankingKind::Overall && after_update_effect(
                old(self).rankings@,
                rotw0,
                old_row.kind,
                *old_row,
                *new_row,
            ) is Ok {
                lemma_adjust_scores(
                    old(self).rankings@,
                    rotw0,
                    old_row.round_id,
                    rotw0->Some_0.country_id,
                    old_row.to_country_id,
                    points(*new_row) - points(*old_row),
                );
                reveal(overall_moved);
            }
        }
        if old_row.kind == RankingKind::TeleVote || old_row.kind == RankingKind::JuryVote {
            let rotw_country_id = match self.rotw_country {
                Some(c) => c.country_id,
                None => {
                    return Err(VoteError::NotFound(Table::RotwCountry));
                },
            };
            let ghost rotw = self.rotw_country;
            let ghost d0 = points(*new_row) - points(*old_row);
            let mut difference: i8 = get_points(new_row) as i8 - get_points(old_row) as i8;
            assert(after_update_effect(old(self).rankings@, old(self).rotw_country, old_row.kind, *old_row, *new_row)
                == overall_adjust(old(self).rankings@, rotw, old_row.round_id, rotw_country_id, old_row.to_country_id, d0));
            while difference > 0
                invariant
                    kind_level(old_row.kind) == 1,
                    after_update_effect(old(self).rankings@, old(self).rotw_country, old_row.kind, *old_row, *new_row)
                        == overall_adjust(old(self).rankings@, rotw, old_row.round_id, rotw_country_id, old_row.to_country_id, d0),
                    same_except_rankings(*self, *old(self)),
                    rotw == self.rotw_country,
                    rotw == Some(RotwCountry { country_id: rotw_country_id }),
                    same_entries(old(self).rankings@, self.rankings@),
                    overall_adjust(self.rankings@, rotw, old_row.round_id, rotw_country_id, old_row.to_country_id, difference as int)
                        == overall_adjust(old(self).rankings@, rotw, old_row.round_id, rotw_country_id, old_row.to_country_id, d0),
                decreases difference,
            {
                let res = self.increment_ranking_score(old_row.round_id, RankingKind::Overall, rotw_country_id, old_row.to_country_id);
                if let Err(e) = res {
                    assert(overall_adjust(old(self).rankings@, rotw, old_row.round_id, rotw_country_id, old_row.to_country_id, d0) == Err::<Seq<Ranking>, VoteError>(e));
                    return Err(e);
                }
                difference = difference - 1;
            }
            while difference < 0
                invariant
                    kind_level(old_row.kind) == 1,
                    after_update_effect(old(self).rankings@, old(self).rotw_country, old_row.kind, *old_row, *new_row)
                        == overall_adjust(old(self).rankings@, rotw, old_row.round_id, rotw_country_id, old_row.to_country_id, d0),
                    same_except_rankings(*self, *old(self)),
                    rotw == self.rotw_country,
                    rotw == Some(RotwCountry { country_id: rotw_country_id }),
                    same_entries(old(self).rankings@, self.rankings@),
                    overall_adjust(self.rankings@, rotw, old_row.round_id, rotw_country_id, old_row.to_country_id, difference as int)
                        == overall_adjust(old(self).rankings@, rotw, old_row.round_id, rotw_country_id, old_row.to_country_id, d0),
                    difference <= 0,
                decreases -difference,
            {
                let res = self.decrement_ranking_score(old_row.round_id, RankingKind::Overall, rotw_country_id, old_row.to_country_id);
                if let Err(e) = res {
                    assert(overall_adjust(old(self).rankings@, rotw, old_row.round_id, rotw_country_id, old_row.to_country_id, d0) == Err::<Seq<Ranking>, VoteError>(e));
                    return Err(e);
                }
                difference = difference + 1;
            }
        }
        Ok(())
    }

    /// Adds one to the score of the entry with the key, keeping every rank of its group
    /// equal to the number of entries that score higher.
    pub fn increment_ranking_score(&mut self, round_id: u16, kind: RankingKind, from: u16, to: u16) -> (r: Result<(), VoteError>)
        ensures
            same_except_rankings(*final(self), *old(self)),
            match increment_effect(old(self).rankings@, old(self).rotw_country, round_id, kind, from, to) {
                Ok(rs) => r is Ok && final(self).rankings@ == rs && same_entries(old(self).rankings@, rs),
                Err(e) => r == Err::<(), VoteError>(e),
            },
            r is Ok && kind != RankingKind::Overall && ranks_are_places(old(self).rankings@) && groups_fit(old(self).rankings@)
                ==> scores_moved(old(self).rankings@, final(self).rankings@, round_id, kind, from, to, 1) && ranks_are_places(
                final(self).rankings@,
            ) && groups_fit(final(self).rankings@),
            r is Ok && kind != RankingKind::Overall && old(self).rotw_country is Some && totals_hold(
                old(self).rankings@,
                old(self).rotw_country->Some_0.country_id,
            ) ==> totals_hold(final(self).rankings@, old(self).rotw_country->Some_0.country_id),
        decreases kind_level(kind), 3int, 0int,
    {
        let ghost rs0 = self.rankings@;
        let ghost rotw = self.rotw_country;
        proof {
            lemma_step_keeps_sound(rs0, rotw, round_id, kind, from, to, true);
        }
        let p = self.find_ranking(round_id, kind, from, to)?;
        let entry = self.rankings[p];
        if entry.score == u32::MAX {
            return Err(VoteError::ArithmeticOverflow);
        }
        let count = self.count_rankings_with_score(round_id, kind, from, entry.score + 1);
        let c = #[verifier::truncate] (count as u16);
        if entry.rank < c {
            return Err(VoteError::ArithmeticOverflow);
        }
        let e1 = Ranking { rank: entry.rank - c, ..entry };
        let e1 = self.update_ranking_at(p, e1, kind)?;
        let ghost rs1 = self.rankings@;
        let e2 = Ranking { score: e1.score + 1, ..e1 };
        let e2 = self.update_ranking_at(p, e2, kind)?;
        let ghost rs2 = self.rankings@;
        proof {
            lemma_same_entries_trans(rs0, rs1, rs2);
        }
        let ties = self.rankings_with_score(round_id, kind, from, entry.score);
        let ghost positions = score_positions(rs2, round_id, kind, from, entry.score as int, rs2.len() as int);
        proof {
            lemma_score_positions(rs2, round_id, kind, from, entry.score as int, rs2.len() as int);
            assert(increment_effect(rs0, rotw, round_id, kind, from, to) == tie_effect(rs2, rotw, kind, rs2, positions, true));
        }
        let mut k: usize = 0;
        while k < ties.len()
            invariant
                same_except_rankings(*self, *old(self)),
                rotw == self.rotw_country,
                same_entries(rs0, self.rankings@),
                same_entries(rs0, rs2),
                same_entries(rs2, self.rankings@),
                rs0 == old(self).rankings@,
                rotw == old(self).rotw_country,
                increment_effect(rs0, rotw, round_id, kind, from, to) == tie_effect(rs2, rotw, kind, rs2, positions, true),
                k <= ties@.len(),
                ties@.len() == positions.len(),
                forall|m: int| 0 <= m < ties@.len() ==> {
                    &&& #[trigger] ties@[m].0 as int == positions[m]
                    &&& ties@[m].1 == rs2[ties@[m].0 as int]
                },
                forall|m: int| 0 <= m < positions.len() ==> {
                    let j = #[trigger] positions[m];
                    &&& 0 <= j < rs2.len()
                    &&& in_group(rs2[j], round_id, kind, from)
                },
                tie_effect(rs2, rotw, kind, rs2, positions.take(k as int), true) == Ok::<Seq<Ranking>, VoteError>(self.rankings@),
            decreases ties@.len() - k,
        {
            let (j, q) = ties[k];
            assert(positions.take(k + 1).drop_last() =~= positions.take(k as int));
            assert(positions.take(k + 1).last() == positions[k as int]);
            if q.rank == u16::MAX {
                proof {
                    assert(tie_effect(rs2, rotw, kind, rs2, positions.take(k + 1), true) == Err::<Seq<Ranking>, VoteError>(VoteError::ArithmeticOverflow));
                    lemma_tie_effect_prefix_err(rs2, rotw, kind, rs2, positions, true, k + 1);
                }
                return Err(VoteError::ArithmeticOverflow);
            }
            let q2 = Ranking { rank: q.rank + 1, ..q };
            let ghost before = self.rankings@;
            let res = self.update_ranking_at(j, q2, kind);
            match res {
                Ok(_) => {
                    proof {
                        lemma_same_entries_trans(rs0, before, self.rankings@);
                        lemma_same_entries_trans(rs2, before, self.rankings@);
                    }
                },
                Err(e) => {
                    proof {
                        lemma_tie_effect_prefix_err(rs2, rotw, kind, rs2, positions, true, k + 1);
                    }
                    return Err(e);
                },
            }
            k = k + 1;
        }
        assert(positions.take(k as int) =~= positions);
        Ok(())
    }

    /// Takes one from the score of the entry with the key, keeping every rank of its group
    /// equal to the number of entries that score higher.
    pub fn decrement_ranking_score(&mut self, round_id: u16, kind: RankingKind, from: u16, to: u16) -> (r: Result<(), VoteError>)
        ensures
            same_except_rankings(*final(self), *old(self)),
            match decrement_effect(old(self).rankings@, old(self).rotw_country, round_id, kind, from, to) {
                Ok(rs) => r is Ok && final(self).rankings@ == rs && same_entries(old(self).rankings@, rs),
                Err(e) => r == Err::<(), VoteError>(e),
            },
            r is Ok && kind != RankingKind::Overall && ranks_are_places(old(self).rankings@) && groups_fit(old(self).rankings@)
                ==> scores_moved(old(self).rankings@, final(self).rankings@, round_id, kind, from, to, -1) && ranks_are_places(
                final(self).rankings@,
            ) && groups_fit(final(self).rankings@),
            r is Ok && kind != RankingKind::Overall && old(self).rotw_country is Some && totals_hold(
                old(self).rankings@,
                old(self).rotw_country->Some_0.country_id,
            ) ==> totals_hold(final(self).rankings@, old(self).rotw_country->Some_0.country_id),
        decreases kind_level(kind), 3int, 0int,
    {
        let ghost rs0 = self.rankings@;
        let ghost rotw = self.rotw_country;
        proof {
            lemma_step_keeps_sound(rs0, rotw, round_id, kind, from, to, false);
        }
        let p = self.find_ranking(round_id, kind, from, to)?;
        let entry = self.rankings[p];
        if entry.score == 0 {
            return Err(VoteError::ArithmeticOverflow);
        }
        let ties = self.rankings_with_score(round_id, kind, from, entry.score - 1);
        let ghost positions = score_positions(rs0, round_id, kind, from, entry.score - 1, rs0.len() as int);
        proof {
            lemma_score_positions(rs0, round_id, kind, from, entry.score - 1, rs0.len() as int);
        }
        let mut k: usize = 0;
        while k < ties.len()
            invariant
                same_except_rankings(*self, *old(self)),
                rotw == self.rotw_country,
                same_entries(rs0, self.rankings@),
                rs0 == old(self).rankings@,
                rotw == old(self).rotw_country,
                p < rs0.len(),
                entry == rs0[p as int],
                entry.score != 0,
                lookup(rs0, round_id, kind, from, to) == Ok::<int, VoteError>(p as int),
                positions == score_positions(rs0, round_id, kind, from, entry.score - 1, rs0.len() as int),
                k <= ties@.len(),
                ties@.len() == positions.len(),
                forall|m: int| 0 <= m < ties@.len() ==> {
                    &&& #[trigger] ties@[m].0 as int == positions[m]
                    &&& ties@[m].1 == rs0[ties@[m].0 as int]
                },
                forall|m: int| 0 <= m < positions.len() ==> {
                    let j = #[trigger] positions[m];
                    &&& 0 <= j < rs0.len()
                    &&& in_group(rs0[j], round_id, kind, from)
                },
                tie_effect(rs0, rotw, kind, rs0, positions.take(k as int), false) == Ok::<Seq<Ranking>, VoteError>(self.rankings@),
            decreases ties@.len() - k,
        {
            let (j, q) = ties[k];
            assert(positions.take(k + 1).drop_last() =~= positions.take(k as int));
            assert(positions.take(k + 1).last() == positions[k as int]);
            if q.rank == 0 {
                proof {
                    assert(tie_effect(rs0, rotw, kind, rs0, positions.take(k + 1), false) == Err::<Seq<Ranking>, VoteError>(VoteError::ArithmeticOverflow));
                    lemma_tie_effect_prefix_err(rs0, rotw, kind, rs0, positions, false, k + 1);
                    assert(lookup(rs0, round_id, kind, from, to) == Ok::<int, VoteError>(p as int));
                    assert(tie_effect(rs0, rotw, kind, rs0, positions, false) == Err::<Seq<Ranking>, VoteError>(VoteError::ArithmeticOverflow));
                    assert(decrement_effect(rs0, rotw, round_id, kind, from, to) == Err::<Seq<Ranking>, VoteError>(VoteError::ArithmeticOverflow));
                }
                return Err(VoteError::ArithmeticOverflow);
            }
            let q2 = Ranking { rank: q.rank - 1, ..q };
            let ghost before = self.rankings@;
            let res = self.update_ranking_at(j, q2, kind);
            match res {
                Ok(_) => {
                    proof {
                        lemma_same_entries_trans(rs0, before, self.rankings@);
                    }
                },
                Err(e) => {
                    proof {
                        lemma_tie_effect_prefix_err(rs0, rotw, kind, rs0, positions, false, k + 1);
                    }
                    return Err(e);
                },
            }
            k = k + 1;
        }
        assert(positions.take(k as int) =~= positions);
        let ghost rs1 = self.rankings@;
        let e1 = Ranking { score: entry.score - 1, ..entry };
        let e1 = self.update_ranking_at(p, e1, kind)?;
        let ghost rs2 = self.rankings@;
        proof {
            lemma_same_entries_trans(rs0, rs1, rs2);
        }
        let count = self.count_rankings_with_score(round_id, kind, from, e1.score + 1);
        let c = #[verifier::truncate] (count as u16);
        if e1.rank as u32 + c as u32 > u16::MAX as u32 {
            return Err(VoteError::ArithmeticOverflow);
        }
        let e2 = Ranking { rank: e1.rank + c, ..e1 };
        self.update_ranking_at(p, e2, kind)?;
        proof {
            lemma_same_entries_trans(rs0, rs2, self.rankings@);
        }
        Ok(())
    }
}

/// The rankings with this id.
pub open spec fn ranking_with_id(id: u64) -> spec_fn(Ranking) -> bool {
    |r: Ranking| r.id == id
}

/// Creating a ranking entry: its key must be new and name a round, a giving country and a
/// participating receiver.
pub open spec fn create_ranking_effect(
    t: Tables,
    round_id: u16,
    kind: RankingKind,
    from: u16,
    to: u16,
    score: u32,
    rank: u16,
) -> Result<(Tables, Ranking), VoteError> {
    if key_present(t.rankings, round_id, kind, from, to) {
        Err(VoteError::UniqueViolation(Table::Ranking))
    } else if !any_match(t.rounds, round_with_id(round_id)) || !any_match(t.countries, country_with_id(from))
        || !any_match(t.participating_countries, participating_with_id(to)) {
        Err(VoteError::ReferenceIntegrityViolation(Table::Ranking))
    } else if t.sequences.ranking == u64::MAX {
        Err(VoteError::AutoIncOverflow(Table::Ranking))
    } else {
        let row = Ranking {
            id: (t.sequences.ranking + 1) as u64,
            round_id,
            kind,
            from_country_id: from,
            to_country_id: to,
            score,
            rank,
        };
        if any_match(t.rankings, ranking_with_id(row.id)) {
            Err(VoteError::UniqueViolation(Table::Ranking))
        } else {
            Ok((Tables { rankings: t.rankings.push(row), sequences: Sequences { ranking: row.id, ..t.sequences }, ..t }, row))
        }
    }
}

impl Database {
    /// Create a row in the `ranking` table.
    pub fn create_ranking(
        &mut self,
        round_id: u16,
        kind: RankingKind,
        from: u16,
        to: u16,
        score: u32,
        rank: u16,
    ) -> (r: Result<Ranking, VoteError>)
        ensures
            match create_ranking_effect(old(self)@, round_id, kind, from, to, score, rank) {
                Ok((t, row)) => r == Ok::<Ranking, VoteError>(row) && final(self)@ == t,
                Err(e) => r == Err::<Ranking, VoteError>(e) && final(self)@ == old(self)@,
            },
    {
        let mut i: usize = 0;
        while i < self.rankings.len()
            invariant
                i <= self.rankings@.len(),
                forall|j: int| 0 <= j < i ==> !#[trigger] has_key(self.rankings@[j], round_id, kind, from, to),
            decreases self.rankings@.len() - i,
        {
            let r = self.rankings[i];
            if r.round_id == round_id && r.kind == kind && r.from_country_id == from && r.to_country_id == to {
                assert(has_key(self.rankings@[i as int], round_id, kind, from, to));
                return Err(VoteError::UniqueViolation(Table::Ranking));
            }
            i = i + 1;
        }
        if !self.round_exists(round_id) || !self.country_exists(from) || !self.participating_country_exists(to) {
            return Err(VoteError::ReferenceIntegrityViolation(Table::Ranking));
        }
        if self.sequences.ranking == u64::MAX {
            return Err(VoteError::AutoIncOverflow(Table::Ranking));
        }
        let row = Ranking {
            id: self.sequences.ranking + 1,
            round_id,
            kind,
            from_country_id: from,
            to_country_id: to,
            score,
            rank,
        };
        let mut k: usize = 0;
        while k < self.rankings.len()
            invariant
                k <= self.rankings@.len(),
                !key_present(self@.rankings, round_id, kind, from, to),
                any_match(self@.rounds, round_with_id(round_id)),
                any_match(self@.countries, country_with_id(from)),
                any_match(self@.participating_countries, participating_with_id(to)),
                self.sequences.ranking != u64::MAX,
                row == (Ranking { id: (self.sequences.ranking + 1) as u64, round_id, kind, from_country_id: from, to_country_id: to, score, rank }),
                forall|j: int| 0 <= j < k ==> !ranking_with_id(row.id)(#[trigger] self.rankings@[j]),
            decreases self.rankings@.len() - k,
        {
            if self.rankings[k].id == row.id {
                assert(ranking_with_id(row.id)(self.rankings@[k as int]));
                return Err(VoteError::UniqueViolation(Table::Ranking));
            }
            k = k + 1;
        }
        self.rankings.push(row);
        self.sequences.ranking = row.id;
        Ok(row)
    }
}

impl RankingKind {
    /// The name by which the kind is displayed.
    pub fn display_name(&self) -> (s: &'static str)
        ensures
            s@ == match *self {
                RankingKind::TeleVote => "TeleVote"@,
                RankingKind::JuryVote => "JuryVote"@,
                RankingKind::Overall => "Overall"@,
            },
    {
        match self {
            RankingKind::TeleVote => "TeleVote",
            RankingKind::JuryVote => "JuryVote",
            RankingKind::Overall => "Overall",
        }
    }
}

} // verus!
