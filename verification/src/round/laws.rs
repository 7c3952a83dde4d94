use vstd::prelude::*;

use crate::database::{any_match, first_match, lemma_first_match_at, Tables};
use crate::round::admin::{add_finalists_effect, advance_round_effect, finalist_ids, lemma_add_finalists_frame, qualifiers};
use crate::round::{
    active_round_spec, create_round_effect, round_by_year_and_kind, round_position, round_with_id, round_with_year_and_kind, Round,
    RoundKind,
};

verus! {

/// The place of a kind in the contest year: first semi-final, second, grand final.
pub open spec fn kind_order(kind: RoundKind) -> int {
    match kind {
        RoundKind::SemiFinal1 => 0,
        RoundKind::SemiFinal2 => 1,
        RoundKind::GrandFinal => 2,
    }
}

/// No two rounds share an id.
pub open spec fn round_ids_distinct(rounds: Seq<Round>) -> bool {
    forall|i: int, j: int| 0 <= i < j < rounds.len() ==> #[trigger] rounds[i].id != #[trigger] rounds[j].id
}

/// Where round ids are distinct, the round with an id is the one at its position.
pub proof fn lemma_round_at(rounds: Seq<Round>, c: int)
    requires
        round_ids_distinct(rounds),
        0 <= c < rounds.len(),
    ensures
        first_match(rounds, round_with_id(rounds[c].id)) == Some(rounds[c]),
        round_position(rounds, rounds[c].id) == c,
{
    let id = rounds[c].id;
    assert forall|j: int| 0 <= j < c implies !round_with_id(id)(#[trigger] rounds[j]) by {
        assert(rounds[j].id != rounds[c].id);
    }
    lemma_first_match_at(rounds, round_with_id(id), c);
    assert(0 <= c < rounds.len() && round_with_id(id)(rounds[c]) && forall|j: int|
        0 <= j < c ==> !round_with_id(id)(rounds[j]));
    let k = round_position(rounds, id);
    assert(0 <= k < rounds.len() && round_with_id(id)(rounds[k]));
    if k != c {
        if k < c {
            assert(rounds[k].id != rounds[c].id);
        } else {
            assert(rounds[c].id != rounds[k].id);
        }
    }
}

/// Writing a round back over the stored one with its id keeps round ids distinct.
pub proof fn lemma_update_round_distinct(rounds: Seq<Round>, id: u16, round: Round)
    requires
        round_ids_distinct(rounds),
        any_match(rounds, round_with_id(id)),
        round.id == id,
    ensures
        round_ids_distinct(rounds.update(round_position(rounds, id), round)),
{
    let c = choose|c: int| 0 <= c < rounds.len() && #[trigger] round_with_id(id)(rounds[c]);
    lemma_round_at(rounds, c);
    let out = rounds.update(c, round);
    assert forall|i: int, j: int| 0 <= i < j < out.len() implies #[trigger] out[i].id != #[trigger] out[j].id by {
        assert(rounds[i].id != rounds[j].id);
    }
}

/// The round that a successful lookup by year and kind finds is one of the rounds, of that
/// year and kind.
pub proof fn lemma_round_by_year_and_kind_found(rounds: Seq<Round>, year: u16, kind: RoundKind)
    requires
        round_by_year_and_kind(rounds, year, kind) is Ok,
    ensures
        ({
            let r = round_by_year_and_kind(rounds, year, kind)->Ok_0;
            exists|c: int| 0 <= c < rounds.len() && rounds[c] == r && r.year == year && r.kind == kind
        }),
{
    let p = round_with_year_and_kind(year, kind);
    let c = choose|i: int| 0 <= i < rounds.len() && #[trigger] p(rounds[i]) && forall|j: int| 0 <= j < i ==> !p(rounds[j]);
    assert(0 <= c < rounds.len() && p(rounds[c]));
}

/// A contest only moves forward: when `advance_round` succeeds and leaves a round active,
/// that round is of the same year as the round that was active, and of the same kind or a
/// later one; of the same kind only where it is the same round, whose voting was open and
/// is now closed. Round ids stay distinct.
pub proof fn law_advance_round_moves_forward(t: Tables, s1: Seq<([u64; 14], u16)>, s2: Seq<([u64; 14], u16)>)
    requires
        round_ids_distinct(t.rounds),
        advance_round_effect(t, s1, s2) is Ok,
        active_round_spec(advance_round_effect(t, s1, s2)->Ok_0) is Some,
    ensures
        ({
            let out = advance_round_effect(t, s1, s2)->Ok_0;
            let r = active_round_spec(t)->Some_0;
            let r2 = active_round_spec(out)->Some_0;
            &&& active_round_spec(t) is Some
            &&& r2.year == r.year
            &&& kind_order(r2.kind) >= kind_order(r.kind)
            &&& r2.kind == r.kind ==> r2.id == r.id && r.voting_open && !r2.voting_open
            &&& round_ids_distinct(out.rounds)
        }),
{
    let out = advance_round_effect(t, s1, s2)->Ok_0;
    let a = t.active_round->Some_0;
    let cur = first_match(t.rounds, round_with_id(a.round_id))->Some_0;
    let p = round_with_id(a.round_id);
    let c = choose|i: int| 0 <= i < t.rounds.len() && #[trigger] p(t.rounds[i]) && forall|j: int| 0 <= j < i ==> !p(t.rounds[j]);
    assert(0 <= c < t.rounds.len() && p(t.rounds[c]));
    lemma_round_at(t.rounds, c);
    assert(cur == t.rounds[c]);
    if cur.voting_open {
        let closed = Round { voting_open: false, ..cur };
        assert(out.rounds == t.rounds.update(c, closed));
        assert(out.active_round == t.active_round);
        assert(round_ids_distinct(out.rounds)) by {
            assert forall|i: int, j: int| 0 <= i < j < out.rounds.len() implies #[trigger] out.rounds[i].id
                != #[trigger] out.rounds[j].id by {
                assert(t.rounds[i].id != t.rounds[j].id);
            }
        }
        lemma_round_at(out.rounds, c);
    } else {
        match cur.kind {
            RoundKind::SemiFinal1 => {
                lemma_round_by_year_and_kind_found(t.rounds, cur.year, RoundKind::SemiFinal2);
                let sf2 = round_by_year_and_kind(t.rounds, cur.year, RoundKind::SemiFinal2)->Ok_0;
                let k = choose|k: int| 0 <= k < t.rounds.len() && t.rounds[k] == sf2 && sf2.year == cur.year && sf2.kind
                    == RoundKind::SemiFinal2;
                lemma_round_at(t.rounds, k);
                assert(out.rounds == t.rounds);
            },
            RoundKind::SemiFinal2 => {
                let t1 = create_round_effect(t, cur.year, RoundKind::GrandFinal, true)->Ok_0.0;
                let gf = create_round_effect(t, cur.year, RoundKind::GrandFinal, true)->Ok_0.1;
                let countries = qualifiers(s1) + qualifiers(s2) + finalist_ids(t.participating_countries);
                lemma_add_finalists_frame(t1, gf.id, countries);
                let t2 = add_finalists_effect(t1, gf.id, countries)->Ok_0;
                assert(t2.rounds == t.rounds.push(gf));
                assert(out.rounds == t.rounds.push(gf));
                assert forall|i: int| 0 <= i < t.rounds.len() implies #[trigger] t.rounds[i].id != gf.id by {
                    if t.rounds[i].id == gf.id {
                        assert(round_with_id(gf.id)(t.rounds[i]));
                    }
                }
                assert(round_ids_distinct(out.rounds)) by {
                    assert forall|i: int, j: int| 0 <= i < j < out.rounds.len() implies #[trigger] out.rounds[i].id
                        != #[trigger] out.rounds[j].id by {
                        if j < t.rounds.len() {
                            assert(t.rounds[i].id != t.rounds[j].id);
                        } else {
                            assert(out.rounds[j] == gf);
                            assert(out.rounds[i] == t.rounds[i]);
                        }
                    }
                }
                assert(out.rounds[t.rounds.len() as int] == gf);
                lemma_round_at(out.rounds, t.rounds.len() as int);
            },
            RoundKind::GrandFinal => {
                assert(out.active_round is None);
            },
        }
    }
}

} // verus!
