use eurovote::database::Database;
use eurovote::error::{Table, VoteError};
use eurovote::ranking::{get_points, Ranking, RankingKind};
use eurovote::round::RoundKind;

const ROTW: u16 = 11;

fn entry(db: &Database, round_id: u16, kind: RankingKind, from: u16, to: u16) -> Ranking {
    *db.rankings
        .iter()
        .find(|r| r.round_id == round_id && r.kind == kind && r.from_country_id == from && r.to_country_id == to)
        .expect("the entry exists")
}

fn score_and_rank(db: &Database, round_id: u16, kind: RankingKind, from: u16, to: u16) -> (u32, u16) {
    let r = entry(db, round_id, kind, from, to);
    (r.score, r.rank)
}

/// A round with a televote ranking of country 1 over the receivers 2, 3 and 4, and the
/// overall ranking of those receivers.
fn setup() -> (Database, u16) {
    let mut db = Database::init();
    let round = db.create_round(2025, RoundKind::SemiFinal1, true).unwrap();
    for to in [2u16, 3, 4] {
        db.create_ranking(round.id, RankingKind::TeleVote, 1, to, 0, 0).unwrap();
        db.create_ranking(round.id, RankingKind::Overall, ROTW, to, 0, 0).unwrap();
    }
    (db, round.id)
}

/// Every rank is the number of entries of its group with a higher score.
fn ranks_are_places(db: &Database) -> bool {
    db.rankings.iter().all(|r| {
        let above = db
            .rankings
            .iter()
            .filter(|q| {
                q.round_id == r.round_id && q.kind == r.kind && q.from_country_id == r.from_country_id && q.score > r.score
            })
            .count();
        r.rank as usize == above
    })
}

/// Every overall entry holds the points of the televote and jury entries for its receiver.
fn totals_hold(db: &Database) -> bool {
    db.rankings.iter().filter(|r| r.kind == RankingKind::Overall).all(|o| {
        let owed: u32 = db
            .rankings
            .iter()
            .filter(|q| q.kind != RankingKind::Overall && q.round_id == o.round_id && q.to_country_id == o.to_country_id)
            .map(|q| get_points(q) as u32)
            .sum();
        o.score == owed
    })
}

#[test]
fn a_point_lifts_the_entry_over_the_entries_it_leaves_behind() {
    let (mut db, round) = setup();
    db.increment_ranking_score(round, RankingKind::TeleVote, 1, 2).unwrap();
    assert_eq!(score_and_rank(&db, round, RankingKind::TeleVote, 1, 2), (1, 0));
    assert_eq!(score_and_rank(&db, round, RankingKind::TeleVote, 1, 3), (0, 1));
    assert_eq!(score_and_rank(&db, round, RankingKind::TeleVote, 1, 4), (0, 1));
    // the first place gives twelve points to the receiver's overall score
    assert_eq!(score_and_rank(&db, round, RankingKind::Overall, ROTW, 2), (12, 0));
    assert_eq!(score_and_rank(&db, round, RankingKind::Overall, ROTW, 3), (0, 1));
    assert!(ranks_are_places(&db));
    assert!(totals_hold(&db));
}

#[test]
fn tied_entries_share_a_place() {
    let (mut db, round) = setup();
    db.increment_ranking_score(round, RankingKind::TeleVote, 1, 2).unwrap();
    db.increment_ranking_score(round, RankingKind::TeleVote, 1, 3).unwrap();
    assert_eq!(score_and_rank(&db, round, RankingKind::TeleVote, 1, 2), (1, 0));
    assert_eq!(score_and_rank(&db, round, RankingKind::TeleVote, 1, 3), (1, 0));
    assert_eq!(score_and_rank(&db, round, RankingKind::TeleVote, 1, 4), (0, 2));
    assert_eq!(score_and_rank(&db, round, RankingKind::Overall, ROTW, 2), (12, 0));
    assert_eq!(score_and_rank(&db, round, RankingKind::Overall, ROTW, 3), (12, 0));
    assert_eq!(score_and_rank(&db, round, RankingKind::Overall, ROTW, 4), (0, 2));
    assert!(ranks_are_places(&db));
    assert!(totals_hold(&db));
}

#[test]
fn a_point_less_drops_the_entry_behind_those_that_keep_its_score() {
    let (mut db, round) = setup();
    db.increment_ranking_score(round, RankingKind::TeleVote, 1, 2).unwrap();
    db.increment_ranking_score(round, RankingKind::TeleVote, 1, 3).unwrap();
    db.decrement_ranking_score(round, RankingKind::TeleVote, 1, 2).unwrap();
    assert_eq!(score_and_rank(&db, round, RankingKind::TeleVote, 1, 2), (0, 1));
    assert_eq!(score_and_rank(&db, round, RankingKind::TeleVote, 1, 3), (1, 0));
    assert_eq!(score_and_rank(&db, round, RankingKind::TeleVote, 1, 4), (0, 1));
    assert_eq!(score_and_rank(&db, round, RankingKind::Overall, ROTW, 2), (0, 1));
    assert_eq!(score_and_rank(&db, round, RankingKind::Overall, ROTW, 3), (12, 0));
    assert!(ranks_are_places(&db));
    assert!(totals_hold(&db));
}

#[test]
fn a_point_and_a_point_less_give_back_the_rankings() {
    let (mut db, round) = setup();
    db.increment_ranking_score(round, RankingKind::TeleVote, 1, 3).unwrap();
    let before = db.rankings.clone();
    db.increment_ranking_score(round, RankingKind::TeleVote, 1, 2).unwrap();
    db.decrement_ranking_score(round, RankingKind::TeleVote, 1, 2).unwrap();
    assert_eq!(db.rankings, before);
}

#[test]
fn a_second_place_gives_ten_points() {
    let (mut db, round) = setup();
    db.increment_ranking_score(round, RankingKind::TeleVote, 1, 2).unwrap();
    db.increment_ranking_score(round, RankingKind::TeleVote, 1, 2).unwrap();
    db.increment_ranking_score(round, RankingKind::TeleVote, 1, 3).unwrap();
    assert_eq!(score_and_rank(&db, round, RankingKind::TeleVote, 1, 3), (1, 1));
    assert_eq!(score_and_rank(&db, round, RankingKind::Overall, ROTW, 2), (12, 0));
    assert_eq!(score_and_rank(&db, round, RankingKind::Overall, ROTW, 3), (10, 1));
    assert_eq!(score_and_rank(&db, round, RankingKind::Overall, ROTW, 4), (0, 2));
    assert!(ranks_are_places(&db));
    assert!(totals_hold(&db));
}

#[test]
fn overall_entries_move_no_other_entry() {
    let (mut db, round) = setup();
    db.increment_ranking_score(round, RankingKind::Overall, ROTW, 4).unwrap();
    assert_eq!(score_and_rank(&db, round, RankingKind::Overall, ROTW, 4), (1, 0));
    assert_eq!(score_and_rank(&db, round, RankingKind::Overall, ROTW, 2), (0, 1));
    assert_eq!(score_and_rank(&db, round, RankingKind::TeleVote, 1, 4), (0, 0));
}

#[test]
fn a_missing_entry_is_not_found() {
    let (mut db, round) = setup();
    let before = db.rankings.clone();
    assert_eq!(
        db.increment_ranking_score(round, RankingKind::TeleVote, 1, 5),
        Err(VoteError::NotFound(Table::Ranking))
    );
    assert_eq!(
        db.increment_ranking_score(round, RankingKind::JuryVote, 1, 2),
        Err(VoteError::NotFound(Table::Ranking))
    );
    assert_eq!(db.rankings, before);
}

#[test]
fn a_score_of_zero_cannot_fall() {
    let (mut db, round) = setup();
    assert_eq!(
        db.decrement_ranking_score(round, RankingKind::TeleVote, 1, 2),
        Err(VoteError::ArithmeticOverflow)
    );
}

#[test]
fn the_hook_needs_the_rest_of_the_world() {
    let mut db = Database::new();
    let c1 = db.create_country("A".to_string(), None).unwrap();
    let c2 = db.create_country("B".to_string(), None).unwrap();
    let p2 = db.create_participating_country(c2, false).unwrap();
    let round = db.create_round(2025, RoundKind::SemiFinal1, true).unwrap();
    db.create_ranking(round.id, RankingKind::TeleVote, c1, p2.id, 0, 0).unwrap();
    assert_eq!(
        db.increment_ranking_score(round.id, RankingKind::TeleVote, c1, p2.id),
        Err(VoteError::NotFound(Table::RotwCountry))
    );
}

#[test]
fn a_repeated_key_is_refused() {
    let (mut db, round) = setup();
    assert_eq!(
        db.create_ranking(round, RankingKind::TeleVote, 1, 2, 0, 0),
        Err(VoteError::UniqueViolation(Table::Ranking))
    );
    assert_eq!(
        db.create_ranking(round, RankingKind::TeleVote, 1, 99, 0, 0),
        Err(VoteError::ReferenceIntegrityViolation(Table::Ranking))
    );
}

#[test]
fn rankings_are_found_and_counted_by_score() {
    let (mut db, round) = setup();
    db.increment_ranking_score(round, RankingKind::TeleVote, 1, 2).unwrap();
    assert_eq!(db.count_rankings_with_score(round, RankingKind::TeleVote, 1, 0), 2);
    assert_eq!(db.count_rankings_with_score(round, RankingKind::TeleVote, 1, 1), 1);
    let with_zero: Vec<u16> = db
        .rankings_with_score(round, RankingKind::TeleVote, 1, 0)
        .iter()
        .map(|(_, r)| r.to_country_id)
        .collect();
    assert_eq!(with_zero, vec![3, 4]);
    let p = db.find_ranking(round, RankingKind::TeleVote, 1, 2).unwrap();
    assert_eq!((db.rankings[p].score, db.rankings[p].rank), (1, 0));
    assert_eq!(db.find_ranking(round, RankingKind::TeleVote, 1, 7), Err(VoteError::NotFound(Table::Ranking)));
}

#[test]
fn a_point_less_and_a_point_give_back_the_rankings() {
    let (mut db, round) = setup();
    db.increment_ranking_score(round, RankingKind::TeleVote, 1, 3).unwrap();
    db.increment_ranking_score(round, RankingKind::TeleVote, 1, 2).unwrap();
    db.increment_ranking_score(round, RankingKind::TeleVote, 1, 2).unwrap();
    let before = db.rankings.clone();
    db.decrement_ranking_score(round, RankingKind::TeleVote, 1, 2).unwrap();
    assert_eq!(score_and_rank(&db, round, RankingKind::TeleVote, 1, 2), (1, 0));
    assert_eq!(score_and_rank(&db, round, RankingKind::TeleVote, 1, 3), (1, 0));
    db.increment_ranking_score(round, RankingKind::TeleVote, 1, 2).unwrap();
    assert_eq!(db.rankings, before);
}
