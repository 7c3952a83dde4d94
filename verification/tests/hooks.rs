use eurovote::database::Database;
use eurovote::error::{Table, VoteError};
use eurovote::ranking::{Ranking, RankingKind};
use eurovote::round::RoundKind;
use eurovote::user::Identity;
use eurovote::vote::{JurorVote, TeleVote};
use eurovote::voter::{JurorInfo, ViewerInfo, VoterRole};

const ROTW: u16 = 11;

fn entry(db: &Database, kind: RankingKind, from: u16, to: u16) -> Ranking {
    *db.rankings
        .iter()
        .find(|r| r.kind == kind && r.from_country_id == from && r.to_country_id == to)
        .expect("the entry exists")
}

/// A round with a viewer of Switzerland, a juror of Sweden and the rankings over the
/// receivers 3, 5 and 7.
fn setup() -> (Database, u16) {
    let mut db = Database::init();
    let round = db.create_round(2025, RoundKind::GrandFinal, true).unwrap();
    for to in [3u16, 5, 7] {
        db.create_participation(round.id, to).unwrap();
        db.create_ranking(round.id, RankingKind::TeleVote, 2, to, 0, 0).unwrap();
        db.create_ranking(round.id, RankingKind::JuryVote, 1, to, 0, 0).unwrap();
        db.create_ranking(round.id, RankingKind::Overall, ROTW, to, 0, 0).unwrap();
    }
    db.register(Identity { high: 0, low: 1 }, VoterRole::Viewer(ViewerInfo { country_id: 2 })).unwrap();
    db.register(
        Identity { high: 0, low: 2 },
        VoterRole::Juror(JurorInfo { participating_country_id: 1, name: "Eve".to_string() }),
    )
    .unwrap();
    (db, round.id)
}

#[test]
fn a_created_televote_is_counted() {
    let (mut db, round) = setup();
    let vote = db.create_tele_vote(1, round, 5).unwrap();
    assert_eq!(vote, TeleVote { id: 1, viewer_id: 1, round_id: round, to_country_id: 5 });
    assert_eq!(db.tele_votes, vec![vote]);
    assert_eq!(db.sequences.tele_vote, 1);
    assert_eq!(entry(&db, RankingKind::TeleVote, 2, 5).score, 1);
    assert_eq!(entry(&db, RankingKind::Overall, ROTW, 5).score, 12);
}

#[test]
fn a_televote_needs_its_rows() {
    let (mut db, round) = setup();
    assert_eq!(db.create_tele_vote(9, round, 5), Err(VoteError::ReferenceIntegrityViolation(Table::TeleVote)));
    assert_eq!(db.create_tele_vote(1, 9, 5), Err(VoteError::ReferenceIntegrityViolation(Table::TeleVote)));
    assert_eq!(db.create_tele_vote(1, round, 42), Err(VoteError::ReferenceIntegrityViolation(Table::TeleVote)));
    assert!(db.tele_votes.is_empty());
}

#[test]
fn deleted_televotes_are_uncounted() {
    let (mut db, round) = setup();
    db.create_tele_vote(1, round, 5).unwrap();
    db.create_tele_vote(1, round, 5).unwrap();
    db.create_tele_vote(1, round, 3).unwrap();
    db.delete_tele_votes_by_viewer_and_round(1, round).unwrap();
    assert!(db.tele_votes.is_empty());
    assert_eq!(entry(&db, RankingKind::TeleVote, 2, 5).score, 0);
    assert_eq!(entry(&db, RankingKind::TeleVote, 2, 3).score, 0);
    assert_eq!(entry(&db, RankingKind::Overall, ROTW, 5).score, 0);
    assert_eq!(entry(&db, RankingKind::Overall, ROTW, 3).score, 0);
}

#[test]
fn the_hooks_of_a_televote_count_and_uncount_it() {
    let (mut db, round) = setup();
    let vote = TeleVote { id: 7, viewer_id: 1, round_id: round, to_country_id: 7 };
    db.after_tele_vote_insert(&vote).unwrap();
    assert_eq!(entry(&db, RankingKind::TeleVote, 2, 7).score, 1);
    db.update_tele_ranking(&vote, true).unwrap();
    assert_eq!(entry(&db, RankingKind::TeleVote, 2, 7).score, 2);
    db.after_tele_vote_delete(&vote).unwrap();
    db.after_tele_vote_delete(&vote).unwrap();
    assert_eq!(entry(&db, RankingKind::TeleVote, 2, 7).score, 0);
    let stranger = TeleVote { id: 8, viewer_id: 9, round_id: round, to_country_id: 7 };
    let before = db.rankings.clone();
    assert_eq!(db.after_tele_vote_insert(&stranger), Err(VoteError::NotFound(Table::Viewer)));
    assert_eq!(db.rankings, before);
}

#[test]
fn a_juror_vote_gives_the_performers_minus_its_rank() {
    let (mut db, round) = setup();
    let vote = db.create_juror_vote(1, round, 7, 1).unwrap();
    assert_eq!(vote, JurorVote { id: 1, juror_id: 1, round_id: round, ranked_country_id: 7, rank: 1 });
    // the weight halves with each place: the first place weighs 2048, the third 512
    assert_eq!(entry(&db, RankingKind::JuryVote, 1, 7).score, 2048);
    db.create_juror_vote(1, round, 3, 3).unwrap();
    assert_eq!(entry(&db, RankingKind::JuryVote, 1, 3).score, 512);
    assert_eq!(
        db.create_juror_vote(1, round, 5, 1),
        Err(VoteError::UniqueViolation(Table::JurorVote))
    );
    assert_eq!(
        db.create_juror_vote(1, round, 7, 2),
        Err(VoteError::UniqueViolation(Table::JurorVote))
    );
}

#[test]
fn places_past_the_twelfth_weigh_nothing() {
    let (mut db, round) = setup();
    let vote = JurorVote { id: 9, juror_id: 1, round_id: round, ranked_country_id: 5, rank: 13 };
    db.after_juror_vote_insert(&vote).unwrap();
    assert_eq!(entry(&db, RankingKind::JuryVote, 1, 5).score, 0);
    let twelfth = JurorVote { rank: 12, ..vote };
    db.after_juror_vote_insert(&twelfth).unwrap();
    assert_eq!(entry(&db, RankingKind::JuryVote, 1, 5).score, 1);
}

#[test]
fn a_missing_juror_leaves_the_rankings_alone() {
    let (mut db, round) = setup();
    let before = db.rankings.clone();
    let vote = JurorVote { id: 9, juror_id: 7, round_id: round, ranked_country_id: 5, rank: 1 };
    assert_eq!(db.update_jury_ranking(&vote, true), Err(VoteError::NotFound(Table::Juror)));
    assert_eq!(db.rankings, before);
}

#[test]
fn deleted_juror_votes_are_uncounted() {
    let (mut db, round) = setup();
    let vote = db.create_juror_vote(1, round, 5, 1).unwrap();
    assert_eq!(entry(&db, RankingKind::Overall, ROTW, 5).score, 12);
    db.update_jury_ranking(&vote, false).unwrap();
    assert_eq!(entry(&db, RankingKind::JuryVote, 1, 5).score, 0);
    db.after_juror_vote_insert(&vote).unwrap();
    db.delete_juror_votes_by_juror_and_round(1, round).unwrap();
    assert!(db.juror_votes.is_empty());
    assert_eq!(entry(&db, RankingKind::JuryVote, 1, 5).score, 0);
    assert_eq!(entry(&db, RankingKind::Overall, ROTW, 5).score, 0);
    db.after_juror_vote_insert(&vote).unwrap();
    db.after_juror_vote_delete(&vote).unwrap();
    assert_eq!(entry(&db, RankingKind::JuryVote, 1, 5).score, 0);
}

#[test]
fn the_ranking_hook_moves_the_overall_score_by_the_change_in_points() {
    let (mut db, round) = setup();
    let old = entry(&db, RankingKind::TeleVote, 2, 3);
    let new = Ranking { score: 4, rank: 1, ..old };
    // a second place gives ten points
    db.after_ranking_update(&old, &new).unwrap();
    assert_eq!(entry(&db, RankingKind::Overall, ROTW, 3).score, 10);
    // an overall entry moves nothing
    let overall = entry(&db, RankingKind::Overall, ROTW, 5);
    db.after_ranking_update(&overall, &Ranking { score: 3, ..overall }).unwrap();
    assert_eq!(entry(&db, RankingKind::Overall, ROTW, 5).score, 0);
    let p = db.find_ranking(round, RankingKind::TeleVote, 2, 3).unwrap();
    let written = db.update_ranking_at(p, Ranking { score: 1, rank: 0, ..old }, RankingKind::TeleVote).unwrap();
    assert_eq!(db.rankings[p], written);
    // the first place adds its twelve points to the ten given before
    assert_eq!(entry(&db, RankingKind::Overall, ROTW, 3).score, 22);
}

#[test]
fn a_juror_vote_inserted_then_deleted_changes_no_ranking() {
    let (mut db, round) = setup();
    let warm_up = JurorVote { id: 1, juror_id: 1, round_id: round, ranked_country_id: 3, rank: 2 };
    db.after_juror_vote_insert(&warm_up).unwrap();
    let before = db.rankings.clone();
    let vote = JurorVote { id: 2, juror_id: 1, round_id: round, ranked_country_id: 5, rank: 1 };
    db.after_juror_vote_insert(&vote).unwrap();
    assert_eq!(entry(&db, RankingKind::JuryVote, 1, 5).score, 2048);
    assert_ne!(db.rankings, before);
    db.after_juror_vote_delete(&vote).unwrap();
    assert_eq!(db.rankings, before);
}

#[test]
fn a_televote_inserted_then_deleted_changes_no_ranking() {
    let (mut db, round) = setup();
    let before = db.rankings.clone();
    let vote = TeleVote { id: 3, viewer_id: 1, round_id: round, to_country_id: 3 };
    db.after_tele_vote_insert(&vote).unwrap();
    assert_eq!(entry(&db, RankingKind::Overall, ROTW, 3).score, 12);
    db.after_tele_vote_delete(&vote).unwrap();
    assert_eq!(db.rankings, before);
}

#[test]
fn one_point_more_moves_only_its_entry_and_the_overall_total() {
    let (mut db, round) = setup();
    db.increment_ranking_score(round, RankingKind::TeleVote, 2, 5).unwrap();
    db.increment_ranking_score(round, RankingKind::TeleVote, 2, 7).unwrap();
    db.increment_ranking_score(round, RankingKind::TeleVote, 2, 7).unwrap();
    let before = db.rankings.clone();
    db.increment_ranking_score(round, RankingKind::TeleVote, 2, 5).unwrap();
    for (b, a) in before.iter().zip(db.rankings.iter()) {
        if b.kind == RankingKind::TeleVote && b.to_country_id == 5 {
            assert_eq!(a.score, b.score + 1);
        } else if b.kind != RankingKind::Overall {
            assert_eq!(a.score, b.score);
        }
    }
    // 5 and 7 now tie for the first place and both get 12
    assert_eq!(entry(&db, RankingKind::TeleVote, 2, 5).rank, 0);
    assert_eq!(entry(&db, RankingKind::TeleVote, 2, 7).rank, 0);
    assert_eq!(entry(&db, RankingKind::Overall, ROTW, 5).score, 12);
    assert_eq!(entry(&db, RankingKind::Overall, ROTW, 7).score, 12);
}
