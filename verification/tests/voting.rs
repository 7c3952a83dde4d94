use eurovote::database::Database;
use eurovote::error::{Table, VoteError};
use eurovote::ranking::{get_points, RankingKind};
use eurovote::user::Identity;
use eurovote::vote::AVAILABLE_TELE_VOTES;
use eurovote::voter::{JurorInfo, ViewerInfo, VoterRole};

const ROTW: u16 = 11;
const SWEDEN: u16 = 1;
const SWITZERLAND: u16 = 2;
const FRANCE: u16 = 3;
const GERMANY: u16 = 4;
const NORWAY: u16 = 8;
const FINLAND: u16 = 9;

fn identity(n: u128) -> Identity {
    Identity { high: 0, low: n }
}

/// The seeded countries and both semi-finals of 2025, the first active: Sweden and
/// Finland perform in the first, Norway and Ukraine in the second.
fn contest() -> Database {
    let mut db = Database::init();
    db.create_semi_finals(2025).unwrap();
    db
}

fn viewer(db: &mut Database, n: u128, country_id: u16) -> Identity {
    let id = identity(n);
    db.register(id, VoterRole::Viewer(ViewerInfo { country_id })).unwrap();
    id
}

fn juror(db: &mut Database, n: u128, participating_country_id: u16) -> Identity {
    let id = identity(n);
    db.register(id, VoterRole::Juror(JurorInfo { participating_country_id, name: format!("Juror {n}") })).unwrap();
    id
}

/// What a juror's rank weighs: 4096 halved once per place.
fn weight(rank: u16) -> usize {
    if rank > 12 {
        0
    } else {
        4096 >> rank
    }
}

fn score(db: &Database, round_id: u16, kind: RankingKind, from: u16, to: u16) -> (u32, u16) {
    let r = db
        .rankings
        .iter()
        .find(|r| r.round_id == round_id && r.kind == kind && r.from_country_id == from && r.to_country_id == to)
        .expect("the entry exists");
    (r.score, r.rank)
}

fn overall(db: &Database, round_id: u16, to: u16) -> u32 {
    score(db, round_id, RankingKind::Overall, ROTW, to).0
}

fn totals_hold(db: &Database) -> bool {
    db.rankings.iter().filter(|r| r.kind == RankingKind::Overall).all(|o| {
        let owed: u32 = db
            .rankings
            .iter()
            .filter(|q| q.kind != RankingKind::Overall && q.round_id == o.round_id && q.to_country_id == o.to_country_id)
            .map(|q| get_points(q) as u32)
            .sum();
        o.score == owed
    })
}

/// Every televote entry counts the televotes of its giver's viewers, and every jury entry
/// adds up, for the votes of its giver's jurors, the performers of the round minus the rank.
fn tallies_hold(db: &Database) -> bool {
    db.rankings.iter().all(|r| match r.kind {
        RankingKind::TeleVote => {
            let n = db
                .tele_votes
                .iter()
                .filter(|v| {
                    v.round_id == r.round_id
                        && v.to_country_id == r.to_country_id
                        && db.get_viewer_by_id(v.viewer_id).map(|w| w.country_id) == Ok(r.from_country_id)
                })
                .count();
            r.score as usize == n
        },
        RankingKind::JuryVote => {
            let given: usize = db
                .juror_votes
                .iter()
                .filter(|v| {
                    v.round_id == r.round_id
                        && v.ranked_country_id == r.to_country_id
                        && db
                            .get_juror_by_id(v.juror_id)
                            .ok()
                            .and_then(|j| db.get_participating_country_by_id(j.participating_country_id).ok())
                            .map(|pc| pc.country_id)
                            == Some(r.from_country_id)
                })
                .map(|v| weight(v.rank))
                .sum();
            r.score as usize == given
        },
        RankingKind::Overall => true,
    })
}

fn ranks_are_places(db: &Database) -> bool {
    db.rankings.iter().all(|r| {
        let above = db
            .rankings
            .iter()
            .filter(|q| {
                q.round_id == r.round_id && q.kind == r.kind && q.from_country_id == r.from_country_id && q.score > r.score
            })
            .count();
        r.rank as usize == above
    })
}

/// Closes the voting of the active round and moves on, twice: from the first semi-final to
/// the grand final, where Sweden, Finland, Norway, Ukraine and the six automatic finalists
/// perform.
fn to_grand_final(db: &mut Database) -> u16 {
    for _ in 0..4 {
        db.advance_round().unwrap();
    }
    db.get_active_round().unwrap().round_id
}

/// A ranking of every grand-final performer but Sweden.
fn swedish_ranking() -> Vec<u16> {
    vec![FRANCE, 5, 7, SWITZERLAND, GERMANY, 6, NORWAY, FINLAND, 10]
}

#[test]
fn televotes_count_in_the_viewers_ranking_and_the_overall_one() {
    let mut db = contest();
    let sender = viewer(&mut db, 1, SWITZERLAND);
    db.submit_tele_votes(sender, vec![SWEDEN, SWEDEN, FINLAND]).unwrap();
    assert_eq!(db.tele_votes.len(), 3);
    assert!(db.tele_votes.iter().all(|v| v.viewer_id == 1 && v.round_id == 1));
    assert_eq!(score(&db, 1, RankingKind::TeleVote, SWITZERLAND, SWEDEN), (2, 0));
    assert_eq!(score(&db, 1, RankingKind::TeleVote, SWITZERLAND, FINLAND), (1, 1));
    assert_eq!(overall(&db, 1, SWEDEN), 12);
    assert_eq!(overall(&db, 1, FINLAND), 10);
    assert!(totals_hold(&db));
    assert!(ranks_are_places(&db));
    assert!(tallies_hold(&db));
}

#[test]
fn a_new_submission_replaces_the_viewers_votes() {
    let mut db = contest();
    let sender = viewer(&mut db, 1, SWITZERLAND);
    db.submit_tele_votes(sender, vec![SWEDEN, SWEDEN, FINLAND]).unwrap();
    db.submit_tele_votes(sender, vec![FINLAND]).unwrap();
    let to: Vec<u16> = db.tele_votes.iter().map(|v| v.to_country_id).collect();
    assert_eq!(to, vec![FINLAND]);
    assert_eq!(score(&db, 1, RankingKind::TeleVote, SWITZERLAND, SWEDEN).0, 0);
    assert_eq!(overall(&db, 1, SWEDEN), 0);
    assert_eq!(overall(&db, 1, FINLAND), 12);
    assert!(totals_hold(&db));
    assert!(ranks_are_places(&db));
    assert!(tallies_hold(&db));
}

#[test]
fn votes_of_several_viewers_add_up() {
    let mut db = contest();
    let a = viewer(&mut db, 1, SWITZERLAND);
    let b = viewer(&mut db, 2, GERMANY);
    let c = viewer(&mut db, 3, ROTW);
    db.submit_tele_votes(a, vec![SWEDEN]).unwrap();
    db.submit_tele_votes(b, vec![SWEDEN, FINLAND, FINLAND]).unwrap();
    db.submit_tele_votes(c, vec![FINLAND]).unwrap();
    // Switzerland gives Sweden 12; Germany gives Finland 12 and Sweden 10; the Rest of the
    // World gives Finland 12
    assert_eq!(overall(&db, 1, SWEDEN), 22);
    assert_eq!(overall(&db, 1, FINLAND), 24);
    assert_eq!(score(&db, 1, RankingKind::Overall, ROTW, FINLAND).1, 0);
    assert_eq!(score(&db, 1, RankingKind::Overall, ROTW, SWEDEN).1, 1);
    assert!(totals_hold(&db));
    assert!(ranks_are_places(&db));
    assert!(tallies_hold(&db));
}

#[test]
fn twenty_votes_are_allowed() {
    let mut db = contest();
    let sender = viewer(&mut db, 1, SWITZERLAND);
    db.submit_tele_votes(sender, vec![SWEDEN; AVAILABLE_TELE_VOTES]).unwrap();
    assert_eq!(db.tele_votes.len(), 20);
    assert_eq!(score(&db, 1, RankingKind::TeleVote, SWITZERLAND, SWEDEN), (20, 0));
    assert_eq!(overall(&db, 1, SWEDEN), 12);
}

#[test]
fn more_than_twenty_votes_are_refused() {
    let mut db = contest();
    let sender = viewer(&mut db, 1, SWITZERLAND);
    let before = db.rankings.clone();
    assert_eq!(db.submit_tele_votes(sender, vec![SWEDEN; 21]), Err(VoteError::TooManyVotes));
    assert!(db.tele_votes.is_empty());
    assert_eq!(db.rankings, before);
}

#[test]
fn a_vote_for_the_own_country_is_refused() {
    let mut db = contest();
    let sender = viewer(&mut db, 1, SWEDEN);
    assert_eq!(db.submit_tele_votes(sender, vec![FINLAND, SWEDEN]), Err(VoteError::OwnCountryVote));
    assert!(db.tele_votes.is_empty());
}

#[test]
fn a_vote_for_a_country_outside_the_round_is_refused() {
    let mut db = contest();
    let sender = viewer(&mut db, 1, SWEDEN);
    assert_eq!(db.submit_tele_votes(sender, vec![NORWAY]), Err(VoteError::NotParticipating));
    // the automatic finalists do not perform in the semi-finals
    assert_eq!(db.submit_tele_votes(sender, vec![FRANCE]), Err(VoteError::NotParticipating));
    assert_eq!(db.submit_tele_votes(sender, vec![42]), Err(VoteError::NotFound(Table::ParticipatingCountry)));
    assert!(db.tele_votes.is_empty());
}

#[test]
fn the_first_refused_vote_gives_the_error() {
    let mut db = contest();
    let sender = viewer(&mut db, 1, SWEDEN);
    assert_eq!(db.submit_tele_votes(sender, vec![NORWAY, SWEDEN]), Err(VoteError::NotParticipating));
    assert_eq!(db.submit_tele_votes(sender, vec![SWEDEN, NORWAY]), Err(VoteError::OwnCountryVote));
}

#[test]
fn an_unknown_sender_cannot_vote() {
    let mut db = contest();
    assert_eq!(db.submit_tele_votes(identity(9), vec![SWEDEN]), Err(VoteError::NotFound(Table::User)));
    let j = juror(&mut db, 2, FRANCE);
    assert_eq!(db.submit_tele_votes(j, vec![SWEDEN]), Err(VoteError::NotFound(Table::Viewer)));
}

#[test]
fn without_an_active_round_nobody_votes() {
    let mut db = Database::init();
    let sender = viewer(&mut db, 1, SWITZERLAND);
    assert_eq!(db.submit_tele_votes(sender, vec![SWEDEN]), Err(VoteError::NotFound(Table::ActiveRound)));
}

#[test]
fn a_failing_submission_changes_nothing() {
    let mut db = contest();
    // the ranking of Switzerland lacks Finland
    db.rankings
        .retain(|r| !(r.kind == RankingKind::TeleVote && r.from_country_id == SWITZERLAND && r.to_country_id == FINLAND));
    let sender = viewer(&mut db, 1, SWITZERLAND);
    let rankings = db.rankings.clone();
    let sequences = db.sequences;
    assert_eq!(db.submit_tele_votes(sender, vec![SWEDEN, FINLAND]), Err(VoteError::NotFound(Table::Ranking)));
    assert!(db.tele_votes.is_empty());
    assert_eq!(db.rankings, rankings);
    assert_eq!(db.sequences, sequences);
}

#[test]
fn jurors_vote_only_in_the_grand_final() {
    let mut db = contest();
    let j = juror(&mut db, 1, SWEDEN);
    assert_eq!(db.submit_juror_votes(j, vec![FINLAND]), Err(VoteError::JurorsOnlyInGrandFinal));
}

#[test]
fn a_juror_ranking_weighs_the_places_exponentially() {
    let mut db = contest();
    let j = juror(&mut db, 1, SWEDEN);
    let gf = to_grand_final(&mut db);
    assert_eq!(db.get_participants_by_round_id(gf).len(), 10);
    assert_eq!(db.count_other_performers(gf, SWEDEN), 9);
    db.submit_juror_votes(j, swedish_ranking()).unwrap();
    let ranks: Vec<(u16, u16)> = db.juror_votes.iter().map(|v| (v.ranked_country_id, v.rank)).collect();
    let expected: Vec<(u16, u16)> = swedish_ranking().into_iter().zip(1..).collect();
    assert_eq!(ranks, expected);
    assert_eq!(score(&db, gf, RankingKind::JuryVote, SWEDEN, FRANCE), (2048, 0));
    assert_eq!(score(&db, gf, RankingKind::JuryVote, SWEDEN, 5), (1024, 1));
    assert_eq!(score(&db, gf, RankingKind::JuryVote, SWEDEN, 7), (512, 2));
    assert_eq!(score(&db, gf, RankingKind::JuryVote, SWEDEN, 10), (8, 8));
    assert_eq!(score(&db, gf, RankingKind::JuryVote, SWEDEN, SWEDEN), (0, 9));
    assert_eq!(overall(&db, gf, FRANCE), 12);
    assert_eq!(overall(&db, gf, 5), 10);
    assert_eq!(overall(&db, gf, 7), 8);
    assert_eq!(overall(&db, gf, 10), 2);
    assert!(totals_hold(&db));
    assert!(ranks_are_places(&db));
    assert!(tallies_hold(&db));
}

#[test]
fn jury_and_televote_points_add_up() {
    let mut db = contest();
    let j = juror(&mut db, 1, SWEDEN);
    let v = viewer(&mut db, 2, SWITZERLAND);
    let gf = to_grand_final(&mut db);
    db.submit_juror_votes(j, swedish_ranking()).unwrap();
    db.submit_tele_votes(v, vec![5, 5, FRANCE]).unwrap();
    assert_eq!(overall(&db, gf, FRANCE), 12 + 10);
    assert_eq!(overall(&db, gf, 5), 10 + 12);
    assert!(totals_hold(&db));
    assert!(ranks_are_places(&db));
    assert!(tallies_hold(&db));
}

#[test]
fn a_new_juror_ranking_replaces_the_old() {
    let mut db = contest();
    let j = juror(&mut db, 1, SWEDEN);
    let gf = to_grand_final(&mut db);
    db.submit_juror_votes(j, swedish_ranking()).unwrap();
    let mut reversed = swedish_ranking();
    reversed.reverse();
    db.submit_juror_votes(j, reversed.clone()).unwrap();
    let ranks: Vec<(u16, u16)> = db.juror_votes.iter().map(|v| (v.ranked_country_id, v.rank)).collect();
    let expected: Vec<(u16, u16)> = reversed.into_iter().zip(1..).collect();
    assert_eq!(ranks, expected);
    assert_eq!(score(&db, gf, RankingKind::JuryVote, SWEDEN, 10).0, 2048);
    assert_eq!(score(&db, gf, RankingKind::JuryVote, SWEDEN, FRANCE).0, 8);
    assert_eq!(overall(&db, gf, 10), 12);
    assert_eq!(overall(&db, gf, FRANCE), 2);
    assert!(totals_hold(&db));
    assert!(tallies_hold(&db));
}

#[test]
fn a_juror_cannot_rank_the_own_country() {
    let mut db = contest();
    let j = juror(&mut db, 1, SWEDEN);
    to_grand_final(&mut db);
    let mut ranking = swedish_ranking();
    ranking[3] = SWEDEN;
    assert_eq!(db.submit_juror_votes(j, ranking), Err(VoteError::OwnCountryVote));
    assert!(db.juror_votes.is_empty());
}

#[test]
fn a_juror_must_rank_every_other_performer() {
    let mut db = contest();
    let j = juror(&mut db, 1, SWEDEN);
    to_grand_final(&mut db);
    let rankings = db.rankings.clone();
    assert_eq!(db.submit_juror_votes(j, vec![]), Err(VoteError::IncompleteRanking));
    assert_eq!(db.submit_juror_votes(j, vec![FRANCE, 5, 7]), Err(VoteError::IncompleteRanking));
    let mut longer = swedish_ranking();
    longer.push(FRANCE);
    assert_eq!(db.submit_juror_votes(j, longer), Err(VoteError::IncompleteRanking));
    assert!(db.juror_votes.is_empty());
    assert_eq!(db.rankings, rankings);
}

#[test]
fn a_juror_cannot_rank_a_country_twice() {
    let mut db = contest();
    let j = juror(&mut db, 1, SWEDEN);
    to_grand_final(&mut db);
    let rankings = db.rankings.clone();
    let mut ranking = swedish_ranking();
    ranking[8] = FRANCE;
    assert_eq!(db.submit_juror_votes(j, ranking), Err(VoteError::UniqueViolation(Table::JurorVote)));
    assert!(db.juror_votes.is_empty());
    assert_eq!(db.rankings, rankings);
}

#[test]
fn only_jurors_submit_rankings() {
    let mut db = contest();
    let v = viewer(&mut db, 1, SWEDEN);
    to_grand_final(&mut db);
    assert_eq!(db.submit_juror_votes(v, swedish_ranking()), Err(VoteError::NotFound(Table::Juror)));
    assert_eq!(db.submit_juror_votes(identity(7), swedish_ranking()), Err(VoteError::NotFound(Table::User)));
}

#[test]
fn votes_are_checked_against_the_round() {
    let db = contest();
    assert_eq!(db.validate_votes(1, SWITZERLAND, &vec![SWEDEN, FINLAND]), Ok(()));
    assert_eq!(db.validate_votes(1, SWEDEN, &vec![FINLAND, SWEDEN]), Err(VoteError::OwnCountryVote));
    assert_eq!(db.validate_votes(1, SWEDEN, &vec![NORWAY]), Err(VoteError::NotParticipating));
    assert_eq!(db.validate_votes(2, SWEDEN, &vec![NORWAY]), Ok(()));
    assert_eq!(db.validate_votes(1, SWEDEN, &vec![]), Ok(()));
}

#[test]
fn the_same_televotes_again_change_no_ranking() {
    let mut db = contest();
    let a = viewer(&mut db, 1, SWITZERLAND);
    let b = viewer(&mut db, 2, GERMANY);
    db.submit_tele_votes(a, vec![SWEDEN, FINLAND, SWEDEN]).unwrap();
    db.submit_tele_votes(b, vec![FINLAND]).unwrap();
    let rankings = db.rankings.clone();
    db.submit_tele_votes(a, vec![SWEDEN, FINLAND, SWEDEN]).unwrap();
    assert_eq!(db.rankings, rankings);
    assert_eq!(db.tele_votes.len(), 4);
}

#[test]
fn the_same_juror_ranking_again_changes_no_ranking() {
    let mut db = contest();
    let j = juror(&mut db, 1, SWEDEN);
    to_grand_final(&mut db);
    db.submit_juror_votes(j, swedish_ranking()).unwrap();
    let rankings = db.rankings.clone();
    db.submit_juror_votes(j, swedish_ranking()).unwrap();
    assert_eq!(db.rankings, rankings);
    let ranks: Vec<u16> = db.juror_votes.iter().map(|v| v.rank).collect();
    assert_eq!(ranks, (1..=9).collect::<Vec<u16>>());
}

#[test]
fn a_performer_scores_at_most_twelve_from_each_other_country() {
    let mut db = contest();
    let viewers: Vec<Identity> = (1..=ROTW).map(|c| viewer(&mut db, c as u128, c)).collect();
    let jurors: Vec<(u16, Identity)> = (1..ROTW).filter(|c| *c != FRANCE).map(|c| (c, juror(&mut db, 100 + c as u128, c))).collect();
    let gf = to_grand_final(&mut db);
    for (c, v) in viewers.iter().enumerate() {
        if c as u16 + 1 != FRANCE {
            db.submit_tele_votes(*v, vec![FRANCE]).unwrap();
        }
    }
    for (c, j) in &jurors {
        let mut ranking = vec![FRANCE];
        ranking.extend((1..ROTW).filter(|x| *x != FRANCE && *x != *c));
        db.submit_juror_votes(*j, ranking).unwrap();
    }
    let countries = db.countries.len() as u32;
    let participants = db.participating_countries.len() as u32;
    // every other country's televote and every other participant's jury give France 12
    assert_eq!(overall(&db, gf, FRANCE), 12 * (countries - 1) + 12 * (participants - 1));
    assert_eq!(overall(&db, gf, FRANCE), 228);
    for to in 1..ROTW {
        assert!(overall(&db, gf, to) <= 12 * (countries - 1) + 12 * (participants - 1));
    }
    assert!(totals_hold(&db));
}

#[test]
fn no_televote_is_taken_once_voting_is_closed() {
    let mut db = contest();
    let sender = viewer(&mut db, 1, SWITZERLAND);
    db.submit_tele_votes(sender, vec![SWEDEN]).unwrap();
    db.advance_round().unwrap();
    assert!(!db.active_round_view().unwrap().voting_open);
    let rankings = db.rankings.clone();
    let votes = db.tele_votes.clone();
    let sequences = db.sequences;
    assert_eq!(db.submit_tele_votes(sender, vec![FINLAND]), Err(VoteError::VotingClosed));
    assert_eq!(db.submit_tele_votes(sender, vec![]), Err(VoteError::VotingClosed));
    assert_eq!(db.tele_votes, votes);
    assert_eq!(db.rankings, rankings);
    assert_eq!(db.sequences, sequences);
}

#[test]
fn no_juror_ranking_is_taken_once_the_grand_final_is_closed() {
    let mut db = contest();
    let j = juror(&mut db, 1, SWEDEN);
    to_grand_final(&mut db);
    db.advance_round().unwrap();
    assert!(!db.active_round_view().unwrap().voting_open);
    let rankings = db.rankings.clone();
    assert_eq!(db.submit_juror_votes(j, swedish_ranking()), Err(VoteError::VotingClosed));
    assert!(db.juror_votes.is_empty());
    assert_eq!(db.rankings, rankings);
}

#[test]
fn voting_opens_again_in_the_next_round() {
    let mut db = contest();
    let sender = viewer(&mut db, 1, SWITZERLAND);
    db.advance_round().unwrap();
    assert_eq!(db.submit_tele_votes(sender, vec![SWEDEN]), Err(VoteError::VotingClosed));
    db.advance_round().unwrap();
    // the second semi-final is open: Norway performs there
    db.submit_tele_votes(sender, vec![NORWAY]).unwrap();
    assert_eq!(db.tele_votes.len(), 1);
}

#[test]
fn standings_break_ties_by_televote_points() {
    let mut db = contest();
    let j = juror(&mut db, 1, SWEDEN);
    let v = viewer(&mut db, 2, SWITZERLAND);
    let gf = to_grand_final(&mut db);
    db.submit_juror_votes(j, swedish_ranking()).unwrap();
    db.submit_tele_votes(v, vec![5, 5, FRANCE]).unwrap();
    // 5 and France both have 22; 5 got 12 televote points, France 10
    assert_eq!(overall(&db, gf, 5), overall(&db, gf, FRANCE));
    assert_eq!(
        db.standings(gf),
        Ok(vec![5, FRANCE, 7, SWITZERLAND, GERMANY, 6, NORWAY, FINLAND, 10, SWEDEN])
    );
}

#[test]
fn standings_need_the_rest_of_the_world() {
    let mut db = contest();
    db.rotw_country = None;
    assert_eq!(db.standings(1), Err(VoteError::NotFound(Table::RotwCountry)));
}
