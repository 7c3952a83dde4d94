use eurovote::database::Database;
use eurovote::error::{Table, VoteError};
use eurovote::ranking::RankingKind;
use eurovote::round::admin::QUALIFIERS_PER_SEMI;
use eurovote::round::{Round, RoundKind};
use eurovote::user::Identity;
use eurovote::voter::{ViewerInfo, VoterRole};

const ROTW: u16 = 11;
/// The host and the Big 5: Switzerland, France, Germany, Italy, Spain, United Kingdom.
const FINALISTS: [u16; 6] = [2, 3, 4, 5, 6, 7];

fn advance_to_grand_final(db: &mut Database) {
    for _ in 0..4 {
        db.advance_round().unwrap();
    }
}

#[test]
fn semi_finals_split_the_participants_but_the_automatic_finalists() {
    let mut db = Database::init();
    db.create_semi_finals(2025).unwrap();
    assert_eq!(db.rounds[0], Round { id: 1, year: 2025, kind: RoundKind::SemiFinal1, voting_open: true });
    assert_eq!(db.rounds[1], Round { id: 2, year: 2025, kind: RoundKind::SemiFinal2, voting_open: true });
    // Sweden, Norway, Finland and Ukraine compete, dealt alternately
    assert_eq!(db.get_participants_by_round_id(1), vec![1, 9]);
    assert_eq!(db.get_participants_by_round_id(2), vec![8, 10]);
    assert_eq!(db.get_active_round().unwrap().round_id, 1);
    assert_eq!(db.active_round_view(), Some(db.rounds[0]));
}

#[test]
fn performers_get_empty_rankings() {
    let mut db = Database::init();
    db.create_semi_finals(2025).unwrap();
    // per performer: a televote entry from each of the eleven countries and an overall one
    assert_eq!(db.rankings.len(), 4 * 12);
    assert!(db.rankings.iter().all(|r| r.score == 0 && r.rank == 0));
    assert!(db.rankings.iter().all(|r| r.kind != RankingKind::JuryVote));
    assert!(db.find_ranking(1, RankingKind::TeleVote, 11, 9).is_ok());
    assert!(db.find_ranking(1, RankingKind::Overall, ROTW, 1).is_ok());
    advance_to_grand_final(&mut db);
    // the ten finalists have televote, jury and overall entries
    let gf: Vec<_> = db.rankings.iter().filter(|r| r.round_id == 3).collect();
    assert_eq!(gf.len(), 10 * (11 + 10 + 1));
    assert!(db.find_ranking(3, RankingKind::JuryVote, 1, 3).is_ok());
}

#[test]
fn semi_finals_of_a_year_are_created_once() {
    let mut db = Database::init();
    db.create_semi_finals(2025).unwrap();
    let rounds = db.rounds.clone();
    let participations = db.participations.clone();
    let rankings = db.rankings.clone();
    assert_eq!(db.create_semi_finals(2025), Err(VoteError::UniqueViolation(Table::Round)));
    assert_eq!(db.rounds, rounds);
    assert_eq!(db.participations, participations);
    assert_eq!(db.rankings, rankings);
    assert_eq!(db.get_active_round().unwrap().round_id, 1);
}

#[test]
fn a_new_year_becomes_the_active_round() {
    let mut db = Database::init();
    db.create_semi_finals(2025).unwrap();
    db.create_semi_finals(2026).unwrap();
    assert_eq!(db.get_active_round().unwrap().round_id, 3);
    assert_eq!(db.get_round_by_year_and_kind(2026, RoundKind::SemiFinal2).unwrap().id, 4);
}

#[test]
fn the_first_call_closes_the_voting() {
    let mut db = Database::init();
    db.create_semi_finals(2025).unwrap();
    db.advance_round().unwrap();
    assert!(!db.get_round_by_id(1).unwrap().voting_open);
    assert_eq!(db.get_active_round().unwrap().round_id, 1);
    db.advance_round().unwrap();
    assert_eq!(db.get_active_round().unwrap().round_id, 2);
    assert!(db.get_round_by_id(2).unwrap().voting_open);
}

#[test]
fn the_best_of_each_semi_final_and_the_automatic_finalists_reach_the_grand_final() {
    let mut db = Database::init();
    db.create_semi_finals(2025).unwrap();
    // Finland leads the first semi-final, Ukraine the second
    db.increment_ranking_score(1, RankingKind::Overall, ROTW, 9).unwrap();
    db.increment_ranking_score(2, RankingKind::Overall, ROTW, 10).unwrap();
    advance_to_grand_final(&mut db);
    let gf = db.get_round_by_year_and_kind(2025, RoundKind::GrandFinal).unwrap();
    assert_eq!(gf, Round { id: 3, year: 2025, kind: RoundKind::GrandFinal, voting_open: true });
    assert_eq!(db.get_active_round().unwrap().round_id, 3);
    assert_eq!(db.get_participants_by_round_id(3), vec![9, 1, 10, 8, 2, 3, 4, 5, 6, 7]);
}

#[test]
fn automatic_finalists_perform_even_without_rankings() {
    let mut db = Database::init();
    let sf1 = db.create_round(2025, RoundKind::SemiFinal1, false).unwrap();
    let sf2 = db.create_round(2025, RoundKind::SemiFinal2, false).unwrap();
    db.create_active_round(sf2.id).unwrap();
    db.advance_round().unwrap();
    assert_eq!(db.get_participants_by_round_id(3), FINALISTS.to_vec());
    assert!(db.get_participants_by_round_id(sf1.id).is_empty());
}

#[test]
fn ties_go_to_the_country_with_more_televote_givers() {
    let mut db = Database::init();
    db.create_semi_finals(2025).unwrap();
    // six countries give Sweden 12 and Finland 10; Norway gives Finland 12: both have 72,
    // Finland from seven countries, Sweden from six
    for (n, country) in [2u16, 3, 4, 5, 6, 7].iter().enumerate() {
        let id = Identity { high: 1, low: n as u128 };
        db.register(id, VoterRole::Viewer(ViewerInfo { country_id: *country })).unwrap();
        db.submit_tele_votes(id, vec![1, 1, 9]).unwrap();
    }
    let norway = Identity { high: 2, low: 0 };
    db.register(norway, VoterRole::Viewer(ViewerInfo { country_id: 8 })).unwrap();
    db.submit_tele_votes(norway, vec![9]).unwrap();
    let sweden = db.rankings.iter().find(|r| r.round_id == 1 && r.kind == RankingKind::Overall && r.to_country_id == 1);
    let finland = db.rankings.iter().find(|r| r.round_id == 1 && r.kind == RankingKind::Overall && r.to_country_id == 9);
    assert_eq!((sweden.unwrap().score, sweden.unwrap().rank), (72, 0));
    assert_eq!((finland.unwrap().score, finland.unwrap().rank), (72, 0));
    advance_to_grand_final(&mut db);
    assert_eq!(&db.get_participants_by_round_id(3)[0..2], &[9, 1]);
}

#[test]
fn at_most_ten_of_each_semi_final_qualify() {
    let mut db = Database::init();
    for n in 0..24u16 {
        let c = db.create_country(format!("Country {n}"), None).unwrap();
        db.create_participating_country(c, false).unwrap();
    }
    db.create_semi_finals(2025).unwrap();
    assert_eq!(db.get_participants_by_round_id(1).len(), 14);
    // the last performer of the first semi-final gets a point and leads
    let last = *db.get_participants_by_round_id(1).last().unwrap();
    db.increment_ranking_score(1, RankingKind::Overall, ROTW, last).unwrap();
    advance_to_grand_final(&mut db);
    let finalists = db.get_participants_by_round_id(3);
    assert_eq!(finalists.len(), 2 * QUALIFIERS_PER_SEMI + 6);
    assert_eq!(finalists[0], last);
    assert_eq!(&finalists[1..10], &[1, 9, 11, 13, 15, 17, 19, 21, 23]);
    assert_eq!(&finalists[10..20], &[8, 10, 12, 14, 16, 18, 20, 22, 24, 26]);
    assert_eq!(&finalists[20..26], &FINALISTS);
}

#[test]
fn after_the_grand_final_no_round_is_active() {
    let mut db = Database::init();
    db.create_semi_finals(2025).unwrap();
    advance_to_grand_final(&mut db);
    assert_eq!(db.active_round_view().unwrap().kind, RoundKind::GrandFinal);
    db.advance_round().unwrap();
    assert!(!db.get_round_by_id(3).unwrap().voting_open);
    db.advance_round().unwrap();
    assert_eq!(db.active_round_view(), None);
    assert_eq!(db.advance_round(), Err(VoteError::NotFound(Table::ActiveRound)));
}

#[test]
fn the_grand_final_needs_the_first_semi_final() {
    let mut db = Database::init();
    let sf2 = db.create_round(2025, RoundKind::SemiFinal2, false).unwrap();
    db.create_active_round(sf2.id).unwrap();
    assert_eq!(db.advance_round(), Err(VoteError::NotFound(Table::Round)));
    assert_eq!(db.get_active_round().unwrap().round_id, sf2.id);
    assert!(db.get_round_by_year_and_kind(2025, RoundKind::GrandFinal).is_err());
}

#[test]
fn rounds_are_found_by_year_and_kind() {
    let mut db = Database::init();
    db.create_semi_finals(2025).unwrap();
    assert_eq!(db.get_round_by_year_and_kind(2025, RoundKind::SemiFinal1).unwrap().id, 1);
    assert_eq!(
        db.get_round_by_year_and_kind(2024, RoundKind::SemiFinal1),
        Err(VoteError::NotFound(Table::Round))
    );
    assert_eq!(db.get_round_by_id(9), Err(VoteError::NotFound(Table::Round)));
    assert!(db.round_exists(2));
    assert!(!db.round_exists(3));
}

#[test]
fn the_active_round_is_single() {
    let mut db = Database::init();
    db.create_semi_finals(2025).unwrap();
    assert_eq!(db.create_active_round(2), Err(VoteError::UniqueViolation(Table::ActiveRound)));
    db.delete_active_round().unwrap();
    assert_eq!(db.delete_active_round(), Err(VoteError::NotFound(Table::ActiveRound)));
    assert_eq!(db.create_active_round(9), Err(VoteError::ReferenceIntegrityViolation(Table::ActiveRound)));
    db.create_active_round(2).unwrap();
    assert_eq!(db.active_round_view().unwrap().id, 2);
}

#[test]
fn a_round_can_be_updated_by_id() {
    let mut db = Database::init();
    db.create_semi_finals(2025).unwrap();
    let closed = Round { voting_open: false, ..db.get_round_by_id(2).unwrap() };
    db.update_round_by_id(closed).unwrap();
    assert_eq!(db.get_round_by_id(2).unwrap(), closed);
    let missing = Round { id: 9, year: 1999, ..closed };
    assert_eq!(db.update_round_by_id(missing), Err(VoteError::NotFound(Table::Round)));
    let clash = Round { id: 1, ..closed };
    assert_eq!(db.update_round_by_id(clash), Err(VoteError::UniqueViolation(Table::Round)));
}

#[test]
fn participations_refer_to_existing_rows() {
    let mut db = Database::init();
    db.create_semi_finals(2025).unwrap();
    assert_eq!(db.create_participation(9, 1), Err(VoteError::ReferenceIntegrityViolation(Table::Participation)));
    assert_eq!(db.create_participation(1, 42), Err(VoteError::ReferenceIntegrityViolation(Table::Participation)));
    let p = db.create_participation(1, 2).unwrap();
    assert_eq!((p.round_id, p.participating_country_id), (1, 2));
    assert_eq!(db.get_participants_by_round_id(1), vec![1, 9, 2]);
}

#[test]
fn a_performer_needs_the_rest_of_the_world() {
    let mut db = Database::new();
    let c = db.create_country("A".to_string(), None).unwrap();
    let p = db.create_participating_country(c, false).unwrap();
    let round = db.create_round(2025, RoundKind::SemiFinal1, true).unwrap();
    assert_eq!(db.add_performer(round.id, p.id, false), Err(VoteError::NotFound(Table::RotwCountry)));
}

fn kind_order(kind: RoundKind) -> u8 {
    match kind {
        RoundKind::SemiFinal1 => 0,
        RoundKind::SemiFinal2 => 1,
        RoundKind::GrandFinal => 2,
    }
}

#[test]
fn the_contest_only_moves_forward() {
    let mut db = Database::init();
    db.create_semi_finals(2025).unwrap();
    let mut before = db.active_round_view().unwrap();
    for _ in 0..4 {
        db.advance_round().unwrap();
        let after = db.active_round_view().unwrap();
        assert_eq!(after.year, before.year);
        assert!(kind_order(after.kind) >= kind_order(before.kind));
        if after.kind == before.kind {
            assert_eq!(after.id, before.id);
            assert!(before.voting_open && !after.voting_open);
        } else {
            assert!(after.voting_open);
        }
        before = after;
    }
    let mut ids: Vec<u16> = db.rounds.iter().map(|r| r.id).collect();
    ids.dedup();
    assert_eq!(ids.len(), db.rounds.len());
}
