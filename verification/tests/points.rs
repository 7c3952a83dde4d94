use eurovote::ranking::{get_points, Ranking, RankingKind};
use eurovote::round::RoundKind;
use eurovote::singleton::Singleton;

fn entry(score: u32, rank: u16) -> Ranking {
    Ranking { id: 1, round_id: 1, kind: RankingKind::TeleVote, from_country_id: 1, to_country_id: 2, score, rank }
}

#[test]
fn points_follow_the_scale() {
    let expected: [u8; 10] = [12, 10, 8, 7, 6, 5, 4, 3, 2, 1];
    for (rank, points) in expected.iter().enumerate() {
        assert_eq!(get_points(&entry(1, rank as u16)), *points);
    }
}

#[test]
fn places_from_the_eleventh_get_nothing() {
    assert_eq!(get_points(&entry(5, 10)), 0);
    assert_eq!(get_points(&entry(5, 11)), 0);
    assert_eq!(get_points(&entry(5, u16::MAX)), 0);
}

#[test]
fn an_entry_without_score_gets_nothing() {
    assert_eq!(get_points(&entry(0, 0)), 0);
    assert_eq!(get_points(&entry(0, 3)), 0);
}

#[test]
fn the_first_place_gets_twelve_whatever_the_score() {
    assert_eq!(get_points(&entry(1, 0)), 12);
    assert_eq!(get_points(&entry(u32::MAX, 0)), 12);
}

#[test]
fn kinds_display_by_name() {
    assert_eq!(RankingKind::TeleVote.display_name(), "TeleVote");
    assert_eq!(RankingKind::JuryVote.display_name(), "JuryVote");
    assert_eq!(RankingKind::Overall.display_name(), "Overall");
    assert_eq!(RoundKind::SemiFinal1.display_name(), "SemiFinal1");
    assert_eq!(RoundKind::SemiFinal2.display_name(), "SemiFinal2");
    assert_eq!(RoundKind::GrandFinal.display_name(), "GrandFinal");
}

#[test]
fn the_singleton_displays_its_name() {
    assert_eq!(Singleton::Singleton.display_name(), "Singleton");
    assert_eq!(Singleton::default(), Singleton::Singleton);
}
