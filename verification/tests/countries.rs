use eurovote::country::{seed, ParticipatingCountry, RotwCountry, SEED_COUNT};
use eurovote::database::Database;
use eurovote::error::{Table, VoteError};

#[test]
fn init_seeds_the_contest() {
    let db = Database::init();
    let names: Vec<&str> = db.countries.iter().map(|c| c.name.as_str()).collect();
    assert_eq!(
        names,
        vec![
            "Sweden",
            "Switzerland",
            "France",
            "Germany",
            "Italy",
            "Spain",
            "United Kingdom",
            "Norway",
            "Finland",
            "Ukraine",
            "Rest of the World",
        ]
    );
    let ids: Vec<u16> = db.countries.iter().map(|c| c.id).collect();
    assert_eq!(ids, (1..=11).collect::<Vec<u16>>());
    assert_eq!(db.countries[0].emoji.as_deref(), Some("\u{1F1F8}\u{1F1EA}"));
    assert_eq!(db.countries[10].emoji.as_deref(), Some("\u{1F30D}"));
    assert_eq!(db.participating_countries.len(), 10);
    assert!(db.participating_countries.iter().all(|p| p.id == p.country_id));
    // the host and the Big 5 go straight to the grand final
    let finalists: Vec<&str> = db
        .participating_countries
        .iter()
        .filter(|p| p.automatic_finalist)
        .map(|p| db.countries[p.country_id as usize - 1].name.as_str())
        .collect();
    assert_eq!(finalists, vec!["Switzerland", "France", "Germany", "Italy", "Spain", "United Kingdom"]);
    assert_eq!(db.rotw_country, Some(RotwCountry { country_id: 11 }));
    assert_eq!(db.get_rotw_country(), Ok(RotwCountry { country_id: 11 }));
    assert!(db.users.is_empty() && db.rounds.is_empty() && db.rankings.is_empty());
    assert!(db.active_round.is_none());
}

#[test]
fn the_seed_list_ends_with_the_rest_of_the_world() {
    assert_eq!(SEED_COUNT, 11);
    assert_eq!(seed(0), ("Sweden", "\u{1F1F8}\u{1F1EA}", false));
    assert_eq!(seed(6), ("United Kingdom", "\u{1F1EC}\u{1F1E7}", false));
    assert_eq!(seed(10), ("Rest of the World", "\u{1F30D}", true));
}

#[test]
fn only_contest_countries_participate() {
    let db = Database::init();
    assert!(db.country_participates(1));
    assert!(!db.country_participates(11));
    assert!(db.country_exists(11));
    assert!(!db.country_exists(12));
    assert_eq!(db.get_participating_country_by_id(4), Ok(ParticipatingCountry { id: 4, country_id: 4, automatic_finalist: true }));
    assert_eq!(db.get_participating_country_by_id(11), Err(VoteError::NotFound(Table::ParticipatingCountry)));
    assert!(db.participating_country_exists(10));
    assert!(!db.participating_country_exists(0));
}

#[test]
fn a_country_participates_once() {
    let mut db = Database::init();
    assert_eq!(
        db.create_participating_country(1, false),
        Err(VoteError::UniqueViolation(Table::ParticipatingCountry))
    );
    assert_eq!(
        db.create_participating_country(99, false),
        Err(VoteError::ReferenceIntegrityViolation(Table::ParticipatingCountry))
    );
    let p = db.create_participating_country(11, false).unwrap();
    assert_eq!(p, ParticipatingCountry { id: 11, country_id: 11, automatic_finalist: false });
}

#[test]
fn the_rest_of_the_world_is_single() {
    let mut db = Database::new();
    assert_eq!(db.get_rotw_country(), Err(VoteError::NotFound(Table::RotwCountry)));
    let c = db.create_country("Rest of the World".to_string(), None).unwrap();
    assert_eq!(db.create_rotw_country(99), Err(VoteError::ReferenceIntegrityViolation(Table::RotwCountry)));
    db.create_rotw_country(c).unwrap();
    assert_eq!(db.create_rotw_country(c), Err(VoteError::UniqueViolation(Table::RotwCountry)));
}

#[test]
fn countries_are_numbered_in_order() {
    let mut db = Database::new();
    assert_eq!(db.create_country("A".to_string(), None), Ok(1));
    assert_eq!(db.create_country("B".to_string(), Some("b".to_string())), Ok(2));
    assert_eq!(db.countries[1].name, "B");
}

/// The Rest of the World does not participate, and every other country is marked
/// participating by exactly one row.
fn countries_consistent(db: &Database) -> bool {
    let rotw = match db.rotw_country {
        Some(r) => r.country_id,
        None => return false,
    };
    db.participating_countries.iter().all(|p| p.country_id != rotw)
        && db
            .countries
            .iter()
            .filter(|c| c.id != rotw)
            .all(|c| db.participating_countries.iter().filter(|p| p.country_id == c.id).count() == 1)
}

#[test]
fn the_country_tables_stay_consistent_through_a_contest() {
    let mut db = Database::init();
    assert!(countries_consistent(&db));
    let countries: Vec<(u16, String)> = db.countries.iter().map(|c| (c.id, c.name.clone())).collect();
    let participants = db.participating_countries.clone();
    db.register(
        eurovote::user::Identity { high: 0, low: 1 },
        eurovote::voter::VoterRole::Viewer(eurovote::voter::ViewerInfo { country_id: 1 }),
    )
    .unwrap();
    db.create_semi_finals(2025).unwrap();
    for _ in 0..5 {
        db.advance_round().unwrap();
        assert!(countries_consistent(&db));
    }
    assert_eq!(db.countries.iter().map(|c| (c.id, c.name.clone())).collect::<Vec<_>>(), countries);
    assert_eq!(db.participating_countries, participants);
    assert_eq!(db.rotw_country, Some(RotwCountry { country_id: 11 }));
}
