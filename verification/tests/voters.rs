use eurovote::database::Database;
use eurovote::error::{Table, VoteError};
use eurovote::user::Identity;
use eurovote::voter::{CurrentUser, JurorInfo, ViewerInfo, VoterRole};

fn identity(n: u128) -> Identity {
    Identity { high: 7, low: n }
}

#[test]
fn a_viewer_registers_for_a_country() {
    let mut db = Database::init();
    db.register(identity(1), VoterRole::Viewer(ViewerInfo { country_id: 11 })).unwrap();
    assert_eq!(db.users.len(), 1);
    assert_eq!(db.users[0].identity, identity(1));
    let viewer = db.get_viewer_by_user_id(db.users[0].id).unwrap();
    assert_eq!(viewer.country_id, 11);
    assert_eq!(db.get_viewer_by_id(viewer.id).unwrap(), viewer);
    assert!(matches!(
        db.current_user(identity(1)),
        Some(CurrentUser { role: VoterRole::Viewer(ViewerInfo { country_id: 11 }) })
    ));
}

#[test]
fn a_juror_registers_for_a_participating_country() {
    let mut db = Database::init();
    let info = JurorInfo { participating_country_id: 3, name: "Ada".to_string() };
    db.register(identity(2), VoterRole::Juror(info)).unwrap();
    let juror = db.get_juror_by_user_id(db.users[0].id).unwrap();
    assert_eq!(juror.participating_country_id, 3);
    assert_eq!(juror.name, "Ada");
    match db.current_user(identity(2)) {
        Some(CurrentUser { role: VoterRole::Juror(j) }) => {
            assert_eq!(j.participating_country_id, 3);
            assert_eq!(j.name, "Ada");
        },
        other => panic!("expected a juror, got {other:?}"),
    }
}

#[test]
fn an_identity_registers_once() {
    let mut db = Database::init();
    db.register(identity(1), VoterRole::Viewer(ViewerInfo { country_id: 1 })).unwrap();
    assert_eq!(
        db.register(identity(1), VoterRole::Viewer(ViewerInfo { country_id: 2 })),
        Err(VoteError::UniqueViolation(Table::User))
    );
    assert_eq!(db.users.len(), 1);
    assert_eq!(db.viewers.len(), 1);
}

#[test]
fn a_failed_registration_leaves_no_user() {
    let mut db = Database::init();
    assert_eq!(
        db.register(identity(1), VoterRole::Viewer(ViewerInfo { country_id: 99 })),
        Err(VoteError::ReferenceIntegrityViolation(Table::Viewer))
    );
    assert!(db.users.is_empty());
    assert!(!db.identity_registered(identity(1)));
    // the Rest of the World does not take part, so it has no jury
    assert_eq!(
        db.register(identity(1), VoterRole::Juror(JurorInfo { participating_country_id: 11, name: "Bo".to_string() })),
        Err(VoteError::ReferenceIntegrityViolation(Table::Juror))
    );
    assert!(db.users.is_empty());
    assert_eq!(db.sequences.user, 0);
    assert!(db.current_user(identity(1)).is_none());
}

#[test]
fn an_unknown_identity_is_nobody() {
    let db = Database::init();
    assert!(db.current_user(identity(5)).is_none());
    assert_eq!(db.get_user_by_identity(identity(5)), Err(VoteError::NotFound(Table::User)));
    assert_eq!(db.get_viewer_by_id(1), Err(VoteError::NotFound(Table::Viewer)));
    assert_eq!(db.get_juror_by_id(1).err(), Some(VoteError::NotFound(Table::Juror)));
}

#[test]
fn users_are_numbered_in_order() {
    let mut db = Database::init();
    let a = db.create_user(identity(1)).unwrap();
    let b = db.create_user(identity(2)).unwrap();
    assert_eq!((a.id, b.id), (1, 2));
    assert!(db.user_exists(2));
    assert!(!db.user_exists(3));
    assert_eq!(db.get_user_by_identity(identity(2)), Ok(b));
    assert_eq!(db.create_user(identity(1)), Err(VoteError::UniqueViolation(Table::User)));
}

#[test]
fn a_user_is_a_viewer_or_a_juror_once() {
    let mut db = Database::init();
    let u = db.create_user(identity(1)).unwrap();
    db.create_viewer(u.id, 2).unwrap();
    assert_eq!(db.create_viewer(u.id, 3), Err(VoteError::UniqueViolation(Table::Viewer)));
    assert_eq!(db.create_viewer(9, 3), Err(VoteError::ReferenceIntegrityViolation(Table::Viewer)));
    let id = db.create_juror(u.id, 2, "Cy".to_string()).unwrap();
    assert_eq!(db.create_juror(u.id, 4, "Cy".to_string()), Err(VoteError::UniqueViolation(Table::Juror)));
    assert_eq!(db.get_juror_by_id(id).unwrap().user_id, u.id);
    // a user registered as both is seen as a juror
    assert!(matches!(db.current_user(identity(1)), Some(CurrentUser { role: VoterRole::Juror(_) })));
}
