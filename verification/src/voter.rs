use vstd::prelude::*;

use crate::country::{country_with_id, participating_with_id};
use crate::database::{any_match, first_match, lemma_first_match_at, lemma_first_match_none, Database, Sequences, Tables};
use crate::error::{Table, VoteError};
use crate::user::{create_user_effect, user_with_id, user_with_identity, Identity};

verus! {

/// A televote viewer, tied to a country.
#[derive(Clone, Copy, PartialEq, Eq, Structural, Debug)]
pub struct Viewer {
    pub id: u64,
    pub user_id: u64,
    pub country_id: u16,
}

/// A juror for a participating country.
#[derive(Debug)]
pub struct Juror {
    pub id: u64,
    pub user_id: u64,
    pub participating_country_id: u16,
    pub name: String,
}

impl Clone for Juror {
    fn clone(&self) -> (j: Self)
        ensures
            j == *self,
    {
        Juror {
            id: self.id,
            user_id: self.user_id,
            participating_country_id: self.participating_country_id,
            name: self.name.clone(),
        }
    }
}

/// What a viewer gives when registering.
#[derive(Clone, Copy, PartialEq, Eq, Structural, Debug)]
pub struct ViewerInfo {
    pub country_id: u16,
}

/// What a juror gives when registering.
#[derive(Debug)]
pub struct JurorInfo {
    pub participating_country_id: u16,
    pub name: String,
}

/// The role a client registers with.
#[derive(Debug)]
pub enum VoterRole {
    Viewer(ViewerInfo),
    Juror(JurorInfo),
}

/// What the current client is registered as.
#[derive(Debug)]
pub struct CurrentUser {
    pub role: VoterRole,
}

/// The viewers with this id.
pub open spec fn viewer_with_id(id: u64) -> spec_fn(Viewer) -> bool {
    |v: Viewer| v.id == id
}

/// The viewers of this user.
pub open spec fn viewer_with_user(user_id: u64) -> spec_fn(Viewer) -> bool {
    |v: Viewer| v.user_id == user_id
}

/// The jurors with this id.
pub open spec fn juror_with_id(id: u64) -> spec_fn(Juror) -> bool {
    |j: Juror| j.id == id
}

/// The jurors of this user.
pub open spec fn juror_with_user(user_id: u64) -> spec_fn(Juror) -> bool {
    |j: Juror| j.user_id == user_id
}

/// Registering a viewer for a user and a country.
pub open spec fn create_viewer_effect(t: Tables, user_id: u64, country_id: u16) -> Result<Tables, VoteError> {
    if !any_match(t.users, user_with_id(user_id)) || !any_match(t.countries, country_with_id(country_id)) {
        Err(VoteError::ReferenceIntegrityViolation(Table::Viewer))
    } else if t.sequences.viewer == u64::MAX {
        Err(VoteError::AutoIncOverflow(Table::Viewer))
    } else {
        let row = Viewer { id: (t.sequences.viewer + 1) as u64, user_id, country_id };
        if any_match(t.viewers, viewer_with_id(row.id)) || any_match(t.viewers, viewer_with_user(user_id)) {
            Err(VoteError::UniqueViolation(Table::Viewer))
        } else {
            Ok(Tables { viewers: t.viewers.push(row), sequences: Sequences { viewer: row.id, ..t.sequences }, ..t })
        }
    }
}

/// Registering a juror for a user and a participating country.
pub open spec fn create_juror_effect(t: Tables, user_id: u64, participating_country_id: u16, name: String) -> Result<Tables, VoteError> {
    if !any_match(t.users, user_with_id(user_id))
        || !any_match(t.participating_countries, participating_with_id(participating_country_id)) {
        Err(VoteError::ReferenceIntegrityViolation(Table::Juror))
    } else if t.sequences.juror == u64::MAX {
        Err(VoteError::AutoIncOverflow(Table::Juror))
    } else {
        let row = Juror { id: (t.sequences.juror + 1) as u64, user_id, participating_country_id, name };
        if any_match(t.jurors, juror_with_id(row.id)) || any_match(t.jurors, juror_with_user(user_id)) {
            Err(VoteError::UniqueViolation(Table::Juror))
        } else {
            Ok(Tables { jurors: t.jurors.push(row), sequences: Sequences { juror: row.id, ..t.sequences }, ..t })
        }
    }
}

/// The `register` reducer: a user for the sender's identity, then the viewer or juror row
/// of the role, all or nothing.
pub open spec fn register_effect(t: Tables, sender: Identity, role: VoterRole) -> Result<Tables, VoteError> {
    match create_user_effect(t, sender) {
        Err(e) => Err(e),
        Ok((t1, user)) => match role {
            VoterRole::Viewer(info) => create_viewer_effect(t1, user.id, info.country_id),
            VoterRole::Juror(info) => create_juror_effect(t1, user.id, info.participating_country_id, info.name),
        },
    }
}

/// What the sender is registered as: a juror first, else a viewer, else nothing.
pub open spec fn current_user_spec(t: Tables, sender: Identity) -> Option<CurrentUser> {
    match first_match(t.users, user_with_identity(sender)) {
        None => None,
        Some(user) => match first_match(t.jurors, juror_with_user(user.id)) {
            Some(j) => Some(CurrentUser {
                role: VoterRole::Juror(JurorInfo { participating_country_id: j.participating_country_id, name: j.name }),
            }),
            None => match first_match(t.viewers, viewer_with_user(user.id)) {
                Some(v) => Some(CurrentUser { role: VoterRole::Viewer(ViewerInfo { country_id: v.country_id }) }),
                None => None,
            },
        },
    }
}

impl Database {
    /// The viewer with this id.
    pub fn get_viewer_by_id(&self, id: u64) -> (r: Result<Viewer, VoteError>)
        ensures
            match first_match(self@.viewers, viewer_with_id(id)) {
                Some(v) => r == Ok::<Viewer, VoteError>(v),
                None => r == Err::<Viewer, VoteError>(VoteError::NotFound(Table::Viewer)),
            },
    {
        let mut i: usize = 0;
        while i < self.viewers.len()
            invariant
                i <= self.viewers@.len(),
                forall|j: int| 0 <= j < i ==> !viewer_with_id(id)(#[trigger] self.viewers@[j]),
            decreases self.viewers@.len() - i,
        {
            if self.viewers[i].id == id {
                proof {
                    lemma_first_match_at(self@.viewers, viewer_with_id(id), i as int);
                }
                return Ok(self.viewers[i]);
            }
            i = i + 1;
        }
        proof {
            lemma_first_match_none(self@.viewers, viewer_with_id(id));
        }
        Err(VoteError::NotFound(Table::Viewer))
    }

    /// The viewer registered for this user.
    pub fn get_viewer_by_user_id(&self, user_id: u64) -> (r: Result<Viewer, VoteError>)
        ensures
            match first_match(self@.viewers, viewer_with_user(user_id)) {
                Some(v) => r == Ok::<Viewer, VoteError>(v),
                None => r == Err::<Viewer, VoteError>(VoteError::NotFound(Table::Viewer)),
            },
    {
        let mut i: usize = 0;
        while i < self.viewers.len()
            invariant
                i <= self.viewers@.len(),
                forall|j: int| 0 <= j < i ==> !viewer_with_user(user_id)(#[trigger] self.viewers@[j]),
            decreases self.viewers@.len() - i,
        {
            if self.viewers[i].user_id == user_id {
                proof {
                    lemma_first_match_at(self@.viewers, viewer_with_user(user_id), i as int);
                }
                return Ok(self.viewers[i]);
            }
            i = i + 1;
        }
        proof {
            lemma_first_match_none(self@.viewers, viewer_with_user(user_id));
        }
        Err(VoteError::NotFound(Table::Viewer))
    }

    /// The juror with this id.
    pub fn get_juror_by_id(&self, id: u64) -> (r: Result<Juror, VoteError>)
        ensures
            match first_match(self@.jurors, juror_with_id(id)) {
                Some(j) => r == Ok::<Juror, VoteError>(j),
                None => r == Err::<Juror, VoteError>(VoteError::NotFound(Table::Juror)),
            },
    {
        let mut i: usize = 0;
        while i < self.jurors.len()
            invariant
                i <= self.jurors@.len(),
                forall|j: int| 0 <= j < i ==> !juror_with_id(id)(#[trigger] self.jurors@[j]),
            decreases self.jurors@.len() - i,
        {
            if self.jurors[i].id == id {
                proof {
                    lemma_first_match_at(self@.jurors, juror_with_id(id), i as int);
                }
                return Ok(self.jurors[i].clone());
            }
            i = i + 1;
        }
        proof {
            lemma_first_match_none(self@.jurors, juror_with_id(id));
        }
        Err(VoteError::NotFound(Table::Juror))
    }

    /// The juror registered for this user.
    pub fn get_juror_by_user_id(&self, user_id: u64) -> (r: Result<Juror, VoteError>)
        ensures
            match first_match(self@.jurors, juror_with_user(user_id)) {
                Some(j) => r == Ok::<Juror, VoteError>(j),
                None => r == Err::<Juror, VoteError>(VoteError::NotFound(Table::Juror)),
            },
    {
        let mut i: usize = 0;
        while i < self.jurors.len()
            invariant
                i <= self.jurors@.len(),
                forall|j: int| 0 <= j < i ==> !juror_with_user(user_id)(#[trigger] self.jurors@[j]),
            decreases self.jurors@.len() - i,
        {
            if self.jurors[i].user_id == user_id {
                proof {
                    lemma_first_match_at(self@.jurors, juror_with_user(user_id), i as int);
                }
                return Ok(self.jurors[i].clone());
            }
            i = i + 1;
        }
        proof {
            lemma_first_match_none(self@.jurors, juror_with_user(user_id));
        }
        Err(VoteError::NotFound(Table::Juror))
    }

    /// Create a row in the `viewer` table.
    pub fn create_viewer(&mut self, user_id: u64, country_id: u16) -> (r: Result<Viewer, VoteError>)
        ensures
            match create_viewer_effect(old(self)@, user_id, country_id) {
                Ok(t) => r == Ok::<Viewer, VoteError>(t.viewers.last()) && final(self)@ == t,
                Err(e) => r == Err::<Viewer, VoteError>(e) && final(self)@ == old(self)@,
            },
    {
        if !self.user_exists(user_id) || !self.country_exists(country_id) {
            return Err(VoteError::ReferenceIntegrityViolation(Table::Viewer));
        }
        if self.sequences.viewer == u64::MAX {
            return Err(VoteError::AutoIncOverflow(Table::Viewer));
        }
        let row = Viewer { id: self.sequences.viewer + 1, user_id, country_id };
        if self.get_viewer_by_id(row.id).is_ok() || self.get_viewer_by_user_id(user_id).is_ok() {
            return Err(VoteError::UniqueViolation(Table::Viewer));
        }
        self.viewers.push(row);
        self.sequences.viewer = row.id;
        Ok(row)
    }

    /// Create a row in the `juror` table.
    pub fn create_juror(&mut self, user_id: u64, participating_country_id: u16, name: String) -> (r: Result<u64, VoteError>)
        ensures
            match create_juror_effect(old(self)@, user_id, participating_country_id, name) {
                Ok(t) => r == Ok::<u64, VoteError>(t.jurors.last().id) && final(self)@ == t,
                Err(e) => r == Err::<u64, VoteError>(e) && final(self)@ == old(self)@,
            },
    {
        if !self.user_exists(user_id) || !self.participating_country_exists(participating_country_id) {
            return Err(VoteError::ReferenceIntegrityViolation(Table::Juror));
        }
        if self.sequences.juror == u64::MAX {
            return Err(VoteError::AutoIncOverflow(Table::Juror));
        }
        let id = self.sequences.juror + 1;
        if self.get_juror_by_id(id).is_ok() || self.get_juror_by_user_id(user_id).is_ok() {
            return Err(VoteError::UniqueViolation(Table::Juror));
        }
        self.jurors.push(Juror { id, user_id, participating_country_id, name });
        self.sequences.juror = id;
        Ok(id)
    }

    /// Registers the sender as a viewer of a country or a juror of a participating country.
    pub fn register(&mut self, sender: Identity, role: VoterRole) -> (r: Result<(), VoteError>)
        ensures
            match register_effect(old(self)@, sender, role) {
                Ok(t) => r is Ok && final(self)@ == t,
                Err(e) => r == Err::<(), VoteError>(e) && final(self)@ == old(self)@,
            },
    {
        let saved = self.snapshot();
        let user = match self.create_user(sender) {
            Ok(u) => u,
            Err(e) => {
                return Err(e);
            },
        };
        let created = match role {
            VoterRole::Viewer(ViewerInfo { country_id }) => match self.create_viewer(user.id, country_id) {
                Ok(_) => Ok(()),
                Err(e) => Err(e),
            },
            VoterRole::Juror(JurorInfo { participating_country_id, name }) => match self.create_juror(
                user.id,
                participating_country_id,
                name,
            ) {
                Ok(_) => Ok(()),
                Err(e) => Err(e),
            },
        };
        match created {
            Ok(()) => Ok(()),
            Err(e) => {
                *self = saved;
                Err(e)
            },
        }
    }

    /// What the sender is registered as, if anything.
    pub fn current_user(&self, sender: Identity) -> (r: Option<CurrentUser>)
        ensures
            r == current_user_spec(self@, sender),
    {
        let user = match self.get_user_by_identity(sender) {
            Ok(u) => u,
            Err(_) => {
                return None;
            },
        };
        if let Ok(juror) = self.get_juror_by_user_id(user.id) {
            return Some(
                CurrentUser {
                    role: VoterRole::Juror(JurorInfo { participating_country_id: juror.participating_country_id, name: juror.name }),
                },
            );
        }
        if let Ok(viewer) = self.get_viewer_by_user_id(user.id) {
            return Some(CurrentUser { role: VoterRole::Viewer(ViewerInfo { country_id: viewer.country_id }) });
        }
        None
    }
}

/// Every viewer and every juror belongs to a registered user.
pub open spec fn voters_have_users(t: Tables) -> bool {
    &&& forall|i: int| 0 <= i < t.viewers.len() ==> any_match(t.users, user_with_id(#[trigger] t.viewers[i].user_id))
    &&& forall|i: int| 0 <= i < t.jurors.len() ==> any_match(t.users, user_with_id(#[trigger] t.jurors[i].user_id))
}

/// The role that a registration creates, as `current_user` reports it.
pub open spec fn registered_as(role: VoterRole) -> CurrentUser {
    CurrentUser { role }
}

/// Registering keeps every viewer and juror tied to a registered user.
pub proof fn law_register_keeps_voters_with_users(t: Tables, sender: Identity, role: VoterRole)
    requires
        voters_have_users(t),
        register_effect(t, sender, role) is Ok,
    ensures
        voters_have_users(register_effect(t, sender, role)->Ok_0),
{
    let (t1, user) = create_user_effect(t, sender)->Ok_0;
    let out = register_effect(t, sender, role)->Ok_0;
    assert forall|i: int| 0 <= i < out.viewers.len() implies any_match(out.users, user_with_id(#[trigger] out.viewers[i].user_id)) by {
        let uid = out.viewers[i].user_id;
        if i < t.viewers.len() {
            assert(out.viewers[i] == t.viewers[i]);
            let k = choose|k: int| 0 <= k < t.users.len() && #[trigger] user_with_id(uid)(t.users[k]);
            assert(user_with_id(uid)(out.users[k]));
        } else {
            let k = choose|k: int| 0 <= k < t1.users.len() && #[trigger] user_with_id(uid)(t1.users[k]);
            assert(user_with_id(uid)(out.users[k]));
        }
    }
    assert forall|i: int| 0 <= i < out.jurors.len() implies any_match(out.users, user_with_id(#[trigger] out.jurors[i].user_id)) by {
        let uid = out.jurors[i].user_id;
        if i < t.jurors.len() {
            assert(out.jurors[i] == t.jurors[i]);
            let k = choose|k: int| 0 <= k < t.users.len() && #[trigger] user_with_id(uid)(t.users[k]);
            assert(user_with_id(uid)(out.users[k]));
        } else {
            let k = choose|k: int| 0 <= k < t1.users.len() && #[trigger] user_with_id(uid)(t1.users[k]);
            assert(user_with_id(uid)(out.users[k]));
        }
    }
}

/// What a registration writes, `current_user` reads back: once the sender registered with
/// a role, the sender is that viewer or that juror.
pub proof fn law_register_then_current_user(t: Tables, sender: Identity, role: VoterRole)
    requires
        voters_have_users(t),
        register_effect(t, sender, role) is Ok,
    ensures
        current_user_spec(register_effect(t, sender, role)->Ok_0, sender) == Some(registered_as(role)),
{
    let (t1, user) = create_user_effect(t, sender)->Ok_0;
    let out = register_effect(t, sender, role)->Ok_0;
    // the new user is the only one with the sender's identity
    assert(out.users == t.users.push(user));
    assert forall|j: int| 0 <= j < t.users.len() implies !user_with_identity(sender)(#[trigger] out.users[j]) by {
        assert(out.users[j] == t.users[j]);
    }
    lemma_first_match_at(out.users, user_with_identity(sender), t.users.len() as int);
    // no earlier viewer or juror belongs to the new user, whose number is fresh
    assert forall|j: int| 0 <= j < t.jurors.len() implies !juror_with_user(user.id)(#[trigger] t.jurors[j]) by {
        let uid = t.jurors[j].user_id;
        assert(any_match(t.users, user_with_id(uid)));
    }
    assert forall|j: int| 0 <= j < t.viewers.len() implies !viewer_with_user(user.id)(#[trigger] t.viewers[j]) by {
        let uid = t.viewers[j].user_id;
        assert(any_match(t.users, user_with_id(uid)));
    }
    match role {
        VoterRole::Viewer(info) => {
            lemma_first_match_none(out.jurors, juror_with_user(user.id));
            assert forall|j: int| 0 <= j < t.viewers.len() implies !viewer_with_user(user.id)(#[trigger] out.viewers[j]) by {
                assert(out.viewers[j] == t.viewers[j]);
            }
            lemma_first_match_at(out.viewers, viewer_with_user(user.id), t.viewers.len() as int);
        },
        VoterRole::Juror(info) => {
            assert forall|j: int| 0 <= j < t.jurors.len() implies !juror_with_user(user.id)(#[trigger] out.jurors[j]) by {
                assert(out.jurors[j] == t.jurors[j]);
            }
            lemma_first_match_at(out.jurors, juror_with_user(user.id), t.jurors.len() as int);
        },
    }
}

} // verus!
