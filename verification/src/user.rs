use vstd::prelude::*;

use crate::database::{any_match, first_match, lemma_first_match_at, lemma_first_match_none, Database, Sequences, Tables};
use crate::error::{Table, VoteError};

verus! {

/// The identity of a connected client, 256 bits wide.
#[derive(Clone, Copy, PartialEq, Eq, Structural, Debug)]
pub struct Identity {
    pub high: u128,
    pub low: u128,
}

/// A registered client.
#[derive(Clone, Copy, PartialEq, Eq, Structural, Debug)]
pub struct User {
    pub id: u64,
    pub identity: Identity,
}

/// The users with this identity.
pub open spec fn user_with_identity(identity: Identity) -> spec_fn(User) -> bool {
    |u: User| u.identity == identity
}

/// The users with this id.
pub open spec fn user_with_id(id: u64) -> spec_fn(User) -> bool {
    |u: User| u.id == id
}

/// Registering a user: the next number of the sequence, an identity not yet registered.
pub open spec fn create_user_effect(t: Tables, identity: Identity) -> Result<(Tables, User), VoteError> {
    if t.sequences.user == u64::MAX {
        Err(VoteError::AutoIncOverflow(Table::User))
    } else {
        let row = User { id: (t.sequences.user + 1) as u64, identity };
        if any_match(t.users, user_with_id(row.id)) || any_match(t.users, user_with_identity(identity)) {
            Err(VoteError::UniqueViolation(Table::User))
        } else {
            Ok((Tables { users: t.users.push(row), sequences: Sequences { user: row.id, ..t.sequences }, ..t }, row))
        }
    }
}

impl Database {
    /// The user registered with an identity.
    pub fn get_user_by_identity(&self, identity: Identity) -> (r: Result<User, VoteError>)
        ensures
            match first_match(self@.users, user_with_identity(identity)) {
                Some(u) => r == Ok::<User, VoteError>(u),
                None => r == Err::<User, VoteError>(VoteError::NotFound(Table::User)),
            },
    {
        let mut i: usize = 0;
        while i < self.users.len()
            invariant
                i <= self.users@.len(),
                forall|j: int| 0 <= j < i ==> !user_with_identity(identity)(#[trigger] self.users@[j]),
            decreases self.users@.len() - i,
        {
            if self.users[i].identity == identity {
                proof {
                    lemma_first_match_at(self@.users, user_with_identity(identity), i as int);
                }
                return Ok(self.users[i]);
            }
            i = i + 1;
        }
        proof {
            lemma_first_match_none(self@.users, user_with_identity(identity));
        }
        Err(VoteError::NotFound(Table::User))
    }

    /// Whether a user has this id.
    pub fn user_exists(&self, id: u64) -> (b: bool)
        ensures
            b == any_match(self@.users, user_with_id(id)),
    {
        let mut i: usize = 0;
        while i < self.users.len()
            invariant
                i <= self.users@.len(),
                forall|j: int| 0 <= j < i ==> !user_with_id(id)(#[trigger] self.users@[j]),
            decreases self.users@.len() - i,
        {
            if self.users[i].id == id {
                assert(user_with_id(id)(self.users@[i as int]));
                return true;
            }
            i = i + 1;
        }
        false
    }

    /// Whether a user has this identity.
    pub fn identity_registered(&self, identity: Identity) -> (b: bool)
        ensures
            b == any_match(self@.users, user_with_identity(identity)),
    {
        match self.get_user_by_identity(identity) {
            Ok(_) => true,
            Err(_) => false,
        }
    }

    /// Create a row in the `user` table.
    pub fn create_user(&mut self, identity: Identity) -> (r: Result<User, VoteError>)
        ensures
            match create_user_effect(old(self)@, identity) {
                Ok((t, u)) => r == Ok::<User, VoteError>(u) && final(self)@ == t,
                Err(e) => r == Err::<User, VoteError>(e) && final(self)@ == old(self)@,
            },
    {
        if self.sequences.user == u64::MAX {
            return Err(VoteError::AutoIncOverflow(Table::User));
        }
        let row = User { id: self.sequences.user + 1, identity };
        if self.user_exists(row.id) || self.identity_registered(identity) {
            return Err(VoteError::UniqueViolation(Table::User));
        }
        self.users.push(row);
        self.sequences.user = row.id;
        Ok(row)
    }
}

} // verus!
