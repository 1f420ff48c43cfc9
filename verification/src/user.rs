//! The session on whose behalf the manager acts.

use vstd::prelude::*;

verus! {

/// Privilege level of a session.
#[derive(Debug, Clone, Copy, PartialEq, Eq, Structural)]
pub enum Privilege {
    Normal,
    Admin,
}

/// The active user of a manager. The three fields are fixed when the session
/// starts and are consulted before every control operation.
#[derive(Debug)]
pub struct User {
    pub id: u32,
    pub name: String,
    pub privilege: Privilege,
}

impl User {
    /// Whether the session may change the state of other processes.
    pub open spec fn admin(&self) -> bool {
        self.privilege == Privilege::Admin
    }

    /// A user with the given id, display name and privilege level.
    pub fn new(id: u32, name: &str, privilege: Privilege) -> (user: User)
        ensures
            user.id == id,
            user.name@ == name@,
            user.privilege == privilege,
    {
        User { id, name: name.to_owned(), privilege }
    }

    /// True exactly for an `Admin` session.
    pub fn is_admin(&self) -> (admin: bool)
        ensures
            admin == self.admin(),
    {
        self.privilege == Privilege::Admin
    }
}

impl Clone for User {
    fn clone(&self) -> (copy: User)
        ensures
            copy == *self,
    {
        User { id: self.id, name: self.name.clone(), privilege: self.privilege }
    }
}

} // verus!
