//! Whether the user of the application has logged in.

use vstd::prelude::*;

verus! {

/// The login state that the application keeps for its user.
#[derive(Clone, Copy, Debug)]
pub struct AuthState {
    logged_in: bool,
}

impl AuthState {
    /// Whether the user has logged in.
    pub closed spec fn is_logged_in(&self) -> bool {
        self.logged_in
    }

    /// The state of a user who has not logged in.
    pub fn new() -> (r: AuthState)
        ensures
            !r.is_logged_in(),
    {
        AuthState { logged_in: false }
    }

    /// Whether the user has logged in.
    pub fn logged_in(&self) -> (r: bool)
        ensures
            r == self.is_logged_in(),
    {
        self.logged_in
    }

    /// Logs the user in and hands back the state as it then is.
    pub fn login(&mut self) -> (r: AuthState)
        ensures
            final(self).is_logged_in(),
            r == *final(self),
    {
        self.logged_in = true;
        *self
    }
}

} // verus!
