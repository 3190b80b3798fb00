//! The request context: who is making the request.

use vstd::prelude::*;
use crate::models::LoginState;

verus! {

#[derive(Clone, Debug)]
pub struct Ctx {
    pub login_state: LoginState,
}

impl Ctx {
    pub fn new(login_state: LoginState) -> (r: Self)
        ensures
            r.login_state == login_state,
    {
        Self { login_state }
    }

    pub fn login_state(&self) -> (r: LoginState)
        ensures
            r == self.login_state,
    {
        self.login_state.clone()
    }
}

} // verus!
