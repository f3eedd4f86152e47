//! Activation tokens: one client passes the focus to a window of another.

use vstd::prelude::*;
use crate::state::{State, StateView};

verus! {

/// How long an activation token is honored, in seconds.
pub const TOKEN_LIFETIME_SECS: u64 = 10;

impl StateView {
    /// `surface` focused, if it is stacked and the token is fresh.
    pub open spec fn request_activation(self, age_secs: u64, surface: u64, serial: u32) -> StateView {
        if age_secs < TOKEN_LIFETIME_SECS && crate::space::stacked(self.elements, surface) {
            self.focus_window(surface, serial)
        } else {
            self
        }
    }
}

impl State {
    /// A client hands in an activation token, created `age_secs` full seconds ago, for `surface`.
    pub fn request_activation(&mut self, age_secs: u64, surface: u64, serial: u32)
        requires
            old(self)@.wf(),
        ensures
            final(self)@ == old(self)@.request_activation(age_secs, surface, serial),
            final(self)@.wf(),
    {
        if age_secs < TOKEN_LIFETIME_SECS {
            if self.space.contains(surface) {
                self.focus_window(surface, serial);
            }
        }
    }
}

} // verus!
