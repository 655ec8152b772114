//! A generic boolean toggle state, for checkbox- and switch-like widgets.
//!
//! The host wires this state to its click handlers and change
//! subscriptions; the state itself only flips and reads a flag.

use vstd::prelude::*;

verus! {

/// Generic `bool` state for checkbox/switch like widgets.
#[derive(Debug, Clone, Copy, PartialEq, Eq, Structural)]
pub struct Toggle(pub bool);

impl Toggle {
    /// A toggle starting from `default`.
    pub fn new(default: bool) -> (r: Self)
        ensures
            r.0 == default,
    {
        Toggle(default)
    }

    /// The current state.
    pub fn value(&self) -> (r: bool)
        ensures
            r == self.0,
    {
        self.0
    }

    /// Overwrite the state.
    pub fn set_value(&mut self, v: bool)
        ensures
            final(self).0 == v,
    {
        self.0 = v;
    }

    /// Flip the state.
    pub fn toggle(&mut self)
        ensures
            final(self).0 == !old(self).0,
    {
        self.0 = !self.0;
    }
}

} // verus!
