//! The enforcement point: the capabilities that the rule store needs of a
//! packet filter, and nothing of how a filter provides them.

use crate::address::IpNet;
use vstd::prelude::*;

verus! {

/// What a backend hands out for a rule it has applied, and takes back to
/// retract it.
#[derive(Clone, Debug, PartialEq, Eq)]
pub struct RuleHandle {
    pub token: String,
}

impl View for RuleHandle {
    type V = Seq<char>;

    open spec fn view(&self) -> Seq<char> {
        self.token@
    }
}

impl RuleHandle {
    /// A copy of the handle.
    pub fn duplicate(&self) -> (r: RuleHandle)
        ensures
            r == *self,
    {
        RuleHandle { token: self.token.clone() }
    }
}

/// Why a backend did not do what it was asked.
#[derive(Clone, Debug, PartialEq, Eq)]
pub enum BackendError {
    /// The enforcement point could not be reached, or did not answer in time.
    Unreachable(String),
    /// The enforcement point refused the action.
    Rejected(String),
}

/// A packet filter as the rule store sees it. Nothing is promised of what a
/// call returns: the store is proved for every answer.
pub trait BackendAdapter {
    /// Drops the traffic of `ip`.
    fn apply_block(&mut self, ip: &IpNet, reason: Option<&str>) -> Result<RuleHandle, BackendError>;

    /// Switches the whole filter on: its rules are in force.
    fn apply_allow_profile(&mut self) -> Result<(), BackendError>;

    /// Switches the whole filter off: no rule of it is in force.
    fn apply_deny_profile(&mut self) -> Result<(), BackendError>;

    /// Removes a rule. A rule that is already gone counts as removed.
    fn retract(&mut self, handle: &RuleHandle) -> Result<(), BackendError>;

    /// How many rules the filter holds, as well as it can tell.
    fn count_rules(&mut self) -> u64;

    /// How many of them block traffic, as well as it can tell.
    fn count_blocking_rules(&mut self) -> u64;
}

} // verus!
