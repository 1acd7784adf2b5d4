//! Rule records: one enforcement decision for one address.

use crate::address::IpNet;
use vstd::prelude::*;

verus! {

/// What a rule does to the traffic of its address.
#[derive(Clone, Copy, Debug, PartialEq, Eq, Structural)]
pub enum RuleAction {
    /// Traffic of the address is dropped.
    Block,
    /// The address is let through: a block on it is to be removed.
    Allow,
}

/// How a record came into the store.
#[derive(Clone, Copy, Debug, PartialEq, Eq, Structural)]
pub enum RuleOrigin {
    /// A block request made it.
    Manual,
    /// An imported rule set made it.
    Imported,
}

/// Where a record stands in its life.
#[derive(Clone, Copy, Debug, PartialEq, Eq, Structural)]
pub enum RuleState {
    /// Admitted; the backend has not yet confirmed the rule.
    Pending,
    /// Enforced by the backend.
    Active,
    /// Being retracted from the backend.
    Expiring,
    /// Retracted; the store holds it no longer.
    Removed,
}

/// What tells one record of the store from every other: a number that is
/// given to one record only and stays with it.
pub type RuleId = u64;

/// One rule of the store. Times are milliseconds since the Unix epoch.
#[derive(Clone, Debug, PartialEq, Eq)]
pub struct RuleRecord {
    pub id: RuleId,
    pub ip: IpNet,
    pub action: RuleAction,
    pub created_at: u64,
    pub expires_at: Option<u64>,
    pub reason: Option<String>,
    pub origin: RuleOrigin,
    pub state: RuleState,
}

/// A record as contracts speak of it: its text is a sequence of characters.
pub struct RuleRecordView {
    pub id: u64,
    pub ip: IpNet,
    pub action: RuleAction,
    pub created_at: u64,
    pub expires_at: Option<u64>,
    pub reason: Option<Seq<char>>,
    pub origin: RuleOrigin,
    pub state: RuleState,
}

/// The characters of an optional text.
pub open spec fn text_view(text: Option<String>) -> Option<Seq<char>> {
    match text {
        Some(t) => Some(t@),
        None => None,
    }
}

/// A copy of an optional text.
pub fn copy_text(text: &Option<String>) -> (r: Option<String>)
    ensures
        r == *text,
{
    match text {
        Some(t) => Some(t.clone()),
        None => None,
    }
}

impl View for RuleRecord {
    type V = RuleRecordView;

    open spec fn view(&self) -> RuleRecordView {
        RuleRecordView {
            id: self.id,
            ip: self.ip,
            action: self.action,
            created_at: self.created_at,
            expires_at: self.expires_at,
            reason: text_view(self.reason),
            origin: self.origin,
            state: self.state,
        }
    }
}

/// The views of a sequence of records.
pub open spec fn records_view(records: Seq<RuleRecord>) -> Seq<RuleRecordView> {
    Seq::new(records.len(), |i: int| records[i]@)
}

impl RuleRecordView {
    /// The same record in another state.
    pub open spec fn with_state(self, state: RuleState) -> RuleRecordView {
        RuleRecordView { state, ..self }
    }

    /// The same record under another identifier.
    pub open spec fn with_id(self, id: u64) -> RuleRecordView {
        RuleRecordView { id, ..self }
    }
}

impl RuleRecord {
    /// A copy of the record.
    pub fn duplicate(&self) -> (r: RuleRecord)
        ensures
            r == *self,
    {
        RuleRecord {
            id: self.id,
            ip: self.ip,
            action: self.action,
            created_at: self.created_at,
            expires_at: self.expires_at,
            reason: copy_text(&self.reason),
            origin: self.origin,
            state: self.state,
        }
    }
}

} // verus!
