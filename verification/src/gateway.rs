//! The store's way to the backend. Every call passes through a `Gateway`,
//! which keeps a history of the calls and of what the backend answered, so
//! that contracts can say which calls an operation made.

use crate::address::IpNet;
use crate::backend::{BackendAdapter, BackendError, RuleHandle};
use vstd::prelude::*;

verus! {

/// One call to the backend and its answer.
pub enum BackendEvent {
    ApplyBlock { ip: IpNet, reason: Option<Seq<char>>, result: Result<Seq<char>, BackendError> },
    Retract { handle: Seq<char>, result: Result<(), BackendError> },
    AllowProfile { result: Result<(), BackendError> },
    DenyProfile { result: Result<(), BackendError> },
    CountRules { count: u64 },
    CountBlockingRules { count: u64 },
}

/// The characters of an optional string slice.
pub open spec fn str_view(text: Option<&str>) -> Option<Seq<char>> {
    match text {
        Some(t) => Some(t@),
        None => None,
    }
}

/// What a backend answered to `apply_block`, as contracts speak of it.
pub open spec fn handle_view(result: Result<RuleHandle, BackendError>) -> Result<
    Seq<char>,
    BackendError,
> {
    match result {
        Ok(h) => Ok(h@),
        Err(e) => Err(e),
    }
}

/// A backend and the history of the calls made to it.
pub struct Gateway<B> {
    backend: B,
    history: Ghost<Seq<BackendEvent>>,
}

impl<B: BackendAdapter> Gateway<B> {
    /// The calls made so far, oldest first.
    pub closed spec fn history(&self) -> Seq<BackendEvent> {
        self.history@
    }

    /// A gateway to `backend` through which no call has been made.
    pub fn new(backend: B) -> (r: Gateway<B>)
        ensures
            r.history() == Seq::<BackendEvent>::empty(),
            r.inner() == backend,
    {
        Gateway { backend, history: Ghost(Seq::empty()) }
    }

    /// The backend behind the gateway.
    pub fn backend(&self) -> (r: &B)
        ensures
            *r == self.inner(),
    {
        &self.backend
    }

    /// Gives the backend back.
    pub fn into_backend(self) -> (r: B)
        ensures
            r == self.inner(),
    {
        self.backend
    }

    /// Asks the backend to drop the traffic of `ip`.
    pub fn apply_block(&mut self, ip: &IpNet, reason: Option<&str>) -> (r: Result<
        RuleHandle,
        BackendError,
    >)
        ensures
            final(self).history() == old(self).history().push(
                BackendEvent::ApplyBlock {
                    ip: *ip,
                    reason: str_view(reason),
                    result: handle_view(r),
                },
            ),
    {
        let r = self.backend.apply_block(ip, reason);
        self.history = Ghost(
            self.history@.push(
                BackendEvent::ApplyBlock {
                    ip: *ip,
                    reason: str_view(reason),
                    result: handle_view(r),
                },
            ),
        );
        r
    }

    /// Asks the backend to remove the rule behind `handle`.
    pub fn retract(&mut self, handle: &RuleHandle) -> (r: Result<(), BackendError>)
        ensures
            final(self).history() == old(self).history().push(
                BackendEvent::Retract { handle: handle@, result: r },
            ),
    {
        let r = self.backend.retract(handle);
        self.history = Ghost(
            self.history@.push(BackendEvent::Retract { handle: handle@, result: r }),
        );
        r
    }

    /// Asks the backend to switch the whole filter on.
    pub fn apply_allow_profile(&mut self) -> (r: Result<(), BackendError>)
        ensures
            final(self).history() == old(self).history().push(
                BackendEvent::AllowProfile { result: r },
            ),
    {
        let r = self.backend.apply_allow_profile();
        self.history = Ghost(self.history@.push(BackendEvent::AllowProfile { result: r }));
        r
    }

    /// Asks the backend to switch the whole filter off.
    pub fn apply_deny_profile(&mut self) -> (r: Result<(), BackendError>)
        ensures
            final(self).history() == old(self).history().push(
                BackendEvent::DenyProfile { result: r },
            ),
    {
        let r = self.backend.apply_deny_profile();
        self.history = Ghost(self.history@.push(BackendEvent::DenyProfile { result: r }));
        r
    }

    /// Asks the backend how many rules it holds.
    pub fn count_rules(&mut self) -> (r: u64)
        ensures
            final(self).history() == old(self).history().push(
                BackendEvent::CountRules { count: r },
            ),
    {
        let r = self.backend.count_rules();
        self.history = Ghost(self.history@.push(BackendEvent::CountRules { count: r }));
        r
    }

    /// Asks the backend how many of its rules block traffic.
    pub fn count_blocking_rules(&mut self) -> (r: u64)
        ensures
            final(self).history() == old(self).history().push(
                BackendEvent::CountBlockingRules { count: r },
            ),
    {
        let r = self.backend.count_blocking_rules();
        self.history = Ghost(self.history@.push(BackendEvent::CountBlockingRules { count: r }));
        r
    }

    /// The backend behind the gateway, as it stands after the calls made so
    /// far.
    pub closed spec fn inner(&self) -> B {
        self.backend
    }
}

} // verus!
