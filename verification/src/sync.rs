//! Export, import and reconciliation carried through against a backend.

use crate::address::IpNet;
use crate::backend::BackendAdapter;
use crate::codec::{
    entries_of, entries_view, export_snapshot, spec_export, FormatError, ImportWarning,
    RuleEntry,
};
use crate::gateway::{str_view, BackendEvent, Gateway};
use crate::import::{decode_rules, spec_import};
use crate::manager::{BlockStage, FirewallManager, RetractStage};
use crate::model::ip_position;
use crate::protocol::{events_since, lemma_entered_last, lemma_suspended_position};
use crate::reconcile::{
    draft_of, install_steps, lemma_run_prefix, reconcile_model, retract_steps, run_plan,
    stale_ips, PlanStep, ReconcileRun,
};
use crate::record::{
    records_view, RuleAction, RuleId, RuleRecord, RuleRecordView, RuleState,
};
use vstd::prelude::*;

verus! {

/// What a reconciliation did.
#[derive(Debug)]
pub struct ReconcileReport {
    /// The records whose rules were retracted, now removed.
    pub retracted: Vec<RuleRecord>,
    /// The identifiers of the records installed.
    pub installed: Vec<RuleId>,
    /// The addresses whose step failed.
    pub failed: Vec<IpNet>,
}

/// What an import did.
#[derive(Debug)]
pub struct ImportReport {
    /// A warning for each entry of the file that was skipped.
    pub warnings: Vec<ImportWarning>,
    /// What bringing the store to the entries read did.
    pub changes: ReconcileReport,
}

/// The report says what the run came to.
pub open spec fn report_matches(report: ReconcileReport, run: ReconcileRun) -> bool {
    &&& records_view(report.retracted@) == run.retracted
    &&& report.installed@ == run.installed
    &&& report.failed@ == run.failed
}

/// A history that has grown by one call.
proof fn lemma_one_more(before: Seq<BackendEvent>, now: Seq<BackendEvent>, ev: BackendEvent)
    requires
        before.is_prefix_of(now),
    ensures
        before.is_prefix_of(now.push(ev)),
        events_since(before, now).is_prefix_of(events_since(before, now.push(ev))),
        events_since(before, now.push(ev)) == events_since(before, now).push(ev),
        events_since(before, now.push(ev))[events_since(before, now).len() as int] == ev,
{
    assert(events_since(before, now.push(ev)) =~= events_since(before, now).push(ev));
}

/// The reason of an entry as a string slice.
fn reason_of(entry: &RuleEntry) -> (r: Option<&str>)
    ensures
        str_view(r) == entry@.reason,
{
    match &entry.reason {
        Some(text) => Some(text.as_str()),
        None => None,
    }
}

impl FirewallManager {
    /// The store as a file.
    pub fn export_rules(&self) -> (r: Vec<u8>)
        ensures
            r@ == spec_export(entries_of(self@.records())),
    {
        let snapshot = self.snapshot();
        export_snapshot(&snapshot)
    }

    /// Brings the store to the desired rule set. The active records whose
    /// address the set does not ask to block are retracted; the blocks of
    /// the set whose address has no record are installed, as the set
    /// describes them; every other record is left as it is. A step that the
    /// backend refuses is noted and the rest is carried through.
    pub fn reconcile<B: BackendAdapter>(
        &mut self,
        gateway: &mut Gateway<B>,
        desired: &Vec<RuleEntry>,
    ) -> (report: ReconcileReport)
        requires
            old(self).wf(),
            forall|i: int| 0 <= i < desired@.len() ==> (#[trigger] desired@[i]).ip.wf(),
        ensures
            final(self).wf(),
            old(gateway).history().is_prefix_of(final(gateway).history()),
            ({
                let events = events_since(old(gateway).history(), final(gateway).history());
                let run = reconcile_model(old(self)@, entries_view(desired@), events);
                &&& run.valid
                &&& run.used == events.len()
                &&& final(self)@ == run.store
                &&& report_matches(report, run)
            }),
    {
        let ghost h0 = gateway.history();
        let ghost v0 = self@;
        let ghost want = entries_view(desired@);
        let stale = self.stale_ips(desired);
        let mut retracted: Vec<RuleRecord> = Vec::new();
        let mut installed: Vec<RuleId> = Vec::new();
        let mut failed: Vec<IpNet> = Vec::new();
        proof {
            assert(events_since(h0, h0) =~= Seq::<BackendEvent>::empty());
            assert(records_view(retracted@) =~= Seq::<RuleRecordView>::empty());
            assert(retract_steps(stale@.take(0)) =~= Seq::<PlanStep>::empty());
        }
        let mut i: usize = 0;
        while i < stale.len()
            invariant
                i <= stale@.len(),
                self.wf(),
                h0.is_prefix_of(gateway.history()),
                run_plan(
                    v0,
                    retract_steps(stale@.take(i as int)),
                    events_since(h0, gateway.history()),
                ) == (ReconcileRun {
                    store: self@,
                    used: events_since(h0, gateway.history()).len(),
                    valid: true,
                    retracted: records_view(retracted@),
                    installed: installed@,
                    failed: failed@,
                }),
            decreases stale@.len() - i,
        {
            let ip = stale[i];
            let ghost cur = self@;
            let ghost h = gateway.history();
            let ghost events = events_since(h0, h);
            let ghost done = retract_steps(stale@.take(i as int));
            let ghost next = retract_steps(stale@.take(i + 1));
            proof {
                assert(next.drop_last() =~= done);
                assert(next.last() == PlanStep::Retract { ip });
            }
            let active = match self.state_of(&ip) {
                Some(state) => state == RuleState::Active,
                None => false,
            };
            if active {
                match self.begin_retract(&ip) {
                    RetractStage::Retract { id, handle } => {
                        let ghost k = ip_position(cur.entries, ip);
                        proof {
                            lemma_suspended_position(cur, k);
                        }
                        let answer = gateway.retract(&handle);
                        proof {
                            let ev = BackendEvent::Retract { handle: handle@, result: answer };
                            lemma_one_more(h0, h, ev);
                            lemma_run_prefix(v0, done, events, events_since(h0, gateway.history()));
                        }
                        match answer {
                            Ok(_) => {
                                match self.confirm_retract(id) {
                                    Some(record) => {
                                        proof {
                                            assert(records_view(retracted@.push(record))
                                                =~= records_view(retracted@).push(record@));
                                        }
                                        retracted.push(record);
                                    },
                                    None => {},
                                }
                            },
                            Err(_) => {
                                let _ = self.abort_retract(id);
                                failed.push(ip);
                            },
                        }
                    },
                    _ => {},
                }
            }
            i = i + 1;
        }
        let ghost first = retract_steps(stale@);
        proof {
            assert(stale@.take(i as int) =~= stale@);
            assert(first + install_steps(want.take(0)) =~= first);
        }
        let mut j: usize = 0;
        while j < desired.len()
            invariant
                j <= desired@.len(),
                self.wf(),
                want == entries_view(desired@),
                first == retract_steps(stale@),
                forall|i: int| 0 <= i < desired@.len() ==> (#[trigger] desired@[i]).ip.wf(),
                h0.is_prefix_of(gateway.history()),
                run_plan(
                    v0,
                    first + install_steps(want.take(j as int)),
                    events_since(h0, gateway.history()),
                ) == (ReconcileRun {
                    store: self@,
                    used: events_since(h0, gateway.history()).len(),
                    valid: true,
                    retracted: records_view(retracted@),
                    installed: installed@,
                    failed: failed@,
                }),
            decreases desired@.len() - j,
        {
            let entry = &desired[j];
            let ghost cur = self@;
            let ghost h = gateway.history();
            let ghost events = events_since(h0, h);
            let ghost done = first + install_steps(want.take(j as int));
            let ghost next = first + install_steps(want.take(j + 1));
            proof {
                assert(next.drop_last() =~= done);
                assert(next.last() == PlanStep::Install { entry: entry@ });
                assert(desired@[j as int].ip.wf());
            }
            if entry.action == RuleAction::Block {
                let reason = reason_of(entry);
                proof {
                    if !crate::model::has_ip(cur.entries, entry.ip) && cur.next_id < u64::MAX {
                        lemma_entered_last(cur, draft_of(entry@));
                    }
                }
                match self.begin_block(
                    entry.ip,
                    reason,
                    entry.created_at,
                    entry.expires_at,
                    entry.origin,
                ) {
                    BlockStage::Occupied => {},
                    BlockStage::Exhausted => {
                        failed.push(entry.ip);
                    },
                    BlockStage::Entered { id } => {
                        let answer = gateway.apply_block(&entry.ip, reason);
                        proof {
                            lemma_one_more(h0, h, gateway.history().last());
                            lemma_run_prefix(v0, done, events, events_since(h0, gateway.history()));
                        }
                        match answer {
                            Ok(handle) => {
                                let _ = self.confirm_block(id, handle);
                                installed.push(id);
                            },
                            Err(_) => {
                                let _ = self.abort_block(id);
                                failed.push(entry.ip);
                            },
                        }
                    },
                }
            }
            j = j + 1;
        }
        proof {
            assert(want.take(j as int) =~= want);
        }
        ReconcileReport { retracted, installed, failed }
    }

    /// Reads a file and brings the store to the rules it holds. A file that
    /// cannot be read changes nothing; an entry that cannot be read is
    /// skipped with a warning.
    pub fn import_rules<B: BackendAdapter>(&mut self, gateway: &mut Gateway<B>, bytes: &[u8]) -> (r:
        Result<ImportReport, FormatError>)
        requires
            old(self).wf(),
        ensures
            final(self).wf(),
            old(gateway).history().is_prefix_of(final(gateway).history()),
            match spec_import(bytes@) {
                Err(e) => {
                    &&& r matches Err(err)
                    &&& err == e
                    &&& final(self)@ == old(self)@
                    &&& final(gateway).history() == old(gateway).history()
                },
                Ok(read) => {
                    let events = events_since(old(gateway).history(), final(gateway).history());
                    let run = reconcile_model(old(self)@, read.entries, events);
                    &&& r matches Ok(report)
                    &&& report.warnings@ == read.warnings
                    &&& run.valid
                    &&& run.used == events.len()
                    &&& final(self)@ == run.store
                    &&& report_matches(report.changes, run)
                },
            },
    {
        let imported = match decode_rules(bytes) {
            Ok(imported) => imported,
            Err(e) => {
                return Err(e);
            },
        };
        let changes = self.reconcile(gateway, &imported.entries);
        Ok(ImportReport { warnings: imported.warnings, changes })
    }
}

} // verus!
