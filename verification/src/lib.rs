//! Temporal firewall rule management: block rules that are issued, tracked and
//! expired against a packet-filtering backend.
//!
//! The store ([`FirewallManager`]) keeps at most one record for an address and
//! a timer for each record with a deadline. It never calls the backend
//! itself while it changes: a request is a sequence of steps (`begin_*`,
//! `confirm_*`, `abort_*`), and the backend is called between two steps, so
//! that a lock on the store need not be held during the call. The requests
//! that carry the steps through against a backend (`block_ip`, `allow_ip`,
//! `expire_due`, `reconcile`, `import_rules`) go through a [`Gateway`], which
//! records each call and its answer; their contracts give the store and the
//! result as a function of those answers.
//!
//! - `address`, `ipv4`, `ipv6`, `duration`, `text`, `hex`: the texts of a
//!   request and what they mean.
//! - `record`, `model`, `scheduler`, `manager`: the records, the invariant of
//!   the store, the timers, and the steps.
//! - `backend`, `gateway`, `powershell`: the enforcement point, the recording
//!   of calls to it, and the commands of the Windows firewall.
//! - `protocol`, `driver`, `reconcile`, `sync`: what each request comes to,
//!   and the requests.
//! - `codec`, `import`, `roundtrip`: the exported form of a rule set.
//! - `guarantees`, `merge`: what holds of all of it.
//! - `stats`, `capture`, `ui`: counters, packet observation, and the state of
//!   the monitoring screen.

pub mod address;
pub mod backend;
pub mod capture;
pub mod codec;
pub mod driver;
pub mod duration;
pub mod error;
pub mod gateway;
pub mod guarantees;
pub mod hex;
pub mod import;
pub mod ipv4;
pub mod ipv6;
pub mod manager;
pub mod merge;
pub mod model;
pub mod powershell;
pub mod protocol;
pub mod reconcile;
pub mod record;
pub mod roundtrip;
pub mod scheduler;
pub mod stats;
pub mod sync;
pub mod text;
pub mod ui;

pub use address::IpNet;
pub use backend::{BackendAdapter, BackendError, RuleHandle};
pub use capture::{PacketCapture, PacketInfo};
pub use duration::parse_duration;
pub use error::{FirewallError, ValidationError};
pub use gateway::Gateway;
pub use ipv4::Ip4Net;
pub use ipv6::Ip6Net;
pub use manager::FirewallManager;
pub use record::{RuleAction, RuleId, RuleOrigin, RuleRecord, RuleState};
pub use stats::FirewallStats;
pub use ui::{App, Connection, View};
