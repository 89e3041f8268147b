//! Who has a file open.
//!
//! A lock file beside the recovery snapshots records the process that
//! opened a document: its pid, when it started, its host and version. It is
//! advisory, and exists so the interface can say something useful: this
//! process has it already, another live one does (open read-only), or the
//! one that had it is gone (something crashed). A pid alone cannot say
//! whether a process is still ours, because pids are recycled, so the start
//! time and the host must match too.

use vstd::prelude::*;
use crate::text::str_eq;

verus! {

/// What a lock file records.
#[derive(Debug, Clone, PartialEq, Eq)]
pub struct Owner {
    pub pid: u32,
    /// Milliseconds since the epoch, as a guard against a recycled pid.
    pub started_at: u64,
    /// Which machine: a pid from another computer means nothing here.
    pub host: String,
    pub app_version: String,
}

/// An owner as contracts speak of it.
pub struct OwnerView {
    pub pid: u32,
    pub started_at: u64,
    pub host: Seq<char>,
    pub app_version: Seq<char>,
}

impl View for Owner {
    type V = OwnerView;

    open spec fn view(&self) -> OwnerView {
        OwnerView { pid: self.pid, started_at: self.started_at, host: self.host@, app_version: self.app_version@ }
    }
}

/// Whether a record describes the process asking: the pid, the host and
/// the start time all match.
pub open spec fn same_process(a: OwnerView, b: OwnerView) -> bool {
    a.pid == b.pid && a.host == b.host && a.started_at == b.started_at
}

impl Owner {
    /// Whether this record describes the process `us`.
    pub fn is(&self, us: &Owner) -> (b: bool)
        ensures
            b == same_process(self@, us@),
    {
        self.pid == us.pid && str_eq(self.host.as_str(), us.host.as_str()) && self.started_at == us.started_at
    }
}

/// What the interface has to decide between.
#[derive(Debug, Clone, PartialEq, Eq)]
pub enum Held {
    /// Nobody has it.
    Free,
    /// This process already has it open.
    Ours,
    /// Another live process has it.
    Foreign { owner: Owner },
    /// The process that had it is gone.
    Crashed { owner: Owner },
}

/// How far reading a lock gets without asking the operating system: a
/// settled answer, or the record of a process on this machine whose
/// liveness decides it.
#[derive(Debug, Clone, PartialEq, Eq)]
pub enum Reading {
    Settled(Held),
    AskIfAlive(Owner),
}

/// Reads a lock record: `record` is the parsed lock file, or `None` when
/// there is none or it does not parse (a torn or foreign file is treated as
/// free rather than locking a translator out of their own file).
pub fn read_lock(record: Option<Owner>, us: &Owner) -> (r: Reading)
    ensures
        match record {
            None => r == Reading::Settled(Held::Free),
            Some(o) => if same_process(o@, us@) {
                r == Reading::Settled(Held::Ours)
            } else if o@.host != us@.host {
                r == Reading::Settled(Held::Crashed { owner: o })
            } else {
                r == Reading::AskIfAlive(o)
            },
        },
{
    match record {
        None => Reading::Settled(Held::Free),
        Some(owner) => {
            if owner.is(us) {
                Reading::Settled(Held::Ours)
            } else if !str_eq(owner.host.as_str(), us.host.as_str()) {
                Reading::Settled(Held::Crashed { owner })
            } else {
                Reading::AskIfAlive(owner)
            }
        },
    }
}

/// The answer once the recorded process has been looked for.
pub fn settle(owner: Owner, alive: bool) -> (h: Held)
    ensures
        alive ==> h == (Held::Foreign { owner }),
        !alive ==> h == (Held::Crashed { owner }),
{
    if alive {
        Held::Foreign { owner }
    } else {
        Held::Crashed { owner }
    }
}

} // verus!
