//! What to do when a document is opened: who holds it, and whether there is
//! unsaved work from a session that did not finish.
//!
//! Held by a live foreign process: read-only, and any snapshot belongs to
//! that session, not ours to offer. Otherwise the newest snapshot is offered
//! when it holds work that was outstanding and differs from what is on disk.
//! Recovery is always a choice, never automatic.

use vstd::prelude::*;
use crate::lock::Held;

verus! {

/// The newest snapshot of a document: when it was taken, whether anything
/// was unsaved then, where the caret was, and the text.
#[derive(Debug, Clone, PartialEq, Eq)]
pub struct Newest {
    pub taken_at: u64,
    pub dirty: bool,
    pub cursor: u32,
    pub text: String,
}

/// An offer to restore work from a session that did not finish.
#[derive(Debug, Clone, PartialEq, Eq)]
pub struct Recovery {
    /// When the snapshot was taken, for the prompt to name a time.
    pub taken_at: u64,
    /// How many lines differ from what is on disk.
    pub lines_differing: usize,
    /// The snapshot itself, so accepting costs no second round trip.
    pub text: String,
    /// Where the caret was.
    pub cursor: u32,
}

/// Everything the interface needs to decide what to show.
#[derive(Debug, Clone, PartialEq, Eq)]
pub struct Reopen {
    /// Who holds the file, if anyone.
    pub held: Held,
    /// Present only when there is unsaved work worth offering back.
    pub recovery: Option<Recovery>,
}

/// Whether a snapshot is offered: nobody live holds the file elsewhere,
/// something was unsaved when it was taken, and it differs from the disk.
pub open spec fn offered(held: Held, newest: Option<Newest>, differing: usize) -> bool {
    &&& !(held is Foreign)
    &&& newest matches Some(n) && n.dirty
    &&& differing > 0
}

/// Answers both questions for one document, given who holds it, its newest
/// snapshot if there is one, and how many lines of that snapshot differ from
/// what is on disk.
pub fn examine(held: Held, newest: Option<Newest>, differing: usize) -> (r: Reopen)
    ensures
        r.held == held,
        offered(held, newest, differing) <==> r.recovery is Some,
        r.recovery matches Some(offer) ==> newest matches Some(n) && offer.taken_at == n.taken_at
            && offer.lines_differing == differing && offer.text@ == n.text@ && offer.cursor == n.cursor,
{
    let foreign = match &held {
        Held::Foreign { .. } => true,
        _ => false,
    };
    if foreign {
        return Reopen { held, recovery: None };
    }
    let recovery = match newest {
        Some(n) => {
            if !n.dirty || differing == 0 {
                None
            } else {
                Some(Recovery { taken_at: n.taken_at, lines_differing: differing, text: n.text, cursor: n.cursor })
            }
        },
        None => None,
    };
    Reopen { held, recovery }
}

} // verus!
