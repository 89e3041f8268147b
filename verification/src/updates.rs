//! The update check's gate: nothing reaches the network without consent,
//! and a build without an updater says so rather than failing.

use vstd::prelude::*;

verus! {

/// Whether the user agreed to update checks. Never having been asked is
/// not consent.
#[derive(Debug, Clone, Copy, PartialEq, Eq, Structural)]
pub enum Consent {
    Unasked,
    Allowed,
    Refused,
}

/// What a check for updates came to.
#[derive(Debug, Clone, PartialEq, Eq)]
pub enum Outcome {
    /// This build cannot check at all.
    CompiledOut,
    /// The user has not consented, so nothing was sent.
    NotPermitted { consent: Consent },
    UpToDate,
    Available { version: String, notes: String },
    Failed { reason: String },
}

/// Whether a check may go ahead: `None` when it may, otherwise the outcome
/// that stands in for it.
pub fn gate(compiled_in: bool, consent: Consent) -> (r: Option<Outcome>)
    ensures
        !compiled_in ==> r == Some(Outcome::CompiledOut),
        compiled_in && consent != Consent::Allowed ==> r == Some(Outcome::NotPermitted { consent }),
        compiled_in && consent == Consent::Allowed ==> r is None,
{
    if !compiled_in {
        return Some(Outcome::CompiledOut);
    }
    if consent != Consent::Allowed {
        return Some(Outcome::NotPermitted { consent });
    }
    None
}

} // verus!
