//! The decisions of the atomic save ladder.
//!
//! The original is never truncated before the replacement is durable. Rung
//! one writes a temporary file beside the target and renames it over; rung
//! two keeps the file's identity and writes in place behind a sidecar copy,
//! for hard links and cloud-sync folders, where replacing the file does real
//! damage; a read-only file is not written at all. The filesystem work is
//! the caller's; what is decided here is which rung, and what a failure
//! means.

use vstd::prelude::*;
use crate::fmt::{decimal, push_decimal, push_str};
use crate::text::chars_of;

verus! {

/// Which rung saved the file.
#[derive(Debug, Clone, Copy, PartialEq, Eq, Structural)]
pub enum Rung {
    /// Durable rename: the default, and the only atomic one.
    Rename,
    /// Copy-back, keeping the file's identity.
    CopyBack,
}

/// Why the ladder went to rung two.
#[derive(Debug, Clone, Copy, PartialEq, Eq, Structural)]
pub enum CopyBackReason {
    /// The file has other names, which a rename would leave behind.
    HardLinked,
    /// The file is in a cloud-sync folder, whose client would read a rename
    /// as a delete and a create.
    SyncRoot,
    /// Rung one was tried and its rename refused.
    RenameFailed,
}

/// The first step for a target: refuse a read-only file, go straight to
/// rung two for a hard-linked or synced one, or try rung one.
#[derive(Debug, Clone, Copy, PartialEq, Eq, Structural)]
pub enum Plan {
    ReadOnly,
    CopyBack(CopyBackReason),
    Rename,
}

/// Which step of rung one gave way.
#[derive(Debug, Clone, Copy, PartialEq, Eq, Structural)]
pub enum RungOneFailure {
    Write,
    Replace,
    Sync,
}

/// Chooses the first step. `links` and `readonly` are the target's
/// metadata, where it could be read.
pub fn plan(readonly: bool, links: u64, sync_root: bool) -> (p: Plan)
    ensures
        p == (if readonly {
            Plan::ReadOnly
        } else if links > 1 {
            Plan::CopyBack(CopyBackReason::HardLinked)
        } else if sync_root {
            Plan::CopyBack(CopyBackReason::SyncRoot)
        } else {
            Plan::Rename
        }),
{
    if readonly {
        Plan::ReadOnly
    } else if links > 1 {
        Plan::CopyBack(CopyBackReason::HardLinked)
    } else if sync_root {
        Plan::CopyBack(CopyBackReason::SyncRoot)
    } else {
        Plan::Rename
    }
}

/// Whether a failed rung one steps down to rung two. Only a refused
/// replace of an existing file does: a failed write is not retried in
/// place, because rung two truncates the original first, and retrying a
/// write that just failed would destroy the file it is trying to save.
pub fn steps_down(failure: RungOneFailure, existing: bool) -> (b: bool)
    ensures
        b == (failure == RungOneFailure::Replace && existing),
{
    failure == RungOneFailure::Replace && existing
}

/// A step of rung two.
#[derive(Debug, Clone, Copy, PartialEq, Eq, Structural)]
pub enum CopyStep {
    /// The target is missing: write it new.
    WriteNew,
    /// Copy the target to its sidecar first.
    CopySidecar,
    /// Write the target in place, behind the sidecar.
    WriteInPlace,
}

/// What follows a step of rung two.
#[derive(Debug, Clone, Copy, PartialEq, Eq, Structural)]
pub enum CopyNext {
    /// Take this step next.
    Step(CopyStep),
    /// The save is done; remove the sidecar if one was made.
    Saved { remove_sidecar: bool },
    /// The save failed; name the sidecar if it is the copy left to recover
    /// from, and keep it.
    Failed { keep_sidecar: bool },
}

/// The first step of rung two: a missing target is written new; an
/// existing one is first copied to its sidecar.
pub fn copy_back_start(target_exists: bool) -> (s: CopyStep)
    ensures
        s == (if target_exists { CopyStep::CopySidecar } else { CopyStep::WriteNew }),
{
    if target_exists {
        CopyStep::CopySidecar
    } else {
        CopyStep::WriteNew
    }
}

/// What follows a step of rung two that succeeded or not. A failed copy to
/// the sidecar never touches the original; a failed in-place write keeps
/// the sidecar, which then holds the only good copy.
pub fn copy_back_next(step: CopyStep, succeeded: bool) -> (n: CopyNext)
    ensures
        n == (match step {
            CopyStep::WriteNew => if succeeded {
                CopyNext::Saved { remove_sidecar: false }
            } else {
                CopyNext::Failed { keep_sidecar: false }
            },
            CopyStep::CopySidecar => if succeeded {
                CopyNext::Step(CopyStep::WriteInPlace)
            } else {
                CopyNext::Failed { keep_sidecar: false }
            },
            CopyStep::WriteInPlace => if succeeded {
                CopyNext::Saved { remove_sidecar: true }
            } else {
                CopyNext::Failed { keep_sidecar: true }
            },
        }),
{
    match step {
        CopyStep::WriteNew => if succeeded {
            CopyNext::Saved { remove_sidecar: false }
        } else {
            CopyNext::Failed { keep_sidecar: false }
        },
        CopyStep::CopySidecar => if succeeded {
            CopyNext::Step(CopyStep::WriteInPlace)
        } else {
            CopyNext::Failed { keep_sidecar: false }
        },
        CopyStep::WriteInPlace => if succeeded {
            CopyNext::Saved { remove_sidecar: true }
        } else {
            CopyNext::Failed { keep_sidecar: true }
        },
    }
}

/// Whose error a failed save reports.
#[derive(Debug, Clone, Copy, PartialEq, Eq, Structural)]
pub enum Blame {
    RungOne,
    CopyBack,
}

/// Whose error a failed rung two reports: after rung one stepped down to it,
/// rung one's, since that is why the slower rung was taken; otherwise its
/// own. The sidecar, if kept, is named either way.
pub fn blame(stepped_down: bool) -> (b: Blame)
    ensures
        b == (if stepped_down { Blame::RungOne } else { Blame::CopyBack }),
{
    if stepped_down {
        Blame::RungOne
    } else {
        Blame::CopyBack
    }
}

/// A known cloud-sync folder name, lower-cased.
pub open spec fn sync_marker(i: int) -> Seq<char> {
    if i == 0 {
        "dropbox"@
    } else if i == 1 {
        "onedrive"@
    } else if i == 2 {
        "google drive"@
    } else if i == 3 {
        "googledrive"@
    } else if i == 4 {
        "cloudstorage"@
    } else if i == 5 {
        "icloud drive"@
    } else if i == 6 {
        "com~apple~clouddocs"@
    } else if i == 7 {
        "nextcloud"@
    } else {
        "syncthing"@
    }
}

/// `c` with an ASCII capital made small.
pub open spec fn lower(c: char) -> char {
    if 'A' <= c && c <= 'Z' {
        ((c as u32) + 32) as char
    } else {
        c
    }
}

/// Whether `seg` is `m`, ignoring ASCII case.
pub open spec fn same_ignoring_case(seg: Seq<char>, m: Seq<char>) -> bool {
    seg.len() == m.len() && forall|j: int| 0 <= j < m.len() ==> lower(#[trigger] seg[j]) == m[j]
}

/// Whether a path component names a sync folder: it is the marker, or the
/// marker followed by a space (a business OneDrive is "OneDrive - Acme").
pub open spec fn names_sync_folder(seg: Seq<char>, m: Seq<char>) -> bool {
    same_ignoring_case(seg, m) || (seg.len() > m.len() && same_ignoring_case(seg.take(m.len() as int), m)
        && seg[m.len() as int] == ' ')
}

/// A path separator, in either spelling.
pub open spec fn is_separator(c: char) -> bool {
    c == '/' || c == '\\'
}

/// Whether some component of `p`, split at either separator, names a sync
/// folder. The markers are ASCII letters, spaces and `~`, and the only
/// character Unicode lower-cases to an ASCII letter from outside ASCII is
/// the Kelvin sign, to `k`, which no marker holds: so comparing ASCII
/// letters case-insensitively decides what lower-casing the whole path
/// first would.
pub open spec fn under_sync_root_spec(p: Seq<char>) -> bool {
    exists|lo: int, hi: int, i: int|
        #![trigger p.subrange(lo, hi), sync_marker(i)]
        0 <= lo <= hi <= p.len() && 0 <= i < 9
        && (lo == 0 || is_separator(p[lo - 1]))
        && (hi == p.len() || is_separator(p[hi]))
        && (forall|j: int| lo <= j < hi ==> !is_separator(#[trigger] p[j]))
        && names_sync_folder(p.subrange(lo, hi), sync_marker(i))
}

fn marker(i: usize) -> (m: &'static str)
    requires
        i < 9,
    ensures
        m@ == sync_marker(i as int),
{
    match i {
        0 => "dropbox",
        1 => "onedrive",
        2 => "google drive",
        3 => "googledrive",
        4 => "cloudstorage",
        5 => "icloud drive",
        6 => "com~apple~clouddocs",
        7 => "nextcloud",
        _ => "syncthing",
    }
}

fn lower_char(c: char) -> (r: char)
    ensures
        r == lower(c),
{
    if 'A' <= c && c <= 'Z' {
        let b = (c as u32 + 32) as u8;
        assert((b as char) == ((c as u32) + 32) as char);
        b as char
    } else {
        c
    }
}

/// Whether `cs[lo..lo + m.len())` is `m`, ignoring ASCII case.
fn matches_marker(cs: &Vec<char>, lo: usize, hi: usize, m: &Vec<char>) -> (b: bool)
    requires
        lo <= hi <= cs@.len(),
        m@.len() <= hi - lo,
    ensures
        b == same_ignoring_case(cs@.subrange(lo as int, lo + m@.len()), m@),
{
    let mut j: usize = 0;
    while j < m.len()
        invariant
            j <= m@.len(),
            lo + m@.len() <= hi <= cs@.len(),
            forall|k: int| 0 <= k < j ==> lower(cs@[lo + k]) == m@[k],
        decreases m.len() - j,
    {
        if lower_char(cs[lo + j]) != m[j] {
            assert(lower(cs@.subrange(lo as int, lo + m@.len())[j as int]) != m@[j as int]);
            return false;
        }
        j += 1;
    }
    assert forall|k: int| 0 <= k < m@.len() implies lower(#[trigger] cs@.subrange(lo as int, lo + m@.len())[k]) == m@[k] by {
        assert(cs@.subrange(lo as int, lo + m@.len())[k] == cs@[lo + k]);
    }
    true
}

/// Whether the component `cs[lo..hi)` names sync folder `m`.
fn component_names(cs: &Vec<char>, lo: usize, hi: usize, m: &Vec<char>) -> (b: bool)
    requires
        lo <= hi <= cs@.len(),
    ensures
        b == names_sync_folder(cs@.subrange(lo as int, hi as int), m@),
{
    let ghost seg = cs@.subrange(lo as int, hi as int);
    if hi - lo < m.len() {
        return false;
    }
    let head = matches_marker(cs, lo, hi, m);
    assert(seg.take(m@.len() as int) =~= cs@.subrange(lo as int, lo + m@.len()));
    if hi - lo == m.len() {
        assert(seg =~= cs@.subrange(lo as int, lo + m@.len()));
        return head;
    }
    assert(seg[m@.len() as int] == cs@[lo + m@.len()]);
    head && cs[lo + m.len()] == ' '
}

/// Whether the path sits in a known cloud-sync folder: some component,
/// split at `/` or `\`, is a sync folder's name (ignoring case), or that
/// name followed by a space. A component merely containing the name does
/// not count.
pub fn under_sync_root(path: &str) -> (b: bool)
    ensures
        b == under_sync_root_spec(path@),
{
    let cs = chars_of(path);
    let n = cs.len();
    let ghost p = cs@;
    let mut lo: usize = 0;
    loop
        invariant
            lo <= n == p.len(),
            p == cs@ && p == path@,
            lo == 0 || is_separator(p[lo - 1]),
            forall|a: int, h: int, i: int|
                #![trigger p.subrange(a, h), sync_marker(i)]
                0 <= a < lo && a <= h <= p.len() && 0 <= i < 9
                && (a == 0 || is_separator(p[a - 1]))
                && (h == p.len() || is_separator(p[h]))
                && (forall|j: int| a <= j < h ==> !is_separator(#[trigger] p[j]))
                ==> !names_sync_folder(p.subrange(a, h), sync_marker(i)),
        decreases n - lo,
    {
        let mut hi = lo;
        while hi < n && cs[hi] != '/' && cs[hi] != '\\'
            invariant
                lo <= hi <= n == p.len(),
                p == cs@,
                forall|j: int| lo <= j < hi ==> !is_separator(#[trigger] p[j]),
            decreases n - hi,
        {
            hi += 1;
        }
        let mut i: usize = 0;
        while i < 9
            invariant
                i <= 9,
                lo <= hi <= n == p.len(),
                p == cs@ && p == path@,
                lo == 0 || is_separator(p[lo - 1]),
                hi == p.len() || is_separator(p[hi as int]),
                forall|j: int| lo <= j < hi ==> !is_separator(#[trigger] p[j]),
                forall|k: int| 0 <= k < i ==> !names_sync_folder(p.subrange(lo as int, hi as int), #[trigger] sync_marker(k)),
            decreases 9 - i,
        {
            let m = chars_of(marker(i));
            if component_names(&cs, lo, hi, &m) {
                assert(under_sync_root_spec(path@) ) by {
                    assert(names_sync_folder(p.subrange(lo as int, hi as int), sync_marker(i as int)));
                }
                return true;
            }
            i += 1;
        }
        proof {
            // the component [lo, hi) is the only one starting at lo
            assert forall|a: int, h: int, k: int|
                #![trigger p.subrange(a, h), sync_marker(k)]
                0 <= a < hi + 1 && a <= h <= p.len() && 0 <= k < 9
                && (a == 0 || is_separator(p[a - 1]))
                && (h == p.len() || is_separator(p[h]))
                && (forall|j: int| a <= j < h ==> !is_separator(#[trigger] p[j]))
                implies !names_sync_folder(p.subrange(a, h), sync_marker(k)) by {
                if a < lo {
                } else if a == lo {
                    if h < hi {
                        assert(is_separator(p[h]));
                    } else if h > hi {
                        assert(!is_separator(p[hi as int]));
                    }
                } else {
                    assert(is_separator(p[a - 1]));
                }
            }
        }
        if hi == n {
            proof {
                assert forall|a: int, h: int, k: int|
                    #![trigger p.subrange(a, h), sync_marker(k)]
                    0 <= a <= h <= p.len() && 0 <= k < 9
                    && (a == 0 || is_separator(p[a - 1]))
                    && (h == p.len() || is_separator(p[h]))
                    && (forall|j: int| a <= j < h ==> !is_separator(#[trigger] p[j]))
                    implies !names_sync_folder(p.subrange(a, h), sync_marker(k)) by {
                    if a == n {
                        assert(a < hi + 1);
                    }
                }
            }
            return false;
        }
        lo = hi + 1;
    }
}

/// The name of the copy rung two leaves beside a file: the file's name
/// (or `document`) with `.bak-` and a timestamp in seconds.
pub fn sidecar_name(file_name: Option<&str>, stamp: u64) -> (s: String)
    ensures
        s@ == (match file_name {
            Some(n) => n@,
            None => "document"@,
        }) + ".bak-"@ + decimal(stamp as nat),
{
    let mut s = String::new();
    match file_name {
        Some(n) => push_str(&mut s, n),
        None => push_str(&mut s, "document"),
    }
    push_str(&mut s, ".bak-");
    push_decimal(&mut s, stamp);
    proof {
        let e = Seq::<char>::empty();
        assert(e + "document"@ == "document"@);
        if let Some(n) = file_name {
            assert(e + n@ == n@);
        }
    }
    s
}

/// Lower-case hex digits of `n`, most significant first.
pub open spec fn hex_digits(n: nat) -> Seq<char>
    decreases n,
{
    if n < 16 {
        seq![hex_char(n)]
    } else {
        hex_digits(n / 16).push(hex_char(n % 16))
    }
}

pub open spec fn hex_char(d: nat) -> char {
    if d < 10 {
        ((d + 48) as u32) as char
    } else {
        ((d + 87) as u32) as char
    }
}

fn push_hex(s: &mut String, n: u64)
    ensures
        final(s)@ == old(s)@ + hex_digits(n as nat),
    decreases n,
{
    if n >= 16 {
        push_hex(s, n / 16);
    }
    let d = n % 16;
    let c = if d < 10 { ((d + 48) as u8) as char } else { ((d + 87) as u8) as char };
    assert(c == hex_char(d as nat)) by {
        assert(((d + 48) as u8) as char == ((d + 48) as u32) as char);
    }
    crate::fmt::push_char(s, c);
}

/// The name of rung one's temporary file: hidden, beside the target, and
/// made unique by the process id and the clock's nanoseconds in hex.
pub fn temp_name(file_name: Option<&str>, pid: u32, nanos: u32) -> (s: String)
    ensures
        s@ == "."@ + (match file_name {
            Some(n) => n@,
            None => "document"@,
        }) + "."@ + decimal(pid as nat) + "."@ + hex_digits(nanos as nat) + ".tmp"@,
{
    let mut s = String::new();
    push_str(&mut s, ".");
    match file_name {
        Some(n) => push_str(&mut s, n),
        None => push_str(&mut s, "document"),
    }
    push_str(&mut s, ".");
    push_decimal(&mut s, pid as u64);
    push_str(&mut s, ".");
    push_hex(&mut s, nanos as u64);
    push_str(&mut s, ".tmp");
    assert(Seq::<char>::empty() + "."@ == "."@);
    s
}

} // verus!
