//! Open documents: which files the open dialog offers (those with a `.usfm`
//! or `.sfm` extension, in any case), what the status bar says of a file's
//! envelope, and the per-line terminators the editor carries through edits.
//!
//! The envelope stays on this side. What crosses to the editor is text, a
//! summary for the status bar, and one terminator per newline, which only
//! the editor can move through its edits and which comes back with a save.

use vstd::prelude::*;
use crate::reference::{eq_ignore_ascii_case, same_ignoring_ascii_case};
use crate::text::{chars_of, string_from};
use crate::fidelity::{dominant_of, endings_label, terminator_at, Eol, FidelityView, FileFidelity, LineEndings, LineEndingsView};
use crate::save::CopyBackReason;

verus! {

/// A path separator, in either spelling.
pub open spec fn path_sep(c: char) -> bool {
    c == '/' || c == '\\'
}

/// Where the text of `p` ends once trailing separators are dropped.
pub open spec fn trimmed_end(p: Seq<char>, e: int) -> int
    decreases e,
{
    if e > 0 && e <= p.len() && path_sep(p[e - 1]) {
        trimmed_end(p, e - 1)
    } else {
        e
    }
}

/// Where the last component of `p[0..e)` starts: just past its last
/// separator, or 0.
pub open spec fn component_start(p: Seq<char>, e: int) -> int
    decreases e,
{
    if e > 0 && e <= p.len() && !path_sep(p[e - 1]) {
        component_start(p, e - 1)
    } else {
        e
    }
}

/// The file name of `p[0..e)`, as `Path::file_name` reads it: its last
/// component, where a `.` stands for the component before it and `..` or
/// nothing means there is none.
pub open spec fn file_name_upto(p: Seq<char>, e: int) -> Option<Seq<char>>
    decreases e,
{
    if e <= 0 || e > p.len() {
        None
    } else {
        let t = trimmed_end(p, e);
        let k = component_start(p, t);
        let base = p.subrange(k, t);
        if t <= 0 || t > e || k < 0 || k > t || base.len() == 0 || base == ".."@ {
            None
        } else if base == "."@ {
            if k < e { file_name_upto(p, k) } else { None }
        } else {
            Some(base)
        }
    }
}

/// The extension of a file name: what follows its last `.`, unless the only
/// `.` is the first character.
pub open spec fn extension_of(name: Seq<char>) -> Option<Seq<char>> {
    let k = last_dot(name, name.len() as int);
    if k <= 0 {
        None
    } else {
        Some(name.subrange(k + 1, name.len() as int))
    }
}

/// Where the last `.` in `name[0..e)` is, or -1.
pub open spec fn last_dot(name: Seq<char>, e: int) -> int
    decreases e,
{
    if e <= 0 || e > name.len() {
        -1
    } else if name[e - 1] == '.' {
        e - 1
    } else {
        last_dot(name, e - 1)
    }
}

/// Whether a path looks like a USFM file.
pub open spec fn usfm_path(p: Seq<char>) -> bool {
    match file_name_upto(p, p.len() as int) {
        Some(n) => match extension_of(n) {
            Some(x) => same_ignoring_ascii_case(x, "usfm"@) || same_ignoring_ascii_case(x, "sfm"@),
            None => false,
        },
        None => false,
    }
}

proof fn lemma_trimmed_end(p: Seq<char>, e: int)
    requires
        0 <= e <= p.len(),
    ensures
        0 <= trimmed_end(p, e) <= e,
    decreases e,
{
    if e > 0 && path_sep(p[e - 1]) {
        lemma_trimmed_end(p, e - 1);
    }
}

proof fn lemma_component_start(p: Seq<char>, e: int)
    requires
        0 <= e <= p.len(),
    ensures
        0 <= component_start(p, e) <= e,
    decreases e,
{
    if e > 0 && !path_sep(p[e - 1]) {
        lemma_component_start(p, e - 1);
    }
}

/// The file name of `cs[0..e)`, as bounds.
fn file_name_bounds(cs: &Vec<char>, e: usize) -> (r: Option<(usize, usize)>)
    requires
        e <= cs@.len(),
    ensures
        match r {
            Some((a, b)) => a <= b <= cs@.len() && file_name_upto(cs@, e as int) == Some(cs@.subrange(a as int, b as int)),
            None => file_name_upto(cs@, e as int) is None,
        },
    decreases e,
{
    if e == 0 {
        return None;
    }
    let mut t = e;
    while t > 0 && (cs[t - 1] == '/' || cs[t - 1] == '\\')
        invariant
            t <= e <= cs@.len(),
            trimmed_end(cs@, e as int) == trimmed_end(cs@, t as int),
        decreases t,
    {
        t -= 1;
    }
    let mut k = t;
    while k > 0 && !(cs[k - 1] == '/' || cs[k - 1] == '\\')
        invariant
            k <= t <= e <= cs@.len(),
            component_start(cs@, t as int) == component_start(cs@, k as int),
        decreases k,
    {
        k -= 1;
    }
    let ghost base = cs@.subrange(k as int, t as int);
    if t == 0 || k == t {
        return None;
    }
    if t - k == 2 && cs[k] == '.' && cs[k + 1] == '.' {
        proof {
            reveal_strlit("..");
            assert(base =~= ".."@);
        }
        return None;
    }
    proof {
        reveal_strlit("..");
        reveal_strlit(".");
        assert(".."@.len() == 2 && ".."@[0] == '.' && ".."@[1] == '.');
        assert("."@.len() == 1 && "."@[0] == '.');
        if base == ".."@ {
            assert(base.len() == 2);
            assert(base[0] == cs@[k as int] && base[1] == cs@[k + 1]);
        }
    }
    if t - k == 1 && cs[k] == '.' {
        assert(base =~= "."@);
        if k < e {
            return file_name_bounds(cs, k);
        }
        return None;
    }
    proof {
        if base == "."@ {
            assert(base.len() == 1);
            assert(base[0] == cs@[k as int]);
        }
    }
    Some((k, t))
}

/// Whether the path looks like a USFM file, for the open dialog's filter:
/// its file name's extension is `usfm` or `sfm`, in any case.
pub fn is_usfm(path: &str) -> (b: bool)
    ensures
        b == usfm_path(path@),
{
    let cs = chars_of(path);
    let (a, b) = match file_name_bounds(&cs, cs.len()) {
        Some(bounds) => bounds,
        None => {
            return false;
        },
    };
    let ghost name = cs@.subrange(a as int, b as int);
    let mut e = b;
    while e > a && cs[e - 1] != '.'
        invariant
            a <= e <= b <= cs@.len(),
            name == cs@.subrange(a as int, b as int),
            last_dot(name, name.len() as int) == last_dot(name, e - a),
        decreases e,
    {
        assert(name[e - a - 1] == cs@[e - 1]);
        e -= 1;
    }
    proof {
        if e > a {
            assert(name[e - a - 1] == cs@[e - 1]);
        }
    }
    if e - a <= 1 {
        return false;
    }
    let ext = string_from(&cs, e, b);
    assert(name.subrange(e - a, name.len() as int) =~= cs@.subrange(e as int, b as int));
    eq_ignore_ascii_case(ext.as_str(), "usfm") || eq_ignore_ascii_case(ext.as_str(), "sfm")
}


/// The terminators of the first `n` lines: those the file recorded, then
/// the dominant one for lines added since.
pub open spec fn per_line(le: LineEndingsView, n: nat) -> Seq<Eol> {
    Seq::new(n, |k: int| terminator_at(le, k))
}

/// The per-line terminators of a file, one per newline of its text.
pub fn terminators(fidelity: &FileFidelity, newlines: usize) -> (r: Vec<Eol>)
    ensures
        r@ == per_line(fidelity@.eol, newlines as nat),
{
    let mut out: Vec<Eol> = Vec::new();
    let mut k: usize = 0;
    while k < newlines
        invariant
            k <= newlines,
            out@ == per_line(fidelity@.eol, k as nat),
        decreases newlines - k,
    {
        let e = match &fidelity.eol {
            LineEndings::Uniform(eol) => *eol,
            LineEndings::Mixed { per_line, dominant } => if k < per_line.len() {
                per_line[k]
            } else {
                *dominant
            },
        };
        out.push(e);
        assert(out@ =~= per_line(fidelity@.eol, (k + 1) as nat));
        k += 1;
    }
    out
}

/// The line endings after a save that sent the editor's terminators: none
/// sent means unchanged; all alike are uniform; otherwise mixed, keeping
/// the dominant terminator the file had.
pub open spec fn edited_endings(current: LineEndingsView, eols: Seq<Eol>) -> LineEndingsView {
    if eols.len() == 0 {
        current
    } else if forall|i: int| 0 <= i < eols.len() ==> #[trigger] eols[i] == eols[0] {
        LineEndingsView::Uniform(eols[0])
    } else {
        LineEndingsView::Mixed { per_line: eols, dominant: dominant_of(current) }
    }
}

/// Applies the editor's terminators to a document's line endings.
pub fn apply_terminators(fidelity: &mut FileFidelity, eols: Vec<Eol>)
    ensures
        final(fidelity)@ == (FidelityView { eol: edited_endings(old(fidelity)@.eol, eols@), ..old(fidelity)@ }),
{
    if eols.len() == 0 {
        return;
    }
    let dominant = fidelity.eol.dominant();
    let first = eols[0];
    let mut i: usize = 0;
    let mut uniform = true;
    while i < eols.len()
        invariant
            i <= eols@.len(),
            eols@.len() > 0,
            first == eols@[0],
            uniform <==> forall|j: int| 0 <= j < i ==> #[trigger] eols@[j] == first,
        decreases eols.len() - i,
    {
        if eols[i] != first {
            uniform = false;
        }
        i += 1;
    }
    if uniform {
        fidelity.eol = LineEndings::Uniform(first);
    } else {
        fidelity.eol = LineEndings::Mixed { per_line: eols, dominant };
    }
}

/// What the status bar shows of a file's envelope.
#[derive(Debug, Clone, PartialEq, Eq)]
pub struct Summary {
    /// The only encoding the engine accepts: stated, not detected.
    pub encoding: String,
    pub eol: String,
    pub bom: bool,
    pub final_newline: bool,
    pub mixed_eol: bool,
}

impl Summary {
    /// The status bar's summary of an envelope.
    pub fn of(fidelity: &FileFidelity) -> (r: Self)
        ensures
            r.encoding@ == "UTF-8"@,
            r.eol@ == endings_label(fidelity@.eol),
            r.bom == fidelity.bom,
            r.final_newline == fidelity.final_newline,
            r.mixed_eol == (fidelity@.eol is Mixed),
    {
        Summary {
            encoding: String::from_str("UTF-8"),
            eol: fidelity.eol.to_string(),
            bom: fidelity.bom,
            final_newline: fidelity.final_newline,
            mixed_eol: fidelity.eol.is_mixed(),
        }
    }
}

/// How the status bar names the reason a save took the slower rung.
pub open spec fn reason_text(reason: CopyBackReason) -> Seq<char> {
    match reason {
        CopyBackReason::HardLinked => "linked file"@,
        CopyBackReason::SyncRoot => "cloud folder"@,
        CopyBackReason::RenameFailed => "in-place write"@,
    }
}

/// The words for why a save copied back rather than renamed.
pub fn reason_label(reason: CopyBackReason) -> (r: &'static str)
    ensures
        r@ == reason_text(reason),
{
    let r = match reason {
        CopyBackReason::HardLinked => "linked file",
        CopyBackReason::SyncRoot => "cloud folder",
        CopyBackReason::RenameFailed => "in-place write",
    };
    proof {
        reveal_strlit("linked file");
        reveal_strlit("cloud folder");
        reveal_strlit("in-place write");
    }
    r
}

} // verus!
