//! The marker table: what each marker is, and how it behaves.
//!
//! Marker semantics live in data rather than in match arms. The table is a
//! generated file in a small TOML subset, read by a strict parser that
//! accepts only what the generator emits: a `[name]` header opens a marker,
//! and `key = value` lines below it fill in its fields. Anything else is
//! refused with the number of the line that broke the pattern.

use vstd::prelude::*;
use crate::text::{chars_of, string_from, trim_bounds, trim_chars};

verus! {

/// What kind of thing a marker is.
#[derive(Debug, Clone, Copy, PartialEq, Eq, Hash, Structural)]
pub enum MarkerClass {
    Character,
    Paragraph,
    Note,
    Milestone,
    /// In the stylesheet with no style type: structural and attribute
    /// pseudo-entries rather than markers a document writes.
    Unclassified,
}

/// How a marker ends.
#[derive(Debug, Clone, Copy, PartialEq, Eq, Hash, Structural)]
pub enum Closing {
    /// Closed by `\marker*`.
    Explicit,
    /// Closed by the next paragraph marker.
    Implicit,
    /// A `-s`/`-e` pair, which may span paragraphs and verses.
    Milestone,
    /// Self-contained.
    SelfContained,
}

/// Everything the table knows about one marker.
#[derive(Debug, Clone, PartialEq, Eq)]
pub struct MarkerInfo {
    pub marker: String,
    pub class: MarkerClass,
    pub closing: Closing,
    /// Markers this may nest under; `*` means any character or note context.
    pub nests_under: Vec<String>,
    pub text_type: Option<String>,
    pub publishable: bool,
    /// The USFM version that introduced the marker, where it is known.
    pub since: Option<String>,
    pub deprecated_in: Option<String>,
    pub replacement: Option<String>,
    pub attributes: Vec<String>,
    pub default_attr: Option<String>,
}

/// A table entry as contracts speak of it: its texts as characters.
pub struct InfoView {
    pub marker: Seq<char>,
    pub class: MarkerClass,
    pub closing: Closing,
    pub nests_under: Seq<Seq<char>>,
    pub text_type: Option<Seq<char>>,
    pub publishable: bool,
    pub since: Option<Seq<char>>,
    pub deprecated_in: Option<Seq<char>>,
    pub replacement: Option<Seq<char>>,
    pub attributes: Seq<Seq<char>>,
    pub default_attr: Option<Seq<char>>,
}

/// The characters of each string.
pub open spec fn texts(v: Seq<String>) -> Seq<Seq<char>> {
    v.map_values(|s: String| s@)
}

/// The characters of an optional string.
pub open spec fn opt_text(o: Option<String>) -> Option<Seq<char>> {
    match o {
        Some(s) => Some(s@),
        None => None,
    }
}

impl View for MarkerInfo {
    type V = InfoView;

    open spec fn view(&self) -> InfoView {
        InfoView {
            marker: self.marker@,
            class: self.class,
            closing: self.closing,
            nests_under: texts(self.nests_under@),
            text_type: opt_text(self.text_type),
            publishable: self.publishable,
            since: opt_text(self.since),
            deprecated_in: opt_text(self.deprecated_in),
            replacement: opt_text(self.replacement),
            attributes: texts(self.attributes@),
            default_attr: opt_text(self.default_attr),
        }
    }
}

/// Why the table text was refused, with the (1-based) line that broke the
/// pattern.
#[derive(Debug, Clone, Copy, PartialEq, Eq, Structural)]
pub enum TableError {
    /// Neither blank, a comment, a header, nor `key = value`.
    NotAField { line: usize },
    /// A field before the first `[name]` header.
    FieldBeforeMarker { line: usize },
    UnknownClass { line: usize },
    UnknownClosing { line: usize },
    UnknownField { line: usize },
    /// A value that had to be a `"quoted string"` was not.
    NotQuoted { line: usize },
    /// A value that had to be a `[list]` was not.
    NotAList { line: usize },
}

/// A new entry for `name`, with every field at its default.
pub open spec fn blank_info(name: Seq<char>) -> InfoView {
    InfoView {
        marker: name,
        class: MarkerClass::Unclassified,
        closing: Closing::SelfContained,
        nests_under: Seq::empty(),
        text_type: None,
        publishable: false,
        since: None,
        deprecated_in: None,
        replacement: None,
        attributes: Seq::empty(),
        default_attr: None,
    }
}

/// Where the entry for `name` is, searching from `i`.
pub open spec fn position_from(es: Seq<InfoView>, name: Seq<char>, i: int) -> Option<int>
    decreases es.len() - i,
{
    if i < 0 || i >= es.len() {
        None
    } else if es[i].marker == name {
        Some(i)
    } else {
        position_from(es, name, i + 1)
    }
}

/// The entries with `info` recorded: it replaces an entry of the same name,
/// or is added after the others.
pub open spec fn put(es: Seq<InfoView>, info: InfoView) -> Seq<InfoView> {
    match position_from(es, info.marker, 0) {
        Some(k) => es.update(k, info),
        None => es.push(info),
    }
}

/// `v` without the double quotes around it, if it has them.
pub open spec fn unquote(v: Seq<char>) -> Option<Seq<char>> {
    if v.len() >= 2 && v[0] == '"' && v.last() == '"' {
        Some(v.subrange(1, v.len() - 1))
    } else {
        None
    }
}

/// Where `pat` first occurs in `l` at or after `k`.
pub open spec fn find_from(l: Seq<char>, pat: Seq<char>, k: int) -> Option<int>
    decreases l.len() + 1 - k,
{
    if k < 0 || k + pat.len() > l.len() {
        None
    } else if l.subrange(k, k + pat.len()) == pat {
        Some(k)
    } else {
        find_from(l, pat, k + 1)
    }
}

/// A match `find_from` reports lies at or after where it started, inside
/// the text.
pub proof fn lemma_find_from(l: Seq<char>, pat: Seq<char>, k: int)
    requires
        0 <= k,
    ensures
        find_from(l, pat, k) matches Some(j) ==> k <= j && j + pat.len() <= l.len()
            && l.subrange(j, j + pat.len()) == pat,
        find_from(l, pat, k) is None ==> forall|j: int| k <= j && j + pat.len() <= l.len()
            ==> #[trigger] l.subrange(j, j + pat.len()) != pat,
    decreases l.len() + 1 - k,
{
    if !(k < 0 || k + pat.len() > l.len()) && l.subrange(k, k + pat.len()) != pat {
        lemma_find_from(l, pat, k + 1);
    }
}

/// The pieces of `s` between the separators `", "`, from `i` on.
pub open spec fn pieces_from(s: Seq<char>, i: int) -> Seq<Seq<char>>
    decreases s.len() - i,
{
    if i < 0 || i > s.len() {
        Seq::empty()
    } else {
        match find_from(s, seq![',', ' '], i) {
            Some(k) => {
                proof {
                    lemma_find_from(s, seq![',', ' '], i);
                }
                seq![s.subrange(i, k)] + pieces_from(s, k + 2)
            },
            None => seq![s.subrange(i, s.len() as int)],
        }
    }
}

/// Each piece without its quotes, or `None` if one has none.
pub open spec fn unquote_all(ps: Seq<Seq<char>>) -> Option<Seq<Seq<char>>>
    decreases ps.len(),
{
    if ps.len() == 0 {
        Some(Seq::empty())
    } else {
        match (unquote(ps[0]), unquote_all(ps.drop_first())) {
            (Some(h), Some(t)) => Some(seq![h] + t),
            _ => None,
        }
    }
}

/// A `["a", "b"]` list value: its strings, or the fault on line `n`.
pub open spec fn list_of(v: Seq<char>, n: usize) -> Result<Seq<Seq<char>>, TableError> {
    if v.len() >= 2 && v[0] == '[' && v.last() == ']' {
        let inner = v.subrange(1, v.len() - 1);
        if trim_chars(inner).len() == 0 {
            Ok(Seq::empty())
        } else {
            match unquote_all(pieces_from(inner, 0)) {
                Some(l) => Ok(l),
                None => Err(TableError::NotQuoted { line: n }),
            }
        }
    } else {
        Err(TableError::NotAList { line: n })
    }
}

/// The class a name stands for.
pub open spec fn class_named(v: Seq<char>) -> Option<MarkerClass> {
    if v == "character"@ {
        Some(MarkerClass::Character)
    } else if v == "paragraph"@ {
        Some(MarkerClass::Paragraph)
    } else if v == "note"@ {
        Some(MarkerClass::Note)
    } else if v == "milestone"@ {
        Some(MarkerClass::Milestone)
    } else if v == "unclassified"@ {
        Some(MarkerClass::Unclassified)
    } else {
        None
    }
}

/// The closing a name stands for.
pub open spec fn closing_named(v: Seq<char>) -> Option<Closing> {
    if v == "explicit"@ {
        Some(Closing::Explicit)
    } else if v == "implicit"@ {
        Some(Closing::Implicit)
    } else if v == "milestone"@ {
        Some(Closing::Milestone)
    } else if v == "none"@ {
        Some(Closing::SelfContained)
    } else {
        None
    }
}

/// A quoted value, or `NotQuoted` on line `n`.
pub open spec fn quoted(v: Seq<char>, n: usize) -> Result<Seq<char>, TableError> {
    match unquote(v) {
        Some(t) => Ok(t),
        None => Err(TableError::NotQuoted { line: n }),
    }
}

/// `info` with field `key` set from `value`, read on line `n`.
pub open spec fn apply_field(info: InfoView, key: Seq<char>, value: Seq<char>, n: usize) -> Result<InfoView, TableError> {
    if key == "class"@ {
        match quoted(value, n) {
            Err(e) => Err(e),
            Ok(t) => match class_named(t) {
                Some(c) => Ok(InfoView { class: c, ..info }),
                None => Err(TableError::UnknownClass { line: n }),
            },
        }
    } else if key == "closing"@ {
        match quoted(value, n) {
            Err(e) => Err(e),
            Ok(t) => match closing_named(t) {
                Some(c) => Ok(InfoView { closing: c, ..info }),
                None => Err(TableError::UnknownClosing { line: n }),
            },
        }
    } else if key == "nests_under"@ {
        match list_of(value, n) {
            Ok(l) => Ok(InfoView { nests_under: l, ..info }),
            Err(e) => Err(e),
        }
    } else if key == "attributes"@ {
        match list_of(value, n) {
            Ok(l) => Ok(InfoView { attributes: l, ..info }),
            Err(e) => Err(e),
        }
    } else if key == "text_type"@ {
        match quoted(value, n) {
            Ok(t) => Ok(InfoView { text_type: Some(t), ..info }),
            Err(e) => Err(e),
        }
    } else if key == "since"@ {
        match quoted(value, n) {
            Ok(t) => Ok(InfoView { since: Some(t), ..info }),
            Err(e) => Err(e),
        }
    } else if key == "deprecated_in"@ {
        match quoted(value, n) {
            Ok(t) => Ok(InfoView { deprecated_in: Some(t), ..info }),
            Err(e) => Err(e),
        }
    } else if key == "replacement"@ {
        match quoted(value, n) {
            Ok(t) => Ok(InfoView { replacement: Some(t), ..info }),
            Err(e) => Err(e),
        }
    } else if key == "default_attr"@ {
        match quoted(value, n) {
            Ok(t) => Ok(InfoView { default_attr: Some(t), ..info }),
            Err(e) => Err(e),
        }
    } else if key == "publishable"@ {
        Ok(InfoView { publishable: value == "true"@, ..info })
    } else {
        Err(TableError::UnknownField { line: n })
    }
}

/// The entries finished so far, and the one being read.
pub type ReadState = (Seq<InfoView>, Option<InfoView>);

/// The finished entries once the one being read is done.
pub open spec fn finish(s: ReadState) -> Seq<InfoView> {
    match s.1 {
        Some(info) => put(s.0, info),
        None => s.0,
    }
}

/// One line, number `n`, read into the state: blank lines and comments are
/// skipped, a header starts a new entry, and a field fills in the current
/// one.
pub open spec fn read_line(s: ReadState, raw: Seq<char>, n: usize) -> Result<ReadState, TableError> {
    let l = trim_chars(raw);
    if l.len() == 0 || l[0] == '#' {
        Ok(s)
    } else if l.len() >= 2 && l[0] == '[' && l.last() == ']' {
        Ok((finish(s), Some(blank_info(l.subrange(1, l.len() - 1)))))
    } else {
        match find_from(l, " = "@, 0) {
            None => Err(TableError::NotAField { line: n }),
            Some(k) => match s.1 {
                None => Err(TableError::FieldBeforeMarker { line: n }),
                Some(info) => match apply_field(info, l.subrange(0, k), l.subrange(k + 3, l.len() as int), n) {
                    Ok(i2) => Ok((s.0, Some(i2))),
                    Err(e) => Err(e),
                },
            },
        }
    }
}

/// Where the line starting at `p` ends: at its `\n`, or at the end.
pub open spec fn next_newline(cs: Seq<char>, p: int) -> int
    decreases cs.len() - p,
{
    if p < 0 || p >= cs.len() {
        cs.len() as int
    } else if cs[p] == '\n' {
        p
    } else {
        next_newline(cs, p + 1)
    }
}

pub proof fn lemma_next_newline(cs: Seq<char>, p: int)
    requires
        0 <= p <= cs.len(),
    ensures
        p <= next_newline(cs, p) <= cs.len(),
    decreases cs.len() - p,
{
    if p < cs.len() && cs[p] != '\n' {
        lemma_next_newline(cs, p + 1);
    }
}

/// The lines from `p` on read into the state, the first of them being
/// line `n + 1`.
pub open spec fn read_from(cs: Seq<char>, p: int, n: nat, s: ReadState) -> Result<ReadState, TableError>
    decreases cs.len() + 1 - p,
{
    if p < 0 || p >= cs.len() {
        Ok(s)
    } else {
        let q = next_newline(cs, p);
        proof {
            lemma_next_newline(cs, p);
        }
        match read_line(s, cs.subrange(p, q), (n + 1) as usize) {
            Err(e) => Err(e),
            Ok(s2) => read_from(cs, q + 1, n + 1, s2),
        }
    }
}

/// The table a text describes, or the fault that stopped reading it.
pub open spec fn parse_table(cs: Seq<char>) -> Result<Seq<InfoView>, TableError> {
    match read_from(cs, 0, 0, (Seq::empty(), None)) {
        Ok(s) => Ok(finish(s)),
        Err(e) => Err(e),
    }
}


/// Whether `cs[lo..hi)` is exactly the characters of `lit`.
fn range_is(cs: &Vec<char>, lo: usize, hi: usize, lit: &str) -> (b: bool)
    requires
        lo <= hi <= cs@.len(),
    ensures
        b == (cs@.subrange(lo as int, hi as int) == lit@),
{
    let l = chars_of(lit);
    if hi - lo != l.len() {
        return false;
    }
    let mut i: usize = 0;
    while i < l.len()
        invariant
            lo <= hi <= cs@.len(),
            hi - lo == l@.len(),
            l@ == lit@,
            i <= l@.len(),
            forall|j: int| 0 <= j < i ==> cs@[lo + j] == l@[j],
        decreases l.len() - i,
    {
        if cs[lo + i] != l[i] {
            assert(cs@.subrange(lo as int, hi as int)[i as int] != l@[i as int]);
            return false;
        }
        i += 1;
    }
    assert(cs@.subrange(lo as int, hi as int) =~= l@);
    true
}

/// Whether `pat` occurs in `cs` at `k`.
fn matches_at(cs: &Vec<char>, k: usize, hi: usize, pat: &Vec<char>) -> (b: bool)
    requires
        k <= hi <= cs@.len(),
    ensures
        b == (k + pat@.len() <= hi && cs@.subrange(k as int, k + pat@.len()) == pat@),
{
    if hi - k < pat.len() {
        return false;
    }
    let mut i: usize = 0;
    while i < pat.len()
        invariant
            k + pat@.len() <= hi <= cs@.len(),
            i <= pat@.len(),
            forall|j: int| 0 <= j < i ==> cs@[k + j] == pat@[j],
        decreases pat.len() - i,
    {
        if cs[k + i] != pat[i] {
            assert(cs@.subrange(k as int, k + pat@.len())[i as int] != pat@[i as int]);
            return false;
        }
        i += 1;
    }
    assert(cs@.subrange(k as int, k + pat@.len()) =~= pat@);
    true
}

/// Where `pat` first occurs in `cs[lo..hi)` at or after `start`, in `cs`'s
/// positions.
fn find_range(cs: &Vec<char>, lo: usize, start: usize, hi: usize, pat: &Vec<char>) -> (r: Option<usize>)
    requires
        lo <= start <= hi <= cs@.len(),
    ensures
        r == (match find_from(cs@.subrange(lo as int, hi as int), pat@, start - lo) {
            Some(k) => Some((k + lo) as usize),
            None => None::<usize>,
        }),
{
    let ghost l = cs@.subrange(lo as int, hi as int);
    let mut k = start;
    while k < hi || (k == hi && pat.len() == 0)
        invariant
            lo <= start <= k <= hi <= cs@.len(),
            l == cs@.subrange(lo as int, hi as int),
            find_from(l, pat@, start - lo) == find_from(l, pat@, k - lo),
        decreases hi + 1 - k,
    {
        if matches_at(cs, k, hi, pat) {
            assert(l.subrange(k - lo, k - lo + pat@.len()) =~= cs@.subrange(k as int, k + pat@.len()));
            return Some(k);
        }
        proof {
            if k + pat@.len() <= hi {
                assert(l.subrange(k - lo, k - lo + pat@.len()) =~= cs@.subrange(k as int, k + pat@.len()));
            }
            if pat@.len() == 0 {
                assert(cs@.subrange(k as int, k as int) =~= pat@);
            }
        }
        if k == hi {
            return None;
        }
        k += 1;
    }
    None
}

/// `cs[lo..hi)` without its quotes, as a range, if it has them.
fn unquote_range(cs: &Vec<char>, lo: usize, hi: usize) -> (r: Option<(usize, usize)>)
    requires
        lo <= hi <= cs@.len(),
    ensures
        r is None <==> unquote(cs@.subrange(lo as int, hi as int)) is None,
        r matches Some((a, b)) ==> lo <= a <= b <= hi
            && unquote(cs@.subrange(lo as int, hi as int)) == Some(cs@.subrange(a as int, b as int)),
{
    let ghost v = cs@.subrange(lo as int, hi as int);
    if hi - lo >= 2 && cs[lo] == '"' && cs[hi - 1] == '"' {
        assert(v[0] == cs@[lo as int] && v.last() == cs@[hi - 1]);
        assert(v.subrange(1, v.len() - 1) =~= cs@.subrange(lo + 1, hi - 1));
        Some((lo + 1, hi - 1))
    } else {
        proof {
            if v.len() >= 2 {
                assert(v[0] == cs@[lo as int] && v.last() == cs@[hi - 1]);
            }
        }
        None
    }
}

/// A quoted value as a string, or `NotQuoted` on line `n`.
fn quoted_string(cs: &Vec<char>, lo: usize, hi: usize, n: usize) -> (r: Result<String, TableError>)
    requires
        lo <= hi <= cs@.len(),
    ensures
        match r {
            Ok(t) => quoted(cs@.subrange(lo as int, hi as int), n) == Ok::<Seq<char>, TableError>(t@),
            Err(e) => quoted(cs@.subrange(lo as int, hi as int), n) == Err::<Seq<char>, TableError>(e),
        },
{
    match unquote_range(cs, lo, hi) {
        Some((a, b)) => Ok(string_from(cs, a, b)),
        None => Err(TableError::NotQuoted { line: n }),
    }
}

/// `a` before what `rest` holds, if it holds anything.
pub open spec fn prepend(a: Seq<Seq<char>>, rest: Option<Seq<Seq<char>>>) -> Option<Seq<Seq<char>>> {
    match rest {
        Some(t) => Some(a + t),
        None => None,
    }
}

/// A `["a", "b"]` list value read from `cs[lo..hi)`.
fn read_list(cs: &Vec<char>, lo: usize, hi: usize, n: usize) -> (r: Result<Vec<String>, TableError>)
    requires
        lo <= hi <= cs@.len(),
    ensures
        match r {
            Ok(v) => list_of(cs@.subrange(lo as int, hi as int), n) == Ok::<Seq<Seq<char>>, TableError>(texts(v@)),
            Err(e) => list_of(cs@.subrange(lo as int, hi as int), n) == Err::<Seq<Seq<char>>, TableError>(e),
        },
{
    let ghost v = cs@.subrange(lo as int, hi as int);
    if !(hi - lo >= 2 && cs[lo] == '[' && cs[hi - 1] == ']') {
        proof {
            if v.len() >= 2 {
                assert(v[0] == cs@[lo as int] && v.last() == cs@[hi - 1]);
            }
        }
        return Err(TableError::NotAList { line: n });
    }
    assert(v[0] == cs@[lo as int] && v.last() == cs@[hi - 1]);
    let ilo = lo + 1;
    let ihi = hi - 1;
    let ghost inner = cs@.subrange(ilo as int, ihi as int);
    assert(v.subrange(1, v.len() - 1) =~= inner);
    let (a, b) = trim_bounds(cs, ilo, ihi);
    let mut out: Vec<String> = Vec::new();
    if a == b {
        assert(texts(out@) =~= Seq::<Seq<char>>::empty());
        return Ok(out);
    }
    assert(trim_chars(inner).len() > 0);
    let sep = vec![',', ' '];
    assert(sep@ =~= seq![',', ' ']);
    let mut i = ilo;
    loop
        invariant
            ilo <= i <= ihi <= cs@.len(),
            inner == cs@.subrange(ilo as int, ihi as int),
            trim_chars(inner).len() > 0,
            v.subrange(1, v.len() - 1) == inner,
            v == cs@.subrange(lo as int, hi as int),
            v.len() >= 2 && v[0] == '[' && v.last() == ']',
            sep@ == seq![',', ' '],
            unquote_all(pieces_from(inner, 0)) == prepend(texts(out@), unquote_all(pieces_from(inner, i - ilo))),
        decreases ihi - i,
    {
        let found = find_range(cs, ilo, i, ihi, &sep);
        proof {
            lemma_find_from(inner, seq![',', ' '], i - ilo);
        }
        let end = match found {
            Some(k) => k,
            None => ihi,
        };
        assert(inner.subrange(i - ilo, end - ilo) =~= cs@.subrange(i as int, end as int));
        let ghost ps = pieces_from(inner, i - ilo);
        assert(ps[0] == cs@.subrange(i as int, end as int));
        assert(ps.drop_first() == (match found {
            Some(k) => pieces_from(inner, k + 2 - ilo),
            None => Seq::<Seq<char>>::empty(),
        }));
        assert(ps.len() > 0);
        match unquote_range(cs, i, end) {
            None => {
                assert(unquote_all(ps) is None);
                assert(trim_chars(inner).len() > 0);
                return Err(TableError::NotQuoted { line: n });
            },
            Some((qa, qb)) => {
                let piece = string_from(cs, qa, qb);
                let ghost before = out@;
                out.push(piece);
                assert(texts(out@) =~= texts(before).push(piece@));
                match found {
                    Some(k) => {
                        assert(texts(before) + (seq![piece@] + unquote_all(pieces_from(inner, k + 2 - ilo)).unwrap())
                            =~= texts(out@) + unquote_all(pieces_from(inner, k + 2 - ilo)).unwrap());
                        i = k + 2;
                    },
                    None => {
                        assert(unquote_all(ps.drop_first()) == Some(Seq::<Seq<char>>::empty()));
                        assert(unquote_all(ps) == Some(seq![piece@] + Seq::<Seq<char>>::empty()));
                        assert(trim_chars(inner).len() > 0);
                        assert(texts(before) + seq![piece@] =~= texts(out@));
                        assert(texts(out@) + Seq::<Seq<char>>::empty() =~= texts(out@));
                        return Ok(out);
                    },
                }
            },
        }
    }
}


/// `info` with the field named by `cs[ka..kb)` set from `cs[va..vb)`, read
/// on line `n`.
fn set_field(info: MarkerInfo, cs: &Vec<char>, ka: usize, kb: usize, va: usize, vb: usize, n: usize)
    -> (r: Result<MarkerInfo, TableError>)
    requires
        ka <= kb <= cs@.len(),
        va <= vb <= cs@.len(),
    ensures
        match r {
            Ok(i2) => apply_field(info@, cs@.subrange(ka as int, kb as int), cs@.subrange(va as int, vb as int), n)
                == Ok::<InfoView, TableError>(i2@),
            Err(e) => apply_field(info@, cs@.subrange(ka as int, kb as int), cs@.subrange(va as int, vb as int), n)
                == Err::<InfoView, TableError>(e),
        },
{
    let mut info = info;
    if range_is(cs, ka, kb, "class") {
        match unquote_range(cs, va, vb) {
            None => Err(TableError::NotQuoted { line: n }),
            Some((a, b)) => {
                if range_is(cs, a, b, "character") {
                    info.class = MarkerClass::Character;
                } else if range_is(cs, a, b, "paragraph") {
                    info.class = MarkerClass::Paragraph;
                } else if range_is(cs, a, b, "note") {
                    info.class = MarkerClass::Note;
                } else if range_is(cs, a, b, "milestone") {
                    info.class = MarkerClass::Milestone;
                } else if range_is(cs, a, b, "unclassified") {
                    info.class = MarkerClass::Unclassified;
                } else {
                    return Err(TableError::UnknownClass { line: n });
                }
                Ok(info)
            },
        }
    } else if range_is(cs, ka, kb, "closing") {
        match unquote_range(cs, va, vb) {
            None => Err(TableError::NotQuoted { line: n }),
            Some((a, b)) => {
                if range_is(cs, a, b, "explicit") {
                    info.closing = Closing::Explicit;
                } else if range_is(cs, a, b, "implicit") {
                    info.closing = Closing::Implicit;
                } else if range_is(cs, a, b, "milestone") {
                    info.closing = Closing::Milestone;
                } else if range_is(cs, a, b, "none") {
                    info.closing = Closing::SelfContained;
                } else {
                    return Err(TableError::UnknownClosing { line: n });
                }
                Ok(info)
            },
        }
    } else if range_is(cs, ka, kb, "nests_under") {
        let l = read_list(cs, va, vb, n)?;
        info.nests_under = l;
        Ok(info)
    } else if range_is(cs, ka, kb, "attributes") {
        let l = read_list(cs, va, vb, n)?;
        info.attributes = l;
        Ok(info)
    } else if range_is(cs, ka, kb, "text_type") {
        let t = quoted_string(cs, va, vb, n)?;
        info.text_type = Some(t);
        Ok(info)
    } else if range_is(cs, ka, kb, "since") {
        let t = quoted_string(cs, va, vb, n)?;
        info.since = Some(t);
        Ok(info)
    } else if range_is(cs, ka, kb, "deprecated_in") {
        let t = quoted_string(cs, va, vb, n)?;
        info.deprecated_in = Some(t);
        Ok(info)
    } else if range_is(cs, ka, kb, "replacement") {
        let t = quoted_string(cs, va, vb, n)?;
        info.replacement = Some(t);
        Ok(info)
    } else if range_is(cs, ka, kb, "default_attr") {
        let t = quoted_string(cs, va, vb, n)?;
        info.default_attr = Some(t);
        Ok(info)
    } else if range_is(cs, ka, kb, "publishable") {
        info.publishable = range_is(cs, va, vb, "true");
        Ok(info)
    } else {
        Err(TableError::UnknownField { line: n })
    }
}

/// The views of a run of entries.
pub open spec fn infos(es: Seq<MarkerInfo>) -> Seq<InfoView> {
    es.map_values(|e: MarkerInfo| e@)
}

/// The view of an optional entry.
pub open spec fn opt_info(o: Option<MarkerInfo>) -> Option<InfoView> {
    match o {
        Some(i) => Some(i@),
        None => None,
    }
}

/// Records `info`, replacing an entry of the same name.
fn put_entry(es: &mut Vec<MarkerInfo>, info: MarkerInfo)
    ensures
        infos(final(es)@) == put(infos(old(es)@), info@),
{
    let ghost name = info@.marker;
    let mut i: usize = 0;
    while i < es.len()
        invariant
            i <= es@.len(),
            es@ == old(es)@,
            name == info@.marker,
            position_from(infos(es@), name, 0) == position_from(infos(es@), name, i as int),
        decreases es.len() - i,
    {
        if crate::text::str_eq(es[i].marker.as_str(), info.marker.as_str()) {
            let ghost before = es@;
            es.set(i, info);
            assert(infos(es@) =~= infos(before).update(i as int, info@));
            return;
        }
        i += 1;
    }
    let ghost before = es@;
    es.push(info);
    assert(infos(es@) =~= infos(before).push(info@));
}

/// A new entry for the marker named by `cs[a..b)`.
fn blank(cs: &Vec<char>, a: usize, b: usize) -> (info: MarkerInfo)
    requires
        a <= b <= cs@.len(),
    ensures
        info@ == blank_info(cs@.subrange(a as int, b as int)),
{
    let info = MarkerInfo {
        marker: string_from(cs, a, b),
        class: MarkerClass::Unclassified,
        closing: Closing::SelfContained,
        nests_under: Vec::new(),
        text_type: None,
        publishable: false,
        since: None,
        deprecated_in: None,
        replacement: None,
        attributes: Vec::new(),
        default_attr: None,
    };
    assert(texts(info.nests_under@) =~= Seq::<Seq<char>>::empty());
    assert(texts(info.attributes@) =~= Seq::<Seq<char>>::empty());
    info
}

/// The marker table, one entry per marker.
pub struct MarkerTable {
    entries: Vec<MarkerInfo>,
}

impl View for MarkerTable {
    type V = Seq<InfoView>;

    closed spec fn view(&self) -> Seq<InfoView> {
        infos(self.entries@)
    }
}

impl MarkerTable {
    /// Reads a table, line by line, refusing the first line that breaks
    /// the pattern.
    #[verifier::spinoff_prover]
    #[verifier::rlimit(30)]
    pub fn parse(text: &str) -> (r: Result<MarkerTable, TableError>)
        ensures
            match r {
                Ok(t) => parse_table(text@) == Ok::<Seq<InfoView>, TableError>(t@),
                Err(e) => parse_table(text@) == Err::<Seq<InfoView>, TableError>(e),
            },
    {
        let cs = chars_of(text);
        let len = cs.len();
        let mut done: Vec<MarkerInfo> = Vec::new();
        let mut current: Option<MarkerInfo> = None;
        let mut p: usize = 0;
        let mut n: usize = 0;
        let ghost init: ReadState = (Seq::empty(), None);
        assert(infos(done@) =~= Seq::<InfoView>::empty());
        while p < len
            invariant
                cs@ == text@,
                len == cs@.len(),
                n <= p <= len,
                init == (Seq::<InfoView>::empty(), None::<InfoView>),
                read_from(cs@, 0, 0, init) == read_from(cs@, p as int, n as nat, (infos(done@), opt_info(current))),
            decreases len - p,
        {
            let mut q = p;
            while q < len && cs[q] != '\n'
                invariant
                    p <= q <= len == cs@.len(),
                    next_newline(cs@, p as int) == next_newline(cs@, q as int),
                decreases len - q,
            {
                q += 1;
            }
            assert(q == next_newline(cs@, p as int));
            let ghost s: ReadState = (infos(done@), opt_info(current));
            let ghost raw = cs@.subrange(p as int, q as int);
            let line = n + 1;
            let (a, b) = trim_bounds(&cs, p, q);
            let ghost l = trim_chars(raw);
            assert(l == cs@.subrange(a as int, b as int));
            if a == b || cs[a] == '#' {
                assert(read_line(s, raw, line) == Ok::<ReadState, TableError>(s));
            } else if b - a >= 2 && cs[a] == '[' && cs[b - 1] == ']' {
                let ghost fin = finish(s);
                match current {
                    Some(info) => {
                        put_entry(&mut done, info);
                    },
                    None => {},
                }
                assert(infos(done@) == fin);
                current = Some(blank(&cs, a + 1, b - 1));
                assert(l.subrange(1, l.len() - 1) =~= cs@.subrange(a + 1, b - 1));
            } else {
                let sep = vec![' ', '=', ' '];
                proof {
                    reveal_strlit(" = ");
                    assert(sep@ =~= " = "@);
                }
                let found = find_range(&cs, a, a, b, &sep);
                proof {
                    lemma_find_from(l, " = "@, 0);
                }
                match found {
                    None => {
                        assert(read_line(s, raw, line) == Err::<ReadState, TableError>(TableError::NotAField { line }));
                        assert(read_from(cs@, p as int, n as nat, s) == Err::<ReadState, TableError>(TableError::NotAField { line }));
                        return Err(TableError::NotAField { line });
                    },
                    Some(k) => {
                        assert(l.subrange(0, k - a) =~= cs@.subrange(a as int, k as int));
                        assert(l.subrange(k - a + 3, l.len() as int) =~= cs@.subrange(k + 3, b as int));
                        match current {
                            None => {
                                assert(read_line(s, raw, line) == Err::<ReadState, TableError>(TableError::FieldBeforeMarker { line }));
                                assert(read_from(cs@, p as int, n as nat, s) == Err::<ReadState, TableError>(TableError::FieldBeforeMarker { line }));
                                return Err(TableError::FieldBeforeMarker { line });
                            },
                            Some(info) => {
                                match set_field(info, &cs, a, k, k + 3, b, line) {
                                    Ok(i2) => {
                                        current = Some(i2);
                                    },
                                    Err(e) => {
                                        return Err(e);
                                    },
                                }
                            },
                        }
                    },
                }
            }
            let ghost s2: ReadState = (infos(done@), opt_info(current));
            assert(read_line(s, raw, line) == Ok::<ReadState, TableError>(s2));
            assert(read_from(cs@, p as int, n as nat, s) == read_from(cs@, q + 1, (n + 1) as nat, s2));
            n += 1;
            if q < len {
                p = q + 1;
            } else {
                p = len;
            }
        }
        match current {
            Some(info) => {
                put_entry(&mut done, info);
            },
            None => {},
        }
        Ok(MarkerTable { entries: done })
    }
}


/// The entry named `name`, if the table has one.
pub open spec fn entry_named(es: Seq<InfoView>, name: Seq<char>) -> Option<InfoView> {
    match position_from(es, name, 0) {
        Some(k) => Some(es[k]),
        None => None,
    }
}

/// `m` without the `+` nesting prefix.
pub open spec fn without_plus(m: Seq<char>) -> Seq<char> {
    if m.len() > 0 && m[0] == '+' {
        m.drop_first()
    } else {
        m
    }
}

/// `m` without its trailing ASCII digits: the marker a numbered level
/// belongs to.
pub open spec fn trim_level(m: Seq<char>) -> Seq<char>
    decreases m.len(),
{
    if m.len() > 0 && '0' <= m.last() && m.last() <= '9' {
        trim_level(m.drop_last())
    } else {
        m
    }
}

/// The entry for a marker as a document writes it: `\+bd` is `\bd`
/// nested, and a level deeper than the table lists (`\pi5`) is the
/// unnumbered marker's.
pub open spec fn lookup_in(es: Seq<InfoView>, marker: Seq<char>) -> Option<InfoView> {
    let m = without_plus(marker);
    match entry_named(es, m) {
        Some(i) => Some(i),
        None => {
            let base = trim_level(m);
            if base != m {
                entry_named(es, base)
            } else {
                None
            }
        },
    }
}

impl MarkerTable {
    /// The entry named exactly `name`.
    pub fn get(&self, name: &str) -> (r: Option<&MarkerInfo>)
        ensures
            match r {
                Some(i) => entry_named(self@, name@) == Some(i@),
                None => entry_named(self@, name@) is None,
            },
    {
        let mut i: usize = 0;
        while i < self.entries.len()
            invariant
                i <= self.entries@.len(),
                position_from(self@, name@, 0) == position_from(self@, name@, i as int),
            decreases self.entries.len() - i,
        {
            if crate::text::str_eq(self.entries[i].marker.as_str(), name) {
                return Some(&self.entries[i]);
            }
            i += 1;
        }
        None
    }
}

/// The entry for `marker` as a document writes it, or `None` if the table
/// does not define it.
pub fn lookup<'a>(table: &'a MarkerTable, marker: &str) -> (r: Option<&'a MarkerInfo>)
    ensures
        match r {
            Some(i) => lookup_in(table@, marker@) == Some(i@),
            None => lookup_in(table@, marker@) is None,
        },
{
    let cs = chars_of(marker);
    let n = cs.len();
    let start: usize = if n > 0 && cs[0] == '+' { 1 } else { 0 };
    let ghost m = without_plus(marker@);
    assert(m =~= cs@.subrange(start as int, n as int));
    let name = string_from(&cs, start, n);
    match table.get(name.as_str()) {
        Some(i) => {
            return Some(i);
        },
        None => {},
    }
    let mut end = n;
    while end > start && '0' <= cs[end - 1] && cs[end - 1] <= '9'
        invariant
            start <= end <= n == cs@.len(),
            trim_level(m) == trim_level(cs@.subrange(start as int, end as int)),
        decreases end,
    {
        assert(cs@.subrange(start as int, end as int).drop_last() =~= cs@.subrange(start as int, end - 1));
        end -= 1;
    }
    assert(trim_level(m) == cs@.subrange(start as int, end as int));
    if end == n {
        return None;
    }
    proof {
        assert(cs@.subrange(start as int, end as int).len() != m.len());
    }
    let base = string_from(&cs, start, end);
    table.get(base.as_str())
}

/// Whether the marker is in the `\z` namespace, which USFM leaves
/// open-ended by design.
pub fn is_custom(marker: &str) -> (b: bool)
    ensures
        b == (without_plus(marker@).len() > 0 && without_plus(marker@)[0] == 'z'),
{
    let cs = chars_of(marker);
    let start: usize = if cs.len() > 0 && cs[0] == '+' { 1 } else { 0 };
    start < cs.len() && cs[start] == 'z'
}

/// Every entry of the table.
pub fn all(table: &MarkerTable) -> (r: &[MarkerInfo])
    ensures
        infos(r@) == table@,
{
    table.entries.as_slice()
}

/// How many markers the table defines.
pub fn count(table: &MarkerTable) -> (n: usize)
    ensures
        n == table@.len(),
{
    table.entries.len()
}

impl MarkerInfo {
    /// Whether this marker nests under `parent`.
    pub fn nests_under(&self, parent: &str) -> (b: bool)
        ensures
            b == exists|j: int| 0 <= j < self@.nests_under.len()
                && (#[trigger] self@.nests_under[j] == "*"@ || self@.nests_under[j] == parent@),
    {
        let mut i: usize = 0;
        while i < self.nests_under.len()
            invariant
                i <= self.nests_under@.len(),
                forall|j: int| 0 <= j < i ==> !(#[trigger] self@.nests_under[j] == "*"@ || self@.nests_under[j] == parent@),
            decreases self.nests_under.len() - i,
        {
            let allowed = self.nests_under[i].as_str();
            assert(self@.nests_under[i as int] == allowed@);
            if crate::text::str_eq(allowed, "*") || crate::text::str_eq(allowed, parent) {
                return true;
            }
            i += 1;
        }
        false
    }

    /// Whether the marker accepts attributes at all: the link attributes
    /// are valid on every character marker, so a character style with none
    /// of its own still accepts them.
    pub fn accepts_attributes(&self) -> (b: bool)
        ensures
            b == (self@.attributes.len() > 0 || self@.class == MarkerClass::Character),
    {
        self.attributes.len() > 0 || self.class == MarkerClass::Character
    }
}

} // verus!
