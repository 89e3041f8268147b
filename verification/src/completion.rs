//! Marker autocomplete: what to offer when someone types `\`.
//!
//! Every marker is offered, ranked by validity in context, then
//! deprecation (a deprecated marker never outranks a current one), then how
//! often the document already uses it, then alphabetically. Validity is a
//! rank and not a filter because the context can be wrong: a file mid-edit
//! has unclosed markers, and hiding what is invalid there would hide what
//! the author is about to need.
//!
//! Frequency is a scan rather than a parse: a histogram, not an
//! interpretation, in which `\bd` and `\+bd` are the same marker used twice.

use vstd::prelude::*;
use crate::fmt::push_str;
use crate::markers::{all, Closing, InfoView, MarkerClass, MarkerInfo, MarkerTable};
use crate::text::{chars_of, str_eq, string_from};

verus! {

/// A character that continues a marker name: ASCII letters and digits, `-`.
pub open spec fn name_char(c: char) -> bool {
    ('0' <= c && c <= '9') || ('a' <= c && c <= 'z') || ('A' <= c && c <= 'Z') || c == '-'
}

/// Where the run of name characters starting at `i` ends.
pub open spec fn name_end(cs: Seq<char>, i: int) -> int
    decreases cs.len() - i,
{
    if 0 <= i < cs.len() && name_char(cs[i]) {
        name_end(cs, i + 1)
    } else {
        i
    }
}

/// A name run ends no earlier than it starts, and within the text.
pub proof fn lemma_name_end(cs: Seq<char>, i: int)
    ensures
        i <= name_end(cs, i),
        i <= cs.len() ==> name_end(cs, i) <= cs.len(),
        forall|j: int| i <= j < name_end(cs, i) ==> #[trigger] name_char(cs[j]),
        0 <= name_end(cs, i) < cs.len() ==> !name_char(cs[name_end(cs, i)]),
    decreases cs.len() - i,
{
    if 0 <= i < cs.len() && name_char(cs[i]) {
        lemma_name_end(cs, i + 1);
    }
}

/// The marker names a scan finds from index `i` on, in order. At a
/// backslash, an optional `+` is skipped and the name is the run of name
/// characters after it; an empty name is not counted; the scan resumes past
/// the name, or just past the backslash.
pub open spec fn names_from(cs: Seq<char>, i: int) -> Seq<Seq<char>>
    decreases cs.len() - i,
{
    if i < 0 || i >= cs.len() {
        Seq::empty()
    } else if cs[i] != '\\' {
        names_from(cs, i + 1)
    } else {
        let start = i + 1;
        let name_start = if start < cs.len() && cs[start] == '+' { start + 1 } else { start };
        let end = name_end(cs, name_start);
        proof {
            lemma_name_end(cs, name_start);
        }
        let rest = names_from(cs, if end > start { end } else { start });
        if end > name_start {
            seq![cs.subrange(name_start, end)] + rest
        } else {
            rest
        }
    }
}

/// A scan finds no more names than there are characters left.
pub proof fn lemma_names_bound(cs: Seq<char>, i: int)
    requires
        0 <= i <= cs.len(),
    ensures
        names_from(cs, i).len() <= cs.len() - i,
    decreases cs.len() - i,
{
    if i < cs.len() {
        if cs[i] != '\\' {
            lemma_names_bound(cs, i + 1);
        } else {
            let start = i + 1;
            let name_start = if start < cs.len() && cs[start] == '+' { start + 1 } else { start };
            lemma_name_end(cs, name_start);
            let end = name_end(cs, name_start);
            lemma_names_bound(cs, if end > start { end } else { start });
        }
    }
}

/// How many times `x` occurs in `s`.
pub open spec fn occurrences<T>(s: Seq<T>, x: T) -> nat
    decreases s.len(),
{
    if s.len() == 0 {
        0
    } else {
        occurrences(s.drop_last(), x) + if s.last() == x { 1nat } else { 0nat }
    }
}

/// How often each marker name occurs: one entry per name, in order of first
/// use.
#[derive(Debug, Clone, PartialEq, Eq)]
pub struct MarkerCounts {
    entries: Vec<(String, u32)>,
}

impl View for MarkerCounts {
    type V = Seq<(Seq<char>, u32)>;

    closed spec fn view(&self) -> Seq<(Seq<char>, u32)> {
        self.entries@.map_values(|e: (String, u32)| (e.0@, e.1))
    }
}

/// The names recorded in a table of counts.
pub open spec fn keys(entries: Seq<(Seq<char>, u32)>) -> Seq<Seq<char>> {
    entries.map_values(|e: (Seq<char>, u32)| e.0)
}

/// Whether counts record, once each, exactly the names in `names`, each with
/// how often it occurs there.
pub open spec fn counts_of(entries: Seq<(Seq<char>, u32)>, names: Seq<Seq<char>>) -> bool {
    &&& keys(entries).no_duplicates()
    &&& forall|n: Seq<char>| keys(entries).contains(n) <==> names.contains(n)
    &&& forall|i: int| 0 <= i < entries.len() ==> #[trigger] entries[i].1 == occurrences(names, entries[i].0)
}

impl MarkerCounts {
    /// How many times a marker is used, if it is used at all.
    pub fn get(&self, name: &str) -> (r: Option<&u32>)
        ensures
            match r {
                Some(n) => exists|i: int| 0 <= i < self@.len() && self@[i].0 == name@ && self@[i].1 == *n,
                None => !keys(self@).contains(name@),
            },
    {
        let mut i: usize = 0;
        while i < self.entries.len()
            invariant
                i <= self.entries@.len(),
                forall|j: int| 0 <= j < i ==> #[trigger] self@[j].0 != name@,
            decreases self.entries.len() - i,
        {
            if str_eq(self.entries[i].0.as_str(), name) {
                assert(self@[i as int].0 == name@);
                return Some(&self.entries[i].1);
            }
            i += 1;
        }
        proof {
            if keys(self@).contains(name@) {
                let k = choose|k: int| 0 <= k < keys(self@).len() && keys(self@)[k] == name@;
                assert(self@[k].0 == name@);
            }
        }
        None
    }

    /// How many distinct markers are used.
    pub fn len(&self) -> (n: usize)
        ensures
            n == self@.len(),
    {
        self.entries.len()
    }
}

proof fn lemma_occurrences_absent<T>(s: Seq<T>, x: T)
    requires
        !s.contains(x),
    ensures
        occurrences(s, x) == 0,
    decreases s.len(),
{
    if s.len() > 0 {
        assert(!s.drop_last().contains(x)) by {
            if s.drop_last().contains(x) {
                let k = choose|k: int| 0 <= k < s.drop_last().len() && s.drop_last()[k] == x;
                assert(s[k] == x);
            }
        }
        assert(s.last() != x) by {
            assert(s[s.len() - 1] == s.last());
        }
        lemma_occurrences_absent(s.drop_last(), x);
    }
}

proof fn lemma_occurrences_bound<T>(a: Seq<T>, b: Seq<T>, x: T)
    ensures
        occurrences(a, x) <= occurrences(a + b, x),
        occurrences(a + b, x) <= (a + b).len(),
    decreases b.len(),
{
    if b.len() == 0 {
        assert(a + b == a);
        lemma_occurrences_len(a, x);
    } else {
        lemma_occurrences_bound(a, b.drop_last(), x);
        assert((a + b).drop_last() == a + b.drop_last());
        lemma_occurrences_len(a + b, x);
    }
}

proof fn lemma_occurrences_len<T>(s: Seq<T>, x: T)
    ensures
        occurrences(s, x) <= s.len(),
    decreases s.len(),
{
    if s.len() > 0 {
        lemma_occurrences_len(s.drop_last(), x);
    }
}

/// Records one more use of the name `cs[lo..hi)`.
fn record(entries: &mut Vec<(String, u32)>, cs: &Vec<char>, lo: usize, hi: usize, Ghost(names): Ghost<Seq<Seq<char>>>, Ghost(all): Ghost<Seq<Seq<char>>>)
    requires
        lo <= hi <= cs@.len(),
        counts_of(old(entries)@.map_values(|e: (String, u32)| (e.0@, e.1)), names),
        (names.push(cs@.subrange(lo as int, hi as int)) + all).len() <= u32::MAX,
    ensures
        counts_of(final(entries)@.map_values(|e: (String, u32)| (e.0@, e.1)), names.push(cs@.subrange(lo as int, hi as int))),
{
    let ghost x = cs@.subrange(lo as int, hi as int);
    let ghost before = old(entries)@.map_values(|e: (String, u32)| (e.0@, e.1));
    let name = string_from(cs, lo, hi);
    let mut k: usize = 0;
    while k < entries.len()
        invariant
            k <= entries@.len(),
            entries@ == old(entries)@,
            name@ == x,
            forall|j: int| 0 <= j < k ==> #[trigger] entries@[j].0@ != x,
        ensures
            k <= entries@.len(),
            k < entries@.len() ==> entries@[k as int].0@ == x,
            forall|j: int| 0 <= j < k ==> #[trigger] entries@[j].0@ != x,
        decreases entries.len() - k,
    {
        if str_eq(entries[k].0.as_str(), name.as_str()) {
            break;
        }
        k += 1;
    }
    let ghost after = names.push(x);
    assert forall|y: Seq<char>| #[trigger] occurrences(after, y) == occurrences(names, y) + if x == y { 1nat } else { 0nat } by {
        assert(after.drop_last() == names);
    }
    assert forall|n: Seq<char>| after.contains(n) <==> (names.contains(n) || n == x) by {
        if after.contains(n) {
            let j = choose|j: int| 0 <= j < after.len() && after[j] == n;
            if j < names.len() {
                assert(names[j] == n);
            }
        }
        if names.contains(n) {
            let j = choose|j: int| 0 <= j < names.len() && names[j] == n;
            assert(after[j] == n);
        }
        if n == x {
            assert(after[names.len() as int] == n);
        }
    }
    proof {
        lemma_occurrences_bound(after, all, x);
    }
    if k < entries.len() {
        assert(before[k as int].0 == x);
        let c = entries[k].1;
        assert(before[k as int].1 == c);
        assert(c == occurrences(names, x));
        let key = entries[k].0.clone();
        entries.set(k, (key, c + 1));
        let ghost now = entries@.map_values(|e: (String, u32)| (e.0@, e.1));
        assert(keys(now) =~= keys(before));
        assert(names.contains(x)) by {
            assert(keys(before)[k as int] == x);
        }
        assert forall|i: int| 0 <= i < now.len() implies #[trigger] now[i].1 == occurrences(after, now[i].0) by {
            if i != k {
                assert(now[i] == before[i]);
                assert(keys(before)[i] != keys(before)[k as int]);
            }
        }
    } else {
        proof {
            if names.contains(x) {
                let j = choose|j: int| 0 <= j < keys(before).len() && keys(before)[j] == x;
                assert(entries@[j].0@ == x);
            }
            lemma_occurrences_absent(names, x);
        }
        entries.push((name, 1));
        let ghost now = entries@.map_values(|e: (String, u32)| (e.0@, e.1));
        assert(keys(now) =~= keys(before).push(x));
        assert(!keys(before).contains(x));
        assert forall|n: Seq<char>| keys(now).contains(n) <==> after.contains(n) by {
            if keys(now).contains(n) {
                let j = choose|j: int| 0 <= j < keys(now).len() && keys(now)[j] == n;
                if j < keys(before).len() {
                    assert(keys(before)[j] == n);
                }
            }
            if keys(before).contains(n) {
                let j = choose|j: int| 0 <= j < keys(before).len() && keys(before)[j] == n;
                assert(keys(now)[j] == n);
            }
            if n == x {
                assert(keys(now)[keys(before).len() as int] == n);
            }
        }
        assert forall|i: int| 0 <= i < now.len() implies #[trigger] now[i].1 == occurrences(after, now[i].0) by {
            if i < before.len() {
                assert(now[i] == before[i]);
                assert(keys(before)[i] != x);
            }
        }
    }
}

/// Counts how often each marker already appears.
pub fn frequencies(source: &str) -> (r: MarkerCounts)
    requires
        source@.len() <= u32::MAX,
    ensures
        counts_of(r@, names_from(source@, 0)),
{
    proof {
        lemma_names_bound(source@, 0);
    }
    let cs = chars_of(source);
    let n = cs.len();
    let mut entries: Vec<(String, u32)> = Vec::new();
    let ghost mut found: Seq<Seq<char>> = Seq::empty();
    let mut i: usize = 0;
    assert(entries@.map_values(|e: (String, u32)| (e.0@, e.1)) =~= Seq::<(Seq<char>, u32)>::empty());
    assert(found + names_from(cs@, 0) == names_from(cs@, 0));
    while i < n
        invariant
            i <= n == cs@.len(),
            cs@ == source@,
            names_from(cs@, 0).len() <= u32::MAX,
            found + names_from(cs@, i as int) == names_from(cs@, 0),
            counts_of(entries@.map_values(|e: (String, u32)| (e.0@, e.1)), found),
        decreases n - i,
    {
        if cs[i] != '\\' {
            i += 1;
        } else {
            let start = i + 1;
            let mut end = start;
            if end < n && cs[end] == '+' {
                end += 1;
            }
            let name_start = end;
            proof {
                lemma_name_end(cs@, name_start as int);
            }
            while end < n && (('0' <= cs[end] && cs[end] <= '9') || ('a' <= cs[end] && cs[end] <= 'z')
                || ('A' <= cs[end] && cs[end] <= 'Z') || cs[end] == '-')
                invariant
                    name_start <= end <= n == cs@.len(),
                    name_end(cs@, name_start as int) == name_end(cs@, end as int),
                decreases n - end,
            {
                end += 1;
            }
            let next = if end > start { end } else { start };
            if end > name_start {
                let ghost x = cs@.subrange(name_start as int, end as int);
                assert(names_from(cs@, i as int) == seq![x] + names_from(cs@, next as int));
                assert(found + names_from(cs@, i as int) == (found.push(x)) + names_from(cs@, next as int));
                record(&mut entries, &cs, name_start, end, Ghost(found), Ghost(names_from(cs@, next as int)));
                proof {
                    found = found.push(x);
                }
            } else {
                assert(names_from(cs@, i as int) == names_from(cs@, next as int));
            }
            i = next;
        }
    }
    assert(names_from(cs@, n as int) == Seq::<Seq<char>>::empty());
    assert(found + Seq::<Seq<char>>::empty() == found);
    MarkerCounts { entries }
}


/// Where the `\\` was typed.
#[derive(Debug, Clone, PartialEq, Eq)]
pub struct Context {
    /// Nothing but whitespace precedes the backslash on its line.
    pub line_initial: bool,
    /// The innermost character or note marker still open here, if any.
    pub inside: Option<String>,
}

impl Default for Context {
    fn default() -> (c: Self)
        ensures
            !c.line_initial && c.inside is None,
    {
        Context { line_initial: false, inside: None }
    }
}

/// A context as contracts speak of it.
pub struct ContextView {
    pub line_initial: bool,
    pub inside: Option<Seq<char>>,
}

impl View for Context {
    type V = ContextView;

    open spec fn view(&self) -> ContextView {
        ContextView {
            line_initial: self.line_initial,
            inside: match self.inside {
                Some(s) => Some(s@),
                None => None,
            },
        }
    }
}

/// One offer.
#[derive(Debug, Clone, PartialEq, Eq)]
pub struct Completion {
    pub marker: String,
    pub class: MarkerClass,
    /// Whether this marker makes sense where the cursor is.
    pub valid_here: bool,
    /// Set when the marker is deprecated, so the interface can grey it.
    pub deprecated_in: Option<String>,
    pub replacement: Option<String>,
    /// How many times the document already uses it.
    pub uses: u32,
    /// The text to put after the backslash.
    pub insert: String,
    /// Where the caret goes within `insert`, in characters: between the
    /// marker and its closing, where the text is going to be typed.
    pub caret: u32,
    /// A short description for the list.
    pub detail: String,
}

/// An offer as contracts speak of it.
pub struct OfferView {
    pub marker: Seq<char>,
    pub class: MarkerClass,
    pub valid_here: bool,
    pub deprecated_in: Option<Seq<char>>,
    pub replacement: Option<Seq<char>>,
    pub uses: u32,
    pub insert: Seq<char>,
    pub caret: u32,
    pub detail: Seq<char>,
}

impl View for Completion {
    type V = OfferView;

    open spec fn view(&self) -> OfferView {
        OfferView {
            marker: self.marker@,
            class: self.class,
            valid_here: self.valid_here,
            deprecated_in: crate::markers::opt_text(self.deprecated_in),
            replacement: crate::markers::opt_text(self.replacement),
            uses: self.uses,
            insert: self.insert@,
            caret: self.caret,
            detail: self.detail@,
        }
    }
}

/// Whether an entry nests under `parent`.
pub open spec fn nests(info: InfoView, parent: Seq<char>) -> bool {
    exists|j: int| 0 <= j < info.nests_under.len()
        && (#[trigger] info.nests_under[j] == "*"@ || info.nests_under[j] == parent)
}

/// Whether a marker can legally appear in a context: paragraph markers
/// only at a line start outside any character marker, character markers
/// where nesting allows, notes outside character and note markers,
/// milestones anywhere, and pseudo-entries nowhere.
pub open spec fn valid_in(info: InfoView, ctx: ContextView) -> bool {
    match info.class {
        MarkerClass::Unclassified => false,
        MarkerClass::Paragraph => ctx.line_initial && ctx.inside is None,
        MarkerClass::Character => match ctx.inside {
            Some(p) => nests(info, p),
            None => true,
        },
        MarkerClass::Note => ctx.inside is None,
        MarkerClass::Milestone => true,
    }
}

/// A character count as the interface's `u32`, wrapping as the count
/// plus one would.
pub open spec fn count_after(n: nat) -> u32 {
    if n < usize::MAX {
        (n + 1) as u32
    } else {
        0
    }
}

/// What typing a marker produces, and where the caret lands: the `+`
/// prefix inside another character marker, and the closing marker with
/// the opening one.
pub open spec fn insertion_of(info: InfoView, ctx: ContextView) -> (Seq<char>, u32) {
    let name = if ctx.inside is Some && info.class == MarkerClass::Character { "+"@ + info.marker } else { info.marker };
    match info.closing {
        Closing::Explicit => (name + " \\"@ + name + "*"@, count_after(name.len())),
        Closing::Milestone => (name + "\\*"@, name.len() as u32),
        _ => (name + " "@, count_after(name.len())),
    }
}

/// The word for a class.
pub open spec fn class_word(c: MarkerClass) -> Seq<char> {
    match c {
        MarkerClass::Character => "character"@,
        MarkerClass::Paragraph => "paragraph"@,
        MarkerClass::Note => "note"@,
        MarkerClass::Milestone => "milestone"@,
        MarkerClass::Unclassified => "other"@,
    }
}

/// The short description: the class, and any deprecation with its
/// replacement.
pub open spec fn detail_of(info: InfoView) -> Seq<char> {
    match (info.deprecated_in, info.replacement) {
        (Some(v), Some(r)) => class_word(info.class) + " \u{b7} deprecated in "@ + v + ", use \\"@ + r,
        (Some(v), None) => class_word(info.class) + " \u{b7} deprecated in "@ + v,
        _ => class_word(info.class),
    }
}

/// The offer for one entry, given the document's marker names.
pub open spec fn offer_for(info: InfoView, ctx: ContextView, names: Seq<Seq<char>>) -> OfferView {
    OfferView {
        marker: info.marker,
        class: info.class,
        valid_here: valid_in(info, ctx),
        deprecated_in: info.deprecated_in,
        replacement: info.replacement,
        uses: occurrences(names, info.marker) as u32,
        insert: insertion_of(info, ctx).0,
        caret: insertion_of(info, ctx).1,
        detail: detail_of(info),
    }
}

/// The offers for every entry but the pseudo-entries, in table order.
pub open spec fn offers(es: Seq<InfoView>, ctx: ContextView, names: Seq<Seq<char>>) -> Seq<OfferView>
    decreases es.len(),
{
    if es.len() == 0 {
        Seq::empty()
    } else {
        let rest = offers(es.drop_last(), ctx, names);
        if es.last().class == MarkerClass::Unclassified {
            rest
        } else {
            rest.push(offer_for(es.last(), ctx, names))
        }
    }
}

/// Code-point order on names.
pub open spec fn chars_lt(a: Seq<char>, b: Seq<char>) -> bool
    decreases a.len(),
{
    if a.len() == 0 {
        b.len() > 0
    } else if b.len() == 0 {
        false
    } else if a[0] != b[0] {
        a[0] < b[0]
    } else {
        chars_lt(a.drop_first(), b.drop_first())
    }
}

/// Whether `a` ranks strictly before `b`: valid before invalid, current
/// before deprecated, more used before less, then by name.
pub open spec fn ranks_before(a: OfferView, b: OfferView) -> bool {
    if a.valid_here != b.valid_here {
        a.valid_here
    } else if (a.deprecated_in is Some) != (b.deprecated_in is Some) {
        b.deprecated_in is Some
    } else if a.uses != b.uses {
        a.uses > b.uses
    } else {
        chars_lt(a.marker, b.marker)
    }
}

/// No offer ranks before one ahead of it.
pub open spec fn ranked(s: Seq<OfferView>) -> bool {
    forall|i: int, j: int| 0 <= i < j < s.len() ==> !ranks_before(#[trigger] s[j], #[trigger] s[i])
}

pub proof fn lemma_chars_lt_transitive(a: Seq<char>, b: Seq<char>, c: Seq<char>)
    requires
        chars_lt(a, b),
        chars_lt(b, c),
    ensures
        chars_lt(a, c),
    decreases a.len(),
{
    if a.len() > 0 && b.len() > 0 && c.len() > 0 && a[0] == b[0] && b[0] == c[0] {
        lemma_chars_lt_transitive(a.drop_first(), b.drop_first(), c.drop_first());
    }
}

/// Ranking is transitive.
pub proof fn lemma_ranks_transitive(a: OfferView, b: OfferView, c: OfferView)
    requires
        ranks_before(a, b),
        ranks_before(b, c),
    ensures
        ranks_before(a, c),
{
    if a.valid_here == b.valid_here && b.valid_here == c.valid_here
        && (a.deprecated_in is Some) == (b.deprecated_in is Some)
        && (b.deprecated_in is Some) == (c.deprecated_in is Some)
        && a.uses == b.uses && b.uses == c.uses {
        lemma_chars_lt_transitive(a.marker, b.marker, c.marker);
    }
}

/// The views of a run of offers.
pub open spec fn offer_views(cs: Seq<Completion>) -> Seq<OfferView> {
    cs.map_values(|c: Completion| c@)
}


proof fn lemma_chars_lt_irreflexive(a: Seq<char>)
    ensures
        !chars_lt(a, a),
    decreases a.len(),
{
    if a.len() > 0 {
        lemma_chars_lt_irreflexive(a.drop_first());
    }
}

/// Whether a marker can legally appear where the `\\` was typed.
fn valid_here(info: &MarkerInfo, context: &Context) -> (b: bool)
    ensures
        b == valid_in(info@, context@),
{
    match info.class {
        MarkerClass::Unclassified => false,
        MarkerClass::Paragraph => context.line_initial && context.inside.is_none(),
        MarkerClass::Character => match &context.inside {
            Some(parent) => info.nests_under(parent.as_str()),
            None => true,
        },
        MarkerClass::Note => context.inside.is_none(),
        MarkerClass::Milestone => true,
    }
}

/// A count plus one, as `u32`.
fn after_count(n: usize) -> (r: u32)
    ensures
        r == count_after(n as nat),
{
    if n < usize::MAX {
        (n + 1) as u32
    } else {
        0
    }
}

/// What typing this marker should produce, and where the caret lands.
fn insertion(info: &MarkerInfo, context: &Context) -> (r: (String, u32))
    ensures
        r.0@ == insertion_of(info@, context@).0,
        r.1 == insertion_of(info@, context@).1,
{
    let mut name = String::new();
    if context.inside.is_some() && info.class == MarkerClass::Character {
        push_str(&mut name, "+");
    }
    push_str(&mut name, info.marker.as_str());
    assert(Seq::<char>::empty() + "+"@ == "+"@);
    assert(Seq::<char>::empty() + info.marker@ == info.marker@);
    let n = chars_of(name.as_str()).len();
    let mut text = String::new();
    push_str(&mut text, name.as_str());
    assert(Seq::<char>::empty() + name@ == name@);
    match info.closing {
        Closing::Explicit => {
            push_str(&mut text, " \\");
            push_str(&mut text, name.as_str());
            push_str(&mut text, "*");
            (text, after_count(n))
        },
        Closing::Milestone => {
            push_str(&mut text, "\\*");
            (text, n as u32)
        },
        _ => {
            push_str(&mut text, " ");
            (text, after_count(n))
        },
    }
}

/// The short description for the list.
fn detail(info: &MarkerInfo) -> (r: String)
    ensures
        r@ == detail_of(info@),
{
    let mut text = String::new();
    let word = match info.class {
        MarkerClass::Character => "character",
        MarkerClass::Paragraph => "paragraph",
        MarkerClass::Note => "note",
        MarkerClass::Milestone => "milestone",
        MarkerClass::Unclassified => "other",
    };
    push_str(&mut text, word);
    assert(Seq::<char>::empty() + word@ == word@);
    assert(word@ == class_word(info.class));
    match &info.deprecated_in {
        Some(version) => {
            push_str(&mut text, " \u{b7} deprecated in ");
            push_str(&mut text, version.as_str());
            match &info.replacement {
                Some(r) => {
                    push_str(&mut text, ", use \\");
                    push_str(&mut text, r.as_str());
                },
                None => {},
            }
        },
        None => {},
    }
    text
}

/// Code-point order on two strings.
fn text_lt(a: &str, b: &str) -> (r: bool)
    ensures
        r == chars_lt(a@, b@),
{
    let x = chars_of(a);
    let y = chars_of(b);
    let mut i: usize = 0;
    assert(x@.skip(0) =~= x@ && y@.skip(0) =~= y@);
    while i < x.len() && i < y.len() && x[i] == y[i]
        invariant
            i <= x@.len() && i <= y@.len(),
            x@ == a@ && y@ == b@,
            chars_lt(a@, b@) == chars_lt(x@.skip(i as int), y@.skip(i as int)),
        decreases x.len() - i,
    {
        assert(x@.skip(i as int).drop_first() =~= x@.skip(i + 1));
        assert(y@.skip(i as int).drop_first() =~= y@.skip(i + 1));
        i += 1;
    }
    if i == x.len() {
        i < y.len()
    } else if i == y.len() {
        false
    } else {
        assert(x@.skip(i as int)[0] == x@[i as int] && y@.skip(i as int)[0] == y@[i as int]);
        x[i] < y[i]
    }
}

/// Whether `a` ranks strictly before `b`.
fn rank_before(a: &Completion, b: &Completion) -> (r: bool)
    ensures
        r == ranks_before(a@, b@),
{
    if a.valid_here != b.valid_here {
        a.valid_here
    } else if a.deprecated_in.is_some() != b.deprecated_in.is_some() {
        b.deprecated_in.is_some()
    } else if a.uses != b.uses {
        a.uses > b.uses
    } else {
        text_lt(a.marker.as_str(), b.marker.as_str())
    }
}

/// The offer for one entry.
fn offer(info: &MarkerInfo, context: &Context, counts: &MarkerCounts, Ghost(names): Ghost<Seq<Seq<char>>>) -> (c: Completion)
    requires
        counts_of(counts@, names),
        names.len() <= u32::MAX,
    ensures
        c@ == offer_for(info@, context@, names),
{
    let uses = match counts.get(info.marker.as_str()) {
        Some(n) => *n,
        None => {
            proof {
                if names.contains(info.marker@) {
                    assert(keys(counts@).contains(info.marker@));
                }
                lemma_occurrences_absent(names, info.marker@);
            }
            0
        },
    };
    proof {
        lemma_occurrences_bound(names, Seq::<Seq<char>>::empty(), info.marker@);
        assert(names + Seq::<Seq<char>>::empty() =~= names);
    }
    let (insert, caret) = insertion(info, context);
    Completion {
        marker: info.marker.clone(),
        class: info.class,
        valid_here: valid_here(info, context),
        deprecated_in: match &info.deprecated_in {
            Some(t) => Some(t.clone()),
            None => None,
        },
        replacement: match &info.replacement {
            Some(t) => Some(t.clone()),
            None => None,
        },
        uses,
        insert,
        caret,
        detail: detail(info),
    }
}

/// Every marker the table defines but the pseudo-entries, ranked for this
/// context: the whole table every time, so a marker that is invalid where
/// the parser thinks the cursor is still appears, further down.
pub fn completions(context: &Context, source: &str, table: &MarkerTable) -> (r: Vec<Completion>)
    requires
        source@.len() <= u32::MAX,
    ensures
        ranked(offer_views(r@)),
        offer_views(r@).to_multiset() == offers(table@, context@, names_from(source@, 0)).to_multiset(),
        forall|k: int| 0 <= k < offer_views(r@).len() && #[trigger] offer_views(r@)[k].class == MarkerClass::Milestone
            ==> offer_views(r@)[k].valid_here,
{
    proof {
        lemma_names_bound(source@, 0);
    }
    let counts = frequencies(source);
    let ghost names = names_from(source@, 0);
    let entries = all(table);
    let mut out: Vec<Completion> = Vec::new();
    let mut i: usize = 0;
    assert(offer_views(out@) =~= Seq::<OfferView>::empty());
    assert(crate::markers::infos(entries@).take(0) =~= Seq::<InfoView>::empty());
    while i < entries.len()
        invariant
            i <= entries@.len(),
            crate::markers::infos(entries@) == table@,
            counts_of(counts@, names),
            names == names_from(source@, 0),
            names.len() <= u32::MAX,
            ranked(offer_views(out@)),
            offer_views(out@).to_multiset() == offers(table@.take(i as int), context@, names).to_multiset(),
        decreases entries.len() - i,
    {
        let info = &entries[i];
        proof {
            let t = table@.take(i + 1);
            assert(t.drop_last() =~= table@.take(i as int));
            assert(t.last() == info@);
        }
        if info.class != MarkerClass::Unclassified {
            let c = offer(info, context, &counts, Ghost(names));
            let mut k: usize = 0;
            while k < out.len() && !rank_before(&c, &out[k])
                invariant
                    k <= out@.len(),
                    forall|m: int| 0 <= m < k ==> !ranks_before(c@, #[trigger] offer_views(out@)[m]),
                decreases out.len() - k,
            {
                k += 1;
            }
            let ghost old_views = offer_views(out@);
            proof {
                assert forall|a: int, b: int| 0 <= a < b < old_views.len() + 1 implies
                    !ranks_before(#[trigger] old_views.insert(k as int, c@)[b], #[trigger] old_views.insert(k as int, c@)[a]) by {
                    let nv = old_views.insert(k as int, c@);
                    if a < k && b == k {
                        assert(nv[b] == c@ && nv[a] == old_views[a]);
                    } else if a < k && b > k {
                        assert(nv[b] == old_views[b - 1] && nv[a] == old_views[a]);
                        assert(!ranks_before(old_views[b - 1], old_views[a]));
                    } else if a == k {
                        assert(nv[a] == c@ && nv[b] == old_views[b - 1]);
                        assert(ranks_before(c@, old_views[k as int]));
                        if ranks_before(old_views[b - 1], c@) {
                            lemma_ranks_transitive(old_views[b - 1], c@, old_views[k as int]);
                            if b - 1 == k {
                                lemma_chars_lt_irreflexive(old_views[k as int].marker);
                            } else {
                                assert(!ranks_before(old_views[b - 1], old_views[k as int]));
                            }
                        }
                    } else if a > k {
                        assert(nv[b] == old_views[b - 1] && nv[a] == old_views[a - 1]);
                        assert(!ranks_before(old_views[b - 1], old_views[a - 1]));
                    } else {
                        assert(nv[b] == old_views[b] && nv[a] == old_views[a]);
                        assert(!ranks_before(old_views[b], old_views[a]));
                    }
                }
            }
            out.insert(k, c);
            assert(offer_views(out@) =~= old_views.insert(k as int, c@));
            assert(offers(table@.take(i + 1), context@, names) == offers(table@.take(i as int), context@, names).push(c@));
            proof {
                vstd::seq_lib::to_multiset_insert(old_views, k as int, c@);
                vstd::seq_lib::to_multiset_build(offers(table@.take(i as int), context@, names), c@);
            }
        } else {
            assert(offers(table@.take(i + 1), context@, names) == offers(table@.take(i as int), context@, names));
        }
        i += 1;
    }
    assert(table@.take(entries@.len() as int) =~= table@);
    proof {
        let ov = offer_views(out@);
        let all = offers(table@, context@, names);
        assert forall|k: int| 0 <= k < ov.len() && #[trigger] ov[k].class == MarkerClass::Milestone implies ov[k].valid_here by {
            vstd::seq_lib::to_multiset_contains(ov, ov[k]);
            vstd::seq_lib::to_multiset_contains(all, ov[k]);
            assert(ov.contains(ov[k]));
            let j = choose|j: int| 0 <= j < all.len() && all[j] == ov[k];
            offers_follow_where_markers_may_go(table@, context@, names, j);
        }
    }
    out
}


/// In a ranked list, what is valid here comes before what is not, and among
/// offers equally valid, a deprecated marker never comes before a current
/// one, however often the document uses it.
pub proof fn valid_and_current_offers_lead(s: Seq<OfferView>)
    requires
        ranked(s),
    ensures
        forall|i: int, j: int| 0 <= i < j < s.len() && (#[trigger] s[j]).valid_here ==> (#[trigger] s[i]).valid_here,
        forall|i: int, j: int| 0 <= i < j < s.len() && (#[trigger] s[i]).valid_here == (#[trigger] s[j]).valid_here
            && s[j].deprecated_in is None ==> s[i].deprecated_in is None,
{
    assert forall|i: int, j: int| 0 <= i < j < s.len() && (#[trigger] s[j]).valid_here implies (#[trigger] s[i]).valid_here by {
        assert(!ranks_before(s[j], s[i]));
    }
    assert forall|i: int, j: int| 0 <= i < j < s.len() && (#[trigger] s[i]).valid_here == (#[trigger] s[j]).valid_here
        && s[j].deprecated_in is None implies s[i].deprecated_in is None by {
        assert(!ranks_before(s[j], s[i]));
    }
}

/// Where each kind of marker may go, as the offers say it: a milestone
/// anywhere, whatever is open; a note only outside character and note
/// markers; a paragraph marker only at the start of a line outside them;
/// a table entry that is no real marker nowhere, since it is never offered.
pub proof fn offers_follow_where_markers_may_go(es: Seq<InfoView>, ctx: ContextView, names: Seq<Seq<char>>, k: int)
    requires
        0 <= k < offers(es, ctx, names).len(),
    ensures
        offers(es, ctx, names)[k].class == MarkerClass::Milestone ==> offers(es, ctx, names)[k].valid_here,
        offers(es, ctx, names)[k].class == MarkerClass::Note ==> offers(es, ctx, names)[k].valid_here == (ctx.inside is None),
        offers(es, ctx, names)[k].class == MarkerClass::Paragraph
            ==> offers(es, ctx, names)[k].valid_here == (ctx.line_initial && ctx.inside is None),
        offers(es, ctx, names)[k].class != MarkerClass::Unclassified,
    decreases es.len(),
{
    let rest = offers(es.drop_last(), ctx, names);
    if k < rest.len() {
        offers_follow_where_markers_may_go(es.drop_last(), ctx, names, k);
    }
}

} // verus!
