//! How diagnostics are judged: against which versions, and which codes the
//! user has chosen not to see.

use vstd::prelude::*;
use vstd::string::StringSliceAdditionalSpecFns;
use crate::diagnostic::{Diagnostic, DiagnosticCode, DiagnosticView, Severity};
use crate::fmt::{decimal, push_decimal, push_str};
use crate::markers::{is_custom, lookup, lookup_in, without_plus, InfoView, MarkerClass, MarkerTable};
use crate::node::{nodes_of, preorder, preorder_all, Node};
use crate::span::ByteSpan;
use crate::text::at_boundary;
use crate::verse::diag_views;
use crate::version::{declared_in, parse_version, text_lines, Version};

verus! {

/// How diagnostics are to be judged.
#[derive(Debug, Clone, PartialEq, Eq)]
pub struct DiagnosticConfig {
    /// The version being authored for; deprecation is measured against it.
    pub target_version: Version,
    /// The version the document declares, or the assumed one; novelty is
    /// measured against it.
    pub document_version: Version,
    /// Codes the user has chosen not to see, each once. By code rather than
    /// by message, so a suppression survives a change of wording.
    pub suppressed: Vec<DiagnosticCode>,
}

/// The version a source declares, or 3.0, the version assumed of a
/// document that says nothing.
pub open spec fn version_of(source: Seq<char>) -> Version {
    match declared_in(text_lines(source)) {
        Some(d) => d,
        None => Version { major: 3, minor: 0 },
    }
}

impl DiagnosticConfig {
    /// Judged against the engine's target, 3.1, with the document's own
    /// declared version.
    pub fn for_source(source: &str) -> (c: Self)
        ensures
            c.target_version == (Version { major: 3, minor: 1 }),
            c.document_version == version_of(source@),
            c.suppressed@.len() == 0,
    {
        DiagnosticConfig { target_version: Version::target(), document_version: Version::of(source), suppressed: Vec::new() }
    }

    /// The same configuration, with `code` suppressed as well.
    pub fn suppress(self, code: DiagnosticCode) -> (c: Self)
        ensures
            c.target_version == self.target_version,
            c.document_version == self.document_version,
            forall|x: DiagnosticCode| c.suppressed@.contains(x) <==> (x == code || self.suppressed@.contains(x)),
            self.suppressed@.no_duplicates() ==> c.suppressed@.no_duplicates(),
    {
        let mut c = self;
        if !c.is_suppressed(code) {
            let ghost before = c.suppressed@;
            c.suppressed.push(code);
            assert(c.suppressed@ == before.push(code));
            assert forall|x: DiagnosticCode| c.suppressed@.contains(x) <==> (x == code || before.contains(x)) by {
                if c.suppressed@.contains(x) {
                    let k = choose|k: int| 0 <= k < c.suppressed@.len() && c.suppressed@[k] == x;
                    if k < before.len() {
                        assert(before[k] == x);
                    }
                }
                if before.contains(x) {
                    let k = choose|k: int| 0 <= k < before.len() && before[k] == x;
                    assert(c.suppressed@[k] == x);
                }
                if x == code {
                    assert(c.suppressed@[before.len() as int] == x);
                }
            }
        }
        c
    }

    pub fn is_suppressed(&self, code: DiagnosticCode) -> (b: bool)
        ensures
            b == self.suppressed@.contains(code),
    {
        let mut i: usize = 0;
        while i < self.suppressed.len()
            invariant
                i <= self.suppressed@.len(),
                forall|j: int| 0 <= j < i ==> self.suppressed@[j] != code,
            decreases self.suppressed.len() - i,
        {
            if self.suppressed[i] == code {
                return true;
            }
            i += 1;
        }
        false
    }
}

impl Default for DiagnosticConfig {
    /// The engine's target, 3.1, against a document assumed to be 3.0.
    fn default() -> (c: Self)
        ensures
            c.target_version == (Version { major: 3, minor: 1 }),
            c.document_version == (Version { major: 3, minor: 0 }),
            c.suppressed@.len() == 0,
    {
        DiagnosticConfig { target_version: Version::target(), document_version: Version::assumed(), suppressed: Vec::new() }
    }
}

/// Whether the parser's own copies of a code are discarded because this
/// engine derives it with a version model: unknown and deprecated markers.
pub fn is_derived(code: DiagnosticCode) -> (b: bool)
    ensures
        b == (code == DiagnosticCode::UnknownMarker || code == DiagnosticCode::DeprecatedMarker),
{
    code == DiagnosticCode::UnknownMarker || code == DiagnosticCode::DeprecatedMarker
}


/// How a version is written: `major.minor`.
pub open spec fn version_text(v: Version) -> Seq<char> {
    decimal(v.major as nat) + "."@ + decimal(v.minor as nat)
}

/// Whether `a` comes no later than `b`.
pub open spec fn version_le(a: Version, b: Version) -> bool {
    a.major < b.major || (a.major == b.major && a.minor <= b.minor)
}

/// Appends `major.minor`.
fn push_version(s: &mut String, v: Version)
    ensures
        final(s)@ == old(s)@ + version_text(v),
{
    push_decimal(s, v.major as u64);
    push_str(s, ".");
    push_decimal(s, v.minor as u64);
    assert(old(s)@ + decimal(v.major as nat) + "."@ + decimal(v.minor as nat) == old(s)@ + version_text(v));
}

/// Where byte `b` first occurs in `t` at or after `i`.
pub open spec fn first_byte(t: Seq<u8>, b: u8, i: int) -> Option<int>
    decreases t.len() - i,
{
    if i < 0 || i >= t.len() {
        None
    } else if t[i] == b {
        Some(i)
    } else {
        first_byte(t, b, i + 1)
    }
}

/// Whether a `\fig` text is the USFM 2.x positional form: it has a `|`,
/// and no `=` after the first one.
pub open spec fn positional_figure(t: Seq<u8>) -> bool {
    match first_byte(t, 124u8, 0) {
        Some(k) => !t.subrange(k + 1, t.len() as int).contains(61u8),
        None => false,
    }
}

/// The text a span covers, if it covers whole characters of the source.
pub open spec fn covered(src: Seq<u8>, span: ByteSpan) -> Option<Seq<u8>> {
    if span.start <= span.end <= src.len() && at_boundary(src, span.start as int) && at_boundary(src, span.end as int) {
        Some(src.subrange(span.start as int, span.end as int))
    } else {
        None
    }
}

/// What the marker table says of one node: unknown markers (information
/// in the open `\z` namespace, a warning elsewhere), deprecation by the
/// target version, novelty past the document's version, and the 2.x
/// positional `\fig`. A node without a marker or a span says nothing.
pub open spec fn node_diags(es: Seq<InfoView>, node: Node, src: Seq<u8>, config: DiagnosticConfig) -> Seq<DiagnosticView> {
    match (node.marker, node.span) {
        (Some(m), Some(span)) => {
            let name = m.0@;
            match lookup_in(es, name) {
                None => if without_plus(name).len() > 0 && without_plus(name)[0] == 'z' {
                    seq![DiagnosticView {
                        code: DiagnosticCode::UnknownMarker,
                        severity: Severity::Information,
                        span,
                        message: "\\"@ + name + " is a custom marker; its meaning is not defined by USFM"@,
                    }]
                } else {
                    seq![DiagnosticView {
                        code: DiagnosticCode::UnknownMarker,
                        severity: Severity::Warning,
                        span,
                        message: "\\"@ + name + " is not a USFM marker"@,
                    }]
                },
                Some(info) => {
                    let deprecated = match info.deprecated_in {
                        Some(t) => match parse_version(t) {
                            Some(d) => if version_le(d, config.target_version) {
                                seq![DiagnosticView {
                                    code: DiagnosticCode::DeprecatedMarker,
                                    severity: Severity::Warning,
                                    span,
                                    message: "\\"@ + name + " was deprecated in USFM "@ + version_text(d) + match info.replacement {
                                        Some(r) => "; use \\"@ + r,
                                        None => Seq::<char>::empty(),
                                    },
                                }]
                            } else {
                                Seq::empty()
                            },
                            None => Seq::empty(),
                        },
                        None => Seq::empty(),
                    };
                    let newer = match info.since {
                        Some(t) => match parse_version(t) {
                            Some(v) => if !version_le(v, config.document_version) {
                                seq![DiagnosticView {
                                    code: DiagnosticCode::MarkerNewerThanDocument,
                                    severity: Severity::Information,
                                    span,
                                    message: "\\"@ + name + " was introduced in USFM "@ + version_text(v)
                                        + ", but this document declares "@ + version_text(config.document_version),
                                }]
                            } else {
                                Seq::empty()
                            },
                            None => Seq::empty(),
                        },
                        None => Seq::empty(),
                    };
                    let figure = if info.class != MarkerClass::Unclassified && name == "fig"@ && match covered(src, span) {
                        Some(t) => positional_figure(t),
                        None => false,
                    } {
                        seq![DiagnosticView {
                            code: DiagnosticCode::LegacyFigureSyntax,
                            severity: Severity::Warning,
                            span,
                            message: "\\fig uses the USFM 2.x positional form; name the attributes (src, size, ref)"@,
                        }]
                    } else {
                        Seq::empty()
                    };
                    deprecated + newer + figure
                },
            }
        },
        _ => Seq::empty(),
    }
}

/// What the marker table says of each node of a walk, in order.
pub open spec fn walk_diags(es: Seq<InfoView>, ns: Seq<Node>, src: Seq<u8>, config: DiagnosticConfig) -> Seq<DiagnosticView>
    decreases ns.len(),
{
    if ns.len() == 0 {
        Seq::empty()
    } else {
        walk_diags(es, ns.drop_last(), src, config) + node_diags(es, ns.last(), src, config)
    }
}

/// Whether the text `span` covers is a positional `\fig`.
fn is_positional_figure(source: &str, span: &ByteSpan) -> (b: bool)
    ensures
        b == match covered(source.spec_bytes(), *span) {
            Some(t) => positional_figure(t),
            None => false,
        },
{
    let text = match span.slice(source) {
        Some(t) => t,
        None => {
            return false;
        },
    };
    let t = text.as_bytes();
    let mut k: usize = 0;
    while k < t.len() && t[k] != 124u8
        invariant
            k <= t@.len(),
            first_byte(t@, 124u8, 0) == first_byte(t@, 124u8, k as int),
        decreases t.len() - k,
    {
        k += 1;
    }
    if k == t.len() {
        return false;
    }
    assert(first_byte(t@, 124u8, 0) == Some(k as int));
    let mut j = k + 1;
    while j < t.len()
        invariant
            k + 1 <= j <= t@.len(),
            k < t@.len(),
            first_byte(t@, 124u8, 0) == Some(k as int),
            covered(source.spec_bytes(), *span) == Some(t@),
            forall|i: int| k + 1 <= i < j ==> t@[i] != 61u8,
        decreases t.len() - j,
    {
        if t[j] == 61u8 {
            assert(t@.subrange(k + 1, t@.len() as int)[j - k - 1] == 61u8);
            assert(t@.subrange(k + 1, t@.len() as int).contains(61u8));
            return false;
        }
        j += 1;
    }
    let ghost tail = t@.subrange(k + 1, t@.len() as int);
    assert forall|i: int| 0 <= i < tail.len() implies #[trigger] tail[i] != 61u8 by {
        assert(tail[i] == t@[k + 1 + i]);
    }
    true
}

/// Appends what the marker table says of `node`.
#[verifier::rlimit(40)]
#[verifier::spinoff_prover]
fn inspect(node: &Node, source: &str, config: &DiagnosticConfig, table: &MarkerTable, into: &mut Vec<Diagnostic>)
    ensures
        diag_views(final(into)@) == diag_views(old(into)@) + node_diags(table@, *node, source.spec_bytes(), *config),
{
    let ghost start = into@;
    let marker = match &node.marker {
        Some(m) => m,
        None => {
            assert(diag_views(into@) =~= diag_views(start) + Seq::<DiagnosticView>::empty());
            return;
        },
    };
    let span = match &node.span {
        Some(sp) => ByteSpan::new(sp.start, sp.end),
        None => {
            assert(diag_views(into@) =~= diag_views(start) + Seq::<DiagnosticView>::empty());
            return;
        },
    };
    let name = marker.0.as_str();
    assert(Seq::<char>::empty() + "\\"@ == "\\"@);
    match lookup(table, name) {
        None => {
            let custom = is_custom(name);
            let mut message = String::new();
            push_str(&mut message, "\\");
            push_str(&mut message, name);
            if custom {
                push_str(&mut message, " is a custom marker; its meaning is not defined by USFM");
            } else {
                push_str(&mut message, " is not a USFM marker");
            }
            let severity = if custom { Severity::Information } else { Severity::Warning };
            let d = Diagnostic { code: DiagnosticCode::UnknownMarker, severity, span, message };
            into.push(d);
            assert(diag_views(into@) =~= diag_views(start) + seq![d@]);
        },
        Some(info) => {
            let ghost iv = info@;
            let ghost dep: Seq<DiagnosticView> = match iv.deprecated_in {
                Some(t) => match parse_version(t) {
                    Some(d) => if version_le(d, config.target_version) {
                        seq![DiagnosticView {
                            code: DiagnosticCode::DeprecatedMarker,
                            severity: Severity::Warning,
                            span,
                            message: "\\"@ + name@ + " was deprecated in USFM "@ + version_text(d) + match iv.replacement {
                                Some(r) => "; use \\"@ + r,
                                None => Seq::<char>::empty(),
                            },
                        }]
                    } else {
                        Seq::empty()
                    },
                    None => Seq::empty(),
                },
                None => Seq::empty(),
            };
            match &info.deprecated_in {
                Some(t) => match Version::parse(t.as_str()) {
                    Some(d) => {
                        if d.major < config.target_version.major
                            || (d.major == config.target_version.major && d.minor <= config.target_version.minor) {
                            let mut message = String::new();
                            push_str(&mut message, "\\");
                            push_str(&mut message, name);
                            push_str(&mut message, " was deprecated in USFM ");
                            push_version(&mut message, d);
                            match &info.replacement {
                                Some(r) => {
                                    push_str(&mut message, "; use \\");
                                    push_str(&mut message, r.as_str());
                                    assert(message@ == "\\"@ + name@ + " was deprecated in USFM "@ + version_text(d) + ("; use \\"@ + r@));
                                },
                                None => {
                                    assert(message@ == "\\"@ + name@ + " was deprecated in USFM "@ + version_text(d) + Seq::<char>::empty());
                                },
                            }
                            let d = Diagnostic { code: DiagnosticCode::DeprecatedMarker, severity: Severity::Warning, span: ByteSpan::new(span.start, span.end), message };
                            into.push(d);
                            assert(diag_views(into@) =~= diag_views(start) + seq![d@]);
                            assert(dep == seq![d@]);
                        } else {
                            assert(diag_views(into@) =~= diag_views(start) + dep);
                        }
                    },
                    None => {
                        assert(diag_views(into@) =~= diag_views(start) + dep);
                    },
                },
                None => {
                    assert(diag_views(into@) =~= diag_views(start) + dep);
                },
            }
            let ghost after_dep = into@;
            let ghost newer: Seq<DiagnosticView> = match iv.since {
                Some(t) => match parse_version(t) {
                    Some(v) => if !version_le(v, config.document_version) {
                        seq![DiagnosticView {
                            code: DiagnosticCode::MarkerNewerThanDocument,
                            severity: Severity::Information,
                            span,
                            message: "\\"@ + name@ + " was introduced in USFM "@ + version_text(v)
                                + ", but this document declares "@ + version_text(config.document_version),
                        }]
                    } else {
                        Seq::empty()
                    },
                    None => Seq::empty(),
                },
                None => Seq::empty(),
            };
            match &info.since {
                Some(t) => match Version::parse(t.as_str()) {
                    Some(v) => {
                        if !(v.major < config.document_version.major
                            || (v.major == config.document_version.major && v.minor <= config.document_version.minor)) {
                            let mut message = String::new();
                            push_str(&mut message, "\\");
                            push_str(&mut message, name);
                            push_str(&mut message, " was introduced in USFM ");
                            push_version(&mut message, v);
                            push_str(&mut message, ", but this document declares ");
                            push_version(&mut message, config.document_version);
                            let d = Diagnostic { code: DiagnosticCode::MarkerNewerThanDocument, severity: Severity::Information, span: ByteSpan::new(span.start, span.end), message };
                            into.push(d);
                            assert(diag_views(into@) =~= diag_views(after_dep) + seq![d@]);
                            assert(newer == seq![d@]);
                        } else {
                            assert(diag_views(into@) =~= diag_views(after_dep) + newer);
                        }
                    },
                    None => {
                        assert(diag_views(into@) =~= diag_views(after_dep) + newer);
                    },
                },
                None => {
                    assert(diag_views(into@) =~= diag_views(after_dep) + newer);
                },
            }
            let ghost after_newer = into@;
            let ghost fig_text = "\\fig uses the USFM 2.x positional form; name the attributes (src, size, ref)"@;
            if info.class != MarkerClass::Unclassified && crate::text::str_eq(name, "fig") && is_positional_figure(source, &span) {
                let mut message = String::new();
                push_str(&mut message, "\\fig uses the USFM 2.x positional form; name the attributes (src, size, ref)");
                assert(Seq::<char>::empty() + fig_text == fig_text);
                let d = Diagnostic { code: DiagnosticCode::LegacyFigureSyntax, severity: Severity::Warning, span, message };
                into.push(d);
                assert(diag_views(into@) =~= diag_views(after_newer) + seq![d@]);
            } else {
                assert(diag_views(into@) =~= diag_views(after_newer) + Seq::<DiagnosticView>::empty());
            }
        },
    }
}

/// Walks the trees and reports what the marker table knows of each node,
/// parents before children.
pub fn marker_diagnostics(nodes: &[Node], source: &str, config: &DiagnosticConfig, table: &MarkerTable) -> (r: Vec<Diagnostic>)
    ensures
        diag_views(r@) == walk_diags(table@, preorder_all(nodes@), source.spec_bytes(), *config),
{
    let mut out: Vec<Diagnostic> = Vec::new();
    let mut i: usize = 0;
    while i < nodes.len()
        invariant
            i <= nodes@.len(),
            diag_views(out@) == walk_diags(table@, preorder_all(nodes@.take(i as int)), source.spec_bytes(), *config),
        decreases nodes.len() - i,
    {
        let walk = nodes[i].descendants();
        let ghost before = preorder_all(nodes@.take(i as int));
        let mut j: usize = 0;
        while j < walk.len()
            invariant
                i < nodes@.len(),
                j <= walk@.len(),
                nodes_of(walk@) == preorder(nodes@[i as int]),
                before == preorder_all(nodes@.take(i as int)),
                diag_views(out@) == walk_diags(table@, before + nodes_of(walk@).take(j as int), source.spec_bytes(), *config),
            decreases walk.len() - j,
        {
            inspect(walk[j], source, config, table, &mut out);
            proof {
                let ns = before + nodes_of(walk@).take(j + 1);
                assert(ns.drop_last() =~= before + nodes_of(walk@).take(j as int));
                assert(ns.last() == *walk@[j as int]);
            }
            j += 1;
        }
        proof {
            assert(nodes_of(walk@).take(walk@.len() as int) =~= nodes_of(walk@));
            let taken = nodes@.take(i + 1);
            assert(taken.drop_last() =~= nodes@.take(i as int));
            assert(taken.last() == nodes@[i as int]);
        }
        i += 1;
    }
    assert(nodes@.take(nodes@.len() as int) =~= nodes@);
    out
}

} // verus!
