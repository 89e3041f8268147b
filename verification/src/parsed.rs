//! A parsed document: the source, the tree the parser's tape lowers to, and
//! the parser's diagnostics in this engine's terms, in source order.

use vstd::prelude::*;
use vstd::string::StringSliceAdditionalSpecFns;
use crate::backend::diagnostics::{convert, converted};
use crate::backend::pipes::{views_of, NodeView};
use crate::backend::tree::{add_sids, content_of, fold_numbers, lower_range};
use crate::backend::upstream::{numbers_fit, numbers_fit_in, parse_upstream, usfm3_parse};
use crate::diagnostic::{Diagnostic, DiagnosticView};
use crate::node::{descendants_of, nodes_of, preorder_all, Node};
use crate::verse::{diag_views, insert_sorted, sort_by_start};

verus! {

/// A parsed document.
pub struct Document {
    source: String,
    content: Vec<Node>,
    diagnostics: Vec<Diagnostic>,
}

impl Document {
    /// The text the document was parsed from.
    pub closed spec fn text(&self) -> Seq<char> {
        self.source@
    }

    /// The document's top-level nodes.
    pub closed spec fn roots(&self) -> Seq<Node> {
        self.content@
    }

    /// The document's top-level nodes, as views.
    pub closed spec fn tree(&self) -> Seq<NodeView> {
        views_of(self.content@)
    }

    /// The document's diagnostics, as views.
    pub closed spec fn problems(&self) -> Seq<DiagnosticView> {
        diag_views(self.diagnostics@)
    }

    /// Parses `source`: the tree is what the parser's tape lowers to, and
    /// the diagnostics are the parser's, converted and sorted stably by
    /// where they start. The parser's checks cannot run on a text with a
    /// number of `u32::MAX` or more; such a text gets its tree and no
    /// diagnostics.
    pub fn parse(source: &str) -> (d: Document)
        ensures
            d.text() == source@,
            d.tree() == content_of(usfm3_parse(source@).0, source.spec_bytes()),
            numbers_fit(source.spec_bytes()) ==> d.problems() == sort_by_start(converted(usfm3_parse(source@).1)),
            !numbers_fit(source.spec_bytes()) ==> d.problems() == Seq::<DiagnosticView>::empty(),
    {
        let checked = numbers_fit_in(source);
        let (records, upstream) = parse_upstream(source, checked);
        let content = if records.len() > 0 && records[0].kind == 0 {
            let last = if (records[0].link as usize) < records.len() { records[0].link as usize + 1 } else { records.len() };
            add_sids(&fold_numbers(&lower_range(&records, source, 1, last)), String::new(), String::new()).0
        } else {
            let empty: Vec<Node> = Vec::new();
            assert(views_of(empty@) =~= Seq::<NodeView>::empty());
            empty
        };
        let found = convert(&upstream);
        let ghost fv = diag_views(found@);
        let mut diagnostics: Vec<Diagnostic> = Vec::new();
        let mut i: usize = 0;
        assert(fv.take(0) =~= Seq::<DiagnosticView>::empty());
        while i < found.len()
            invariant
                i <= found@.len(),
                fv == diag_views(found@),
                diag_views(diagnostics@) == sort_by_start(fv.take(i as int)),
            decreases found.len() - i,
        {
            let f = &found[i];
            let d = Diagnostic {
                code: f.code,
                severity: f.severity,
                span: crate::span::ByteSpan::new(f.span.start, f.span.end),
                message: f.message.clone(),
            };
            proof {
                let t = fv.take(i + 1);
                assert(t.drop_last() =~= fv.take(i as int));
            }
            assert(d@ == fv[i as int]);
            insert_sorted(&mut diagnostics, d);
            i += 1;
        }
        assert(fv.take(found@.len() as int) =~= fv);
        proof {
            if !checked {
                assert(converted(Seq::<crate::backend::upstream::UpstreamDiagnosticView>::empty()) =~= Seq::<DiagnosticView>::empty());
                assert(sort_by_start(Seq::<DiagnosticView>::empty()) =~= Seq::<DiagnosticView>::empty());
            }
        }
        Document { source: source.to_string(), content, diagnostics }
    }

    /// The source text, exactly as it was given.
    pub fn source(&self) -> (s: &str)
        ensures
            s@ == self.text(),
    {
        self.source.as_str()
    }

    /// The top-level nodes of the document tree.
    pub fn content(&self) -> (c: &[Node])
        ensures
            views_of(c@) == self.tree(),
    {
        self.content.as_slice()
    }

    /// Every node of the document, in document order.
    pub fn descendants(&self) -> (r: Vec<&Node>)
        ensures
            nodes_of(r@) == preorder_all(self.roots()),
            views_of(self.roots()) == self.tree(),
    {
        descendants_of(self.content.as_slice())
    }

    /// The document's nodes and diagnostics, taken apart.
    pub fn into_parts(self) -> (r: (Vec<Node>, Vec<Diagnostic>))
        ensures
            views_of(r.0@) == self.tree(),
            diag_views(r.1@) == self.problems(),
    {
        (self.content, self.diagnostics)
    }

    /// What is wrong with the document, in source order.
    pub fn diagnostics(&self) -> (d: &[Diagnostic])
        ensures
            diag_views(d@) == self.problems(),
    {
        self.diagnostics.as_slice()
    }
}

} // verus!
