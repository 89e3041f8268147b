//! The token stream, for syntax highlighting.

use vstd::prelude::*;
use crate::span::ByteSpan;
use crate::text::str_eq;

verus! {

/// What a run of source is, as a reader needs to tell it apart.
#[derive(Debug, Clone, Copy, PartialEq, Eq, Hash)]
pub enum TokenKind {
    /// `\p`, `\bd`, `\+it` — anything that opens a marker.
    Marker,
    /// `\bd*`, `\+it*` — anything that closes one.
    ClosingMarker,
    /// `\c` and its number.
    Chapter,
    /// `\v` and its number.
    Verse,
    /// `\qt-s`, `\ts-e`.
    Milestone,
    /// `|lemma="grace"` — the run after a `|`.
    Attributes,
    /// Everything else: the Scripture itself.
    Text,
}

/// One run of source.
#[derive(Debug, Clone, PartialEq, Eq)]
pub struct Token {
    pub kind: TokenKind,
    pub span: ByteSpan,
}

/// How the lexer's two-level vocabulary maps onto ours: the specific kind
/// decides chapter, verse and milestone; the broad one the rest; anything
/// unrecognised reads as text.
pub open spec fn classification(kind: Seq<char>, token_kind: Option<Seq<char>>) -> TokenKind {
    if token_kind == Some("chapter"@) {
        TokenKind::Chapter
    } else if token_kind == Some("verse"@) {
        TokenKind::Verse
    } else if token_kind == Some("milestone"@) {
        TokenKind::Milestone
    } else if kind == "milestone_end"@ {
        TokenKind::Milestone
    } else if kind == "closing_marker"@ {
        TokenKind::ClosingMarker
    } else if kind == "marker"@ {
        TokenKind::Marker
    } else if kind == "attributes"@ {
        TokenKind::Attributes
    } else {
        TokenKind::Text
    }
}

/// Maps the lexer's vocabulary onto ours.
pub fn classify(kind: &str, token_kind: Option<&str>) -> (r: TokenKind)
    ensures
        r == classification(kind@, match token_kind { Some(t) => Some(t@), None => None }),
{
    match token_kind {
        Some(t) => {
            if str_eq(t, "chapter") {
                return TokenKind::Chapter;
            }
            if str_eq(t, "verse") {
                return TokenKind::Verse;
            }
            if str_eq(t, "milestone") {
                return TokenKind::Milestone;
            }
        },
        None => {},
    }
    if str_eq(kind, "milestone_end") {
        TokenKind::Milestone
    } else if str_eq(kind, "closing_marker") {
        TokenKind::ClosingMarker
    } else if str_eq(kind, "marker") {
        TokenKind::Marker
    } else if str_eq(kind, "attributes") {
        TokenKind::Attributes
    } else {
        TokenKind::Text
    }
}

/// The CSS class the editor decorates a token kind with.
pub open spec fn css_class_name(kind: TokenKind) -> Seq<char> {
    match kind {
        TokenKind::Marker => "cm-usfm-marker"@,
        TokenKind::ClosingMarker => "cm-usfm-marker-close"@,
        TokenKind::Chapter => "cm-usfm-chapter"@,
        TokenKind::Verse => "cm-usfm-verse"@,
        TokenKind::Milestone => "cm-usfm-milestone"@,
        TokenKind::Attributes => "cm-usfm-attribute"@,
        TokenKind::Text => "cm-usfm-text"@,
    }
}

impl TokenKind {
    /// The CSS class the editor decorates with.
    pub fn css_class(self) -> (r: &'static str)
        ensures
            r@ == css_class_name(self),
    {
        match self {
            TokenKind::Marker => "cm-usfm-marker",
            TokenKind::ClosingMarker => "cm-usfm-marker-close",
            TokenKind::Chapter => "cm-usfm-chapter",
            TokenKind::Verse => "cm-usfm-verse",
            TokenKind::Milestone => "cm-usfm-milestone",
            TokenKind::Attributes => "cm-usfm-attribute",
            TokenKind::Text => "cm-usfm-text",
        }
    }

    /// Whether this run must be bidi-isolated when rendered: every run but
    /// text.
    pub fn needs_bidi_isolation(self) -> (b: bool)
        ensures
            b == (self != TokenKind::Text),
    {
        match self {
            TokenKind::Text => false,
            _ => true,
        }
    }
}

} // verus!
