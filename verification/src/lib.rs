//! The USFM engine's verified core: offsets, line tables, UTF-16 mapping,
//! verse numbering, references, diagnostics, and the file-fidelity envelope.

pub mod text;
pub mod fmt;
pub mod unicode;
pub mod span;
pub mod checksum;
pub mod grapheme;
pub mod lines;
pub mod char16;
pub mod diagnostic;
pub mod node;
pub mod version;
pub mod token;
pub mod verse;
pub mod reference;
pub mod joiners;
pub mod text_span;
pub mod fidelity;
pub mod backend;
pub mod normalize;
pub mod severity;
pub mod completion;
pub mod session;
pub mod markers;
pub mod figure;
pub mod watch;
pub mod lock;
pub mod updates;
pub mod save;
pub mod recovery;
pub mod document;
pub mod chunk;
pub mod invariants;
pub mod reopen;
pub mod parsed;
pub mod navigate;
pub mod usj;

pub use char16::{Char16, Char16Range, Utf16Mapper};
pub use checksum::checksum;
pub use completion::{completions, frequencies, Completion, Context as CompletionContext, MarkerCounts};
pub use diagnostic::{Diagnostic, DiagnosticCode, Severity};
pub use fidelity::{DecodeError, Eol, FileFidelity, LineEndings, Loaded};
pub use node::{Attribute, Marker, Node, NodeKind};
pub use normalize::NormalizedIndex;
pub use reference::{decimal_value, parse_digits, Reference, Resolution};
pub use severity::DiagnosticConfig;
pub use span::ByteSpan;
pub use token::{Token, TokenKind};
pub use verse::{VerseEntry, VerseId, VerseIndex};
pub use session::{Applied, Chunk, Edit, EditError, Session};
pub use version::Version;
