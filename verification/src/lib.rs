//! `.memspec` v0 parser and analyzer.
//!
//! Three layers:
//! - [`lexer`]: source text to tokens with spans.
//! - [`parser`]: tokens to AST.
//! - `analysis`: AST to diagnostics (structural, coherence,
//!   symmetric-failure, cross-slice) plus the query, diff, suggest and
//!   render surfaces.

pub mod analysis;
pub mod ast;
pub mod browse;
pub mod diagnostic;
pub mod lexer;
pub mod parser;
pub mod span;
pub mod text;
pub mod token;
pub mod walk_report;

pub use diagnostic::{Diagnostic, Severity};
pub use span::Span;
pub use token::{Token, TokenKind};
pub use lexer::tokenize;
