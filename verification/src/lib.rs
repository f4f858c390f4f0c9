//! Layout-sensitive (off-side rule) lexer adapter.
//!
//! [`LayoutLexer`] wraps a token iterator and splices virtual
//! open/close/separator tokens into the stream based on the indentation of
//! the input, so that a downstream parser sees a brace-and-semicolon shape
//! and never has to think about columns.
//!
//! - [`layout`]: the token trait and the configuration;
//! - [`column`]: byte offset to line and column;
//! - [`stack`]: the stack of open blocks;
//! - [`rules`]: the layout rule as a model over token streams;
//! - [`lexer`]: the lexer, proved to follow the model;
//! - [`laws`]: what the model guarantees of every stream.

pub mod column;
pub mod stack;
pub mod layout;
pub mod rules;
pub mod lexer;
pub mod laws;
pub mod step_laws;

pub use layout::{Layout, LayoutConfig, LayoutMode, OpenerRule, TokenClass};
pub use lexer::LayoutLexer;
pub use column::ColumnIndex;
pub use stack::{CloseStep, IndentStack};
pub use rules::LayoutToken;
