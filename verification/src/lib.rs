//! Left-recursion check for context-free grammars.
//!
//! A grammar maps each non-terminal name to its alternatives. It is suitable
//! for top-down parsing only if no non-terminal can reach itself by following
//! the first symbol of its alternatives.

pub mod equal;
pub mod grammar;
pub mod laws;
pub mod model;
pub mod search;
pub mod symbol;
pub mod table;

pub use grammar::Grammar;
pub use grammar::GrammarError;
pub use symbol::Symbol;
pub use symbol::SymbolView;
pub use table::grammar;
pub use table::grammar_from_tokens;
