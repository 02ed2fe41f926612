//! Grammar symbols.

use vstd::prelude::*;
use vstd::std_specs::cmp::PartialEqSpecImpl;

verus! {

/// One symbol of an alternative.
///
/// A terminal stands for a literal token; the empty text stands for the
/// empty production. A non-terminal refers to a rule by its name.
#[derive(Debug)]
pub enum Symbol {
    Terminal(String),
    NonTerminal(String),
}

/// The mathematical value of a [`Symbol`].
pub ghost enum SymbolView {
    Terminal(Seq<char>),
    NonTerminal(Seq<char>),
}

impl View for Symbol {
    type V = SymbolView;

    open spec fn view(&self) -> SymbolView {
        match self {
            Symbol::Terminal(text) => SymbolView::Terminal(text@),
            Symbol::NonTerminal(name) => SymbolView::NonTerminal(name@),
        }
    }
}

impl DeepView for Symbol {
    type V = SymbolView;

    open spec fn deep_view(&self) -> SymbolView {
        self@
    }
}

impl PartialEq for Symbol {
    fn eq(&self, other: &Symbol) -> (equal: bool) {
        match (self, other) {
            (Symbol::Terminal(a), Symbol::Terminal(b)) => *a == *b,
            (Symbol::NonTerminal(a), Symbol::NonTerminal(b)) => *a == *b,
            _ => false,
        }
    }
}

impl PartialEqSpecImpl for Symbol {
    open spec fn obeys_eq_spec() -> bool {
        true
    }

    open spec fn eq_spec(&self, other: &Symbol) -> bool {
        self@ == other@
    }
}

} // verus!
