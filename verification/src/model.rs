//! The mathematical model of a grammar and of left recursion.
//!
//! A grammar is a map from the name of a non-terminal to its alternatives.
//! Left recursion is defined by chasing first symbols: a non-terminal is left
//! recursive when a chain of first symbols leads from its own alternatives
//! back to itself.

use vstd::prelude::*;
use crate::symbol::SymbolView;

verus! {

/// The alternatives of one non-terminal, in the order in which they were given.
pub type Alternatives = Seq<Seq<SymbolView>>;

/// A grammar as a map from non-terminal name to alternatives.
pub type Rules = Map<Seq<char>, Seq<Seq<SymbolView>>>;

/// A list of rule declarations: a name with its alternatives.
pub type Declarations = Seq<(Seq<char>, Seq<Seq<SymbolView>>)>;

/// Some alternative of `alts` has `symbol` in first position.
pub open spec fn begins_with(alts: Alternatives, symbol: SymbolView) -> bool {
    exists|i: int| 0 <= i < alts.len() && is_first_of(#[trigger] alts[i], symbol)
}

/// `symbol` is the first symbol of `alt`.
pub open spec fn is_first_of(alt: Seq<SymbolView>, symbol: SymbolView) -> bool {
    alt.len() > 0 && alt[0] == symbol
}

/// `from` is a non-terminal of `rules`, one of whose alternatives has `to`
/// in first position.
pub open spec fn first_step(rules: Rules, from: SymbolView, to: SymbolView) -> bool {
    match from {
        SymbolView::NonTerminal(name) => rules.dom().contains(name) && begins_with(
            rules[name],
            to,
        ),
        SymbolView::Terminal(_) => false,
    }
}

/// `chain` is a non-empty chain of first symbols that starts at `alts`: its
/// first element begins an alternative of `alts`, and each further element
/// begins an alternative of the non-terminal before it.
pub open spec fn is_first_chain(rules: Rules, alts: Alternatives, chain: Seq<SymbolView>) -> bool {
    &&& chain.len() > 0
    &&& begins_with(alts, chain[0])
    &&& forall|i: int|
        0 <= i < chain.len() - 1 ==> first_step(rules, #[trigger] chain[i], chain[i + 1])
}

/// `symbol` can be reached from `alts` by following first symbols only.
pub open spec fn starts_with(rules: Rules, alts: Alternatives, symbol: SymbolView) -> bool {
    exists|chain: Seq<SymbolView>| #[trigger]
        is_first_chain(rules, alts, chain) && chain.last() == symbol
}

/// The non-terminal `name` can reach itself by following first symbols.
pub open spec fn left_recursive(rules: Rules, name: Seq<char>) -> bool {
    rules.dom().contains(name) && starts_with(rules, rules[name], SymbolView::NonTerminal(name))
}

/// No non-terminal of `rules` is left recursive.
pub open spec fn ll(rules: Rules) -> bool {
    forall|name: Seq<char>| !left_recursive(rules, name)
}

/// Every non-terminal named in `alt` has a rule in `rules`.
pub open spec fn references_resolve(rules: Rules, alt: Seq<SymbolView>) -> bool {
    forall|j: int|
        0 <= j < alt.len() ==> match #[trigger] alt[j] {
            SymbolView::NonTerminal(name) => rules.dom().contains(name),
            SymbolView::Terminal(_) => true,
        }
}

/// Every alternative of `alts` has at least one symbol and refers only to
/// non-terminals of `rules`.
pub open spec fn alternatives_valid(rules: Rules, alts: Alternatives) -> bool {
    forall|i: int|
        0 <= i < alts.len() ==> (#[trigger] alts[i]).len() > 0 && references_resolve(
            rules,
            alts[i],
        )
}

/// Every alternative of `alts` has a first symbol, and where that is a
/// non-terminal, it has a rule in `rules`.
pub open spec fn heads_resolve(rules: Rules, alts: Alternatives) -> bool {
    forall|i: int|
        0 <= i < alts.len() ==> (#[trigger] alts[i]).len() > 0 && match alts[i][0] {
            SymbolView::NonTerminal(name) => rules.dom().contains(name),
            SymbolView::Terminal(_) => true,
        }
}

/// Valid alternatives have first symbols that resolve.
pub proof fn lemma_valid_heads_resolve(rules: Rules, alts: Alternatives)
    requires
        alternatives_valid(rules, alts),
    ensures
        heads_resolve(rules, alts),
{
    assert forall|i: int| 0 <= i < alts.len() implies (#[trigger] alts[i]).len() > 0
        && match alts[i][0] {
        SymbolView::NonTerminal(name) => rules.dom().contains(name),
        SymbolView::Terminal(_) => true,
    } by {
        assert(references_resolve(rules, alts[i]));
    }
}

/// Every rule of `rules` has valid alternatives.
pub open spec fn well_formed(rules: Rules) -> bool {
    forall|name: Seq<char>| #[trigger]
        rules.dom().contains(name) ==> alternatives_valid(rules, rules[name])
}

/// No two declarations of `decls` have the same name.
pub open spec fn names_distinct(decls: Declarations) -> bool {
    forall|i: int, j: int|
        0 <= i < j < decls.len() ==> (#[trigger] decls[i]).0 != (#[trigger] decls[j]).0
}

/// The names of the declarations, in their order.
pub open spec fn declared_names(decls: Declarations) -> Seq<Seq<char>> {
    Seq::new(decls.len(), |i: int| decls[i].0)
}

/// `name` is declared in `decls`.
pub open spec fn declares(decls: Declarations, name: Seq<char>) -> bool {
    exists|i: int| 0 <= i < decls.len() && (#[trigger] decls[i]).0 == name
}

/// The position of a declaration of `name` in `decls`.
pub open spec fn position_of(decls: Declarations, name: Seq<char>) -> int {
    choose|i: int| 0 <= i < decls.len() && (#[trigger] decls[i]).0 == name
}

/// The grammar that a list of declarations stands for.
pub open spec fn rules_of(decls: Declarations) -> Rules {
    Map::new(|name: Seq<char>| declares(decls, name), |name: Seq<char>| decls[position_of(decls, name)].1)
}

/// With distinct names, each declaration is the rule of its name.
pub proof fn lemma_rules_of_declaration(decls: Declarations, i: int)
    requires
        names_distinct(decls),
        0 <= i < decls.len(),
    ensures
        rules_of(decls).dom().contains(decls[i].0),
        rules_of(decls)[decls[i].0] == decls[i].1,
        position_of(decls, decls[i].0) == i,
{
    let name = decls[i].0;
    assert(declares(decls, name));
    let p = position_of(decls, name);
    assert(0 <= p < decls.len() && decls[p].0 == name);
    if p < i {
        assert(decls[p].0 != decls[i].0);
    } else if i < p {
        assert(decls[i].0 != decls[p].0);
    }
}

} // verus!
