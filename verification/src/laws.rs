//! Laws of left recursion.
//!
//! Each law is stated over the model of a grammar, the map that
//! [`Grammar::is_ll`](crate::Grammar::is_ll) decides on.

use vstd::prelude::*;
use vstd::seq_lib::to_multiset_contains;
use crate::model::{
    begins_with, declares, first_step, is_first_chain, is_first_of, left_recursive,
    lemma_rules_of_declaration, ll, names_distinct, position_of, rules_of, starts_with,
    Alternatives, Declarations, Rules,
};
use crate::symbol::SymbolView;

verus! {

/// A non-terminal with an alternative that begins with itself is left
/// recursive, and its grammar is not suitable.
pub proof fn lemma_direct_left_recursion(rules: Rules, name: Seq<char>)
    requires
        rules.dom().contains(name),
        begins_with(rules[name], SymbolView::NonTerminal(name)),
    ensures
        left_recursive(rules, name),
        !ll(rules),
{
    let chain = seq![SymbolView::NonTerminal(name)];
    assert(chain[0] == SymbolView::NonTerminal(name));
    assert(is_first_chain(rules, rules[name], chain));
    assert(left_recursive(rules, name));
}

/// The name that follows position `i` in a circle of names.
pub open spec fn successor(circle: Seq<Seq<char>>, i: int) -> Seq<char> {
    if i + 1 < circle.len() {
        circle[i + 1]
    } else {
        circle[0]
    }
}

/// `circle` is a circle of first symbols: each of its names has an
/// alternative that begins with the name after it, and the last has one that
/// begins with the first.
pub open spec fn is_first_circle(rules: Rules, circle: Seq<Seq<char>>) -> bool {
    &&& circle.len() > 0
    &&& forall|i: int|
        0 <= i < circle.len() ==> rules.dom().contains(#[trigger] circle[i]) && begins_with(
            rules[circle[i]],
            SymbolView::NonTerminal(successor(circle, i)),
        )
}

/// A circle of first symbols, however many non-terminals it runs through,
/// makes its first name left recursive and the grammar unsuitable.
pub proof fn lemma_circle_is_left_recursion(rules: Rules, circle: Seq<Seq<char>>)
    requires
        is_first_circle(rules, circle),
    ensures
        left_recursive(rules, circle[0]),
        !ll(rules),
{
    let chain = Seq::new(circle.len(), |i: int| SymbolView::NonTerminal(successor(circle, i)));
    assert(rules.dom().contains(circle[0]));
    assert(chain[0] == SymbolView::NonTerminal(successor(circle, 0)));
    assert forall|i: int| 0 <= i < chain.len() - 1 implies first_step(
        rules,
        #[trigger] chain[i],
        chain[i + 1],
    ) by {
        assert(rules.dom().contains(circle[i + 1]));
    }
    assert(is_first_chain(rules, rules[circle[0]], chain));
    assert(chain.last() == SymbolView::NonTerminal(circle[0]));
}

/// A grammar without any circle of first symbols is suitable.
pub proof fn lemma_no_circle_is_ll(rules: Rules)
    requires
        forall|circle: Seq<Seq<char>>| !is_first_circle(rules, circle),
    ensures
        ll(rules),
{
    assert forall|name: Seq<char>| !left_recursive(rules, name) by {
        if left_recursive(rules, name) {
            let chain = choose|chain: Seq<SymbolView>| #[trigger]
                is_first_chain(rules, rules[name], chain) && chain.last()
                    == SymbolView::NonTerminal(name);
            let circle = Seq::new(
                chain.len(),
                |i: int|
                    if i == 0 {
                        name
                    } else {
                        chain[i - 1]->NonTerminal_0
                    },
            );
            assert forall|i: int| 0 <= i < circle.len() implies rules.dom().contains(
                #[trigger] circle[i],
            ) && begins_with(rules[circle[i]], SymbolView::NonTerminal(successor(circle, i))) by {
                if i + 1 < chain.len() {
                    assert(first_step(rules, chain[i], chain[i + 1]));
                }
                if i > 0 {
                    assert(first_step(rules, chain[i - 1], chain[i - 1 + 1]));
                }
            }
            assert(is_first_circle(rules, circle));
        }
    }
}

/// A grammar is suitable if its names can be ranked so that the first
/// symbol of every alternative, where it is a non-terminal, ranks below the
/// name that the alternative belongs to.
pub proof fn lemma_ranked_is_ll(rules: Rules, rank: spec_fn(Seq<char>) -> nat)
    requires
        forall|name: Seq<char>, first: Seq<char>|
            rules.dom().contains(name) && #[trigger] begins_with(
                rules[name],
                SymbolView::NonTerminal(first),
            ) ==> rank(first) < rank(name),
    ensures
        ll(rules),
{
    assert forall|name: Seq<char>| !left_recursive(rules, name) by {
        if left_recursive(rules, name) {
            let chain = choose|chain: Seq<SymbolView>| #[trigger]
                is_first_chain(rules, rules[name], chain) && chain.last()
                    == SymbolView::NonTerminal(name);
            lemma_rank_falls(rules, rank, name, chain, chain.len() - 1);
        }
    }
}

/// Along a chain of first symbols from the alternatives of `name`, every
/// non-terminal ranks below `name`.
proof fn lemma_rank_falls(
    rules: Rules,
    rank: spec_fn(Seq<char>) -> nat,
    name: Seq<char>,
    chain: Seq<SymbolView>,
    i: int,
)
    requires
        forall|name: Seq<char>, first: Seq<char>|
            rules.dom().contains(name) && #[trigger] begins_with(
                rules[name],
                SymbolView::NonTerminal(first),
            ) ==> rank(first) < rank(name),
        rules.dom().contains(name),
        is_first_chain(rules, rules[name], chain),
        0 <= i < chain.len(),
    ensures
        chain[i] matches SymbolView::NonTerminal(reached) ==> rank(reached) < rank(name),
    decreases i,
{
    if i > 0 {
        lemma_rank_falls(rules, rank, name, chain, i - 1);
        assert(first_step(rules, chain[i - 1], chain[i - 1 + 1]));
    }
}

/// The two grammars have the same names, and under each name the same
/// symbols in first position.
pub open spec fn same_first_symbols(left: Rules, right: Rules) -> bool {
    &&& left.dom() == right.dom()
    &&& forall|name: Seq<char>, symbol: SymbolView|
        left.dom().contains(name) ==> (#[trigger] begins_with(left[name], symbol) == begins_with(
            right[name],
            symbol,
        ))
}

/// What can be reached by following first symbols depends on the first
/// symbols alone.
pub proof fn lemma_starts_with_first_symbols(
    left: Rules,
    right: Rules,
    left_alts: Alternatives,
    right_alts: Alternatives,
    symbol: SymbolView,
)
    requires
        same_first_symbols(left, right),
        forall|first: SymbolView|
            #[trigger] begins_with(left_alts, first) == begins_with(right_alts, first),
    ensures
        starts_with(left, left_alts, symbol) == starts_with(right, right_alts, symbol),
{
    if starts_with(left, left_alts, symbol) {
        let chain = choose|chain: Seq<SymbolView>| #[trigger]
            is_first_chain(left, left_alts, chain) && chain.last() == symbol;
        lemma_chain_first_symbols(left, right, left_alts, right_alts, chain);
    }
    if starts_with(right, right_alts, symbol) {
        let chain = choose|chain: Seq<SymbolView>| #[trigger]
            is_first_chain(right, right_alts, chain) && chain.last() == symbol;
        assert(same_first_symbols(right, left)) by {
            assert forall|name: Seq<char>, first: SymbolView|
                right.dom().contains(name) implies (#[trigger] begins_with(right[name], first)
                == begins_with(left[name], first)) by {
                assert(begins_with(left[name], first) == begins_with(right[name], first));
            }
        }
        assert forall|first: SymbolView| #[trigger]
            begins_with(right_alts, first) == begins_with(left_alts, first) by {
            assert(begins_with(left_alts, first) == begins_with(right_alts, first));
        }
        lemma_chain_first_symbols(right, left, right_alts, left_alts, chain);
    }
}

/// A chain of first symbols in one grammar is a chain in every grammar with
/// the same first symbols.
proof fn lemma_chain_first_symbols(
    left: Rules,
    right: Rules,
    left_alts: Alternatives,
    right_alts: Alternatives,
    chain: Seq<SymbolView>,
)
    requires
        same_first_symbols(left, right),
        forall|first: SymbolView|
            #[trigger] begins_with(left_alts, first) == begins_with(right_alts, first),
        is_first_chain(left, left_alts, chain),
    ensures
        is_first_chain(right, right_alts, chain),
{
    assert(begins_with(left_alts, chain[0]));
    assert forall|i: int| 0 <= i < chain.len() - 1 implies first_step(
        right,
        #[trigger] chain[i],
        chain[i + 1],
    ) by {
        assert(first_step(left, chain[i], chain[i + 1]));
        let name = chain[i]->NonTerminal_0;
        assert(begins_with(left[name], chain[i + 1]));
    }
}

/// Two grammars with the same first symbols are both suitable or both not.
pub proof fn lemma_first_symbols_decide(left: Rules, right: Rules)
    requires
        same_first_symbols(left, right),
    ensures
        ll(left) == ll(right),
        forall|name: Seq<char>| left_recursive(left, name) == left_recursive(right, name),
{
    assert forall|name: Seq<char>| left_recursive(left, name) == left_recursive(
        right,
        name,
    ) by {
        if left.dom().contains(name) {
            assert forall|first: SymbolView| #[trigger]
                begins_with(left[name], first) == begins_with(right[name], first) by {}
            lemma_starts_with_first_symbols(
                left,
                right,
                left[name],
                right[name],
                SymbolView::NonTerminal(name),
            );
        }
    }
}

/// The two grammars have the same names, under each name as many
/// alternatives, and each alternative has the first symbol of the one in its
/// place.
pub open spec fn same_heads(left: Rules, right: Rules) -> bool {
    &&& left.dom() == right.dom()
    &&& forall|name: Seq<char>| #[trigger]
        left.dom().contains(name) ==> left[name].len() == right[name].len()
    &&& forall|name: Seq<char>, j: int|
        left.dom().contains(name) && 0 <= j < left[name].len() ==> left[name][j].len() > 0
            && right[name][j].len() > 0 && (#[trigger] left[name][j])[0] == right[name][j][0]
}

/// What follows the first symbol of an alternative does not count: a
/// non-terminal that recurs later in its own alternatives, as in right
/// recursion, does not make a grammar unsuitable.
pub proof fn lemma_later_symbols_ignored(left: Rules, right: Rules)
    requires
        same_heads(left, right),
    ensures
        ll(left) == ll(right),
{
    assert forall|name: Seq<char>, symbol: SymbolView| left.dom().contains(name) implies (
    #[trigger] begins_with(left[name], symbol) == begins_with(right[name], symbol)) by {
        if begins_with(left[name], symbol) {
            let j = choose|j: int|
                0 <= j < left[name].len() && is_first_of(#[trigger] left[name][j], symbol);
            assert(left[name][j][0] == right[name][j][0]);
            assert(is_first_of(right[name][j], symbol));
        }
        if begins_with(right[name], symbol) {
            let j = choose|j: int|
                0 <= j < right[name].len() && is_first_of(#[trigger] right[name][j], symbol);
            assert(left[name][j][0] == right[name][j][0]);
            assert(is_first_of(left[name][j], symbol));
        }
    }
    lemma_first_symbols_decide(left, right);
}

/// The two grammars have the same names, and under each name the same
/// alternatives, each as often, in any order.
pub open spec fn same_alternatives(left: Rules, right: Rules) -> bool {
    &&& left.dom() == right.dom()
    &&& forall|name: Seq<char>| #[trigger]
        left.dom().contains(name) ==> left[name].to_multiset() == right[name].to_multiset()
}

/// The order of the alternatives of a name does not count.
pub proof fn lemma_alternative_order(left: Rules, right: Rules)
    requires
        same_alternatives(left, right),
    ensures
        ll(left) == ll(right),
{
    assert forall|name: Seq<char>, symbol: SymbolView| left.dom().contains(name) implies (
    #[trigger] begins_with(left[name], symbol) == begins_with(right[name], symbol)) by {
        if begins_with(left[name], symbol) {
            lemma_permuted_begins_with(left[name], right[name], symbol);
        }
        if begins_with(right[name], symbol) {
            lemma_permuted_begins_with(right[name], left[name], symbol);
        }
    }
    lemma_first_symbols_decide(left, right);
}

/// A first symbol of some alternative is one of every permutation of the
/// alternatives.
proof fn lemma_permuted_begins_with(
    alts: Alternatives,
    permuted: Alternatives,
    symbol: SymbolView,
)
    requires
        alts.to_multiset() == permuted.to_multiset(),
        begins_with(alts, symbol),
    ensures
        begins_with(permuted, symbol),
{
    let j = choose|j: int| 0 <= j < alts.len() && is_first_of(#[trigger] alts[j], symbol);
    assert(alts.contains(alts[j]));
    to_multiset_contains(alts, alts[j]);
    to_multiset_contains(permuted, alts[j]);
    let k = choose|k: int| 0 <= k < permuted.len() && permuted[k] == alts[j];
    assert(is_first_of(permuted[k], symbol));
}

/// The order of the declarations does not count: two lists of declarations
/// with distinct names, one a permutation of the other, stand for the same
/// grammar.
pub proof fn lemma_declaration_order(decls: Declarations, permuted: Declarations)
    requires
        names_distinct(decls),
        names_distinct(permuted),
        decls.to_multiset() == permuted.to_multiset(),
    ensures
        rules_of(decls) == rules_of(permuted),
{
    let left = rules_of(decls);
    let right = rules_of(permuted);
    assert forall|name: Seq<char>| #[trigger]
        left.dom().contains(name) == right.dom().contains(name) by {
        if declares(decls, name) {
            lemma_declaration_permuted(decls, permuted, name);
        }
        if declares(permuted, name) {
            lemma_declaration_permuted(permuted, decls, name);
        }
    }
    assert forall|name: Seq<char>| #[trigger] left.dom().contains(name) implies left[name]
        == right[name] by {
        lemma_declaration_permuted(decls, permuted, name);
    }
    assert(left =~= right);
}

/// A name declared in a list is declared, with the same alternatives, in
/// every permutation of the list.
proof fn lemma_declaration_permuted(decls: Declarations, permuted: Declarations, name: Seq<char>)
    requires
        names_distinct(decls),
        names_distinct(permuted),
        decls.to_multiset() == permuted.to_multiset(),
        declares(decls, name),
    ensures
        declares(permuted, name),
        rules_of(decls)[name] == rules_of(permuted)[name],
{
    let i = position_of(decls, name);
    assert(decls.contains(decls[i]));
    to_multiset_contains(decls, decls[i]);
    to_multiset_contains(permuted, decls[i]);
    let k = choose|k: int| 0 <= k < permuted.len() && permuted[k] == decls[i];
    assert(permuted[k].0 == name);
    lemma_rules_of_declaration(decls, i);
    lemma_rules_of_declaration(permuted, k);
}

} // verus!
