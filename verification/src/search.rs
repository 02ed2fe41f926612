//! The search for left recursion.
//!
//! The search follows first symbols from a list of alternatives and marks
//! each non-terminal that it enters, so that it ends on every grammar, also
//! on one whose first symbols run in a circle that never meets the symbol
//! sought.

use vstd::prelude::*;
use crate::grammar::defect;
use crate::grammar::find_rule;
use crate::grammar::Grammar;
use crate::model::{
    begins_with, declares, first_step, heads_resolve, is_first_chain, is_first_of,
    left_recursive, lemma_rules_of_declaration, lemma_valid_heads_resolve, ll, position_of,
    rules_of, starts_with, well_formed, Alternatives, Declarations, Rules,
};
use crate::symbol::Symbol;
use crate::symbol::SymbolView;

verus! {

/// The number of rules that are not marked.
pub open spec fn unvisited(visited: Seq<bool>) -> nat
    decreases visited.len(),
{
    if visited.len() == 0 {
        0
    } else {
        unvisited(visited.drop_last()) + if visited.last() {
            0nat
        } else {
            1nat
        }
    }
}

/// Marking one more rule leaves one rule fewer unmarked.
proof fn lemma_mark(visited: Seq<bool>, k: int)
    requires
        0 <= k < visited.len(),
        !visited[k],
    ensures
        unvisited(visited.update(k, true)) + 1 == unvisited(visited),
    decreases visited.len(),
{
    if k == visited.len() - 1 {
        assert(visited.update(k, true).drop_last() =~= visited.drop_last());
    } else {
        lemma_mark(visited.drop_last(), k);
        assert(visited.update(k, true).drop_last() =~= visited.drop_last().update(k, true));
    }
}

/// The alternative `alt` needs no further search: its first symbol is not
/// `target`, and if it is a non-terminal, its rule is marked.
pub open spec fn alternative_explored(
    decls: Declarations,
    visited: Seq<bool>,
    target: SymbolView,
    alt: Seq<SymbolView>,
) -> bool {
    &&& alt.len() > 0
    &&& alt[0] != target
    &&& match alt[0] {
        SymbolView::NonTerminal(name) => {
            &&& declares(decls, name)
            &&& 0 <= position_of(decls, name) < visited.len()
            &&& visited[position_of(decls, name)]
        },
        SymbolView::Terminal(_) => true,
    }
}

/// Every alternative of `alts` is explored.
pub open spec fn explored(
    decls: Declarations,
    visited: Seq<bool>,
    target: SymbolView,
    alts: Alternatives,
) -> bool {
    forall|j: int|
        0 <= j < alts.len() ==> alternative_explored(decls, visited, target, #[trigger] alts[j])
}

/// `later` marks every rule that `earlier` marks.
pub open spec fn extends(earlier: Seq<bool>, later: Seq<bool>) -> bool {
    &&& earlier.len() == later.len()
    &&& forall|k: int| 0 <= k < earlier.len() && earlier[k] ==> later[k]
}

/// What is explored stays explored when more rules are marked.
proof fn lemma_explored_extends(
    decls: Declarations,
    earlier: Seq<bool>,
    later: Seq<bool>,
    target: SymbolView,
    alts: Alternatives,
)
    requires
        extends(earlier, later),
        explored(decls, earlier, target, alts),
    ensures
        explored(decls, later, target, alts),
{
    assert forall|j: int| 0 <= j < alts.len() implies alternative_explored(
        decls,
        later,
        target,
        #[trigger] alts[j],
    ) by {
        assert(alternative_explored(decls, earlier, target, alts[j]));
    }
}

/// A chain from the alternatives of a non-terminal goes on from an
/// alternative that begins with that non-terminal.
proof fn lemma_chain_through(
    rules: Rules,
    alts: Alternatives,
    j: int,
    name: Seq<char>,
    target: SymbolView,
)
    requires
        0 <= j < alts.len(),
        is_first_of(alts[j], SymbolView::NonTerminal(name)),
        rules.dom().contains(name),
        starts_with(rules, rules[name], target),
    ensures
        starts_with(rules, alts, target),
{
    let tail = choose|chain: Seq<SymbolView>| #[trigger]
        is_first_chain(rules, rules[name], chain) && chain.last() == target;
    let chain = seq![SymbolView::NonTerminal(name)] + tail;
    assert(chain[0] == SymbolView::NonTerminal(name));
    assert(begins_with(alts, chain[0]));
    assert forall|i: int| 0 <= i < chain.len() - 1 implies first_step(
        rules,
        #[trigger] chain[i],
        chain[i + 1],
    ) by {
        if i == 0 {
            assert(chain[1] == tail[0]);
        } else {
            assert(chain[i] == tail[i - 1]);
            assert(chain[i + 1] == tail[i]);
            assert(first_step(rules, tail[i - 1], tail[i - 1 + 1]));
        }
    }
    assert(chain.last() == tail.last());
    assert(is_first_chain(rules, alts, chain));
}

/// Where every marked rule is explored, a chain that starts at explored
/// alternatives never meets the target.
proof fn lemma_chain_misses(
    decls: Declarations,
    visited: Seq<bool>,
    target: SymbolView,
    alts: Alternatives,
    chain: Seq<SymbolView>,
    i: int,
)
    requires
        defect(decls) is None,
        visited.len() == decls.len(),
        explored(decls, visited, target, alts),
        forall|k: int|
            0 <= k < decls.len() && visited[k] ==> explored(
                decls,
                visited,
                target,
                (#[trigger] decls[k]).1,
            ),
        is_first_chain(rules_of(decls), alts, chain),
        0 <= i < chain.len(),
    ensures
        alternative_explored(decls, visited, target, seq![chain[i]]),
    decreases i,
{
    let rules = rules_of(decls);
    if i == 0 {
        let j = choose|j: int| 0 <= j < alts.len() && is_first_of(#[trigger] alts[j], chain[0]);
        assert(alternative_explored(decls, visited, target, alts[j]));
    } else {
        lemma_chain_misses(decls, visited, target, alts, chain, i - 1);
        assert(first_step(rules, chain[i - 1], chain[i - 1 + 1]));
        let name = chain[i - 1]->NonTerminal_0;
        let p = position_of(decls, name);
        assert(seq![chain[i - 1]][0] == chain[i - 1]);
        assert(0 <= p < decls.len() && decls[p].0 == name);
        assert(rules[name] == decls[p].1);
        assert(explored(decls, visited, target, decls[p].1));
        let j = choose|j: int|
            0 <= j < rules[name].len() && is_first_of(#[trigger] rules[name][j], chain[i]);
        assert(alternative_explored(decls, visited, target, decls[p].1[j]));
    }
}

/// Where every marked rule is explored, explored alternatives do not start
/// with the target.
proof fn lemma_explored_misses(
    decls: Declarations,
    visited: Seq<bool>,
    target: SymbolView,
    alts: Alternatives,
)
    requires
        defect(decls) is None,
        visited.len() == decls.len(),
        explored(decls, visited, target, alts),
        forall|k: int|
            0 <= k < decls.len() && visited[k] ==> explored(
                decls,
                visited,
                target,
                (#[trigger] decls[k]).1,
            ),
    ensures
        !starts_with(rules_of(decls), alts, target),
{
    let rules = rules_of(decls);
    assert forall|chain: Seq<SymbolView>| #[trigger]
        is_first_chain(rules, alts, chain) implies chain.last() != target by {
        lemma_chain_misses(decls, visited, target, alts, chain, chain.len() - 1);
        assert(seq![chain.last()][0] == chain.last());
    }
}

impl Grammar {
    /// Whether no non-terminal of the grammar is left recursive, that is,
    /// whether none can reach itself by following first symbols.
    pub fn is_ll(&self) -> (suitable: bool)
        ensures
            suitable == ll(self@),
            well_formed(self@),
    {
        proof {
            use_type_invariant(self);
            self.lemma_stored_rules();
        }
        let ghost decls = self.declarations();
        let mut i: usize = 0;
        while i < self.rules.len()
            invariant
                i <= self.rules.len(),
                self.inv(),
                decls == self.declarations(),
                forall|a: int| 0 <= a < i ==> !left_recursive(self@, (#[trigger] decls[a]).0),
            decreases self.rules.len() - i,
        {
            proof {
                self.lemma_stored_rules();
                lemma_rules_of_declaration(decls, i as int);
                lemma_valid_heads_resolve(self@, decls[i as int].1);
            }
            let target = Symbol::NonTerminal(self.rules[i].0.clone());
            if self.rule_starts_with(&self.rules[i].1, &target) {
                assert(left_recursive(self@, decls[i as int].0));
                return false;
            }
            i += 1;
        }
        proof {
            self.lemma_stored_rules();
            assert forall|name: Seq<char>| !left_recursive(self@, name) by {
                if self@.dom().contains(name) {
                    let p = position_of(decls, name);
                    assert(0 <= p < decls.len() && decls[p].0 == name);
                }
            }
        }
        true
    }

    /// Whether `symbol` can be reached from the alternatives `rule` by
    /// following first symbols: it begins one of them, or it can be reached
    /// in this way from the alternatives of a non-terminal that begins one.
    ///
    /// The alternatives need not belong to the grammar, but each of them must
    /// hold a symbol, and a non-terminal in first position must be one of the
    /// grammar.
    pub fn rule_starts_with(&self, rule: &Vec<Vec<Symbol>>, symbol: &Symbol) -> (found: bool)
        requires
            heads_resolve(self@, rule.deep_view()),
        ensures
            found == starts_with(self@, rule.deep_view(), symbol@),
    {
        proof {
            use_type_invariant(self);
            self.lemma_stored_rules();
        }
        let mut visited: Vec<bool> = Vec::new();
        while visited.len() < self.rules.len()
            invariant
                visited.len() <= self.rules.len(),
                forall|k: int| 0 <= k < visited.len() ==> !visited[k],
            decreases self.rules.len() - visited.len(),
        {
            visited.push(false);
        }
        let found = self.search(rule, symbol, &mut visited);
        proof {
            if !found {
                lemma_explored_misses(self.declarations(), visited@, symbol@, rule.deep_view());
            }
        }
        found
    }

    /// Follows first symbols from `rule` through the rules that `visited`
    /// does not mark yet, and marks each rule that it enters.
    fn search(&self, rule: &Vec<Vec<Symbol>>, symbol: &Symbol, visited: &mut Vec<bool>) -> (found:
        bool)
        requires
            old(visited).len() == self.declarations().len(),
            heads_resolve(self@, rule.deep_view()),
        ensures
            extends(old(visited)@, final(visited)@),
            unvisited(final(visited)@) <= unvisited(old(visited)@),
            found ==> starts_with(self@, rule.deep_view(), symbol@),
            !found ==> explored(self.declarations(), final(visited)@, symbol@, rule.deep_view()),
            !found ==> forall|k: int|
                0 <= k < final(visited).len() && final(visited)[k] && !old(visited)[k] ==> explored(
                    self.declarations(),
                    final(visited)@,
                    symbol@,
                    (#[trigger] self.declarations()[k]).1,
                ),
        decreases unvisited(old(visited)@),
    {
        proof {
            use_type_invariant(self);
            self.lemma_stored_rules();
        }
        let ghost decls = self.declarations();
        let ghost alts = rule.deep_view();
        let ghost target = symbol@;
        let ghost entry = visited@;
        let mut j: usize = 0;
        while j < rule.len()
            invariant
                j <= rule.len(),
                self.inv(),
                decls == self.declarations(),
                decls == self.rules.deep_view(),
                self@ == rules_of(decls),
                defect(decls) is None,
                well_formed(self@),
                alts == rule.deep_view(),
                target == symbol@,
                heads_resolve(self@, alts),
                visited.len() == decls.len(),
                entry == old(visited)@,
                extends(entry, visited@),
                unvisited(visited@) <= unvisited(entry),
                forall|a: int|
                    0 <= a < j ==> alternative_explored(decls, visited@, target, #[trigger] alts[a]),
                forall|k: int|
                    0 <= k < visited.len() && visited[k] && !entry[k] ==> explored(
                        decls,
                        visited@,
                        target,
                        (#[trigger] decls[k]).1,
                    ),
            decreases rule.len() - j,
        {
            assert(alts[j as int].len() > 0);
            let first = &rule[j][0];
            assert(first@ == alts[j as int][0]);
            if *first == *symbol {
                proof {
                    let chain = seq![target];
                    assert(is_first_of(alts[j as int], chain[0]));
                    assert(is_first_chain(self@, alts, chain));
                }
                return true;
            }
            match first {
                Symbol::NonTerminal(name) => {
                    match find_rule(&self.rules, name) {
                        Some(k) => {
                            proof {
                                lemma_rules_of_declaration(decls, k as int);
                                lemma_valid_heads_resolve(self@, decls[k as int].1);
                            }
                            if !visited[k] {
                                let ghost before = visited@;
                                visited.set(k, true);
                                proof {
                                    lemma_mark(before, k as int);
                                }
                                let ghost marked = visited@;
                                if self.search(&self.rules[k].1, symbol, visited) {
                                    proof {
                                        lemma_chain_through(self@, alts, j as int, name@, target);
                                    }
                                    return true;
                                }
                                proof {
                                    let after = visited@;
                                    assert(extends(before, after));
                                    assert forall|a: int| 0 <= a < j implies alternative_explored(
                                        decls,
                                        after,
                                        target,
                                        #[trigger] alts[a],
                                    ) by {
                                        assert(alternative_explored(decls, before, target, alts[a]));
                                    }
                                    assert forall|n: int|
                                        0 <= n < after.len() && after[n] && !entry[n] implies explored(
                                        decls,
                                        after,
                                        target,
                                        (#[trigger] decls[n]).1,
                                    ) by {
                                        if before[n] {
                                            lemma_explored_extends(
                                                decls,
                                                before,
                                                after,
                                                target,
                                                decls[n].1,
                                            );
                                        } else if n != k {
                                            assert(!marked[n]);
                                        }
                                    }
                                }
                            }
                        },
                        None => {
                            assert(false);
                        },
                    }
                },
                Symbol::Terminal(_) => {},
            }
            j += 1;
        }
        false
    }
}

} // verus!
