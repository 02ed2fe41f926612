//! The grammar type and its construction.

use vstd::prelude::*;
use crate::model::{
    alternatives_valid, declared_names, declares, heads_resolve, lemma_rules_of_declaration,
    lemma_valid_heads_resolve, names_distinct, position_of, references_resolve, rules_of,
    well_formed, Declarations, Rules,
};
use crate::symbol::Symbol;
use crate::symbol::SymbolView;

verus! {

/// Why a list of declarations is not a grammar.
#[derive(Debug, Clone, Copy, PartialEq, Eq, Structural)]
pub enum GrammarError {
    /// Two declarations have the same name.
    DuplicateRule,
    /// An alternative has no symbol at all.
    EmptyAlternative,
    /// An alternative names a non-terminal that has no declaration.
    DanglingReference,
}

/// No alternative of any declaration is empty.
pub open spec fn no_empty_alternative(decls: Declarations) -> bool {
    forall|i: int, j: int|
        0 <= i < decls.len() && 0 <= j < decls[i].1.len() ==> (#[trigger] decls[i].1[j]).len() > 0
}

/// `symbol` is a terminal or names a declared non-terminal.
pub open spec fn symbol_declared(decls: Declarations, symbol: SymbolView) -> bool {
    match symbol {
        SymbolView::NonTerminal(name) => declares(decls, name),
        SymbolView::Terminal(_) => true,
    }
}

/// The symbol at position `k` of alternative `j` of declaration `i` is a
/// terminal or names a declared non-terminal.
pub open spec fn reference_declared(decls: Declarations, i: int, j: int, k: int) -> bool {
    symbol_declared(decls, decls[i].1[j][k])
}

/// Every non-terminal named in an alternative is declared.
pub open spec fn all_references_declared(decls: Declarations) -> bool {
    forall|i: int, j: int, k: int|
        0 <= i < decls.len() && 0 <= j < decls[i].1.len() && 0 <= k < decls[i].1[j].len()
            ==> #[trigger] reference_declared(decls, i, j, k)
}

/// What is wrong with `decls`, if anything: duplicate names come first,
/// then empty alternatives, then dangling references.
pub open spec fn defect(decls: Declarations) -> Option<GrammarError> {
    if !names_distinct(decls) {
        Some(GrammarError::DuplicateRule)
    } else if !no_empty_alternative(decls) {
        Some(GrammarError::EmptyAlternative)
    } else if !all_references_declared(decls) {
        Some(GrammarError::DanglingReference)
    } else {
        None
    }
}

/// Declarations without defect stand for a well-formed grammar.
pub proof fn lemma_no_defect_well_formed(decls: Declarations)
    requires
        defect(decls) is None,
    ensures
        well_formed(rules_of(decls)),
{
    let rules = rules_of(decls);
    assert forall|name: Seq<char>| #[trigger] rules.dom().contains(name) implies alternatives_valid(
        rules,
        rules[name],
    ) by {
        let i = position_of(decls, name);
        assert(0 <= i < decls.len() && decls[i].0 == name);
        let alts = rules[name];
        assert(alts == decls[i].1);
        assert forall|j: int| 0 <= j < alts.len() implies (#[trigger] alts[j]).len() > 0
            && references_resolve(rules, alts[j]) by {
            assert(decls[i].1[j].len() > 0);
            assert forall|k: int| 0 <= k < alts[j].len() implies match #[trigger] alts[j][k] {
                SymbolView::NonTerminal(n) => rules.dom().contains(n),
                SymbolView::Terminal(_) => true,
            } by {
                assert(reference_declared(decls, i, j, k));
            }
        }
    }
}

/// A grammar: each non-terminal name with its alternatives.
///
/// A value of this type is always well formed: no name is declared twice, no
/// alternative is empty, and every non-terminal that an alternative names is
/// declared.
#[derive(Debug)]
pub struct Grammar {
    pub(crate) rules: Vec<(String, Vec<Vec<Symbol>>)>,
}

impl View for Grammar {
    type V = Rules;

    closed spec fn view(&self) -> Rules {
        rules_of(self.rules.deep_view())
    }
}

/// The position of the declaration of `name` in `rules`, if there is one.
pub(crate) fn find_rule(rules: &Vec<(String, Vec<Vec<Symbol>>)>, name: &String) -> (found: Option<
    usize,
>)
    ensures
        match found {
            Some(i) => i < rules.len() && rules[i as int].0@ == name@,
            None => !declares(rules.deep_view(), name@),
        },
{
    let mut i: usize = 0;
    while i < rules.len()
        invariant
            i <= rules.len(),
            forall|p: int| 0 <= p < i ==> (#[trigger] rules.deep_view()[p]).0 != name@,
        decreases rules.len() - i,
    {
        if rules[i].0 == *name {
            return Some(i);
        }
        i += 1;
    }
    None
}

/// Whether no two declarations of `rules` have the same name.
fn names_are_distinct(rules: &Vec<(String, Vec<Vec<Symbol>>)>) -> (distinct: bool)
    ensures
        distinct == names_distinct(rules.deep_view()),
{
    let ghost decls = rules.deep_view();
    let mut j: usize = 0;
    while j < rules.len()
        invariant
            j <= rules.len(),
            decls == rules.deep_view(),
            forall|a: int, b: int|
                0 <= a < b < j ==> (#[trigger] decls[a]).0 != (#[trigger] decls[b]).0,
        decreases rules.len() - j,
    {
        let mut i: usize = 0;
        while i < j
            invariant
                i <= j < rules.len(),
                decls == rules.deep_view(),
                forall|a: int| 0 <= a < i ==> (#[trigger] decls[a]).0 != decls[j as int].0,
            decreases j - i,
        {
            if rules[i].0 == rules[j].0 {
                assert(decls[i as int].0 == decls[j as int].0);
                return false;
            }
            i += 1;
        }
        j += 1;
    }
    true
}

/// Whether every alternative of every declaration of `rules` has a symbol.
fn alternatives_hold_symbols(rules: &Vec<(String, Vec<Vec<Symbol>>)>) -> (none_empty: bool)
    ensures
        none_empty == no_empty_alternative(rules.deep_view()),
{
    let ghost decls = rules.deep_view();
    let mut i: usize = 0;
    while i < rules.len()
        invariant
            i <= rules.len(),
            decls == rules.deep_view(),
            forall|a: int, b: int|
                0 <= a < i && 0 <= b < decls[a].1.len() ==> (#[trigger] decls[a].1[b]).len() > 0,
        decreases rules.len() - i,
    {
        let alts = &rules[i].1;
        let mut j: usize = 0;
        while j < alts.len()
            invariant
                i < rules.len(),
                j <= alts.len(),
                decls == rules.deep_view(),
                alts == &rules[i as int].1,
                forall|b: int| 0 <= b < j ==> (#[trigger] decls[i as int].1[b]).len() > 0,
            decreases alts.len() - j,
        {
            if alts[j].len() == 0 {
                assert(decls[i as int].1[j as int].len() == 0);
                return false;
            }
            j += 1;
        }
        i += 1;
    }
    true
}

/// Whether every non-terminal that `alt` names is declared in `rules`.
fn alternative_is_declared(rules: &Vec<(String, Vec<Vec<Symbol>>)>, alt: &Vec<Symbol>) -> (declared:
    bool)
    ensures
        declared == forall|k: int|
            0 <= k < alt.len() ==> symbol_declared(rules.deep_view(), #[trigger] alt.deep_view()[k]),
{
    let mut k: usize = 0;
    while k < alt.len()
        invariant
            k <= alt.len(),
            forall|c: int|
                0 <= c < k ==> symbol_declared(rules.deep_view(), #[trigger] alt.deep_view()[c]),
        decreases alt.len() - k,
    {
        match &alt[k] {
            Symbol::NonTerminal(name) => {
                match find_rule(rules, name) {
                    Some(i) => {
                        assert(rules.deep_view()[i as int].0 == name@);
                    },
                    None => {
                        assert(!symbol_declared(rules.deep_view(), alt.deep_view()[k as int]));
                        return false;
                    },
                }
            },
            Symbol::Terminal(_) => {},
        }
        k += 1;
    }
    true
}

/// Whether every non-terminal named in `rules` is declared in `rules`.
fn references_are_declared(rules: &Vec<(String, Vec<Vec<Symbol>>)>) -> (declared: bool)
    ensures
        declared == all_references_declared(rules.deep_view()),
{
    let ghost decls = rules.deep_view();
    let mut i: usize = 0;
    while i < rules.len()
        invariant
            i <= rules.len(),
            decls == rules.deep_view(),
            forall|a: int, b: int, c: int|
                0 <= a < i && 0 <= b < decls[a].1.len() && 0 <= c < decls[a].1[b].len()
                    ==> #[trigger] reference_declared(decls, a, b, c),
        decreases rules.len() - i,
    {
        let alts = &rules[i].1;
        let mut j: usize = 0;
        while j < alts.len()
            invariant
                i < rules.len(),
                j <= alts.len(),
                decls == rules.deep_view(),
                alts == &rules[i as int].1,
                forall|b: int, c: int|
                    0 <= b < j && 0 <= c < decls[i as int].1[b].len()
                        ==> #[trigger] reference_declared(decls, i as int, b, c),
            decreases alts.len() - j,
        {
            if !alternative_is_declared(rules, &alts[j]) {
                let ghost c = choose|c: int|
                    0 <= c < alts[j as int].len() && !symbol_declared(
                        decls,
                        #[trigger] alts[j as int].deep_view()[c],
                    );
                assert(!reference_declared(decls, i as int, j as int, c));
                return false;
            }
            assert forall|c: int| 0 <= c < decls[i as int].1[j as int].len() implies
                #[trigger] reference_declared(decls, i as int, j as int, c) by {
                assert(symbol_declared(decls, alts[j as int].deep_view()[c]));
            }
            j += 1;
        }
        i += 1;
    }
    true
}

impl Grammar {
    #[verifier::type_invariant]
    pub(crate) open spec fn inv(&self) -> bool {
        defect(self.rules.deep_view()) is None
    }

    /// The declarations that the grammar was built from, in their order.
    pub closed spec fn declarations(&self) -> Declarations {
        self.rules.deep_view()
    }

    /// The grammar is the map that its declarations stand for.
    pub proof fn lemma_view_of_declarations(&self)
        ensures
            self@ == rules_of(self.declarations()),
    {
    }

    /// What the invariant says of the stored rules.
    pub(crate) proof fn lemma_stored_rules(&self)
        requires
            self.inv(),
        ensures
            self.declarations() == self.rules.deep_view(),
            self@ == rules_of(self.declarations()),
            defect(self.declarations()) is None,
            well_formed(self@),
    {
        lemma_no_defect_well_formed(self.rules.deep_view());
    }

    /// Builds a grammar from a list of declarations, each a name with its
    /// alternatives.
    ///
    /// The list is rejected if it declares a name twice, holds an empty
    /// alternative or names a non-terminal that it does not declare. The
    /// empty production is written as the single terminal with empty text.
    pub fn new(rules: Vec<(String, Vec<Vec<Symbol>>)>) -> (result: Result<Grammar, GrammarError>)
        ensures
            match result {
                Ok(grammar) => {
                    &&& defect(rules.deep_view()) is None
                    &&& grammar.declarations() == rules.deep_view()
                    &&& grammar@ == rules_of(rules.deep_view())
                    &&& well_formed(grammar@)
                },
                Err(error) => defect(rules.deep_view()) == Some(error),
            },
    {
        if !names_are_distinct(&rules) {
            return Err(GrammarError::DuplicateRule);
        }
        if !alternatives_hold_symbols(&rules) {
            return Err(GrammarError::EmptyAlternative);
        }
        if !references_are_declared(&rules) {
            return Err(GrammarError::DanglingReference);
        }
        proof {
            lemma_no_defect_well_formed(rules.deep_view());
        }
        Ok(Grammar { rules })
    }

    /// The alternatives of the non-terminal `name`, if the grammar declares
    /// it.
    pub fn get(&self, name: &String) -> (found: Option<&Vec<Vec<Symbol>>>)
        ensures
            match found {
                Some(alts) => {
                    &&& self@.dom().contains(name@)
                    &&& alts.deep_view() == self@[name@]
                    &&& alternatives_valid(self@, alts.deep_view())
                    &&& heads_resolve(self@, alts.deep_view())
                },
                None => !self@.dom().contains(name@),
            },
    {
        proof {
            use_type_invariant(self);
            self.lemma_stored_rules();
        }
        match find_rule(&self.rules, name) {
            Some(i) => {
                proof {
                    lemma_rules_of_declaration(self.rules.deep_view(), i as int);
                    lemma_valid_heads_resolve(self@, self.rules.deep_view()[i as int].1);
                }
                Some(&self.rules[i].1)
            },
            None => None,
        }
    }

    /// The names of the non-terminals, in the order of their declarations.
    pub fn names(&self) -> (names: Vec<String>)
        ensures
            names.deep_view() == declared_names(self.declarations()),
            defect(self.declarations()) is None,
    {
        proof {
            use_type_invariant(self);
        }
        let mut names: Vec<String> = Vec::new();
        let mut i: usize = 0;
        while i < self.rules.len()
            invariant
                i <= self.rules.len(),
                names.len() == i,
                forall|a: int| 0 <= a < i ==> (#[trigger] names[a])@ == self.rules[a].0@,
            decreases self.rules.len() - i,
        {
            names.push(self.rules[i].0.clone());
            i += 1;
        }
        assert(names.deep_view() =~= declared_names(self.rules.deep_view()));
        names
    }
}

} // verus!
