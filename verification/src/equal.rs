//! Equality of grammars.
//!
//! Two grammars are equal when they give the same names the same
//! alternatives, in whatever order the names were declared.

use vstd::prelude::*;
use vstd::std_specs::cmp::PartialEqSpecImpl;
use crate::grammar::find_rule;
use crate::grammar::Grammar;
use crate::model::{declares, lemma_rules_of_declaration, names_distinct, position_of, rules_of};
use crate::symbol::Symbol;

verus! {

/// Whether two alternatives hold the same symbols in the same order.
fn alternative_equal(left: &Vec<Symbol>, right: &Vec<Symbol>) -> (equal: bool)
    ensures
        equal == (left.deep_view() == right.deep_view()),
{
    if left.len() != right.len() {
        assert(left.deep_view().len() != right.deep_view().len());
        return false;
    }
    let mut k: usize = 0;
    while k < left.len()
        invariant
            k <= left.len(),
            left.len() == right.len(),
            forall|c: int| 0 <= c < k ==> (#[trigger] left[c])@ == right[c]@,
        decreases left.len() - k,
    {
        if !(left[k] == right[k]) {
            assert(left.deep_view()[k as int] != right.deep_view()[k as int]);
            return false;
        }
        k += 1;
    }
    assert(left.deep_view() =~= right.deep_view());
    true
}

/// Whether two lists hold the same alternatives in the same order.
fn alternatives_equal(left: &Vec<Vec<Symbol>>, right: &Vec<Vec<Symbol>>) -> (equal: bool)
    ensures
        equal == (left.deep_view() == right.deep_view()),
{
    if left.len() != right.len() {
        assert(left.deep_view().len() != right.deep_view().len());
        return false;
    }
    let mut j: usize = 0;
    while j < left.len()
        invariant
            j <= left.len(),
            left.len() == right.len(),
            forall|b: int| 0 <= b < j ==> (#[trigger] left[b]).deep_view() == right[b].deep_view(),
        decreases left.len() - j,
    {
        if !alternative_equal(&left[j], &right[j]) {
            assert(left.deep_view()[j as int] != right.deep_view()[j as int]);
            return false;
        }
        j += 1;
    }
    assert(left.deep_view() =~= right.deep_view());
    true
}

/// Whether every rule of `left` is a rule of `right`.
fn rules_included(
    left: &Vec<(String, Vec<Vec<Symbol>>)>,
    right: &Vec<(String, Vec<Vec<Symbol>>)>,
) -> (included: bool)
    requires
        names_distinct(left.deep_view()),
        names_distinct(right.deep_view()),
    ensures
        included == rules_of(left.deep_view()).submap_of(rules_of(right.deep_view())),
{
    let ghost from = left.deep_view();
    let ghost to = right.deep_view();
    let mut i: usize = 0;
    while i < left.len()
        invariant
            i <= left.len(),
            from == left.deep_view(),
            to == right.deep_view(),
            names_distinct(from),
            names_distinct(to),
            forall|a: int|
                0 <= a < i ==> declares(to, (#[trigger] from[a]).0) && rules_of(to)[from[a].0]
                    == from[a].1,
        decreases left.len() - i,
    {
        proof {
            lemma_rules_of_declaration(from, i as int);
        }
        match find_rule(right, &left[i].0) {
            Some(k) => {
                proof {
                    lemma_rules_of_declaration(to, k as int);
                }
                if !alternatives_equal(&left[i].1, &right[k].1) {
                    assert(rules_of(from)[from[i as int].0] != rules_of(to)[from[i as int].0]);
                    return false;
                }
            },
            None => {
                assert(!rules_of(to).dom().contains(from[i as int].0));
                return false;
            },
        }
        i += 1;
    }
    proof {
        assert forall|name: Seq<char>| #[trigger]
            rules_of(from).dom().contains(name) implies rules_of(to).dom().contains(name)
            && rules_of(from)[name] == rules_of(to)[name] by {
            let a = position_of(from, name);
            assert(from[a].0 == name);
            lemma_rules_of_declaration(from, a);
        }
    }
    true
}

impl PartialEq for Grammar {
    fn eq(&self, other: &Grammar) -> (equal: bool) {
        proof {
            use_type_invariant(self);
            use_type_invariant(other);
            self.lemma_stored_rules();
            other.lemma_stored_rules();
        }
        let equal = rules_included(&self.rules, &other.rules) && rules_included(
            &other.rules,
            &self.rules,
        );
        proof {
            if equal {
                assert forall|name: Seq<char>| #[trigger]
                    self@.dom().contains(name) == other@.dom().contains(name) by {}
                assert(self@.dom() =~= other@.dom());
                assert(self@ =~= other@);
            }
        }
        equal
    }
}

impl PartialEqSpecImpl for Grammar {
    open spec fn obeys_eq_spec() -> bool {
        true
    }

    open spec fn eq_spec(&self, other: &Grammar) -> bool {
        self@ == other@
    }
}

} // verus!
