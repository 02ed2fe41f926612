//! Grammars from a table of textual rules.
//!
//! A table is a list of lines, each a name and a right-hand side. The
//! right-hand side is a list of tokens separated by whitespace, and stands
//! for one alternative of the name. A token that is the name of some line is
//! a non-terminal, every other token is a terminal.

use vstd::prelude::*;
use crate::grammar::{defect, reference_declared, Grammar, GrammarError};
use crate::model::{
    declares, names_distinct, position_of, rules_of, Alternatives, Declarations, Rules,
};
use crate::symbol::Symbol;
use crate::symbol::SymbolView;

verus! {

/// The lines of a table after their right-hand sides were split: each a name
/// and the tokens of one alternative.
pub type TokenLines = Seq<(Seq<char>, Seq<Seq<char>>)>;

/// The tokens of `text`: what `str::split_whitespace` yields for it, in order.
pub uninterp spec fn whitespace_tokens(text: Seq<char>) -> Seq<Seq<char>>;

/// Splits `text` at whitespace with `str::split_whitespace`.
///
/// Trusted, not proved: the tokens come back as owned strings in the order
/// in which `str::split_whitespace` yields them, and depend on the text
/// alone. Nothing more is claimed of them; [`whitespace_tokens`] is their
/// name.
#[verifier::external_body]
fn split_whitespace(text: &str) -> (tokens: Vec<String>)
    ensures
        tokens.deep_view() == whitespace_tokens(text@),
{
    text.split_whitespace().map(|token| token.to_string()).collect()
}

/// `name` stands on the left of some line.
pub open spec fn is_name(lines: TokenLines, name: Seq<char>) -> bool {
    exists|i: int| 0 <= i < lines.len() && (#[trigger] lines[i]).0 == name
}

/// Some line has no token on its right.
pub open spec fn has_empty_line(lines: TokenLines) -> bool {
    exists|i: int| 0 <= i < lines.len() && (#[trigger] lines[i]).1.len() == 0
}

/// The symbol that `token` stands for in a table with the lines `lines`.
pub open spec fn classify(lines: TokenLines, token: Seq<char>) -> SymbolView {
    if is_name(lines, token) {
        SymbolView::NonTerminal(token)
    } else {
        SymbolView::Terminal(token)
    }
}

/// The alternative that `tokens` stand for.
pub open spec fn alternative_of(lines: TokenLines, tokens: Seq<Seq<char>>) -> Seq<SymbolView> {
    Seq::new(tokens.len(), |k: int| classify(lines, tokens[k]))
}

/// The alternatives that the first `n` lines of the table give for `name`,
/// in the order of the lines.
pub open spec fn alternatives_upto(lines: TokenLines, n: int, name: Seq<char>) -> Alternatives
    decreases n,
{
    if n <= 0 {
        Seq::empty()
    } else if lines[n - 1].0 == name {
        alternatives_upto(lines, n - 1, name).push(alternative_of(lines, lines[n - 1].1))
    } else {
        alternatives_upto(lines, n - 1, name)
    }
}

/// The grammar that a table stands for: each name with the alternatives of
/// its lines, in their order.
pub open spec fn table_rules(lines: TokenLines) -> Rules {
    Map::new(
        |name: Seq<char>| is_name(lines, name),
        |name: Seq<char>| alternatives_upto(lines, lines.len() as int, name),
    )
}

/// The lines of a table of text: each right-hand side split at whitespace.
pub open spec fn tokenized(table: Seq<(Seq<char>, Seq<char>)>) -> TokenLines {
    Seq::new(table.len(), |i: int| (table[i].0, whitespace_tokens(table[i].1)))
}

/// Each alternative that a table gives for a name comes from a line of that
/// name.
proof fn lemma_alternative_from_line(lines: TokenLines, n: int, name: Seq<char>, j: int)
    requires
        0 <= n <= lines.len(),
        0 <= j < alternatives_upto(lines, n, name).len(),
    ensures
        exists|i: int|
            0 <= i < n && (#[trigger] lines[i]).0 == name && alternatives_upto(lines, n, name)[j]
                == alternative_of(lines, lines[i].1),
    decreases n,
{
    if lines[n - 1].0 == name {
        if j < alternatives_upto(lines, n - 1, name).len() {
            lemma_alternative_from_line(lines, n - 1, name, j);
        } else {
            assert(lines[n - 1].0 == name);
        }
    } else {
        lemma_alternative_from_line(lines, n - 1, name, j);
    }
}

/// Whether `name` stands on the left of some line.
fn contains_name(lines: &Vec<(String, Vec<String>)>, name: &String) -> (found: bool)
    ensures
        found == is_name(lines.deep_view(), name@),
{
    let mut i: usize = 0;
    while i < lines.len()
        invariant
            i <= lines.len(),
            forall|a: int| 0 <= a < i ==> (#[trigger] lines.deep_view()[a]).0 != name@,
        decreases lines.len() - i,
    {
        if lines[i].0 == *name {
            assert(lines.deep_view()[i as int].0 == name@);
            return true;
        }
        i += 1;
    }
    false
}

/// `name` is one of `names`.
spec fn lists(names: Seq<String>, name: Seq<char>) -> bool {
    exists|k: int| 0 <= k < names.len() && (#[trigger] names[k])@ == name
}

/// The names of the lines, each once, in the order in which they first occur.
fn line_names(lines: &Vec<(String, Vec<String>)>) -> (names: Vec<String>)
    ensures
        forall|a: int, b: int| 0 <= a < b < names.len() ==> names[a]@ != names[b]@,
        forall|k: int| 0 <= k < names.len() ==> is_name(lines.deep_view(), #[trigger] names[k]@),
        forall|i: int|
            0 <= i < lines.len() ==> lists(names@, (#[trigger] lines.deep_view()[i]).0),
{
    let mut names: Vec<String> = Vec::new();
    let mut i: usize = 0;
    while i < lines.len()
        invariant
            i <= lines.len(),
            forall|a: int, b: int| 0 <= a < b < names.len() ==> names[a]@ != names[b]@,
            forall|k: int|
                0 <= k < names.len() ==> is_name(lines.deep_view(), #[trigger] names[k]@),
            forall|a: int| 0 <= a < i ==> lists(names@, (#[trigger] lines.deep_view()[a]).0),
        decreases lines.len() - i,
    {
        let mut known = false;
        let mut k: usize = 0;
        while k < names.len()
            invariant
                k <= names.len(),
                i < lines.len(),
                known == lists(names@.take(k as int), lines[i as int].0@),
            decreases names.len() - k,
        {
            if names[k] == lines[i].0 {
                known = true;
                assert(names@.take(k + 1)[k as int]@ == lines[i as int].0@);
            } else if known {
                let ghost c = choose|c: int|
                    0 <= c < k && (#[trigger] names@.take(k as int)[c])@ == lines[i as int].0@;
                assert(names@.take(k + 1)[c]@ == lines[i as int].0@);
            } else {
                assert forall|c: int| 0 <= c < k + 1 implies (#[trigger] names@.take(k + 1)[c])@
                    != lines[i as int].0@ by {
                    if c < k {
                        assert(names@.take(k as int)[c]@ != lines[i as int].0@);
                    }
                }
            }
            k += 1;
        }
        assert(names@.take(names.len() as int) =~= names@);
        let ghost before = names@;
        if !known {
            names.push(lines[i].0.clone());
        }
        proof {
            assert(lines.deep_view()[i as int].0 == lines[i as int].0@);
            assert forall|a: int| 0 <= a < i + 1 implies lists(
                names@,
                (#[trigger] lines.deep_view()[a]).0,
            ) by {
                if a < i || known {
                    let c = choose|c: int|
                        0 <= c < before.len() && (#[trigger] before[c])@ == lines.deep_view()[a].0;
                    assert(names[c]@ == lines.deep_view()[a].0);
                } else {
                    assert(names[names.len() - 1]@ == lines.deep_view()[a].0);
                }
            }
        }
        i += 1;
    }
    names
}

/// The alternative that `tokens` stand for in the table `lines`.
fn classify_tokens(lines: &Vec<(String, Vec<String>)>, tokens: &Vec<String>) -> (alt: Vec<Symbol>)
    ensures
        alt.deep_view() == alternative_of(lines.deep_view(), tokens.deep_view()),
{
    let mut alt: Vec<Symbol> = Vec::new();
    let mut k: usize = 0;
    while k < tokens.len()
        invariant
            k <= tokens.len(),
            alt.len() == k,
            forall|c: int|
                0 <= c < k ==> (#[trigger] alt[c])@ == classify(lines.deep_view(), tokens[c]@),
        decreases tokens.len() - k,
    {
        let token = tokens[k].clone();
        if contains_name(lines, &token) {
            alt.push(Symbol::NonTerminal(token));
        } else {
            alt.push(Symbol::Terminal(token));
        }
        k += 1;
    }
    assert(alt.deep_view() =~= alternative_of(lines.deep_view(), tokens.deep_view()));
    alt
}

/// The alternatives that the table `lines` gives for `name`.
fn alternatives_for(lines: &Vec<(String, Vec<String>)>, name: &String) -> (alts: Vec<Vec<Symbol>>)
    ensures
        alts.deep_view() == alternatives_upto(lines.deep_view(), lines.len() as int, name@),
{
    let mut alts: Vec<Vec<Symbol>> = Vec::new();
    let mut i: usize = 0;
    while i < lines.len()
        invariant
            i <= lines.len(),
            alts.deep_view() == alternatives_upto(lines.deep_view(), i as int, name@),
        decreases lines.len() - i,
    {
        let ghost before = alts.deep_view();
        assert(lines.deep_view()[i as int].0 == lines[i as int].0@);
        assert(lines.deep_view()[i as int].1 == lines[i as int].1.deep_view());
        if lines[i].0 == *name {
            let alt = classify_tokens(lines, &lines[i].1);
            alts.push(alt);
            assert(alts.deep_view() =~= before.push(alt.deep_view()));
        }
        i += 1;
    }
    alts
}

/// Whether some line has no token on its right.
fn find_empty_line(lines: &Vec<(String, Vec<String>)>) -> (found: bool)
    ensures
        found == has_empty_line(lines.deep_view()),
{
    let mut i: usize = 0;
    while i < lines.len()
        invariant
            i <= lines.len(),
            forall|a: int| 0 <= a < i ==> (#[trigger] lines.deep_view()[a]).1.len() != 0,
        decreases lines.len() - i,
    {
        if lines[i].1.len() == 0 {
            assert(lines.deep_view()[i as int].1.len() == 0);
            return true;
        }
        i += 1;
    }
    false
}

/// The declarations built from a table are without defect and stand for the
/// table's grammar.
proof fn lemma_table_declarations(lines: TokenLines, decls: Declarations)
    requires
        !has_empty_line(lines),
        names_distinct(decls),
        forall|k: int| 0 <= k < decls.len() ==> is_name(lines, (#[trigger] decls[k]).0),
        forall|i: int| 0 <= i < lines.len() ==> declares(decls, (#[trigger] lines[i]).0),
        forall|k: int|
            0 <= k < decls.len() ==> (#[trigger] decls[k]).1 == alternatives_upto(
                lines,
                lines.len() as int,
                decls[k].0,
            ),
    ensures
        defect(decls) is None,
        rules_of(decls) == table_rules(lines),
{
    assert forall|i: int, j: int, k: int|
        0 <= i < decls.len() && 0 <= j < decls[i].1.len() && 0 <= k < decls[i].1[j].len() implies (
    #[trigger] decls[i].1[j]).len() > 0 && #[trigger] reference_declared(decls, i, j, k) by {
        lemma_alternative_from_line(lines, lines.len() as int, decls[i].0, j);
        let a = choose|a: int|
            0 <= a < lines.len() && (#[trigger] lines[a]).0 == decls[i].0 && decls[i].1[j]
                == alternative_of(lines, lines[a].1);
        let token = lines[a].1[k];
        assert(decls[i].1[j][k] == classify(lines, token));
        if is_name(lines, token) {
            let b = choose|b: int| 0 <= b < lines.len() && (#[trigger] lines[b]).0 == token;
            assert(declares(decls, lines[b].0));
        }
    }
    assert forall|i: int, j: int| 0 <= i < decls.len() && 0 <= j < decls[i].1.len() implies (
    #[trigger] decls[i].1[j]).len() > 0 by {
        lemma_alternative_from_line(lines, lines.len() as int, decls[i].0, j);
    }
    let rules = rules_of(decls);
    let table = table_rules(lines);
    assert forall|name: Seq<char>| rules.dom().contains(name) <==> table.dom().contains(name) by {
        if declares(decls, name) {
            let k = position_of(decls, name);
            assert(is_name(lines, decls[k].0));
        }
        if is_name(lines, name) {
            let i = choose|i: int| 0 <= i < lines.len() && (#[trigger] lines[i]).0 == name;
            assert(declares(decls, lines[i].0));
        }
    }
    assert forall|name: Seq<char>| rules.dom().contains(name) implies rules[name]
        == table[name] by {
        let k = position_of(decls, name);
        assert(decls[k].0 == name);
    }
    assert(rules =~= table);
}

/// Builds the grammar of a table whose right-hand sides were split into
/// tokens already.
///
/// Each line gives its name one alternative, the alternatives of a name are
/// in the order of their lines, and a token is a non-terminal exactly if it
/// is the name of a line. A line without a token is refused: it would give
/// an alternative without a symbol.
pub fn grammar_from_tokens(lines: &Vec<(String, Vec<String>)>) -> (result: Result<
    Grammar,
    GrammarError,
>)
    ensures
        match result {
            Ok(grammar) => !has_empty_line(lines.deep_view()) && grammar@ == table_rules(
                lines.deep_view(),
            ),
            Err(error) => has_empty_line(lines.deep_view()) && error
                == GrammarError::EmptyAlternative,
        },
{
    if find_empty_line(lines) {
        return Err(GrammarError::EmptyAlternative);
    }
    let names = line_names(lines);
    let ghost table = lines.deep_view();
    let mut rules: Vec<(String, Vec<Vec<Symbol>>)> = Vec::new();
    let mut k: usize = 0;
    while k < names.len()
        invariant
            k <= names.len(),
            rules.len() == k,
            table == lines.deep_view(),
            forall|c: int| 0 <= c < k ==> (#[trigger] rules.deep_view()[c]).0 == names[c]@,
            forall|c: int|
                0 <= c < k ==> (#[trigger] rules.deep_view()[c]).1 == alternatives_upto(
                    table,
                    table.len() as int,
                    names[c]@,
                ),
        decreases names.len() - k,
    {
        let alts = alternatives_for(lines, &names[k]);
        let ghost before = rules.deep_view();
        rules.push((names[k].clone(), alts));
        proof {
            assert(rules.deep_view()[k as int].0 == names[k as int]@);
            assert(rules.deep_view()[k as int].1 == alts.deep_view());
            assert forall|c: int| 0 <= c < k implies (#[trigger] rules.deep_view()[c])
                == before[c] by {}
        }
        k += 1;
    }
    proof {
        let decls = rules.deep_view();
        assert forall|i: int| 0 <= i < table.len() implies declares(
            decls,
            (#[trigger] table[i]).0,
        ) by {
            let c = choose|c: int|
                0 <= c < names.len() && (#[trigger] names@[c])@ == table[i].0;
            assert(decls[c].0 == table[i].0);
        }
        lemma_table_declarations(table, decls);
    }
    let grammar = Grammar { rules };
    proof {
        grammar.lemma_stored_rules();
    }
    Ok(grammar)
}

/// Builds the grammar of a table of textual rules.
///
/// Each line is a name and a right-hand side, which is split at whitespace
/// into the tokens of one alternative. A token that is the name of some line
/// becomes a non-terminal, every other token a terminal. A right-hand side
/// without a token is refused.
pub fn grammar(table: &[(&str, &str)]) -> (result: Result<Grammar, GrammarError>)
    ensures
        match result {
            Ok(grammar) => !has_empty_line(tokenized(table.deep_view())) && grammar@
                == table_rules(tokenized(table.deep_view())),
            Err(error) => has_empty_line(tokenized(table.deep_view())) && error
                == GrammarError::EmptyAlternative,
        },
{
    let mut lines: Vec<(String, Vec<String>)> = Vec::new();
    let mut i: usize = 0;
    while i < table.len()
        invariant
            i <= table.len(),
            lines.len() == i,
            forall|a: int|
                0 <= a < i ==> (#[trigger] lines.deep_view()[a]) == tokenized(table.deep_view())[a],
        decreases table.len() - i,
    {
        let ghost before = lines.deep_view();
        let left = table[i].0;
        let right = table[i].1;
        let tokens = split_whitespace(right);
        lines.push((left.to_owned(), tokens));
        proof {
            assert(table.deep_view()[i as int] == (left@, right@));
            assert(lines.deep_view()[i as int] == (left@, tokens.deep_view()));
            assert forall|a: int| 0 <= a < i implies (#[trigger] lines.deep_view()[a])
                == before[a] by {}
        }
        i += 1;
    }
    assert(lines.deep_view() =~= tokenized(table.deep_view()));
    grammar_from_tokens(&lines)
}

} // verus!
