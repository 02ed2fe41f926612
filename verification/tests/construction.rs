use llparser::{Grammar, GrammarError, Symbol};

fn terminal(text: &str) -> Symbol {
    Symbol::Terminal(text.to_string())
}

fn non_terminal(name: &str) -> Symbol {
    Symbol::NonTerminal(name.to_string())
}

fn decl(name: &str, alts: Vec<Vec<Symbol>>) -> (String, Vec<Vec<Symbol>>) {
    (name.to_string(), alts)
}

#[test]
fn symbols_are_equal_by_tag_and_text() {
    assert_eq!(terminal("x"), terminal("x"));
    assert_eq!(non_terminal("x"), non_terminal("x"));
    assert_ne!(terminal("x"), non_terminal("x"));
    assert_ne!(terminal("x"), terminal("y"));
    assert_ne!(non_terminal("x"), non_terminal("xx"));
    assert_eq!(terminal(""), terminal(""));
}

#[test]
fn empty_alternative_is_refused() {
    let result = Grammar::new(vec![decl("S", vec![vec![terminal("a")], vec![]])]);
    assert_eq!(result.err(), Some(GrammarError::EmptyAlternative));
}

#[test]
fn dangling_reference_is_refused() {
    let result = Grammar::new(vec![decl("S", vec![vec![non_terminal("A")]])]);
    assert_eq!(result.err(), Some(GrammarError::DanglingReference));
}

#[test]
fn dangling_reference_behind_the_first_symbol_is_refused() {
    let result = Grammar::new(vec![decl("S", vec![vec![terminal("a"), non_terminal("S"), non_terminal("A")]])]);
    assert_eq!(result.err(), Some(GrammarError::DanglingReference));
}

#[test]
fn duplicate_rule_is_refused() {
    let result = Grammar::new(vec![
        decl("S", vec![vec![terminal("a")]]),
        decl("A", vec![vec![terminal("b")]]),
        decl("S", vec![vec![terminal("c")]]),
    ]);
    assert_eq!(result.err(), Some(GrammarError::DuplicateRule));
}

#[test]
fn defects_are_reported_in_order() {
    let all = Grammar::new(vec![
        decl("S", vec![vec![], vec![non_terminal("A")]]),
        decl("S", vec![vec![terminal("c")]]),
    ]);
    assert_eq!(all.err(), Some(GrammarError::DuplicateRule));
    let two = Grammar::new(vec![decl("S", vec![vec![non_terminal("A")], vec![]])]);
    assert_eq!(two.err(), Some(GrammarError::EmptyAlternative));
}

#[test]
fn empty_production_is_a_terminal_with_empty_text() {
    let grammar = Grammar::new(vec![decl("S", vec![vec![terminal("")]])]).unwrap();
    assert!(grammar.is_ll());
    assert_eq!(grammar.get(&"S".to_string()), Some(&vec![vec![terminal("")]]));
}

#[test]
fn get_finds_the_alternatives_of_a_name() {
    let grammar = Grammar::new(vec![
        decl("S", vec![vec![non_terminal("A"), terminal("s")], vec![terminal("t")]]),
        decl("A", vec![vec![terminal("a")]]),
    ])
    .unwrap();
    assert_eq!(
        grammar.get(&"S".to_string()),
        Some(&vec![vec![non_terminal("A"), terminal("s")], vec![terminal("t")]])
    );
    assert_eq!(grammar.get(&"A".to_string()), Some(&vec![vec![terminal("a")]]));
    assert_eq!(grammar.get(&"B".to_string()), None);
    assert_eq!(grammar.get(&"s".to_string()), None);
    assert_eq!(grammar.get(&String::new()), None);
}

#[test]
fn names_come_in_declaration_order() {
    let grammar = Grammar::new(vec![
        decl("S", vec![vec![non_terminal("A")]]),
        decl("A", vec![vec![non_terminal("B")]]),
        decl("B", vec![vec![terminal("b")]]),
    ])
    .unwrap();
    assert_eq!(
        grammar.names(),
        vec!["S".to_string(), "A".to_string(), "B".to_string()]
    );
    assert_eq!(Grammar::new(Vec::new()).unwrap().names(), Vec::<String>::new());
}

#[test]
fn equality_ignores_declaration_order() {
    let one = Grammar::new(vec![
        decl("S", vec![vec![non_terminal("A")], vec![terminal("s")]]),
        decl("A", vec![vec![terminal("a")]]),
    ])
    .unwrap();
    let other = Grammar::new(vec![
        decl("A", vec![vec![terminal("a")]]),
        decl("S", vec![vec![non_terminal("A")], vec![terminal("s")]]),
    ])
    .unwrap();
    assert_eq!(one, other);
    assert_eq!(other, one);
}

#[test]
fn equality_sees_every_difference() {
    let base = Grammar::new(vec![
        decl("S", vec![vec![non_terminal("A")], vec![terminal("s")]]),
        decl("A", vec![vec![terminal("a")]]),
    ])
    .unwrap();
    let swapped = Grammar::new(vec![
        decl("S", vec![vec![terminal("s")], vec![non_terminal("A")]]),
        decl("A", vec![vec![terminal("a")]]),
    ])
    .unwrap();
    let changed = Grammar::new(vec![
        decl("S", vec![vec![non_terminal("A")], vec![terminal("s")]]),
        decl("A", vec![vec![terminal("b")]]),
    ])
    .unwrap();
    let longer = Grammar::new(vec![
        decl("S", vec![vec![non_terminal("A")], vec![terminal("s")]]),
        decl("A", vec![vec![terminal("a")]]),
        decl("B", vec![]),
    ])
    .unwrap();
    let tagged = Grammar::new(vec![
        decl("S", vec![vec![non_terminal("A")], vec![terminal("s")]]),
        decl("A", vec![vec![non_terminal("A")]]),
    ])
    .unwrap();
    assert_ne!(base, swapped);
    assert_ne!(base, changed);
    assert_ne!(base, longer);
    assert_ne!(longer, base);
    assert_ne!(base, tagged);
    assert_eq!(base, base);
}
