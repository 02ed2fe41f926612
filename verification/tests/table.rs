use llparser::{grammar, grammar_from_tokens, Grammar, GrammarError, Symbol};

#[test]
fn macros() {
    let nonllgrammar = grammar(&[
        ("P", "E"),
        ("E", "T"),
        ("E", "E + T"),
        ("T", "ident"),
        ("T", "int"),
    ])
    .unwrap();
    let nonllgrammar2 = Grammar::new(vec![
        ("P".into(), vec![vec![Symbol::NonTerminal("E".into())]]),
        (
            "E".into(),
            vec![
                vec![Symbol::NonTerminal("T".into())],
                vec![
                    Symbol::NonTerminal("E".into()),
                    Symbol::Terminal("+".into()),
                    Symbol::NonTerminal("T".into()),
                ],
            ],
        ),
        (
            "T".into(),
            vec![
                vec![Symbol::Terminal("ident".into())],
                vec![Symbol::Terminal("int".into())],
            ],
        ),
    ])
    .unwrap();
    assert_eq!(nonllgrammar, nonllgrammar2);
}

#[test]
fn table_grammar_is_checked_like_any_other() {
    let recursive = grammar(&[
        ("P", "E"),
        ("E", "T"),
        ("E", "E + T"),
        ("T", "ident"),
        ("T", "int"),
    ])
    .unwrap();
    assert!(!recursive.is_ll());
    let suitable = grammar(&[
        ("P", "E"),
        ("E", "T E'"),
        ("E'", "+ T E'"),
        ("E'", "end"),
        ("T", "ident"),
        ("T", "int"),
    ])
    .unwrap();
    assert!(suitable.is_ll());
}

#[test]
fn tokens_are_split_at_any_whitespace() {
    let built = grammar(&[("S", "  a\t S \n\u{a0}b  "), ("S", "c")]).unwrap();
    let expected = Grammar::new(vec![(
        "S".to_string(),
        vec![
            vec![
                Symbol::Terminal("a".to_string()),
                Symbol::NonTerminal("S".to_string()),
                Symbol::Terminal("b".to_string()),
            ],
            vec![Symbol::Terminal("c".to_string())],
        ],
    )])
    .unwrap();
    assert_eq!(built, expected);
}

#[test]
fn names_declared_later_are_non_terminals() {
    let built = grammar(&[("S", "A b"), ("A", "a")]).unwrap();
    assert_eq!(
        built.get(&"S".to_string()),
        Some(&vec![vec![
            Symbol::NonTerminal("A".to_string()),
            Symbol::Terminal("b".to_string()),
        ]])
    );
    assert_eq!(built.names(), vec!["S".to_string(), "A".to_string()]);
}

#[test]
fn lines_of_one_name_keep_their_order() {
    let built = grammar(&[("S", "x"), ("A", "a"), ("S", "y"), ("S", "A")]).unwrap();
    assert_eq!(
        built.get(&"S".to_string()),
        Some(&vec![
            vec![Symbol::Terminal("x".to_string())],
            vec![Symbol::Terminal("y".to_string())],
            vec![Symbol::NonTerminal("A".to_string())],
        ])
    );
    assert_eq!(built.names(), vec!["S".to_string(), "A".to_string()]);
}

#[test]
fn right_hand_side_without_token_is_refused() {
    assert_eq!(
        grammar(&[("S", "a"), ("S", "")]).err(),
        Some(GrammarError::EmptyAlternative)
    );
    assert_eq!(
        grammar(&[("S", " \t ")]).err(),
        Some(GrammarError::EmptyAlternative)
    );
}

#[test]
fn empty_table_is_the_empty_grammar() {
    let built = grammar(&[]).unwrap();
    assert_eq!(built, Grammar::new(Vec::new()).unwrap());
    assert!(built.is_ll());
}

#[test]
fn grammar_from_tokens_classifies_by_name() {
    let lines = vec![
        ("E".to_string(), vec!["E".to_string(), "+".to_string(), "T".to_string()]),
        ("T".to_string(), vec!["int".to_string()]),
        ("E".to_string(), vec!["T".to_string()]),
    ];
    let built = grammar_from_tokens(&lines).unwrap();
    let expected = Grammar::new(vec![
        (
            "T".to_string(),
            vec![vec![Symbol::Terminal("int".to_string())]],
        ),
        (
            "E".to_string(),
            vec![
                vec![
                    Symbol::NonTerminal("E".to_string()),
                    Symbol::Terminal("+".to_string()),
                    Symbol::NonTerminal("T".to_string()),
                ],
                vec![Symbol::NonTerminal("T".to_string())],
            ],
        ),
    ])
    .unwrap();
    assert_eq!(built, expected);
    assert!(!built.is_ll());
}

#[test]
fn grammar_from_tokens_refuses_a_line_without_token() {
    let lines = vec![
        ("S".to_string(), vec!["a".to_string()]),
        ("S".to_string(), Vec::new()),
    ];
    assert_eq!(
        grammar_from_tokens(&lines).err(),
        Some(GrammarError::EmptyAlternative)
    );
}

#[test]
fn grammar_from_tokens_keeps_an_empty_token() {
    let lines = vec![("S".to_string(), vec![String::new()])];
    let built = grammar_from_tokens(&lines).unwrap();
    assert_eq!(
        built.get(&"S".to_string()),
        Some(&vec![vec![Symbol::Terminal(String::new())]])
    );
}
