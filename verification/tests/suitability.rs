use llparser::{Grammar, Symbol};

fn t(text: &str) -> Symbol {
    Symbol::Terminal(text.to_string())
}

fn n(name: &str) -> Symbol {
    Symbol::NonTerminal(name.to_string())
}

fn build(rules: Vec<(&str, Vec<Vec<Symbol>>)>) -> Grammar {
    Grammar::new(
        rules
            .into_iter()
            .map(|(name, alts)| (name.to_string(), alts))
            .collect(),
    )
    .unwrap()
}

#[test]
fn is_ll() {
    let llgrammar = Grammar::new(vec![
        ("P".into(), vec![vec![Symbol::NonTerminal("E".into())]]),
        (
            "E".into(),
            vec![vec![
                Symbol::NonTerminal("T".into()),
                Symbol::NonTerminal("E'".into()),
            ]],
        ),
        (
            "E'".into(),
            vec![
                vec![
                    Symbol::Terminal("+".into()),
                    Symbol::NonTerminal("T".into()),
                    Symbol::NonTerminal("E'".into()),
                ],
                vec![Symbol::Terminal(String::new())],
            ],
        ),
        (
            "T".into(),
            vec![
                vec![Symbol::Terminal("ident".into())],
                vec![Symbol::Terminal("int".into())],
            ],
        ),
    ])
    .unwrap();
    assert!(llgrammar.is_ll());

    let nonllgrammar = Grammar::new(vec![
        ("P".into(), vec![vec![Symbol::NonTerminal("E".into())]]),
        (
            "E".into(),
            vec![
                vec![Symbol::NonTerminal("T".into())],
                vec![
                    Symbol::NonTerminal("E".into()),
                    Symbol::Terminal("+".into()),
                    Symbol::NonTerminal("T".into()),
                ],
            ],
        ),
        (
            "T".into(),
            vec![
                vec![Symbol::Terminal("ident".into())],
                vec![Symbol::Terminal("int".into())],
            ],
        ),
    ])
    .unwrap();
    assert!(!nonllgrammar.is_ll());
}

#[test]
fn direct_left_recursion_is_rejected() {
    let grammar = build(vec![("N", vec![vec![n("N"), t("x")]])]);
    assert!(!grammar.is_ll());
}

#[test]
fn grammar_without_first_symbol_cycle_is_suitable() {
    let grammar = build(vec![
        ("S", vec![vec![n("A"), n("S")], vec![n("B")]]),
        ("A", vec![vec![n("B"), t("a")], vec![t("a")]]),
        ("B", vec![vec![t("b"), n("S")]]),
    ]);
    assert!(grammar.is_ll());
}

#[test]
fn indirect_left_recursion_is_rejected() {
    let grammar = build(vec![
        ("E", vec![vec![n("T")]]),
        ("T", vec![vec![n("F")]]),
        ("F", vec![vec![n("E"), t("y")]]),
    ]);
    assert!(!grammar.is_ll());
}

#[test]
fn right_recursion_is_accepted() {
    let grammar = build(vec![
        ("E", vec![vec![n("T"), n("E'")]]),
        ("E'", vec![vec![t("+"), n("T"), n("E'")], vec![t("")]]),
        ("T", vec![vec![t("x")]]),
    ]);
    assert!(grammar.is_ll());
}

#[test]
fn order_of_declarations_and_alternatives_does_not_matter() {
    let recursive = vec![
        build(vec![
            ("P", vec![vec![n("E")]]),
            ("E", vec![vec![n("T")], vec![n("E"), t("+"), n("T")]]),
            ("T", vec![vec![t("ident")], vec![t("int")]]),
        ]),
        build(vec![
            ("T", vec![vec![t("int")], vec![t("ident")]]),
            ("E", vec![vec![n("E"), t("+"), n("T")], vec![n("T")]]),
            ("P", vec![vec![n("E")]]),
        ]),
        build(vec![
            ("E", vec![vec![n("E"), t("+"), n("T")], vec![n("T")]]),
            ("P", vec![vec![n("E")]]),
            ("T", vec![vec![t("ident")], vec![t("int")]]),
        ]),
    ];
    for grammar in &recursive {
        assert!(!grammar.is_ll());
    }
    let suitable = vec![
        build(vec![
            ("E", vec![vec![n("T"), n("E'")]]),
            ("E'", vec![vec![t("+"), n("T"), n("E'")], vec![t("")]]),
            ("T", vec![vec![t("ident")], vec![t("int")]]),
        ]),
        build(vec![
            ("T", vec![vec![t("int")], vec![t("ident")]]),
            ("E'", vec![vec![t("")], vec![t("+"), n("T"), n("E'")]]),
            ("E", vec![vec![n("T"), n("E'")]]),
        ]),
    ];
    for grammar in &suitable {
        assert!(grammar.is_ll());
    }
}

#[test]
fn cycle_elsewhere_ends_and_is_rejected() {
    let grammar = build(vec![
        ("A", vec![vec![n("B")]]),
        ("B", vec![vec![n("C")]]),
        ("C", vec![vec![n("B")]]),
    ]);
    assert!(!grammar.is_ll());
    let start = grammar.get(&"A".to_string()).unwrap();
    assert!(!grammar.rule_starts_with(start, &n("A")));
    assert!(grammar.rule_starts_with(start, &n("B")));
    assert!(grammar.rule_starts_with(start, &n("C")));
}

#[test]
fn empty_grammar_is_suitable() {
    let grammar = Grammar::new(Vec::new()).unwrap();
    assert!(grammar.is_ll());
}

#[test]
fn name_without_alternatives_is_suitable() {
    let grammar = build(vec![("S", vec![vec![n("A")]]), ("A", vec![])]);
    assert!(grammar.is_ll());
}

#[test]
fn recursion_behind_the_first_symbol_is_not_seen() {
    let grammar = build(vec![
        ("S", vec![vec![n("A"), n("S")]]),
        ("A", vec![vec![t("")]]),
    ]);
    assert!(grammar.is_ll());
}

#[test]
fn rule_starts_with_follows_first_symbols() {
    let grammar = build(vec![
        ("P", vec![vec![n("E"), t(";")]]),
        ("E", vec![vec![n("T"), t("+"), n("E")], vec![t("("), n("E"), t(")")]]),
        ("T", vec![vec![t("ident")], vec![t("int")]]),
    ]);
    let start = grammar.get(&"P".to_string()).unwrap();
    assert!(grammar.rule_starts_with(start, &n("E")));
    assert!(grammar.rule_starts_with(start, &n("T")));
    assert!(grammar.rule_starts_with(start, &t("ident")));
    assert!(grammar.rule_starts_with(start, &t("int")));
    assert!(grammar.rule_starts_with(start, &t("(")));
    assert!(!grammar.rule_starts_with(start, &t("+")));
    assert!(!grammar.rule_starts_with(start, &t(";")));
    assert!(!grammar.rule_starts_with(start, &n("P")));
    assert!(!grammar.rule_starts_with(start, &n("ident")));
    assert!(!grammar.rule_starts_with(start, &t("E")));
}

#[test]
fn rule_starts_with_takes_alternatives_from_outside() {
    let grammar = build(vec![
        ("A", vec![vec![n("B"), t("a")]]),
        ("B", vec![vec![t("b")]]),
    ]);
    let rule = vec![vec![t("x")], vec![n("A")]];
    assert!(grammar.rule_starts_with(&rule, &t("x")));
    assert!(grammar.rule_starts_with(&rule, &n("A")));
    assert!(grammar.rule_starts_with(&rule, &n("B")));
    assert!(grammar.rule_starts_with(&rule, &t("b")));
    assert!(!grammar.rule_starts_with(&rule, &t("a")));
    assert!(!grammar.rule_starts_with(&Vec::new(), &t("x")));
}

#[test]
fn rule_starts_with_reads_first_symbols_only() {
    let grammar = build(vec![("A", vec![vec![t("a")]])]);
    let rule = vec![vec![n("A"), n("Nowhere")], vec![t("x"), n("Elsewhere")]];
    assert!(grammar.rule_starts_with(&rule, &t("a")));
    assert!(grammar.rule_starts_with(&rule, &t("x")));
    assert!(!grammar.rule_starts_with(&rule, &n("Nowhere")));
    assert!(!grammar.rule_starts_with(&rule, &n("Elsewhere")));
}

#[test]
fn long_chain_of_first_symbols_is_followed() {
    let mut rules: Vec<(String, Vec<Vec<Symbol>>)> = Vec::new();
    for i in 0..200 {
        rules.push((format!("N{}", i), vec![vec![n(&format!("N{}", i + 1))]]));
    }
    rules.push(("N200".to_string(), vec![vec![t("end")]]));
    let open = Grammar::new(rules).unwrap();
    assert!(open.is_ll());
    let start = open.get(&"N0".to_string()).unwrap();
    assert!(open.rule_starts_with(start, &t("end")));
    assert!(open.rule_starts_with(start, &n("N200")));
    assert!(!open.rule_starts_with(start, &n("N0")));

    let mut rules: Vec<(String, Vec<Vec<Symbol>>)> = Vec::new();
    for i in 0..200 {
        rules.push((format!("N{}", i), vec![vec![n(&format!("N{}", i + 1))]]));
    }
    rules.push(("N200".to_string(), vec![vec![t("end")], vec![n("N0")]]));
    let closed = Grammar::new(rules).unwrap();
    assert!(!closed.is_ll());
}
