use lr1_parser::engine::{Delimiter, ErrorType, Partition, PartitionTable, Status};
use lr1_parser::lr1::Action;
use lr1_parser::grammar::{Grammar, RawProduction};
use lr1_parser::lr1::{get_exception_symbols, item_set_eq, item_set_subset, items_contain, LR1Item,
    LR1Parser};
use lr1_parser::types::{end_symbol, start_symbol, sym_eq, Point, Token};

fn strs(names: &[&str]) -> Vec<String> {
    names.iter().map(|n| n.to_string()).collect()
}

fn rule(head: &str, alternatives: &[&[&str]]) -> RawProduction {
    RawProduction {
        head: head.to_string(),
        alternatives: alternatives.iter().map(|a| strs(a)).collect(),
    }
}

fn term(name: &str) -> Token {
    Token::new_terminal(name.to_string(), Some(Point::new(0, 0)))
}

/// The single-statement grammar: CompUnit' -> S,
/// S -> 'const' 'int' Ident '=' IntConst ';'.
fn const_decl_grammar() -> Grammar {
    let mut g = Grammar::new();
    let terminals = strs(&["'const'", "'int'", "Ident", "'='", "IntConst", "';'"]);
    let rules = vec![
        rule("CompUnit'", &[&["S"]]),
        rule("S", &[&["'const'", "'int'", "Ident", "'='", "IntConst", "';'"]]),
    ];
    g.grammar_load(terminals, rules);
    g
}

/// A block grammar with statement lists, for recovery runs.
fn block_grammar() -> Grammar {
    let mut g = Grammar::new();
    let terminals = strs(&["'{'", "'}'", "'const'", "'int'", "Ident", "'='", "IntConst", "';'"]);
    let rules = vec![
        rule("CompUnit'", &[&["Block"]]),
        rule("Block", &[&["'{'", "StmtList", "'}'"]]),
        rule("StmtList", &[&["Stmt"], &["StmtList", "Stmt"]]),
        rule("Stmt", &[&["'const'", "'int'", "Ident", "'='", "IntConst", "';'"]]),
    ];
    g.grammar_load(terminals, rules);
    g
}

fn build_parser(g: &Grammar) -> LR1Parser {
    let mut p = LR1Parser::new();
    let start = start_symbol();
    p.compute_lr1_item_sets_core(g, &start);
    p.construct_parsing_table_core(g);
    p
}

fn clone_item(it: &LR1Item) -> LR1Item {
    it.duplicate()
}

fn clone_set(s: &Vec<LR1Item>) -> Vec<LR1Item> {
    s.iter().map(clone_item).collect()
}

#[test]
fn it_works() {
    let left = Token::new_not_terminal("'{'".to_string(), None);
    let right = Token::new_not_terminal("'}'".to_string(), None);
    assert!(left.is_paired(&right));
    let left = Token::new_not_terminal("'('".to_string(), None);
    let right = Token::new_not_terminal("')'".to_string(), None);
    assert!(left.is_paired(&right));
    let left = Token::new_not_terminal("'['".to_string(), None);
    let right = Token::new_not_terminal("']'".to_string(), None);
    assert!(left.is_paired(&right));
}

#[test]
fn token_accessors() {
    let t = Token::new_terminal("Ident".to_string(), Some(Point::new(3, 7)));
    assert!(t.is_terminal());
    assert!(!t.is_not_terminal());
    assert_eq!(t.get_value().as_str(), "Ident");
    assert!(t.get_pos().is_some());
    let n = Token::new_not_terminal("Expr".to_string(), None);
    assert!(n.is_not_terminal());
    assert!(!n.is_terminal());
    assert!(n.get_pos().is_none());
    assert!(sym_eq(&t, &Token::new_terminal("Ident".to_string(), None)));
    assert!(!sym_eq(&t, &n));
    assert!(!sym_eq(&t, &Token::new_terminal("Other".to_string(), None)));
}

#[test]
fn delimiter_classes() {
    assert_eq!(Delimiter::from_token(&term("';'")), Delimiter::Semi);
    assert_eq!(Delimiter::from_token(&term("'('")), Delimiter::OpenParen);
    assert_eq!(Delimiter::from_token(&term("'}'")), Delimiter::CloseBrace);
    assert_eq!(Delimiter::from_token(&term("Ident")), Delimiter::Default);
    assert!(Delimiter::Semi.is_delimiter());
    assert!(Delimiter::Semi.is_limiter());
    assert!(Delimiter::OpenParen.is_delimiter());
    assert!(!Delimiter::OpenParen.is_limiter());
    assert!(!Delimiter::Default.is_delimiter());
    assert!(!Delimiter::Default.is_limiter());
}

#[test]
fn first_sets_with_nullable_prefix() {
    let mut g = Grammar::new();
    let terminals = strs(&["'a'", "'b'", "\u{03b5}"]);
    let rules = vec![
        rule("CompUnit'", &[&["S"]]),
        rule("S", &[&["A", "'b'"]]),
        rule("A", &[&["'a'"], &["\u{03b5}"]]),
    ];
    g.grammar_load(terminals, rules);

    let a_sym = Token::new_not_terminal("A".to_string(), None);
    let first_a = g.first(&a_sym);
    let names: Vec<&str> = first_a.iter().map(|t| t.get_value().as_str()).collect();
    assert!(names.contains(&"'a'"));
    assert!(names.contains(&"\u{03b5}"));
    assert_eq!(names.len(), 2);

    // FIRST of the dotted suffix [A 'b'] absorbs 'b' through the nullable A
    let suffix = vec![a_sym, term("'b'")];
    let fallback = end_symbol();
    let la = g.first_symbols(suffix.as_slice(), &fallback);
    let la_names: Vec<&str> = la.iter().map(|t| t.get_value().as_str()).collect();
    assert!(la_names.contains(&"'a'"));
    assert!(la_names.contains(&"'b'"));
    assert!(!la_names.contains(&"#"));

    // a fully consumed suffix propagates the fallback lookahead
    let empty: Vec<Token> = Vec::new();
    let la2 = g.first_symbols(empty.as_slice(), &fallback);
    assert_eq!(la2.len(), 1);
    assert_eq!(la2[0].get_value().as_str(), "#");
}

#[test]
fn first_of_terminal_is_itself() {
    let g = const_decl_grammar();
    let t = term("'const'");
    let f = g.first(&t);
    assert_eq!(f.len(), 1);
    assert_eq!(f[0].get_value().as_str(), "'const'");
}

#[test]
fn closure_is_idempotent_and_grows() {
    let g = const_decl_grammar();
    let p = LR1Parser::new();
    let seed = vec![LR1Item {
        head: start_symbol(),
        body: vec![Token::new_not_terminal("S".to_string(), None)],
        dot: 0,
        lookahead: end_symbol(),
    }];
    let once = p.closure(&g, &seed);
    // closure never removes items
    assert!(item_set_subset(&seed, &once));
    // applying closure twice yields the same set as applying it once
    let twice = p.closure(&g, &once);
    assert!(item_set_eq(&once, &twice));
    // the S production was expanded
    assert_eq!(once.len(), 2);
}

#[test]
fn goto_is_deterministic() {
    let g = const_decl_grammar();
    let p = build_parser(&g);
    let sym = term("'const'");
    let a = p.goto(&g, &p.lr1_sets[0], &sym);
    let b = p.goto(&g, &p.lr1_sets[0], &sym);
    assert!(item_set_eq(&a, &b));
    assert!(!a.is_empty());
}

#[test]
fn state_zero_holds_the_start_item() {
    let g = const_decl_grammar();
    let p = build_parser(&g);
    assert!(!p.lr1_sets.is_empty());
    let init = LR1Item {
        head: start_symbol(),
        body: vec![Token::new_not_terminal("S".to_string(), None)],
        dot: 0,
        lookahead: end_symbol(),
    };
    assert!(items_contain(&p.lr1_sets[0], &init));
    // and no other item of state 0 has the augmented start symbol as head
    let start = start_symbol();
    let mut start_headed: usize = 0;
    for it in p.lr1_sets[0].iter() {
        if sym_eq(&it.head, &start) {
            start_headed += 1;
        }
    }
    assert_eq!(start_headed, 1);
}

#[test]
fn every_state_has_a_row() {
    let g = block_grammar();
    let p = build_parser(&g);
    for s in 0..p.lr1_sets.len() {
        let in_actions = p.action_table.iter().any(|e| e.state == s);
        let in_gotos = p.goto_table.iter().any(|e| e.state == s);
        assert!(in_actions || in_gotos, "state {} has no table row", s);
    }
}

#[test]
fn table_construction_is_idempotent() {
    let g = const_decl_grammar();
    let mut p1 = LR1Parser::new();
    let start = start_symbol();
    p1.compute_lr1_item_sets_core(&g, &start);
    let mut p2 = LR1Parser::new();
    p2.lr1_sets = p1.lr1_sets.iter().map(clone_set).collect();
    p1.construct_parsing_table_core(&g);
    p2.construct_parsing_table_core(&g);
    assert_eq!(p1.action_table.len(), p2.action_table.len());
    assert_eq!(p1.goto_table.len(), p2.goto_table.len());
    for (a, b) in p1.action_table.iter().zip(p2.action_table.iter()) {
        assert_eq!(a.state, b.state);
        assert!(sym_eq(&a.symbol, &b.symbol));
        match (&a.action, &b.action) {
            (Action::Shift(x), Action::Shift(y)) => assert_eq!(x, y),
            (Action::Accept, Action::Accept) => (),
            (Action::Reduce(h1, b1), Action::Reduce(h2, b2)) => {
                assert!(sym_eq(h1, h2));
                assert_eq!(b1.len(), b2.len());
                for (x, y) in b1.iter().zip(b2.iter()) {
                    assert!(sym_eq(x, y));
                }
            },
            _ => panic!("table actions differ"),
        }
    }
    for (a, b) in p1.goto_table.iter().zip(p2.goto_table.iter()) {
        assert_eq!(a.state, b.state);
        assert!(sym_eq(&a.symbol, &b.symbol));
        assert_eq!(a.target, b.target);
    }
}

#[test]
fn round_trip_parse() {
    let g = const_decl_grammar();
    let p = build_parser(&g);
    let input: Vec<Token> = ["'const'", "'int'", "Ident", "'='", "IntConst", "';'"]
        .iter()
        .map(|n| term(n))
        .collect();
    let done = p.construct_tree(input.as_slice());
    assert!(done.accepted());
    assert!(done.get_errors().is_empty());
    let root = done.tree_root().expect("a tree root");
    assert_eq!(root.element.get_value().as_str(), "S");
    let children = root.children.as_ref().expect("six children");
    assert_eq!(children.len(), 6);
    let expected = ["'const'", "'int'", "Ident", "'='", "IntConst", "';'"];
    for (child, want) in children.iter().zip(expected.iter()) {
        assert_eq!(&child.element.get_value().as_str(), want);
        assert!(child.children.is_none());
    }
}

#[test]
fn empty_input_is_rejected_not_crashed() {
    let g = const_decl_grammar();
    let p = build_parser(&g);
    let input: Vec<Token> = Vec::new();
    let done = p.construct_tree(input.as_slice());
    assert!(!done.accepted());
    assert_eq!(done.get_errors().len(), 1);
    // the unexpected-symbol kind carries the offending name
    match &done.get_errors()[0].error_type {
        ErrorType::Unknown(v) => assert_eq!(v.as_str(), "#"),
        _ => panic!("expected an unexpected-symbol error"),
    }
    assert_eq!(done.get_errors()[0].error_pos, 0);
}

#[test]
fn recovery_moves_forward_and_keeps_parsing() {
    let g = block_grammar();
    let p = build_parser(&g);
    // a stray token between two well-formed statements
    let mut names: Vec<&str> = vec!["'{'"];
    names.extend(["'const'", "'int'", "Ident", "'='", "IntConst", "';'"]);
    names.push("Ident");
    names.extend(["'const'", "'int'", "Ident", "'='", "IntConst", "';'"]);
    names.push("'}'");
    let input: Vec<Token> = names.iter().map(|n| term(n)).collect();
    let done = p.construct_tree(input.as_slice());
    assert_eq!(done.get_errors().len(), 1);
    assert!(!done.accepted());
    assert_eq!(done.get_errors()[0].error_pos, 7);
}

#[test]
fn two_independent_errors_are_both_recorded() {
    let g = block_grammar();
    let p = build_parser(&g);
    // two unrelated stray tokens, each after a well-formed statement
    let mut names: Vec<&str> = vec!["'{'"];
    names.extend(["'const'", "'int'", "Ident", "'='", "IntConst", "';'"]);
    names.push("Ident");
    names.extend(["'const'", "'int'", "Ident", "'='", "IntConst", "';'"]);
    names.push("'='");
    names.extend(["'const'", "'int'", "Ident", "'='", "IntConst", "';'"]);
    names.push("'}'");
    let input: Vec<Token> = names.iter().map(|n| term(n)).collect();
    let done = p.construct_tree(input.as_slice());
    assert_eq!(done.get_errors().len(), 2);
    assert_eq!(done.get_errors()[0].error_pos, 7);
    assert_eq!(done.get_errors()[1].error_pos, 14);
    // recovery from the first error did not corrupt the block built after
    // the second: the tree still ends in a complete block
    let root = done.tree_root().expect("a partial tree");
    assert_eq!(root.element.get_value().as_str(), "Block");
    let children = root.children.as_ref().expect("block parts");
    assert_eq!(children.len(), 3);
    assert_eq!(children[0].element.get_value().as_str(), "'{'");
    assert_eq!(children[2].element.get_value().as_str(), "'}'");
}

#[test]
fn exception_symbols_skip_the_end_marker() {
    let g = const_decl_grammar();
    let p = build_parser(&g);
    let state: usize = 0;
    let symbols = get_exception_symbols(&p.action_table, &state);
    let names: Vec<&str> = symbols.iter().map(|t| t.get_value().as_str()).collect();
    assert!(names.contains(&"'const'"));
    assert!(!names.contains(&"#"));
}

#[test]
fn partition_table_keeps_one_statement_checkpoint() {
    let mut t = PartitionTable::new();
    assert_eq!(t.get_last_token(), Delimiter::Default);
    t.update(Partition { partition_head: Delimiter::OpenBrace, status: Status::init() });
    assert_eq!(t.get_last_token(), Delimiter::OpenBrace);
    t.update(Partition { partition_head: Delimiter::Semi, status: Status::init() });
    assert_eq!(t.get_last_token(), Delimiter::Semi);
    // a second statement separator replaces the first
    t.update(Partition { partition_head: Delimiter::Semi, status: Status::init() });
    assert_eq!(t.get_last_token(), Delimiter::Semi);
    // a closer pops both the separator and its opener
    t.update(Partition { partition_head: Delimiter::CloseBrace, status: Status::init() });
    assert_eq!(t.get_last_token(), Delimiter::Default);
    let s = t.get_last_status();
    assert_eq!(s.state_stack.len(), 1);
}

#[test]
fn error_inside_a_statement_restores_a_checkpoint() {
    let g = block_grammar();
    let p = build_parser(&g);
    // a malformed statement between two well-formed ones: the engine
    // records the unexpected symbol, falls back to the last statement
    // checkpoint at the separator, and parses on
    let mut names: Vec<&str> = vec!["'{'"];
    names.extend(["'const'", "'int'", "Ident", "'='", "IntConst", "';'"]);
    names.extend(["'const'", "'int'", "Ident", "'='", "'='", "';'"]);
    names.extend(["'const'", "'int'", "Ident", "'='", "IntConst", "';'"]);
    names.push("'}'");
    let input: Vec<Token> = names.iter().map(|n| term(n)).collect();
    let done = p.construct_tree(input.as_slice());
    assert!(!done.accepted());
    assert!(!done.get_errors().is_empty());
    // the first record points at the offending token
    assert_eq!(done.get_errors()[0].error_pos, 11);
    // recovery always moved forward: the recorded positions grow
    for w in done.get_errors().windows(2) {
        assert!(w[0].error_pos < w[1].error_pos);
    }
    // the run still built a complete block around the damage
    let root = done.tree_root().expect("a partial tree");
    assert_eq!(root.element.get_value().as_str(), "Block");
}

#[test]
fn token_cursor_helpers() {
    let g = const_decl_grammar();
    let p = build_parser(&g);
    let input: Vec<Token> = ["'const'", "'int'"].iter().map(|n| term(n)).collect();
    // an incomplete prefix is rejected with one error at the end marker
    let done = p.construct_tree(input.as_slice());
    assert!(!done.accepted());
    assert_eq!(done.get_errors().len(), 1);
    assert_eq!(done.get_errors()[0].error_pos, 2);
    // the cursor sits at the end of the stream; the current token is
    // clamped to the end marker, the last token is the one before it
    assert_eq!(done.pos, done.tokens.len());
    assert_eq!(done.get_current_token().get_value().as_str(), "#");
}

#[test]
fn nullable_production_shifts_the_marker() {
    let mut g = Grammar::new();
    let terminals = strs(&["'a'", "'b'", "\u{03b5}"]);
    let rules = vec![
        rule("CompUnit'", &[&["S"]]),
        rule("S", &[&["A", "'b'"]]),
        rule("A", &[&["'a'"], &["\u{03b5}"]]),
    ];
    g.grammar_load(terminals, rules);
    let p = build_parser(&g);
    // with A erased, the engine shifts the empty marker instead of a token
    let input: Vec<Token> = vec![term("'b'")];
    let done = p.construct_tree(input.as_slice());
    assert!(done.accepted());
    let root = done.tree_root().expect("a tree root");
    assert_eq!(root.element.get_value().as_str(), "S");
    let children = root.children.as_ref().expect("two children");
    assert_eq!(children.len(), 2);
    assert_eq!(children[0].element.get_value().as_str(), "A");
    assert_eq!(children[1].element.get_value().as_str(), "'b'");
    let a_children = children[0].children.as_ref().expect("the erased body");
    assert_eq!(a_children.len(), 1);
    assert_eq!(a_children[0].element.get_value().as_str(), "\u{03b5}");
}
