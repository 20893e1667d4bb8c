use xync::{Lexer, Parser, Scope, ScopeArena, ScopeType, TokenLocation, TokenTag};

#[test]
fn tag_descriptions() {
    assert_eq!(TokenTag::LetKeyword.describe(), "Kind: `Let`");
    assert_eq!(TokenTag::MutKeyword.describe(), "Kind: `Mut`");
    assert_eq!(TokenTag::EqualOp.describe(), "Kind: `Equal`");
    assert_eq!(TokenTag::SemicolonOp.describe(), "Kind: `Semicolon`");
    assert_eq!(TokenTag::PlusSign.describe(), "Kind: `Add`");
    assert_eq!(TokenTag::MinusSign.describe(), "Kind: `Sub`");
    assert_eq!(TokenTag::StarSign.describe(), "Kind: `Mul`");
    assert_eq!(TokenTag::DivSign.describe(), "Kind: `Div`");
    assert_eq!(TokenTag::Identifier.describe(), "Kind: `Identifier`");
    assert_eq!(TokenTag::Integer.describe(), "Kind: `Integer`");
}

#[test]
fn location_description() {
    let loc = TokenLocation {
        start_idx: 0,
        end_idx: 3,
        start_col: 1,
        end_col: 4,
        start_line: 1,
        end_line: 1,
    };
    assert_eq!(loc.describe(), "Location [idx: 0-3, col: 1-4, line: 1-1]");
}

#[test]
fn one_location_per_token_in_source_order() {
    let src = "let a = 12; // a\nmut bb = a * 3;";
    let mut lexer = Lexer::new(src);
    let tokens = lexer.lex().expect("the source lexes");
    let locs = lexer.locations().clone();
    assert_eq!(locs.len(), tokens.len());
    let chars: Vec<char> = src.chars().collect();
    for i in 0..tokens.len() {
        let l = locs[i];
        assert!(l.start_idx < l.end_idx && l.end_idx <= chars.len());
        if i + 1 < locs.len() {
            assert!(l.end_idx <= locs[i + 1].start_idx);
        }
        let text: String = chars[l.start_idx..l.end_idx].iter().collect();
        assert_eq!(tokens.get_token(i).unwrap().lexeme, text);
    }
    assert_eq!(
        locs[0],
        TokenLocation { start_idx: 0, end_idx: 3, start_col: 1, end_col: 4, start_line: 1, end_line: 1 }
    );
    // `mut` on the second line
    assert_eq!(
        locs[5],
        TokenLocation { start_idx: 17, end_idx: 20, start_col: 1, end_col: 4, start_line: 2, end_line: 2 }
    );
    assert_eq!(tokens.get_kind(5), Some(&TokenTag::MutKeyword));
}

#[test]
fn long_lines_do_not_fit_in_a_location() {
    let long = "a".repeat(70000);
    assert!(!Lexer::new(&long).positions_fit());
    let short_lines = "a\n".repeat(40000);
    assert!(Lexer::new(&short_lines).positions_fit());
    let many_lines = "\n".repeat(70000);
    assert!(!Lexer::new(&many_lines).positions_fit());
    assert!(Lexer::new("let a = 1;").positions_fit());
}

#[test]
fn scope_tree_of_nested_blocks() {
    let mut lexer = Lexer::new("let a = 1; { let b = 2; { let c = 3; } } { let d = 4; }");
    let tokens = lexer.lex().expect("the source lexes");
    let mut parser = Parser::new(tokens);
    let arena = parser.parse().expect("the source parses");
    assert_eq!(arena.size(), 4);
    assert_eq!(arena.get_file_scope().unwrap().get_parent(), None);
    for id in 1..arena.size() {
        let scope = arena.get_scope(id).unwrap();
        let parent = scope.get_parent().expect("a block has a parent");
        assert!(parent < id);
        assert!(arena.get_scope(parent).unwrap().get_children_scopes().contains(&id));
        for &child in scope.get_children_scopes() {
            assert!(child > id);
            assert_eq!(arena.get_scope(child).unwrap().get_parent(), Some(id));
        }
    }
}

#[test]
fn locations_are_byte_offsets() {
    let src = "// \u{e9}\nlet x = \"\u{e9}t\u{e9}\"; \u{20ac}";
    let mut lexer = Lexer::new(src);
    // the euro sign is no token
    assert!(lexer.lex().is_err());
    let mut lexer = Lexer::new("// \u{e9}\nlet x = \"\u{e9}\";");
    let tokens = lexer.lex().expect("the source lexes");
    let src = "// \u{e9}\nlet x = \"\u{e9}\";";
    let locs = lexer.locations().clone();
    assert_eq!(locs[0].start_idx, 6);
    assert_eq!(locs[0].end_idx, 9);
    assert_eq!(&src[locs[0].start_idx..locs[0].end_idx], "let");
    assert_eq!(tokens.get_kind(0), Some(&TokenTag::LetKeyword));
    // the string literal spans its quotes and the two bytes of the accent
    assert_eq!(&src[locs[3].start_idx..locs[3].end_idx], "\"\u{e9}\"");
    assert_eq!(locs[3].end_col - locs[3].start_col, 4);
    assert_eq!(&src[locs[4].start_idx..locs[4].end_idx], ";");
    for i in 0..tokens.len() {
        if tokens.get_kind(i) != Some(&TokenTag::Str) {
            assert_eq!(&src[locs[i].start_idx..locs[i].end_idx], tokens.get_token(i).unwrap().lexeme);
        }
    }
}

#[test]
fn arena_holds_one_scope_per_add() {
    let mut arena = ScopeArena::new();
    assert_eq!(arena.size(), 0);
    arena.add_scope(Scope::new(ScopeType::Local));
    arena.add_scope(Scope::with_parent(Some(0), ScopeType::Local));
    // a scope may name itself as parent
    arena.add_scope(Scope::with_parent(Some(2), ScopeType::Local));
    assert_eq!(arena.size(), 3);
    assert_eq!(arena.get_scope(1).unwrap().get_parent(), Some(0));
    assert_eq!(arena.get_scope(0).unwrap().get_children_scopes(), &vec![1]);
    assert_eq!(arena.get_scope(2).unwrap().get_children_scopes(), &vec![2]);
    assert!(arena.get_scope(3).is_none());
}
