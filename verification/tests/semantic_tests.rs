use xync::{
    DiagnosticBuilder, Lexer, Parser, ScopeArena, Semantic, SemanticError, Type,
};

fn arena_of(src: &str) -> ScopeArena {
    let mut lexer = Lexer::new(src);
    let tokens = lexer.lex().expect("the source lexes");
    let mut parser = Parser::new(tokens);
    parser.parse().expect("the source parses")
}

fn checked(src: &str) -> (Semantic, Result<(), xync::Diagnostic>) {
    let arena = arena_of(src);
    let mut sema = Semantic::new(arena.size());
    let r = sema.analyze(arena);
    (sema, r)
}

fn type_of(sema: &Semantic, scope: usize, name: &str) -> Option<Type> {
    sema.scopes()[scope]
        .get_variable(&name.to_string())
        .and_then(|v| v.ty)
}

#[test]
fn integer_declaration_is_i32() {
    let (sema, r) = checked("let a = 1 + 2 * 3;");
    assert_eq!(r, Ok(()));
    assert_eq!(type_of(&sema, 0, "a"), Some(Type::I32));
}

#[test]
fn conflicting_variable_in_one_scope() {
    let (_, r) = checked("let a = 1; let a = 2;");
    assert_eq!(
        r,
        Err(DiagnosticBuilder::default()
            .with_error_code(SemanticError::ConflictingVariable)
            .build())
    );
}

#[test]
fn undeclared_variable() {
    let (_, r) = checked("let a = b + 1;");
    assert_eq!(
        r,
        Err(DiagnosticBuilder::default()
            .with_error_code(SemanticError::UndeclaredVariable)
            .build())
    );
}

#[test]
fn shadowing_in_a_block_is_allowed() {
    let (sema, r) = checked("let a = 1; { let a = 2; }");
    assert_eq!(r, Ok(()));
    assert_eq!(type_of(&sema, 0, "a"), Some(Type::I32));
    assert_eq!(type_of(&sema, 1, "a"), Some(Type::I32));
}

#[test]
fn block_reads_variable_of_an_earlier_scope() {
    let (sema, r) = checked("let a = 1; { let b = a * 2; }");
    assert_eq!(r, Ok(()));
    assert_eq!(type_of(&sema, 1, "b"), Some(Type::I32));
}

#[test]
fn unknown_type_is_bound_by_use() {
    // `a` has no value, so its type is unknown until `-a` binds it.
    let (sema, r) = checked("let a; let b = -a;");
    assert_eq!(r, Ok(()));
    assert_eq!(type_of(&sema, 0, "a"), Some(Type::I32));
    assert_eq!(type_of(&sema, 0, "b"), Some(Type::I32));
}

#[test]
fn unknown_type_is_bound_by_arithmetic() {
    let (sema, r) = checked("let a; let b = a + 1;");
    assert_eq!(r, Ok(()));
    assert_eq!(type_of(&sema, 0, "a"), Some(Type::I32));
    assert_eq!(type_of(&sema, 0, "b"), Some(Type::I32));
}

#[test]
fn two_unknowns_stay_unknown() {
    let (sema, r) = checked("let a; let b; let c = a + b;");
    assert_eq!(r, Ok(()));
    assert!(matches!(type_of(&sema, 0, "a"), Some(Type::Unbound(_))));
    assert!(matches!(type_of(&sema, 0, "c"), Some(Type::Unbound(_))));
}

#[test]
fn analysis_keeps_the_number_of_scopes() {
    let arena = arena_of("let a = 1; { let b = 2; { let c = 3; } }");
    let n = arena.size();
    assert_eq!(n, 3);
    let mut sema = Semantic::new(n);
    assert_eq!(sema.analyze(arena), Ok(()));
    assert_eq!(sema.scopes().len(), 3);
    // every recorded variable has a type
    for scope in sema.scopes() {
        for v in scope.get_variables() {
            assert!(v.ty.is_some());
        }
    }
}

#[test]
fn try_analyze_reports_errors() {
    let arena = arena_of("let x = y;");
    let mut sema = Semantic::new(arena.size());
    assert_eq!(
        sema.try_analyze(arena),
        Some(Err(DiagnosticBuilder::default()
            .with_error_code(SemanticError::UndeclaredVariable)
            .build()))
    );
}

#[test]
fn variables_can_be_changed_by_index() {
    let (sema, r) = checked("let a = 1; let b = 2;");
    assert_eq!(r, Ok(()));
    let mut scopes = sema.into_scopes();
    let scope = &mut scopes[0];
    assert_eq!(scope.variable_count(), 2);
    for i in 0..scope.variable_count() {
        let v = scope.get_mut_variable_at(i).expect("in range");
        v.ty = None;
    }
    assert!(scope.get_mut_variable_at(2).is_none());
    assert_eq!(scope.get_variable(&"b".to_string()).unwrap().ty, None);
}

#[test]
fn binding_a_sum_leaves_its_unknown_operands() {
    let (sema, r) = checked("let a; let b; let c = a + b + 1;");
    assert_eq!(r, Ok(()));
    assert_eq!(type_of(&sema, 0, "c"), Some(Type::I32));
    assert!(matches!(type_of(&sema, 0, "a"), Some(Type::Unbound(_))));
    assert!(matches!(type_of(&sema, 0, "b"), Some(Type::Unbound(_))));
}

#[test]
fn binding_follows_relations() {
    // `c` relates the unknowns of `a` and `b`; binding `a` binds `b` too.
    let (sema, r) = checked("let a; let b; let c = a + b; let d = -a;");
    assert_eq!(r, Ok(()));
    assert_eq!(type_of(&sema, 0, "a"), Some(Type::I32));
    assert_eq!(type_of(&sema, 0, "b"), Some(Type::I32));
}

#[test]
fn operand_after_operand_drops_the_declaration() {
    let arena = arena_of("let a = 1 2; let b = 3;");
    let stmts = arena.get_file_scope().unwrap().get_statements();
    assert_eq!(stmts.len(), 1);
}
