use xync::runtime::parse_i32;
use xync::{
    Interpreter, Lexer, Parser, RuntimeScope, RuntimeValue, RuntimeVariable, Semantic, Type,
};

fn run_source(src: &str) -> (bool, Interpreter) {
    let mut lexer = Lexer::new(src);
    let tokens = lexer.lex().expect("the source lexes");
    let mut parser = Parser::new(tokens);
    let arena = parser.parse().expect("the source parses");
    let mut sema = Semantic::new(arena.size());
    sema.analyze(arena).expect("the source type-checks");
    let mut interp = Interpreter::new();
    let ok = interp.try_run(sema.into_scopes());
    (ok, interp)
}

fn value_of(interp: &Interpreter, name: &str) -> Option<RuntimeValue> {
    interp.scopes()[0]
        .get_variable(&name.to_string())
        .map(|v| *v.value())
}

#[test]
fn evaluates_with_precedence() {
    let (ok, interp) = run_source("let a = 2 + 3 * 4 - 6 / 2;");
    assert!(ok);
    assert_eq!(value_of(&interp, "a"), Some(RuntimeValue::I32(11)));
}

#[test]
fn subtraction_is_left_associative() {
    let (ok, interp) = run_source("let a = 10 - 3 - 2;");
    assert!(ok);
    assert_eq!(value_of(&interp, "a"), Some(RuntimeValue::I32(5)));
}

#[test]
fn division_truncates_toward_zero() {
    let (ok, interp) = run_source("let a = -7 / 2; let b = 7 / -2;");
    assert!(ok);
    assert_eq!(value_of(&interp, "a"), Some(RuntimeValue::I32(-3)));
    assert_eq!(value_of(&interp, "b"), Some(RuntimeValue::I32(-3)));
}

#[test]
fn plus_sign_is_absolute_value() {
    let (ok, interp) = run_source("let a = 0 - 5; let b = +a;");
    assert!(ok);
    assert_eq!(value_of(&interp, "b"), Some(RuntimeValue::I32(5)));
}

#[test]
fn sign_folding_keeps_values() {
    // `+-5` is read as `+5`, `--5` as `5`, `++5` as `+5`.
    let (ok, interp) = run_source("let a = +-5; let b = --5; let c = ++5; let d = -+5;");
    assert!(ok);
    assert_eq!(value_of(&interp, "a"), Some(RuntimeValue::I32(5)));
    assert_eq!(value_of(&interp, "b"), Some(RuntimeValue::I32(5)));
    assert_eq!(value_of(&interp, "c"), Some(RuntimeValue::I32(5)));
    assert_eq!(value_of(&interp, "d"), Some(RuntimeValue::I32(-5)));
}

#[test]
fn variables_are_read_from_the_first_scope() {
    let (ok, interp) = run_source("let a = 4; let b = a * a;");
    assert!(ok);
    assert_eq!(value_of(&interp, "b"), Some(RuntimeValue::I32(16)));
}

#[test]
fn overflow_stops_the_run() {
    let (ok, _) = run_source("let a = 2147483647 + 1;");
    assert!(!ok);
}

#[test]
fn division_by_zero_stops_the_run() {
    let (ok, _) = run_source("let a = 1 / 0;");
    assert!(!ok);
}

#[test]
fn number_too_large_stops_the_run() {
    let (ok, _) = run_source("let a = 99999999999;");
    assert!(!ok);
}

#[test]
fn parse_i32_cases() {
    assert_eq!(parse_i32("0"), Some(0));
    assert_eq!(parse_i32("42"), Some(42));
    assert_eq!(parse_i32("-42"), Some(-42));
    assert_eq!(parse_i32("+7"), Some(7));
    assert_eq!(parse_i32("2147483647"), Some(i32::MAX));
    assert_eq!(parse_i32("-2147483648"), Some(i32::MIN));
    assert_eq!(parse_i32("2147483648"), None);
    assert_eq!(parse_i32(""), None);
    assert_eq!(parse_i32("-"), None);
    assert_eq!(parse_i32("12a"), None);
}

#[test]
fn runtime_scope_replaces_same_name() {
    let mut scope = RuntimeScope::default();
    scope.add_variable(RuntimeVariable::new("x".to_string(), Type::I32, RuntimeValue::I32(1)));
    scope.add_variable(RuntimeVariable::new("x".to_string(), Type::I32, RuntimeValue::I32(2)));
    let v = scope.get_variable(&"x".to_string()).expect("x is there");
    assert_eq!(v.name(), "x");
    assert_eq!(*v.value(), RuntimeValue::I32(2));
    assert!(scope.get_variable(&"y".to_string()).is_none());
}
