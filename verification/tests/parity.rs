use tinyexpr::parser::parse;
use tinyexpr::builtins::builtins;
use tinyexpr::scope::Scope;
use tinyexpr::ParseError;

/// The built-in functions, by name, arity and purity.
fn builtin_scope() -> Scope<(), ()> {
    let mut scope = Scope::new();
    for b in builtins() {
        scope.define_function(b.name(), b.arity(), b.pure(), ());
    }
    scope
}

fn compile_outcome(expression: &str) -> Result<(), ParseError> {
    parse(expression, &builtin_scope()).map(|_| ())
}

#[test]
fn errors_report_a_position() {
    assert!(compile_outcome("").is_err());
    assert!(compile_outcome("1+").is_err());
    assert!(compile_outcome("1+1x").is_err());
    assert!(compile_outcome("(1").is_err());
    assert!(compile_outcome("1)").is_err());
    assert!(compile_outcome("atan2(1)").is_err());
    assert!(compile_outcome("unknown_fn(1)").is_err());
    let err = compile_outcome("1+2+").unwrap_err();
    assert_eq!(err.position, 4);
}

#[test]
fn error_positions_are_exact() {
    assert_eq!(compile_outcome("").unwrap_err().position, 0);
    assert_eq!(compile_outcome("1+").unwrap_err().position, 2);
    assert_eq!(compile_outcome("1+1x").unwrap_err().position, 3);
    assert_eq!(compile_outcome("(1").unwrap_err().position, 2);
    assert_eq!(compile_outcome("1)").unwrap_err().position, 1);
    assert_eq!(compile_outcome("atan2(1)").unwrap_err().position, 7);
    assert_eq!(compile_outcome("unknown_fn(1)").unwrap_err().position, 0);
    assert_eq!(compile_outcome("1 + 2 +   ").unwrap_err().position, 7);
    assert_eq!(compile_outcome("1 $ 2").unwrap_err().position, 1);
    assert_eq!(compile_outcome("atan2(1,2,3)").unwrap_err().position, 10);
    assert_eq!(compile_outcome("pi(1)").unwrap_err().position, 3);
    assert_eq!(compile_outcome("atan2 1").unwrap_err().position, 5);
    assert_eq!(compile_outcome("atan2(1,1,)").unwrap_err().position, 10);
    assert_eq!(compile_outcome("atan2(1, 1 , )").unwrap_err().position, 12);
}

#[test]
fn accepted_expressions() {
    for e in [
        "1",
        "1 ",
        "(1)",
        "pi",
        "pi()",
        "atan(1)*4 - pi",
        "3.0/2.0*4.0",
        "10 % 3",
        "-2^-2",
        "sqrt 100 + 1",
        "atan2(1,1)",
        "(1,2),3",
        "  ( 1 + 2 ) * ( 3 - 1 )  ",
        "1e3+.5-2.5E-1",
    ] {
        assert!(compile_outcome(e).is_ok(), "{e}");
    }
}

#[test]
fn error_message_text() {
    let err = compile_outcome("1+2+").unwrap_err();
    assert_eq!(err.message(), "parse error at byte offset 4");
    assert_eq!(ParseError { position: 0 }.message(), "parse error at byte offset 0");
    assert_eq!(ParseError { position: 1234 }.message(), "parse error at byte offset 1234");
}
