use tinyexpr::lexer::{tokenize, InfixOp, Token};
use tinyexpr::builtins::builtins;
use tinyexpr::scope::{Scope, Signature};

#[test]
fn redefining_keeps_slots_and_indices() {
    let mut s: Scope<u32, &str> = Scope::new();
    assert_eq!(s.define_variable("x", 10), 0);
    assert_eq!(s.define_variable("y", 20), 1);
    assert_eq!(s.define_variable("x", 30), 0);
    assert_eq!(s.variable_count(), 2);
    assert_eq!(*s.variable_value(0), 30);
    assert_eq!(*s.variable_value(1), 20);
    assert_eq!(s.define_function("f", 1, true, "first f"), 0);
    assert_eq!(s.define_function("g", 2, true, "g"), 1);
    assert_eq!(s.define_function("f", 3, false, "second f"), 0);
    assert_eq!(s.function_count(), 2);
    assert_eq!(*s.function_value(0), "second f");
    assert_eq!(*s.function_value(1), "g");
    assert_eq!(
        s.function_signature(b"f"),
        Some(Signature { index: 0, arity: 3, pure: false })
    );
    assert_eq!(s.variable_slot(b"y"), Some(1));
    assert_eq!(s.variable_slot(b"z"), None);
    assert_eq!(s.function_signature(b"h"), None);
}

#[test]
fn variable_shadows_function_of_same_name() {
    let mut s: Scope<(), ()> = Scope::new();
    s.define_function("e", 0, true, ());
    let before = tokenize(b"e", &s);
    assert_eq!(before[0].token, Token::Function(Signature { index: 0, arity: 0, pure: true }));
    s.define_variable("e", ());
    let after = tokenize(b"e", &s);
    assert_eq!(after[0].token, Token::Variable(0));
}

#[test]
fn lexemes_record_positions_before_blanks() {
    let s: Scope<(), ()> = Scope::new();
    let toks = tokenize(b" 1 +\t2 ", &s);
    let got: Vec<(Token, usize)> = toks.iter().map(|l| (l.token, l.position)).collect();
    assert_eq!(
        got,
        vec![
            (Token::Number(1, 2), 0),
            (Token::Infix(InfixOp::Add), 2),
            (Token::Number(5, 6), 4),
            (Token::End, 6),
        ]
    );
}

#[test]
fn unknown_names_and_bytes_are_errors() {
    let s: Scope<(), ()> = Scope::new();
    let toks = tokenize(b"ab_1 # (", &s);
    let got: Vec<Token> = toks.iter().map(|l| l.token).collect();
    assert_eq!(got, vec![Token::Error(0), Token::Error(5), Token::Open, Token::End]);
}

#[test]
fn builtin_table_defines_each_name_once() {
    let mut s: Scope<(), ()> = Scope::new();
    for (k, b) in builtins().iter().enumerate() {
        assert_eq!(s.define_function(b.name(), b.arity(), b.pure(), ()), k);
    }
    assert_eq!(s.function_count(), 24);
    assert_eq!(
        s.function_signature(b"atan2"),
        Some(Signature { index: 4, arity: 2, pure: true })
    );
    assert_eq!(
        s.function_signature(b"pi"),
        Some(Signature { index: 17, arity: 0, pure: true })
    );
    assert_eq!(
        s.function_signature(b"log10"),
        Some(Signature { index: 14, arity: 1, pure: true })
    );
}
