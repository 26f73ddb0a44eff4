use tinyexpr::ast::{BinOp, Node};
use tinyexpr::parser::{parse, parse_tree};
use tinyexpr::scope::Scope;

fn names() -> Scope<(), ()> {
    let mut s: Scope<(), ()> = Scope::new();
    s.define_function("sqrt", 1, true, ());
    s.define_function("atan2", 2, true, ());
    s.define_function("pi", 0, true, ());
    s.define_function("clock", 0, false, ());
    s.define_variable("x", ());
    s.define_variable("y", ());
    s
}

fn op_code(op: BinOp) -> &'static str {
    match op {
        BinOp::Add => "+",
        BinOp::Sub => "-",
        BinOp::Mul => "*",
        BinOp::Div => "/",
        BinOp::Mod => "%",
        BinOp::Pow => "^",
        BinOp::Comma => ",",
    }
}

/// The tree with each literal given by its byte span, passed through `at`.
fn spans(n: &Node, at: &dyn Fn(usize) -> usize) -> String {
    match n {
        Node::Num(s, e) => format!("#{}..{}", at(*s), at(*e)),
        Node::Var(v) => format!("v{v}"),
        Node::Neg(a) => format!("(- {})", spans(a, at)),
        Node::Bin(op, a, b) => format!("({} {} {})", op_code(*op), spans(a, at), spans(b, at)),
        Node::Call(f, p, args) => {
            let mut out = format!("(f{f}{}", if *p { "" } else { "!" });
            for a in args {
                out.push(' ');
                out.push_str(&spans(a, at));
            }
            out.push(')');
            out
        }
        Node::Folded(a) => format!("[{}]", spans(a, at)),
    }
}

fn same(n: usize) -> usize {
    n
}

fn plain_tree(src: &str) -> String {
    spans(&parse_tree(src, &names()).unwrap(), &same)
}

fn compiled_tree(src: &str) -> String {
    spans(&parse(src, &names()).unwrap(), &same)
}

fn moved_tree(src: &str, at: &dyn Fn(usize) -> usize) -> String {
    spans(&parse_tree(src, &names()).unwrap(), at)
}

fn moved_compiled(src: &str, at: &dyn Fn(usize) -> usize) -> String {
    spans(&parse(src, &names()).unwrap(), at)
}

fn error_at(src: &str) -> usize {
    parse(src, &names()).unwrap_err().position
}

#[test]
fn leading_plus_keeps_the_tree() {
    let by_one = |n: usize| n + 1;
    for s in ["1+x*2", "sqrt 4^x", "atan2(x, 2)", "-y", "(1,2),x", "pi"] {
        let prefixed = format!("+{s}");
        assert_eq!(plain_tree(&prefixed), moved_tree(s, &by_one), "{s}");
        assert_eq!(compiled_tree(&prefixed), moved_compiled(s, &by_one), "{s}");
    }
    assert_eq!(plain_tree("+1+x*2"), "(+ #1..2 (* v0 #5..6))");
}

#[test]
fn leading_plus_moves_the_error() {
    for s in ["", "1+", "(1", "1)", "atan2(1)", "1 $ 2", "nope", "atan2(1,1,)"] {
        let prefixed = format!("+{s}");
        assert_eq!(error_at(&prefixed), error_at(s) + 1, "{s}");
    }
    assert_eq!(error_at("+1+"), 3);
}

#[test]
fn leading_double_minus_keeps_the_tree() {
    let by_two = |n: usize| n + 2;
    for s in ["1+x*2", "2^-x", "sqrt(y)", "x,y"] {
        let prefixed = format!("--{s}");
        assert_eq!(plain_tree(&prefixed), moved_tree(s, &by_two), "{s}");
        assert_eq!(compiled_tree(&prefixed), moved_compiled(s, &by_two), "{s}");
    }
    assert_eq!(plain_tree("--x"), "v0");
    for s in ["", "1*", "(", "pi(1)"] {
        let prefixed = format!("--{s}");
        assert_eq!(error_at(&prefixed), error_at(s) + 2, "{s}");
    }
}

#[test]
fn surrounding_blanks_keep_the_tree() {
    let cases = [
        (" ", "1+x", " "),
        ("\t\n", "sqrt(4)*y", "\r"),
        ("   ", "x", ""),
        ("", "2^3", "  "),
    ];
    for (w1, s, w2) in cases {
        let around = format!("{w1}{s}{w2}");
        let by = |n: usize| n + w1.len();
        assert_eq!(plain_tree(&around), moved_tree(s, &by), "{s}");
        assert_eq!(compiled_tree(&around), moved_compiled(s, &by), "{s}");
    }
}

#[test]
fn enclosing_parentheses_keep_the_tree() {
    let by_one = |n: usize| n + 1;
    for s in ["1+x*2", "x,y", "-(2)", "atan2(1,x)", "clock"] {
        let enclosed = format!("({s})");
        assert_eq!(plain_tree(&enclosed), moved_tree(s, &by_one), "{s}");
        assert_eq!(compiled_tree(&enclosed), moved_compiled(s, &by_one), "{s}");
    }
    assert_eq!(plain_tree("(x*10)"), "(* v0 #3..5)");
}

#[test]
fn blanks_next_to_brackets_and_separators_keep_the_tree() {
    let base = "atan2(1,x)*(2+y)";
    let cases = [
        ("atan2( 1,x)*(2+y)", 5, 1),
        ("atan2(1 ,x)*(2+y)", 7, 1),
        ("atan2(1,  x)*(2+y)", 7, 2),
        ("atan2(1,x )*(2+y)", 9, 1),
        ("atan2(1,x) *(2+y)", 9, 1),
        ("atan2(1,x)*( 2+y)", 11, 1),
        ("atan2(1,x)*(2+y )", 15, 1),
        ("atan2 (1,x)*(2+y)", 5, 1),
    ];
    for (spaced, at, n) in cases {
        let move_after = |k: usize| if k <= at { k } else { k + n };
        assert_eq!(plain_tree(spaced), moved_tree(base, &move_after), "{spaced}");
        assert_eq!(compiled_tree(spaced), moved_compiled(base, &move_after), "{spaced}");
    }
}
