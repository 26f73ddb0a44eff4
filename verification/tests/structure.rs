use tinyexpr::ast::{BinOp, Node};
use tinyexpr::fold::optimize;
use tinyexpr::parser::{parse, parse_tree};
use tinyexpr::scope::Scope;

fn scope() -> Scope<(), ()> {
    let mut s: Scope<(), ()> = Scope::new();
    s.define_function("sqrt", 1, true, ());
    s.define_function("atan2", 2, true, ());
    s.define_function("pi", 0, true, ());
    s.define_function("sum3", 3, true, ());
    s.define_function("counter", 0, false, ());
    s.define_variable("x", ());
    s.define_variable("y", ());
    s
}

fn op_name(op: BinOp) -> &'static str {
    match op {
        BinOp::Add => "add",
        BinOp::Sub => "sub",
        BinOp::Mul => "mul",
        BinOp::Div => "div",
        BinOp::Mod => "mod",
        BinOp::Pow => "pow",
        BinOp::Comma => "comma",
    }
}

fn render(src: &str, n: &Node) -> String {
    match n {
        Node::Num(s, e) => src[*s..*e].to_string(),
        Node::Var(v) => format!("v{v}"),
        Node::Neg(a) => format!("(neg {})", render(src, a)),
        Node::Bin(op, a, b) => format!("({} {} {})", op_name(*op), render(src, a), render(src, b)),
        Node::Call(f, p, args) => {
            let mut out = format!("(f{f}{}", if *p { "" } else { "!" });
            for a in args {
                out.push(' ');
                out.push_str(&render(src, a));
            }
            out.push(')');
            out
        }
        Node::Folded(a) => format!("[{}]", render(src, a)),
    }
}

fn tree(src: &str) -> String {
    render(src, &parse_tree(src, &scope()).unwrap())
}

fn compiled(src: &str) -> String {
    render(src, &parse(src, &scope()).unwrap())
}

#[test]
fn operator_precedence() {
    assert_eq!(tree("3+2*4"), "(add 3 (mul 2 4))");
    assert_eq!(tree("3+2-4"), "(sub (add 3 2) 4)");
    assert_eq!(tree("3.0/2.0*4.0"), "(mul (div 3.0 2.0) 4.0)");
    assert_eq!(tree("10 % 3"), "(mod 10 3)");
    assert_eq!(tree("(((2+(1))))"), "(add 2 1)");
    assert_eq!(tree("  ( 1 + 2 ) * ( 3 - 1 )  "), "(mul (add 1 2) (sub 3 1))");
    assert_eq!(tree("\tx\n*\r2"), "(mul v0 2)");
}

#[test]
fn power_is_left_associative_and_below_negation() {
    assert_eq!(tree("2^2^3"), "(pow (pow 2 2) 3)");
    assert_eq!(tree("-2^2"), "(pow (neg 2) 2)");
    assert_eq!(tree("2^-2"), "(pow 2 (neg 2))");
    assert_eq!(tree("-2^-2"), "(pow (neg 2) (neg 2))");
    assert_eq!(tree("--2"), "2");
    assert_eq!(tree("---2"), "(neg 2)");
    assert_eq!(tree("+-+2"), "(neg 2)");
    assert_eq!(tree("-(-2)"), "(neg (neg 2))");
}

#[test]
fn unary_functions_take_a_power() {
    assert_eq!(tree("sqrt 100"), "(f0 100)");
    assert_eq!(tree("sqrt(100)"), "(f0 100)");
    assert_eq!(tree("sqrt (100)"), "(f0 100)");
    assert_eq!(tree("sqrt 100 + 1"), "(add (f0 100) 1)");
    assert_eq!(tree("sqrt x^2"), "(pow (f0 v0) 2)");
    assert_eq!(tree("-sqrt(100)"), "(neg (f0 100))");
}

#[test]
fn calls_of_other_arities() {
    assert_eq!(tree("pi"), "(f2)");
    assert_eq!(tree("pi()"), "(f2)");
    assert_eq!(tree("atan2(1, x)"), "(f1 1 v0)");
    assert_eq!(parse_tree("atan2(1,2,)", &scope()).unwrap_err().position, 10);
    assert_eq!(tree("sum3(1,2,3)"), "(f3 1 2 3)");
    assert_eq!(tree("counter()"), "(f4!)");
}

#[test]
fn comma_lists() {
    assert_eq!(tree("1,2"), "(comma 1 2)");
    assert_eq!(tree("1,2,3"), "(comma (comma 1 2) 3)");
    assert_eq!(tree("(1,2),3"), "(comma (comma 1 2) 3)");
}

#[test]
fn number_literals() {
    assert_eq!(tree("1e3"), "1e3");
    assert_eq!(tree("2.5E-3"), "2.5E-3");
    assert_eq!(tree(".5"), ".5");
    assert_eq!(tree("7."), "7.");
    assert_eq!(parse_tree("1e+", &scope()).unwrap_err().position, 1);
    assert_eq!(parse_tree("1e", &scope()).unwrap_err().position, 1);
}

#[test]
fn constant_subtrees_are_folded() {
    assert_eq!(compiled("1"), "1");
    assert_eq!(compiled("1+2"), "[(add 1 2)]");
    assert_eq!(compiled("-2"), "[(neg 2)]");
    assert_eq!(compiled("x+1*2"), "(add v0 [(mul 1 2)])");
    assert_eq!(compiled("sqrt(x^2+y^2)"), "(f0 (add (pow v0 2) (pow v1 2)))");
    assert_eq!(compiled("atan2(1,2)+pi"), "[(add (f1 1 2) (f2))]");
    assert_eq!(compiled("atan2(x,2*3)"), "(f1 v0 [(mul 2 3)])");
    assert_eq!(compiled("1,x"), "(comma 1 v0)");
    assert_eq!(
        compiled("sqrt(5^2+7^2+11^2+(8-2)^2)"),
        "[(f0 (add (add (add (pow 5 2) (pow 7 2)) (pow 11 2)) (pow (sub 8 2) 2)))]"
    );
}

#[test]
fn impure_calls_are_not_folded() {
    assert_eq!(compiled("counter()"), "(f4!)");
    assert_eq!(compiled("counter()+1"), "(add (f4!) 1)");
    assert_eq!(compiled("sum3(1,counter(),2^2)"), "(f3 1 (f4!) [(pow 2 2)])");
}

#[test]
fn compiling_a_compiled_tree_changes_nothing() {
    for src in [
        "1",
        "x",
        "1+2",
        "x+1*2",
        "sqrt(x^2+y^2)",
        "atan2(1,2)+pi",
        "sum3(1,counter(),2^2)",
        "-(x*2^3)",
    ] {
        let once = parse(src, &scope()).unwrap();
        let again = optimize(parse(src, &scope()).unwrap());
        assert_eq!(render(src, &again), render(src, &once), "{src}");
    }
}

#[test]
fn nullary_call_takes_one_pair_of_parentheses() {
    assert_eq!(tree("pi"), tree("pi()"));
    assert_eq!(parse("pi()()", &scope()).unwrap_err().position, 4);
    assert_eq!(parse("pi ( ) ( )", &scope()).unwrap_err().position, 6);
}
