use vstd::prelude::*;

verus! {

/// The built-in functions, in the order in which a context defines them.
#[derive(Debug, Clone, Copy, PartialEq, Eq, Structural)]
pub enum Builtin {
    Abs,
    Acos,
    Asin,
    Atan,
    Atan2,
    Ceil,
    Cos,
    Cosh,
    E,
    Exp,
    Fac,
    Floor,
    Ln,
    Log,
    Log10,
    Ncr,
    Npr,
    Pi,
    Pow,
    Sin,
    Sinh,
    Sqrt,
    Tan,
    Tanh,
}

/// The name by which an expression calls a built-in function.
pub open spec fn builtin_name(b: Builtin) -> Seq<char> {
    match b {
        Builtin::Abs => "abs"@,
        Builtin::Acos => "acos"@,
        Builtin::Asin => "asin"@,
        Builtin::Atan => "atan"@,
        Builtin::Atan2 => "atan2"@,
        Builtin::Ceil => "ceil"@,
        Builtin::Cos => "cos"@,
        Builtin::Cosh => "cosh"@,
        Builtin::E => "e"@,
        Builtin::Exp => "exp"@,
        Builtin::Fac => "fac"@,
        Builtin::Floor => "floor"@,
        Builtin::Ln => "ln"@,
        Builtin::Log => "log"@,
        Builtin::Log10 => "log10"@,
        Builtin::Ncr => "ncr"@,
        Builtin::Npr => "npr"@,
        Builtin::Pi => "pi"@,
        Builtin::Pow => "pow"@,
        Builtin::Sin => "sin"@,
        Builtin::Sinh => "sinh"@,
        Builtin::Sqrt => "sqrt"@,
        Builtin::Tan => "tan"@,
        Builtin::Tanh => "tanh"@,
    }
}

/// The number of arguments a built-in function takes.
pub open spec fn builtin_arity(b: Builtin) -> usize {
    match b {
        Builtin::E | Builtin::Pi => 0,
        Builtin::Atan2 | Builtin::Ncr | Builtin::Npr | Builtin::Pow => 2,
        _ => 1,
    }
}

/// The built-in functions in the order in which they are defined.
pub open spec fn builtin_order() -> Seq<Builtin> {
    seq![
        Builtin::Abs,
        Builtin::Acos,
        Builtin::Asin,
        Builtin::Atan,
        Builtin::Atan2,
        Builtin::Ceil,
        Builtin::Cos,
        Builtin::Cosh,
        Builtin::E,
        Builtin::Exp,
        Builtin::Fac,
        Builtin::Floor,
        Builtin::Ln,
        Builtin::Log,
        Builtin::Log10,
        Builtin::Ncr,
        Builtin::Npr,
        Builtin::Pi,
        Builtin::Pow,
        Builtin::Sin,
        Builtin::Sinh,
        Builtin::Sqrt,
        Builtin::Tan,
        Builtin::Tanh,
    ]
}

impl Builtin {
    /// The name by which an expression calls this function.
    pub fn name(&self) -> (r: &'static str)
        ensures
            r@ == builtin_name(*self),
    {
        match self {
            Builtin::Abs => "abs",
            Builtin::Acos => "acos",
            Builtin::Asin => "asin",
            Builtin::Atan => "atan",
            Builtin::Atan2 => "atan2",
            Builtin::Ceil => "ceil",
            Builtin::Cos => "cos",
            Builtin::Cosh => "cosh",
            Builtin::E => "e",
            Builtin::Exp => "exp",
            Builtin::Fac => "fac",
            Builtin::Floor => "floor",
            Builtin::Ln => "ln",
            Builtin::Log => "log",
            Builtin::Log10 => "log10",
            Builtin::Ncr => "ncr",
            Builtin::Npr => "npr",
            Builtin::Pi => "pi",
            Builtin::Pow => "pow",
            Builtin::Sin => "sin",
            Builtin::Sinh => "sinh",
            Builtin::Sqrt => "sqrt",
            Builtin::Tan => "tan",
            Builtin::Tanh => "tanh",
        }
    }

    /// The number of arguments this function takes.
    pub fn arity(&self) -> (r: usize)
        ensures
            r == builtin_arity(*self),
    {
        match self {
            Builtin::E | Builtin::Pi => 0,
            Builtin::Atan2 | Builtin::Ncr | Builtin::Npr | Builtin::Pow => 2,
            _ => 1,
        }
    }

    /// Whether this function is pure: every built-in function is, so that a
    /// call of it on constant arguments is folded.
    pub fn pure(&self) -> (r: bool)
        ensures
            r,
    {
        true
    }
}

/// The built-in functions, in the order in which a context defines them.
pub fn builtins() -> (r: Vec<Builtin>)
    ensures
        r@ == builtin_order(),
{
    let r = vec![
        Builtin::Abs,
        Builtin::Acos,
        Builtin::Asin,
        Builtin::Atan,
        Builtin::Atan2,
        Builtin::Ceil,
        Builtin::Cos,
        Builtin::Cosh,
        Builtin::E,
        Builtin::Exp,
        Builtin::Fac,
        Builtin::Floor,
        Builtin::Ln,
        Builtin::Log,
        Builtin::Log10,
        Builtin::Ncr,
        Builtin::Npr,
        Builtin::Pi,
        Builtin::Pow,
        Builtin::Sin,
        Builtin::Sinh,
        Builtin::Sqrt,
        Builtin::Tan,
        Builtin::Tanh,
    ];
    assert(r@ =~= builtin_order());
    r
}

/// Each built-in is called by its own name, the lower-case spelling of the
/// function it computes, and takes that function's number of arguments:
/// `sin`, `cos` and the others one, `atan2`, `ncr`, `npr` and `pow` two, and
/// the constants `e` and `pi` none.
pub proof fn lemma_builtin_spellings()
    ensures
        builtin_name(Builtin::Abs) == "abs"@ && builtin_arity(Builtin::Abs) == 1,
        builtin_name(Builtin::Acos) == "acos"@ && builtin_arity(Builtin::Acos) == 1,
        builtin_name(Builtin::Asin) == "asin"@ && builtin_arity(Builtin::Asin) == 1,
        builtin_name(Builtin::Atan) == "atan"@ && builtin_arity(Builtin::Atan) == 1,
        builtin_name(Builtin::Atan2) == "atan2"@ && builtin_arity(Builtin::Atan2) == 2,
        builtin_name(Builtin::Ceil) == "ceil"@ && builtin_arity(Builtin::Ceil) == 1,
        builtin_name(Builtin::Cos) == "cos"@ && builtin_arity(Builtin::Cos) == 1,
        builtin_name(Builtin::Cosh) == "cosh"@ && builtin_arity(Builtin::Cosh) == 1,
        builtin_name(Builtin::E) == "e"@ && builtin_arity(Builtin::E) == 0,
        builtin_name(Builtin::Exp) == "exp"@ && builtin_arity(Builtin::Exp) == 1,
        builtin_name(Builtin::Fac) == "fac"@ && builtin_arity(Builtin::Fac) == 1,
        builtin_name(Builtin::Floor) == "floor"@ && builtin_arity(Builtin::Floor) == 1,
        builtin_name(Builtin::Ln) == "ln"@ && builtin_arity(Builtin::Ln) == 1,
        builtin_name(Builtin::Log) == "log"@ && builtin_arity(Builtin::Log) == 1,
        builtin_name(Builtin::Log10) == "log10"@ && builtin_arity(Builtin::Log10) == 1,
        builtin_name(Builtin::Ncr) == "ncr"@ && builtin_arity(Builtin::Ncr) == 2,
        builtin_name(Builtin::Npr) == "npr"@ && builtin_arity(Builtin::Npr) == 2,
        builtin_name(Builtin::Pi) == "pi"@ && builtin_arity(Builtin::Pi) == 0,
        builtin_name(Builtin::Pow) == "pow"@ && builtin_arity(Builtin::Pow) == 2,
        builtin_name(Builtin::Sin) == "sin"@ && builtin_arity(Builtin::Sin) == 1,
        builtin_name(Builtin::Sinh) == "sinh"@ && builtin_arity(Builtin::Sinh) == 1,
        builtin_name(Builtin::Sqrt) == "sqrt"@ && builtin_arity(Builtin::Sqrt) == 1,
        builtin_name(Builtin::Tan) == "tan"@ && builtin_arity(Builtin::Tan) == 1,
        builtin_name(Builtin::Tanh) == "tanh"@ && builtin_arity(Builtin::Tanh) == 1,
{
}

/// No two built-in functions share a name, so defining them one after
/// another gives each an index of its own.
pub proof fn lemma_builtin_names_distinct(a: Builtin, b: Builtin)
    ensures
        builtin_name(a) == builtin_name(b) ==> a == b,
{
    reveal_strlit("abs");
    reveal_strlit("acos");
    reveal_strlit("asin");
    reveal_strlit("atan");
    reveal_strlit("atan2");
    reveal_strlit("ceil");
    reveal_strlit("cos");
    reveal_strlit("cosh");
    reveal_strlit("e");
    reveal_strlit("exp");
    reveal_strlit("fac");
    reveal_strlit("floor");
    reveal_strlit("ln");
    reveal_strlit("log");
    reveal_strlit("log10");
    reveal_strlit("ncr");
    reveal_strlit("npr");
    reveal_strlit("pi");
    reveal_strlit("pow");
    reveal_strlit("sin");
    reveal_strlit("sinh");
    reveal_strlit("sqrt");
    reveal_strlit("tan");
    reveal_strlit("tanh");
    let na = builtin_name(a);
    let nb = builtin_name(b);
    // Equal names agree on their length and on every character, and the
    // names of two different functions differ in one of them.
    if na == nb && a != b {
        assert(na.len() == nb.len());
        assert(na[0] == nb[0]);
        assert(na.len() > 1 ==> na[1] == nb[1]);
        assert(na.len() > 2 ==> na[2] == nb[2]);
        assert(na.len() > 3 ==> na[3] == nb[3]);
        assert(na.len() > 4 ==> na[4] == nb[4]);
    }
}

} // verus!
