use vstd::prelude::*;

use crate::scope::ScopeModel;

verus! {

/// The binary operators of the grammar; `Comma` evaluates both operands and
/// yields the right one.
#[derive(Debug, Clone, Copy, PartialEq, Eq, Structural)]
pub enum BinOp {
    Add,
    Sub,
    Mul,
    Div,
    Mod,
    Pow,
    Comma,
}

/// The mathematical model of a syntax tree.
#[verifier::ext_equal]
pub enum Ast {
    Num(usize, usize),
    Var(usize),
    Neg(Box<Ast>),
    Bin(BinOp, Box<Ast>, Box<Ast>),
    Call(usize, bool, Seq<Ast>),
    Folded(Box<Ast>),
}

/// A syntax tree.
#[derive(Debug)]
pub enum Node {
    /// A numeric literal, by the byte range `start..end` of its text.
    Num(usize, usize),
    /// A variable, by its slot index in the scope.
    Var(usize),
    Neg(Box<Node>),
    Bin(BinOp, Box<Node>, Box<Node>),
    /// A call of the function with the given index; the flag says whether
    /// the function is pure.
    Call(usize, bool, Vec<Node>),
    /// A constant subtree, to be evaluated once when the expression is
    /// compiled.
    Folded(Box<Node>),
}

impl Node {
    pub open spec fn model(self) -> Ast
        decreases self,
    {
        match self {
            Node::Num(s, e) => Ast::Num(s, e),
            Node::Var(v) => Ast::Var(v),
            Node::Neg(a) => Ast::Neg(Box::new(a.model())),
            Node::Bin(op, a, b) => Ast::Bin(op, Box::new(a.model()), Box::new(b.model())),
            Node::Call(f, p, args) => Ast::Call(
                f,
                p,
                Seq::new(
                    args@.len(),
                    |i: int|
                        if 0 <= i < args@.len() {
                            args@[i].model()
                        } else {
                            Ast::Var(0)
                        },
                ),
            ),
            Node::Folded(a) => Ast::Folded(Box::new(a.model())),
        }
    }
}

/// Whether a tree has no folded subtree (as every tree fresh from the
/// parser).
pub open spec fn plain(a: Ast) -> bool
    decreases a,
{
    match a {
        Ast::Num(..) => true,
        Ast::Var(..) => true,
        Ast::Neg(x) => plain(*x),
        Ast::Bin(_, x, y) => plain(*x) && plain(*y),
        Ast::Call(_, _, args) => forall|i: int| 0 <= i < args.len() ==> plain(#[trigger] args[i]),
        Ast::Folded(..) => false,
    }
}

/// Whether a tree is constant: it reads no variable and calls only pure
/// functions, so that its value can be computed once.
pub open spec fn is_constant(a: Ast) -> bool
    decreases a,
{
    match a {
        Ast::Num(..) => true,
        Ast::Var(..) => false,
        Ast::Neg(x) => is_constant(*x),
        Ast::Bin(_, x, y) => is_constant(*x) && is_constant(*y),
        Ast::Call(_, pure, args) => pure && forall|i: int|
            0 <= i < args.len() ==> is_constant(#[trigger] args[i]),
        Ast::Folded(..) => true,
    }
}

/// Whether every numeric literal of a tree is a nonempty byte range within
/// the first `len` bytes of the expression.
pub open spec fn literals_within(a: Ast, len: int) -> bool
    decreases a,
{
    match a {
        Ast::Num(s, e) => s < e <= len,
        Ast::Var(..) => true,
        Ast::Neg(x) => literals_within(*x, len),
        Ast::Bin(_, x, y) => literals_within(*x, len) && literals_within(*y, len),
        Ast::Call(_, _, args) => forall|i: int|
            0 <= i < args.len() ==> literals_within(#[trigger] args[i], len),
        Ast::Folded(x) => literals_within(*x, len),
    }
}

/// Whether every name in a tree refers to an entry of `scope`: each
/// variable to an existing slot, and each call to an existing function
/// whose arity is the number of arguments and whose purity flag it carries.
pub open spec fn bound_in(a: Ast, scope: ScopeModel) -> bool
    decreases a,
{
    match a {
        Ast::Num(..) => true,
        Ast::Var(v) => v < scope.variables.len(),
        Ast::Neg(x) => bound_in(*x, scope),
        Ast::Bin(_, x, y) => bound_in(*x, scope) && bound_in(*y, scope),
        Ast::Call(f, p, args) => {
            &&& f < scope.functions.len()
            &&& scope.functions[f as int].1 == args.len()
            &&& scope.functions[f as int].2 == p
            &&& forall|i: int| 0 <= i < args.len() ==> bound_in(#[trigger] args[i], scope)
        },
        Ast::Folded(x) => bound_in(*x, scope),
    }
}

/// The models of a sequence of trees.
pub open spec fn args_model(args: Seq<Node>) -> Seq<Ast> {
    Seq::new(
        args.len(),
        |i: int|
            if 0 <= i < args.len() {
                args[i].model()
            } else {
                Ast::Var(0)
            },
    )
}

/// The model of a call is the call of the models of its arguments.
pub proof fn lemma_call_model(f: usize, p: bool, args: Vec<Node>)
    ensures
        Node::Call(f, p, args)@ == Ast::Call(f, p, args_model(args@)),
{
    let n = Node::Call(f, p, args);
    if let Ast::Call(_, _, s) = n.model() {
        assert(s =~= args_model(args@));
    }
}

impl View for Node {
    type V = Ast;

    open spec fn view(&self) -> Ast {
        self.model()
    }
}

} // verus!
