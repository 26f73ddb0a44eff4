use vstd::prelude::*;

use crate::ast::{
    Ast, Node, args_model, bound_in, is_constant, lemma_call_model, literals_within, plain,
};
use crate::scope::ScopeModel;

verus! {

/// The compiled form of a tree: every maximal constant subtree that is not
/// already a literal is marked as folded, to be evaluated once; the rest is
/// kept as it is.
pub open spec fn fold(a: Ast) -> Ast
    decreases a,
{
    if a is Num || a is Var || a is Folded {
        a
    } else if is_constant(a) {
        Ast::Folded(Box::new(a))
    } else {
        match a {
            Ast::Neg(x) => Ast::Neg(Box::new(fold(*x))),
            Ast::Bin(op, x, y) => Ast::Bin(op, Box::new(fold(*x)), Box::new(fold(*y))),
            Ast::Call(f, p, args) => Ast::Call(
                f,
                p,
                Seq::new(
                    args.len(),
                    |i: int|
                        if 0 <= i < args.len() {
                            fold(args[i])
                        } else {
                            Ast::Var(0)
                        },
                ),
            ),
            _ => a,
        }
    }
}

/// The subtree under a folding mark, or the tree itself.
pub open spec fn peel(a: Ast) -> Ast {
    match a {
        Ast::Folded(x) => *x,
        _ => a,
    }
}

/// Whether a tree is a literal or a folded subtree: what a constant tree
/// compiles to.
pub open spec fn settled_form(a: Ast) -> bool {
    a is Num || a is Folded
}

/// Whether a tree is in compiled form, as `fold` leaves a plain tree: every
/// folding mark wraps a plain constant tree that is not a literal, and no
/// operator or call is left whose operands are all literals or folded
/// subtrees (for a call, of a pure function).
pub open spec fn in_compiled_form(a: Ast) -> bool
    decreases a,
{
    match a {
        Ast::Num(..) => true,
        Ast::Var(..) => true,
        Ast::Folded(x) => plain(*x) && is_constant(*x) && !(*x is Num),
        Ast::Neg(x) => in_compiled_form(*x) && !settled_form(*x),
        Ast::Bin(_, x, y) => {
            &&& in_compiled_form(*x)
            &&& in_compiled_form(*y)
            &&& !(settled_form(*x) && settled_form(*y))
        },
        Ast::Call(_, p, args) => (forall|i: int|
            0 <= i < args.len() ==> in_compiled_form(#[trigger] args[i])) && !(p && forall|i: int|
            0 <= i < args.len() ==> settled_form(#[trigger] args[i])),
    }
}

/// A tree in compiled form is constant exactly when it is a literal or a
/// folded subtree.
pub proof fn lemma_compiled_constancy(a: Ast)
    requires
        in_compiled_form(a),
    ensures
        is_constant(a) <==> settled_form(a),
    decreases a,
{
    match a {
        Ast::Neg(x) => lemma_compiled_constancy(*x),
        Ast::Bin(_, x, y) => {
            lemma_compiled_constancy(*x);
            lemma_compiled_constancy(*y);
        },
        Ast::Call(_, p, args) => {
            assert forall|i: int| 0 <= i < args.len() implies (is_constant(#[trigger] args[i])
                <==> settled_form(args[i])) by {
                lemma_compiled_constancy(args[i]);
            }
        },
        _ => {},
    }
}

/// Folding leaves a tree in compiled form as it is.
pub proof fn lemma_fold_compiled(a: Ast)
    requires
        in_compiled_form(a),
    ensures
        fold(a) == a,
    decreases a,
{
    lemma_compiled_constancy(a);
    match a {
        Ast::Neg(x) => lemma_fold_compiled(*x),
        Ast::Bin(_, x, y) => {
            lemma_fold_compiled(*x);
            lemma_fold_compiled(*y);
        },
        Ast::Call(f, p, args) => {
            lemma_fold_call(f, p, args);
            if let Ast::Call(_, _, s) = fold(a) {
                assert forall|i: int| 0 <= i < args.len() implies #[trigger] s[i] == args[i] by {
                    lemma_fold_compiled(args[i]);
                }
                assert(s =~= args);
            }
        },
        _ => {},
    }
}

/// The compiled form of a plain tree is in compiled form.
pub proof fn lemma_fold_is_compiled(a: Ast)
    requires
        plain(a),
    ensures
        in_compiled_form(fold(a)),
    decreases a,
{
    if !is_constant(a) {
        match a {
            Ast::Neg(x) => {
                lemma_fold_is_compiled(*x);
                lemma_fold_settled(*x);
            },
            Ast::Bin(_, x, y) => {
                lemma_fold_is_compiled(*x);
                lemma_fold_is_compiled(*y);
                lemma_fold_settled(*x);
                lemma_fold_settled(*y);
            },
            Ast::Call(f, p, args) => {
                lemma_fold_call(f, p, args);
                if let Ast::Call(_, _, s) = fold(a) {
                    assert forall|i: int| 0 <= i < s.len() implies in_compiled_form(#[trigger] s[i]) && (
                    settled_form(s[i]) <==> is_constant(args[i])) by {
                        lemma_fold_is_compiled(args[i]);
                        lemma_fold_settled(args[i]);
                    }
                    if p && forall|i: int| 0 <= i < s.len() ==> settled_form(#[trigger] s[i]) {
                        assert forall|i: int| 0 <= i < args.len() implies is_constant(
                            #[trigger] args[i],
                        ) by {
                            assert(settled_form(s[i]));
                        }
                    }
                }
            },
            _ => {},
        }
    }
}

/// A plain tree or a tree in compiled form is constant exactly when its
/// compiled form is a literal or a folded subtree; a constant plain tree is
/// what that form wraps, and a tree in compiled form is its own compiled
/// form.
pub proof fn lemma_fold_settled(a: Ast)
    requires
        plain(a) || in_compiled_form(a),
    ensures
        is_constant(a) <==> settled_form(fold(a)),
        plain(a) && is_constant(a) ==> peel(fold(a)) == a,
        in_compiled_form(a) ==> fold(a) == a,
{
    if in_compiled_form(a) {
        lemma_fold_compiled(a);
        lemma_compiled_constancy(a);
    }
}

fn settled(n: &Node) -> (r: bool)
    ensures
        r == (n@ is Num || n@ is Folded),
{
    match n {
        Node::Num(..) => true,
        Node::Folded(..) => true,
        _ => false,
    }
}

fn unwrap_folded(n: Node) -> (r: Node)
    ensures
        r@ == peel(n@),
{
    match n {
        Node::Folded(x) => *x,
        other => other,
    }
}

/// Compiles a plain tree: marks its maximal constant subtrees as folded. A
/// tree already in compiled form is returned as it is.
pub fn optimize(n: Node) -> (r: Node)
    requires
        plain(n@) || in_compiled_form(n@),
    ensures
        r@ == fold(n@),
        in_compiled_form(r@),
        in_compiled_form(n@) ==> r@ == n@,
    decreases n,
{
    proof {
        lemma_fold_settled(n@);
        if plain(n@) {
            lemma_fold_is_compiled(n@);
        }
    }
    let ghost whole = n;
    match n {
        Node::Num(..) => n,
        Node::Var(..) => n,
        Node::Folded(..) => n,
        Node::Neg(a) => {
            assert(whole@ == Ast::Neg(Box::new(a@)));
            proof {
                lemma_fold_settled(a@);
            }
            let a2 = optimize(*a);
            if settled(&a2) {
                let inner = Node::Neg(Box::new(unwrap_folded(a2)));
                assert(inner@ == whole@);
                Node::Folded(Box::new(inner))
            } else {
                Node::Neg(Box::new(a2))
            }
        },
        Node::Bin(op, a, b) => {
            assert(whole@ == Ast::Bin(op, Box::new(a@), Box::new(b@)));
            proof {
                lemma_fold_settled(a@);
                lemma_fold_settled(b@);
            }
            let a2 = optimize(*a);
            let b2 = optimize(*b);
            if settled(&a2) && settled(&b2) {
                let inner = Node::Bin(op, Box::new(unwrap_folded(a2)), Box::new(unwrap_folded(b2)));
                assert(inner@ == whole@);
                Node::Folded(Box::new(inner))
            } else {
                Node::Bin(op, Box::new(a2), Box::new(b2))
            }
        },
        Node::Call(f, p, args) => {
            let ghost orig = args@;
            let ghost gargs = args;
            proof {
                lemma_call_model(f, p, args);
                assert forall|k: int| 0 <= k < orig.len() implies plain(#[trigger] orig[k]@)
                    || in_compiled_form(orig[k]@) by {
                    assert(args_model(orig)[k] == orig[k]@);
                }
            }
            let len = args.len();
            let mut rest = args;
            let mut rev: Vec<Node> = Vec::new();
            let mut all_const = true;
            assert(orig.subrange(0, orig.len() as int) =~= orig);
            while rest.len() > 0
                invariant
                    whole == n,
                    whole == Node::Call(f, p, gargs),
                    gargs@ == orig,
                    len == orig.len(),
                    rest@ == orig.subrange(0, rest@.len() as int),
                    rev@.len() + rest@.len() == len,
                    forall|k: int|
                        0 <= k < orig.len() ==> plain(#[trigger] orig[k]@) || in_compiled_form(orig[k]@),
                    forall|k: int|
                        0 <= k < rev@.len() ==> #[trigger] rev@[k]@ == fold(orig[len - 1 - k]@),
                    all_const == (forall|k: int|
                        0 <= k < rev@.len() ==> is_constant(#[trigger] orig[len - 1 - k]@)),
                decreases rest@.len(),
            {
                let ghost before = rest@;
                let x = rest.pop().unwrap();
                proof {
                    assert(before[before.len() - 1] == orig[before.len() - 1]);
                    assert(x == orig[rest@.len() as int]);
                    assert(decreases_to!(whole => whole->Call_2));
                    assert(whole->Call_2 == gargs);
                    assert(decreases_to!(gargs => gargs@));
                    assert(decreases_to!(gargs@ => gargs@[rest@.len() as int]));
                    assert(decreases_to!(whole => x));
                    lemma_fold_settled(x@);
                }
                let y = optimize(x);
                let ghost was_const = all_const;
                let ghost idx = rest@.len() as int;
                if !settled(&y) {
                    all_const = false;
                }
                rev.push(y);
                proof {
                    assert(len - 1 - (rev@.len() - 1) == idx);
                    assert forall|k: int| 0 <= k < rev@.len() implies #[trigger] rev@[k]@ == fold(
                        orig[len - 1 - k]@,
                    ) by {
                        if k == rev@.len() - 1 {
                            assert(rev@[k] == y);
                        }
                    }
                    if all_const {
                        assert forall|k: int| 0 <= k < rev@.len() implies is_constant(
                            #[trigger] orig[len - 1 - k]@,
                        ) by {
                            if k < rev@.len() - 1 {
                                assert(was_const);
                            }
                        }
                    } else if was_const {
                        let k = rev@.len() - 1;
                        assert(!is_constant(orig[len - 1 - k]@));
                    } else {
                        let k = choose|k: int|
                            0 <= k < rev@.len() - 1 && !is_constant(#[trigger] orig[len - 1 - k]@);
                        assert(!is_constant(orig[len - 1 - k]@));
                    }
                }
            }
            let ghost whole_model = whole@;
            assert(whole_model == Ast::Call(f, p, args_model(orig)));
            let fold_now = p && all_const;
            proof {
                if all_const {
                    assert forall|k: int| 0 <= k < len implies is_constant(#[trigger] orig[k]@) by {
                        assert(orig[len - 1 - (len - 1 - k)] == orig[k]);
                    }
                }
                if fold_now {
                    assert(plain(whole_model)) by {
                        if in_compiled_form(whole_model) {
                            lemma_compiled_constancy(whole_model);
                            assert forall|i: int| 0 <= i < args_model(orig).len() implies is_constant(
                                #[trigger] args_model(orig)[i],
                            ) by {
                                assert(args_model(orig)[i] == orig[i]@);
                            }
                        }
                    }
                    assert forall|k: int| 0 <= k < orig.len() implies plain(#[trigger] orig[k]@) by {
                        assert(args_model(orig)[k] == orig[k]@);
                    }
                }
                assert(is_constant(whole_model) == fold_now) by {
                    if is_constant(whole_model) {
                        assert forall|k: int| 0 <= k < rev@.len() implies is_constant(
                            #[trigger] orig[len - 1 - k]@,
                        ) by {
                            assert(args_model(orig)[len - 1 - k] == orig[len - 1 - k]@);
                        }
                    }
                    if fold_now {
                        assert forall|i: int| 0 <= i < args_model(orig).len() implies is_constant(
                            #[trigger] args_model(orig)[i],
                        ) by {
                            assert(args_model(orig)[i] == orig[i]@);
                        }
                    }
                }
            }
            let mut out: Vec<Node> = Vec::new();
            while rev.len() > 0
                invariant
                    len == orig.len(),
                    rev@.len() + out@.len() == len,
                    fold_now ==> forall|k: int| 0 <= k < orig.len() ==> plain(#[trigger] orig[k]@),
                    forall|k: int|
                        0 <= k < orig.len() ==> plain(#[trigger] orig[k]@) || in_compiled_form(orig[k]@),
                    forall|k: int|
                        0 <= k < rev@.len() ==> #[trigger] rev@[k]@ == fold(orig[len - 1 - k]@),
                    forall|k: int|
                        0 <= k < out@.len() ==> #[trigger] out@[k]@ == (if fold_now {
                            orig[k]@
                        } else {
                            fold(orig[k]@)
                        }),
                    fold_now ==> forall|k: int| 0 <= k < len ==> is_constant(#[trigger] orig[k]@),
                decreases rev@.len(),
            {
                let ghost at = out@.len() as int;
                let ghost before = rev@;
                let y = rev.pop().unwrap();
                proof {
                    assert(y == before[before.len() - 1]);
                    assert(len - 1 - (before.len() - 1) == at);
                    assert(y@ == fold(orig[at]@));
                    lemma_fold_settled(orig[at]@);
                }
                let z = if fold_now {
                    unwrap_folded(y)
                } else {
                    y
                };
                out.push(z);
                proof {
                    assert forall|k: int| 0 <= k < out@.len() implies #[trigger] out@[k]@ == (if fold_now {
                        orig[k]@
                    } else {
                        fold(orig[k]@)
                    }) by {
                        if k == at {
                            assert(out@[k] == z);
                        }
                    }
                }
            }
            proof {
                lemma_call_model(f, p, out);
            }
            if fold_now {
                assert forall|i: int| 0 <= i < orig.len() implies args_model(out@)[i] == args_model(
                    orig,
                )[i] by {
                    assert(out@[i]@ == orig[i]@);
                }
                assert(args_model(out@) =~= args_model(orig));
                let r = Node::Folded(Box::new(Node::Call(f, p, out)));
                assert(r@ == Ast::Folded(Box::new(whole_model)));
                assert(fold(whole_model) == Ast::Folded(Box::new(whole_model)));
                r
            } else {
                assert forall|i: int| 0 <= i < orig.len() implies args_model(out@)[i] == fold(
                    args_model(orig)[i],
                ) by {
                    assert(out@[i]@ == fold(orig[i]@));
                }
                proof {
                    assert(!is_constant(whole_model));
                    lemma_fold_call(f, p, args_model(orig));
                    if let Ast::Call(_, _, folded_args) = fold(whole_model) {
                        assert(folded_args =~= args_model(out@));
                    }
                }
                Node::Call(f, p, out)
            }
        },
    }
}

} // verus!

verus! {

/// Unfolding a call that is not constant folds its arguments one by one.
pub proof fn lemma_fold_call(f: usize, p: bool, args: Seq<Ast>)
    requires
        !is_constant(Ast::Call(f, p, args)),
    ensures
        fold(Ast::Call(f, p, args)) matches Ast::Call(g, q, s) && g == f && q == p && s.len()
            == args.len() && forall|i: int| 0 <= i < args.len() ==> s[i] == fold(args[i]),
{
}

/// The tree without its folding marks.
pub open spec fn strip(a: Ast) -> Ast
    decreases a,
{
    match a {
        Ast::Folded(x) => strip(*x),
        Ast::Neg(x) => Ast::Neg(Box::new(strip(*x))),
        Ast::Bin(op, x, y) => Ast::Bin(op, Box::new(strip(*x)), Box::new(strip(*y))),
        Ast::Call(f, p, args) => Ast::Call(
            f,
            p,
            Seq::new(
                args.len(),
                |i: int|
                    if 0 <= i < args.len() {
                        strip(args[i])
                    } else {
                        Ast::Var(0)
                    },
            ),
        ),
        _ => a,
    }
}

/// Every folded subtree is constant: no variable is read and no impure
/// function is called inside one.
pub open spec fn folds_only_constants(a: Ast) -> bool
    decreases a,
{
    match a {
        Ast::Folded(x) => is_constant(*x),
        Ast::Neg(x) => folds_only_constants(*x),
        Ast::Bin(_, x, y) => folds_only_constants(*x) && folds_only_constants(*y),
        Ast::Call(_, _, args) => forall|i: int|
            0 <= i < args.len() ==> folds_only_constants(#[trigger] args[i]),
        _ => true,
    }
}

/// No constant subtree is left unfolded, apart from literals.
pub open spec fn fully_folded(a: Ast) -> bool
    decreases a,
{
    match a {
        Ast::Neg(x) => !is_constant(a) && fully_folded(*x),
        Ast::Bin(_, x, y) => !is_constant(a) && fully_folded(*x) && fully_folded(*y),
        Ast::Call(_, _, args) => !is_constant(a) && forall|i: int|
            0 <= i < args.len() ==> fully_folded(#[trigger] args[i]),
        _ => true,
    }
}

proof fn lemma_strip_plain(a: Ast)
    requires
        plain(a),
    ensures
        strip(a) == a,
    decreases a,
{
    match a {
        Ast::Neg(x) => lemma_strip_plain(*x),
        Ast::Bin(_, x, y) => {
            lemma_strip_plain(*x);
            lemma_strip_plain(*y);
        },
        Ast::Call(f, p, args) => {
            assert forall|i: int| 0 <= i < args.len() implies strip(#[trigger] args[i]) == args[i] by {
                lemma_strip_plain(args[i]);
            }
            if let Ast::Call(_, _, s) = strip(a) {
                assert(s =~= args);
            }
        },
        _ => {},
    }
}

/// Folding keeps whether a plain tree is constant.
pub proof fn lemma_fold_keeps_constancy(a: Ast)
    requires
        plain(a),
    ensures
        is_constant(fold(a)) == is_constant(a),
    decreases a,
{
    if !is_constant(a) {
        match a {
            Ast::Neg(x) => lemma_fold_keeps_constancy(*x),
            Ast::Bin(_, x, y) => {
                lemma_fold_keeps_constancy(*x);
                lemma_fold_keeps_constancy(*y);
            },
            Ast::Call(f, p, args) => {
                lemma_fold_call(f, p, args);
                if let Ast::Call(_, _, s) = fold(a) {
                    if p {
                        let i = choose|i: int| 0 <= i < args.len() && !is_constant(#[trigger] args[i]);
                        lemma_fold_keeps_constancy(args[i]);
                        assert(!is_constant(s[i]));
                    }
                }
            },
            _ => {},
        }
    }
}

/// Folding only marks subtrees: erasing the marks gives back the tree.
pub proof fn lemma_strip_fold(a: Ast)
    requires
        plain(a),
    ensures
        strip(fold(a)) == a,
    decreases a,
{
    if is_constant(a) {
        lemma_strip_plain(a);
    } else {
        match a {
            Ast::Neg(x) => lemma_strip_fold(*x),
            Ast::Bin(_, x, y) => {
                lemma_strip_fold(*x);
                lemma_strip_fold(*y);
            },
            Ast::Call(f, p, args) => {
                lemma_fold_call(f, p, args);
                if let Ast::Call(_, _, s) = fold(a) {
                    assert forall|i: int| 0 <= i < args.len() implies strip(#[trigger] s[i])
                        == args[i] by {
                        lemma_strip_fold(args[i]);
                    }
                    if let Ast::Call(_, _, t) = strip(fold(a)) {
                        assert(t =~= args);
                    }
                }
            },
            _ => {},
        }
    }
}

/// Folding twice is folding once.
pub proof fn lemma_fold_idempotent(a: Ast)
    requires
        plain(a),
    ensures
        fold(fold(a)) == fold(a),
    decreases a,
{
    lemma_fold_keeps_constancy(a);
    if !is_constant(a) {
        match a {
            Ast::Neg(x) => {
                lemma_fold_idempotent(*x);
            },
            Ast::Bin(_, x, y) => {
                lemma_fold_idempotent(*x);
                lemma_fold_idempotent(*y);
            },
            Ast::Call(f, p, args) => {
                lemma_fold_call(f, p, args);
                if let Ast::Call(_, _, s) = fold(a) {
                    lemma_fold_call(f, p, s);
                    assert forall|i: int| 0 <= i < args.len() implies fold(#[trigger] s[i]) == s[i] by {
                        lemma_fold_idempotent(args[i]);
                    }
                    if let Ast::Call(_, _, t) = fold(fold(a)) {
                        assert(t =~= s);
                    }
                }
            },
            _ => {},
        }
    }
}

/// The compiled tree folds exactly the maximal constant subtrees: every
/// folded subtree is constant, and no constant subtree other than a literal
/// is left unfolded.
pub proof fn lemma_fold_exact(a: Ast)
    requires
        plain(a),
    ensures
        folds_only_constants(fold(a)),
        fully_folded(fold(a)),
    decreases a,
{
    lemma_fold_keeps_constancy(a);
    if !is_constant(a) {
        match a {
            Ast::Neg(x) => lemma_fold_exact(*x),
            Ast::Bin(_, x, y) => {
                lemma_fold_exact(*x);
                lemma_fold_exact(*y);
            },
            Ast::Call(f, p, args) => {
                lemma_fold_call(f, p, args);
                if let Ast::Call(_, _, s) = fold(a) {
                    assert forall|i: int| 0 <= i < s.len() implies folds_only_constants(#[trigger] s[i])
                        && fully_folded(s[i]) by {
                        lemma_fold_exact(args[i]);
                    }
                }
            },
            _ => {},
        }
    }
}

/// Folding changes no leaf: the literals and names of the compiled tree
/// are those of the tree.
pub proof fn lemma_fold_keeps_leaves(a: Ast, len: int, scope: ScopeModel)
    requires
        plain(a),
    ensures
        literals_within(a, len) ==> literals_within(fold(a), len),
        bound_in(a, scope) ==> bound_in(fold(a), scope),
    decreases a,
{
    if !is_constant(a) {
        match a {
            Ast::Neg(x) => lemma_fold_keeps_leaves(*x, len, scope),
            Ast::Bin(_, x, y) => {
                lemma_fold_keeps_leaves(*x, len, scope);
                lemma_fold_keeps_leaves(*y, len, scope);
            },
            Ast::Call(f, p, args) => {
                lemma_fold_call(f, p, args);
                if let Ast::Call(_, _, s) = fold(a) {
                    assert forall|i: int| 0 <= i < s.len() implies (literals_within(args[i], len)
                        ==> literals_within(#[trigger] s[i], len)) && (bound_in(args[i], scope)
                        ==> bound_in(s[i], scope)) by {
                        lemma_fold_keeps_leaves(args[i], len, scope);
                    }
                }
            },
            _ => {},
        }
    }
}

} // verus!
