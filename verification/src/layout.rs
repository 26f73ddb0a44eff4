use vstd::prelude::*;

use crate::ast::{Ast, is_constant};
use crate::fold::{fold, lemma_fold_call};
use crate::lexer::{
    InfixOp, Lexeme, Token, byte_at, digit_run, ident_run, is_alpha, is_blank, is_digit,
    is_ident_byte, lemma_lex, lemma_next_token, lex, lex_all, next_token, number_len, resolve,
};
use crate::parser::{
    Parsed, additive, arguments, at, bin, compiled, expr_tail, factor_tail, finish_call, list_tail,
    multiplicative, p_base, p_expr, p_factor, p_list, p_power, p_term, parse_lexemes, progressed,
    syntax_tree, term_tail, tok,
};
use crate::scope::{ScopeModel, Signature};

verus! {

/// The renumbering that moves every byte offset `d` bytes on.
pub open spec fn shift(d: nat) -> spec_fn(usize) -> usize {
    |x: usize| (x + d) as usize
}

/// A token whose byte offsets are renumbered by `f`.
pub open spec fn renumbered_token(tk: Token, f: spec_fn(usize) -> usize) -> Token {
    match tk {
        Token::Number(s, e) => Token::Number(f(s), f(e)),
        Token::Error(p) => Token::Error(f(p)),
        _ => tk,
    }
}

/// A lexeme whose byte offsets are renumbered by `f`.
pub open spec fn renumbered_lexeme(l: Lexeme, f: spec_fn(usize) -> usize) -> Lexeme {
    Lexeme { token: renumbered_token(l.token, f), position: f(l.position) }
}

/// A tree whose literal spans are renumbered by `f`: the same tree, read
/// from a text in which each literal stands at the offsets `f` gives.
pub open spec fn renumbered_tree(a: Ast, f: spec_fn(usize) -> usize) -> Ast
    decreases a,
{
    match a {
        Ast::Num(s, e) => Ast::Num(f(s), f(e)),
        Ast::Var(v) => Ast::Var(v),
        Ast::Neg(x) => Ast::Neg(Box::new(renumbered_tree(*x, f))),
        Ast::Bin(op, x, y) => Ast::Bin(
            op,
            Box::new(renumbered_tree(*x, f)),
            Box::new(renumbered_tree(*y, f)),
        ),
        Ast::Call(g, p, args) => Ast::Call(
            g,
            p,
            Seq::new(
                args.len(),
                |i: int|
                    if 0 <= i < args.len() {
                        renumbered_tree(args[i], f)
                    } else {
                        Ast::Var(0)
                    },
            ),
        ),
        Ast::Folded(x) => Ast::Folded(Box::new(renumbered_tree(*x, f))),
    }
}

pub open spec fn renumbered_trees(args: Seq<Ast>, f: spec_fn(usize) -> usize) -> Seq<Ast> {
    Seq::new(args.len(), |i: int| renumbered_tree(args[i], f))
}

/// A parse outcome read `m` lexemes further on, with offsets renumbered by
/// `f`.
pub open spec fn renumbered_parsed(r: Parsed, m: int, f: spec_fn(usize) -> usize) -> Parsed {
    match r {
        Ok((a, j)) => Ok((renumbered_tree(a, f), j + m)),
        Err(e) => Err(f(e)),
    }
}

/// A compile outcome with offsets renumbered by `f`.
pub open spec fn renumbered_outcome(r: Result<Ast, usize>, f: spec_fn(usize) -> usize) -> Result<
    Ast,
    usize,
> {
    match r {
        Ok(a) => Ok(renumbered_tree(a, f)),
        Err(e) => Err(f(e)),
    }
}

/// From index `m` on, `u` holds the tokens of `t` with their offsets
/// renumbered by `f`, except that where `t` ends, `u` may close a parenthesis.
pub open spec fn carries(
    t: Seq<Lexeme>,
    u: Seq<Lexeme>,
    m: int,
    f: spec_fn(usize) -> usize,
) -> bool {
    &&& 0 <= m
    &&& 1 <= t.len()
    &&& t.last().token is End
    &&& t.len() + m <= u.len()
    &&& forall|k: int|
        m <= k < t.len() - 1 + m ==> #[trigger] u[k].token == renumbered_token(t[k - m].token, f)
    &&& (u[t.len() - 1 + m].token is End || u[t.len() - 1 + m].token is Close)
}

/// `u` is `m` lexemes followed by those of `t`, every offset renumbered by
/// `f`.
pub open spec fn carries_exactly(
    t: Seq<Lexeme>,
    u: Seq<Lexeme>,
    m: int,
    f: spec_fn(usize) -> usize,
) -> bool {
    &&& carries(t, u, m, f)
    &&& u.len() == t.len() + m
    &&& u.last().token is End
    &&& forall|k: int| m <= k < u.len() ==> #[trigger] u[k].position == f(t[k - m].position)
}

/// What parsing `u` from an index `m` further on gives, next to what parsing
/// `t` gives: the same tree where `t` succeeds, and the same outcome where
/// `u` carries `t` exactly.
pub open spec fn follows(
    t: Seq<Lexeme>,
    u: Seq<Lexeme>,
    m: int,
    f: spec_fn(usize) -> usize,
    r: Parsed,
    r2: Parsed,
) -> bool {
    &&& r matches Ok((_, j)) ==> r2 == renumbered_parsed(r, m, f) && j < t.len()
    &&& carries_exactly(t, u, m, f) ==> r2 == renumbered_parsed(r, m, f)
}

proof fn lemma_carried_token(
    t: Seq<Lexeme>,
    u: Seq<Lexeme>,
    m: int,
    f: spec_fn(usize) -> usize,
    i: int,
)
    requires
        carries(t, u, m, f),
        0 <= i < t.len(),
    ensures
        i < t.len() - 1 ==> tok(u, i + m) == renumbered_token(tok(t, i), f),
        i == t.len() - 1 ==> tok(t, i) is End && (tok(u, i + m) is End || tok(u, i + m) is Close),
        carries_exactly(t, u, m, f) ==> tok(u, i + m) == renumbered_token(tok(t, i), f) && at(
            u,
            i + m,
        )
            == f(at(t, i)),
{
    assert(u[i + m] == u[i + m]);
}

proof fn lemma_renumbered_call(g: usize, p: bool, args: Seq<Ast>, f: spec_fn(usize) -> usize)
    ensures
        renumbered_tree(Ast::Call(g, p, args), f) == Ast::Call(g, p, renumbered_trees(args, f)),
{
    if let Ast::Call(_, _, s) = renumbered_tree(Ast::Call(g, p, args), f) {
        assert(s =~= renumbered_trees(args, f));
    }
}

proof fn lemma_list(t: Seq<Lexeme>, u: Seq<Lexeme>, m: int, f: spec_fn(usize) -> usize, i: int)
    requires
        carries(t, u, m, f),
        0 <= i < t.len(),
    ensures
        follows(t, u, m, f, p_list(t, i), p_list(u, i + m)),
        p_list(t, i) matches Ok((_, k)) ==> i < k,
    decreases t.len() - i, 8int,
{
    lemma_carried_token(t, u, m, f, i);
    lemma_expr(t, u, m, f, i);
    if let Ok((a, j)) = p_expr(t, i) {
        if progressed(t, i, j) {
            lemma_list_tail(t, u, m, f, a, j);
        }
    }
}

proof fn lemma_list_tail(
    t: Seq<Lexeme>,
    u: Seq<Lexeme>,
    m: int,
    f: spec_fn(usize) -> usize,
    acc: Ast,
    j: int,
)
    requires
        carries(t, u, m, f),
        0 <= j < t.len(),
    ensures
        follows(t, u, m, f, list_tail(t, acc, j), list_tail(u, renumbered_tree(acc, f), j + m)),
        list_tail(t, acc, j) matches Ok((_, k)) ==> j <= k,
    decreases t.len() - j, 8int,
{
    lemma_carried_token(t, u, m, f, j);
    if tok(t, j) is Sep {
        lemma_expr(t, u, m, f, j + 1);
        if let Ok((b, k)) = p_expr(t, j + 1) {
            if progressed(t, j, k) {
                lemma_list_tail(t, u, m, f, bin(crate::ast::BinOp::Comma, acc, b), k);
            }
        }
    }
}

proof fn lemma_expr(t: Seq<Lexeme>, u: Seq<Lexeme>, m: int, f: spec_fn(usize) -> usize, i: int)
    requires
        carries(t, u, m, f),
        0 <= i < t.len(),
    ensures
        follows(t, u, m, f, p_expr(t, i), p_expr(u, i + m)),
        p_expr(t, i) matches Ok((_, k)) ==> i < k,
    decreases t.len() - i, 6int,
{
    lemma_carried_token(t, u, m, f, i);
    lemma_term(t, u, m, f, i);
    if let Ok((a, j)) = p_term(t, i) {
        if progressed(t, i, j) {
            lemma_expr_tail(t, u, m, f, a, j);
        }
    }
}

proof fn lemma_expr_tail(
    t: Seq<Lexeme>,
    u: Seq<Lexeme>,
    m: int,
    f: spec_fn(usize) -> usize,
    acc: Ast,
    j: int,
)
    requires
        carries(t, u, m, f),
        0 <= j < t.len(),
    ensures
        follows(t, u, m, f, expr_tail(t, acc, j), expr_tail(u, renumbered_tree(acc, f), j + m)),
        expr_tail(t, acc, j) matches Ok((_, k)) ==> j <= k,
    decreases t.len() - j, 6int,
{
    lemma_carried_token(t, u, m, f, j);
    if let Some(op) = additive(tok(t, j)) {
        lemma_term(t, u, m, f, j + 1);
        if let Ok((b, k)) = p_term(t, j + 1) {
            if progressed(t, j, k) {
                lemma_expr_tail(t, u, m, f, bin(op, acc, b), k);
            }
        }
    }
}

proof fn lemma_term(t: Seq<Lexeme>, u: Seq<Lexeme>, m: int, f: spec_fn(usize) -> usize, i: int)
    requires
        carries(t, u, m, f),
        0 <= i < t.len(),
    ensures
        follows(t, u, m, f, p_term(t, i), p_term(u, i + m)),
        p_term(t, i) matches Ok((_, k)) ==> i < k,
    decreases t.len() - i, 5int,
{
    lemma_carried_token(t, u, m, f, i);
    lemma_factor(t, u, m, f, i);
    if let Ok((a, j)) = p_factor(t, i) {
        if progressed(t, i, j) {
            lemma_term_tail(t, u, m, f, a, j);
        }
    }
}

proof fn lemma_term_tail(
    t: Seq<Lexeme>,
    u: Seq<Lexeme>,
    m: int,
    f: spec_fn(usize) -> usize,
    acc: Ast,
    j: int,
)
    requires
        carries(t, u, m, f),
        0 <= j < t.len(),
    ensures
        follows(t, u, m, f, term_tail(t, acc, j), term_tail(u, renumbered_tree(acc, f), j + m)),
        term_tail(t, acc, j) matches Ok((_, k)) ==> j <= k,
    decreases t.len() - j, 5int,
{
    lemma_carried_token(t, u, m, f, j);
    if let Some(op) = multiplicative(tok(t, j)) {
        lemma_factor(t, u, m, f, j + 1);
        if let Ok((b, k)) = p_factor(t, j + 1) {
            if progressed(t, j, k) {
                lemma_term_tail(t, u, m, f, bin(op, acc, b), k);
            }
        }
    }
}

proof fn lemma_factor(t: Seq<Lexeme>, u: Seq<Lexeme>, m: int, f: spec_fn(usize) -> usize, i: int)
    requires
        carries(t, u, m, f),
        0 <= i < t.len(),
    ensures
        follows(t, u, m, f, p_factor(t, i), p_factor(u, i + m)),
        p_factor(t, i) matches Ok((_, k)) ==> i < k,
    decreases t.len() - i, 4int,
{
    lemma_carried_token(t, u, m, f, i);
    lemma_power(t, u, m, f, i, false);
    if let Ok((a, j)) = p_power(t, i, false) {
        if progressed(t, i, j) {
            lemma_factor_tail(t, u, m, f, a, j);
        }
    }
}

proof fn lemma_factor_tail(
    t: Seq<Lexeme>,
    u: Seq<Lexeme>,
    m: int,
    f: spec_fn(usize) -> usize,
    acc: Ast,
    j: int,
)
    requires
        carries(t, u, m, f),
        0 <= j < t.len(),
    ensures
        follows(t, u, m, f, factor_tail(t, acc, j), factor_tail(u, renumbered_tree(acc, f), j + m)),
        factor_tail(t, acc, j) matches Ok((_, k)) ==> j <= k,
    decreases t.len() - j, 4int,
{
    lemma_carried_token(t, u, m, f, j);
    if tok(t, j) == Token::Infix(InfixOp::Pow) {
        lemma_power(t, u, m, f, j + 1, false);
        if let Ok((b, k)) = p_power(t, j + 1, false) {
            if progressed(t, j, k) {
                lemma_factor_tail(t, u, m, f, bin(crate::ast::BinOp::Pow, acc, b), k);
            }
        }
    }
}

proof fn lemma_power(
    t: Seq<Lexeme>,
    u: Seq<Lexeme>,
    m: int,
    f: spec_fn(usize) -> usize,
    i: int,
    neg: bool,
)
    requires
        carries(t, u, m, f),
        0 <= i < t.len(),
    ensures
        follows(t, u, m, f, p_power(t, i, neg), p_power(u, i + m, neg)),
        p_power(t, i, neg) matches Ok((_, k)) ==> i < k,
    decreases t.len() - i, 3int,
{
    lemma_carried_token(t, u, m, f, i);
    match tok(t, i) {
        Token::Infix(InfixOp::Add) => {
            lemma_power(t, u, m, f, i + 1, neg);
        },
        Token::Infix(InfixOp::Sub) => {
            lemma_power(t, u, m, f, i + 1, !neg);
        },
        _ => {
            lemma_base(t, u, m, f, i);
        },
    }
}

proof fn lemma_base(t: Seq<Lexeme>, u: Seq<Lexeme>, m: int, f: spec_fn(usize) -> usize, i: int)
    requires
        carries(t, u, m, f),
        0 <= i < t.len(),
    ensures
        follows(t, u, m, f, p_base(t, i), p_base(u, i + m)),
        p_base(t, i) matches Ok((_, k)) ==> i < k,
    decreases t.len() - i, 2int,
{
    lemma_carried_token(t, u, m, f, i);
    match tok(t, i) {
        Token::Function(sig) => {
            let j = i + 1;
            lemma_carried_token(t, u, m, f, j);
            lemma_renumbered_call(sig.index, sig.pure, seq![], f);
            assert(renumbered_trees(seq![], f) =~= seq![]);
            if sig.arity == 0 {
                if tok(t, j) is Open {
                    lemma_carried_token(t, u, m, f, j + 1);
                }
            } else if sig.arity == 1 {
                lemma_power(t, u, m, f, j, false);
                if let Ok((a, k)) = p_power(t, j, false) {
                    lemma_renumbered_call(sig.index, sig.pure, seq![a], f);
                    assert(renumbered_trees(seq![a], f) =~= seq![renumbered_tree(a, f)]);
                }
            } else if tok(t, j) is Open {
                lemma_arguments(t, u, m, f, sig, seq![], j + 1);
            }
        },
        Token::Open => {
            lemma_list(t, u, m, f, i + 1);
            if let Ok((a, k)) = p_list(t, i + 1) {
                lemma_carried_token(t, u, m, f, k);
            }
        },
        _ => {},
    }
}

proof fn lemma_arguments(
    t: Seq<Lexeme>,
    u: Seq<Lexeme>,
    m: int,
    f: spec_fn(usize) -> usize,
    sig: Signature,
    args: Seq<Ast>,
    j: int,
)
    requires
        carries(t, u, m, f),
        0 <= j < t.len(),
    ensures
        follows(
            t,
            u,
            m,
            f,
            arguments(t, sig, args, j),
            arguments(u, sig, renumbered_trees(args, f), j + m),
        ),
        arguments(t, sig, args, j) matches Ok((_, k)) ==> j < k,
    decreases t.len() - j, 7int,
{
    lemma_carried_token(t, u, m, f, j);
    lemma_expr(t, u, m, f, j);
    if let Ok((a, k)) = p_expr(t, j) {
        if progressed(t, j, k) {
            let more = args.push(a);
            assert(renumbered_trees(more, f) =~= renumbered_trees(args, f).push(
                renumbered_tree(a, f),
            ));
            lemma_carried_token(t, u, m, f, k);
            if tok(t, k) is Sep {
                lemma_carried_token(t, u, m, f, k + 1);
                if more.len() < sig.arity {
                    lemma_arguments(t, u, m, f, sig, more, k + 1);
                }
            } else {
                lemma_finish_call(t, u, m, f, sig, more, k);
            }
        }
    }
}

proof fn lemma_finish_call(
    t: Seq<Lexeme>,
    u: Seq<Lexeme>,
    m: int,
    f: spec_fn(usize) -> usize,
    sig: Signature,
    args: Seq<Ast>,
    j: int,
)
    requires
        carries(t, u, m, f),
        0 <= j < t.len(),
    ensures
        follows(
            t,
            u,
            m,
            f,
            finish_call(t, sig, args, j),
            finish_call(u, sig, renumbered_trees(args, f), j + m),
        ),
        finish_call(t, sig, args, j) matches Ok((_, k)) ==> j < k,
{
    lemma_carried_token(t, u, m, f, j);
    lemma_renumbered_call(sig.index, sig.pure, args, f);
}

} // verus!

verus! {

proof fn lemma_digit_run_after(p: Seq<u8>, s: Seq<u8>, x: int)
    requires
        0 <= x,
    ensures
        digit_run(p + s, x + p.len()) == digit_run(s, x),
    decreases s.len() - x,
{
    if x < s.len() {
        assert((p + s)[x + p.len()] == s[x]);
        lemma_digit_run_after(p, s, x + 1);
    }
}

proof fn lemma_ident_run_after(p: Seq<u8>, s: Seq<u8>, x: int)
    requires
        0 <= x,
    ensures
        ident_run(p + s, x + p.len()) == ident_run(s, x),
    decreases s.len() - x,
{
    if x < s.len() {
        assert((p + s)[x + p.len()] == s[x]);
        lemma_ident_run_after(p, s, x + 1);
    }
}

proof fn lemma_number_len_after(p: Seq<u8>, s: Seq<u8>, x: int)
    requires
        0 <= x,
    ensures
        number_len(p + s, x + p.len()) == number_len(s, x),
{
    let src = p + s;
    let d = p.len() as int;
    assert forall|y: int, b: u8| 0 <= y implies byte_at(src, y + d, b) == byte_at(s, y, b) by {
        if y < s.len() {
            assert(src[y + d] == s[y]);
        }
    }
    let i0 = digit_run(s, x);
    lemma_digit_run_after(p, s, x);
    lemma_digit_run_after(p, s, x + i0 + 1);
    let i1 = if byte_at(s, x + i0, 46) {
        i0 + 1 + digit_run(s, x + i0 + 1)
    } else {
        i0
    };
    assert(byte_at(src, x + d + i0, 46) == byte_at(s, x + i0, 46));
    assert(byte_at(src, x + d + i1, 101) == byte_at(s, x + i1, 101));
    assert(byte_at(src, x + d + i1, 69) == byte_at(s, x + i1, 69));
    let j0 = i1 + 1;
    assert(byte_at(src, x + d + j0, 43) == byte_at(s, x + j0, 43));
    assert(byte_at(src, x + d + j0, 45) == byte_at(s, x + j0, 45));
    let j = if byte_at(s, x + j0, 43) || byte_at(s, x + j0, 45) {
        j0 + 1
    } else {
        j0
    };
    lemma_digit_run_after(p, s, x + j);
    if 0 <= x + j < s.len() {
        assert(src[x + d + j] == s[x + j]);
    }
}

proof fn lemma_next_token_after(p: Seq<u8>, s: Seq<u8>, scope: ScopeModel, x: int)
    requires
        0 <= x <= s.len(),
        p.len() + s.len() <= usize::MAX,
        scope.variables.len() <= usize::MAX,
        scope.functions.len() <= usize::MAX,
    ensures
        ({
            let (tk, q) = next_token(s, scope, x);
            next_token(p + s, scope, x + p.len()) == (
                renumbered_token(tk, shift(p.len())),
                q + p.len(),
            )
        }),
    decreases s.len() - x,
{
    lemma_next_token(s, scope, x);
    if x < s.len() {
        let src = p + s;
        let b = s[x];
        assert(src[x + p.len()] == b);
        if is_digit(b) || b == 46 {
            lemma_number_len_after(p, s, x);
        } else if is_alpha(b) {
            lemma_ident_run_after(p, s, x);
            let k = ident_run(s, x);
            assert(src.subrange(x + p.len(), x + p.len() + k) =~= s.subrange(x, x + k));
        } else if is_blank(b) {
            lemma_next_token_after(p, s, scope, x + 1);
        }
    }
}

/// Lexing after any prefix reads the same lexemes as lexing alone, every
/// offset moved by the prefix's length.
proof fn lemma_lex_after(p: Seq<u8>, s: Seq<u8>, scope: ScopeModel, x: int)
    requires
        0 <= x <= s.len(),
        p.len() + s.len() <= usize::MAX,
        scope.variables.len() <= usize::MAX,
        scope.functions.len() <= usize::MAX,
    ensures
        lex(p + s, scope, x + p.len()).len() == lex(s, scope, x).len(),
        forall|k: int|
            0 <= k < lex(s, scope, x).len() ==> #[trigger] lex(p + s, scope, x + p.len())[k]
                == renumbered_lexeme(lex(s, scope, x)[k], shift(p.len())),
    decreases s.len() - x,
{
    lemma_next_token_after(p, s, scope, x);
    lemma_next_token(s, scope, x);
    let (tk, q) = next_token(s, scope, x);
    if !(tk is End) && x < q <= s.len() {
        lemma_lex_after(p, s, scope, q);
        let a = lex(s, scope, x);
        let b = lex(p + s, scope, x + p.len());
        assert forall|k: int| 0 <= k < a.len() implies #[trigger] b[k] == renumbered_lexeme(
            a[k],
            shift(p.len()),
        ) by {
            if k > 0 {
                assert(a[k] == lex(s, scope, q)[k - 1]);
                assert(b[k] == lex(p + s, scope, q + p.len())[k - 1]);
            }
        }
    }
}

} // verus!

verus! {

proof fn lemma_renumbered_constancy(a: Ast, f: spec_fn(usize) -> usize)
    ensures
        is_constant(renumbered_tree(a, f)) == is_constant(a),
    decreases a,
{
    match a {
        Ast::Num(x, y) => {
            assert(renumbered_tree(a, f) == Ast::Num(f(x), f(y)));
        },
        Ast::Var(v) => {
            assert(renumbered_tree(a, f) == Ast::Var(v));
        },
        Ast::Neg(x) => {
            lemma_renumbered_constancy(*x, f);
            assert(renumbered_tree(a, f) == Ast::Neg(Box::new(renumbered_tree(*x, f))));
        },
        Ast::Bin(op, x, y) => {
            lemma_renumbered_constancy(*x, f);
            lemma_renumbered_constancy(*y, f);
            assert(renumbered_tree(a, f) == Ast::Bin(
                op,
                Box::new(renumbered_tree(*x, f)),
                Box::new(renumbered_tree(*y, f)),
            ));
        },
        Ast::Call(_, _, args) => {
            if let Ast::Call(_, _, r) = renumbered_tree(a, f) {
                assert forall|i: int|
                    #![trigger r[i]]
                    #![trigger args[i]]
                    0 <= i < args.len() implies is_constant(r[i]) == is_constant(args[i]) by {
                    lemma_renumbered_constancy(args[i], f);
                }
            }
        },
        Ast::Folded(x) => {
            assert(renumbered_tree(a, f) == Ast::Folded(Box::new(renumbered_tree(*x, f))));
        },
    }
}

/// Folding a tree and renumbering its literal spans can be done in either
/// order.
pub proof fn lemma_fold_renumbered(a: Ast, f: spec_fn(usize) -> usize)
    ensures
        fold(renumbered_tree(a, f)) == renumbered_tree(fold(a), f),
    decreases a,
{
    lemma_renumbered_constancy(a, f);
    match a {
        Ast::Neg(x) => lemma_fold_renumbered(*x, f),
        Ast::Bin(_, x, y) => {
            lemma_fold_renumbered(*x, f);
            lemma_fold_renumbered(*y, f);
        },
        Ast::Call(g, p, args) => {
            if !is_constant(a) {
                lemma_fold_call(g, p, args);
                if let Ast::Call(_, _, r) = renumbered_tree(a, f) {
                    lemma_fold_call(g, p, r);
                    if let Ast::Call(_, _, s) = fold(renumbered_tree(a, f)) {
                        if let Ast::Call(_, _, s1) = renumbered_tree(fold(a), f) {
                            assert forall|i: int| 0 <= i < s.len() implies #[trigger] s[i]
                                == s1[i] by {
                                lemma_fold_renumbered(args[i], f);
                            }
                            assert(s =~= s1);
                        }
                    }
                }
            }
        },
        _ => {},
    }
}

/// Where `u` carries `t` exactly after `m` sign lexemes that leave a
/// power unchanged, `u` parses as `t` does.
proof fn lemma_signed_start(t: Seq<Lexeme>, u: Seq<Lexeme>, m: int, f: spec_fn(usize) -> usize)
    requires
        carries_exactly(t, u, m, f),
        1 <= m,
        p_power(u, 0, false) == p_power(u, m, false),
    ensures
        parse_lexemes(u) == renumbered_outcome(parse_lexemes(t), f),
{
    lemma_power(t, u, m, f, 0, false);
    lemma_factor(t, u, m, f, 0);
    lemma_term(t, u, m, f, 0);
    lemma_expr(t, u, m, f, 0);
    lemma_list(t, u, m, f, 0);
    if let Ok((a, j)) = p_power(t, 0, false) {
        lemma_factor_tail(t, u, m, f, a, j);
    }
    assert(p_factor(u, 0) == renumbered_parsed(p_factor(t, 0), m, f));
    if let Ok((a, j)) = p_factor(t, 0) {
        lemma_term_tail(t, u, m, f, a, j);
    }
    assert(p_term(u, 0) == renumbered_parsed(p_term(t, 0), m, f));
    if let Ok((a, j)) = p_term(t, 0) {
        lemma_expr_tail(t, u, m, f, a, j);
    }
    assert(p_expr(u, 0) == renumbered_parsed(p_expr(t, 0), m, f));
    if let Ok((a, j)) = p_expr(t, 0) {
        lemma_list_tail(t, u, m, f, a, j);
    }
    assert(p_list(u, 0) == renumbered_parsed(p_list(t, 0), m, f));
    if let Ok((a, j)) = p_list(t, 0) {
        lemma_carried_token(t, u, m, f, j);
    }
}

proof fn lemma_compiled_follows(
    src: Seq<u8>,
    s: Seq<u8>,
    scope: ScopeModel,
    f: spec_fn(usize) -> usize,
)
    requires
        syntax_tree(src, scope) == renumbered_outcome(syntax_tree(s, scope), f),
    ensures
        compiled(src, scope) == renumbered_outcome(compiled(s, scope), f),
{
    if let Ok(a) = syntax_tree(s, scope) {
        lemma_fold_renumbered(a, f);
    }
}

/// A leading `+` changes nothing: the expression compiles to the same tree,
/// each literal one byte further on, or fails where it failed, one byte
/// further on.
pub proof fn lemma_plus_prefix_changes_nothing(s: Seq<u8>, scope: ScopeModel)
    requires
        s.len() + 1 <= usize::MAX,
        scope.variables.len() <= usize::MAX,
        scope.functions.len() <= usize::MAX,
    ensures
        syntax_tree(seq![43u8] + s, scope) == renumbered_outcome(syntax_tree(s, scope), shift(1)),
        compiled(seq![43u8] + s, scope) == renumbered_outcome(compiled(s, scope), shift(1)),
{
    let p = seq![43u8];
    let src = p + s;
    let t = lex_all(s, scope);
    let u = lex_all(src, scope);
    lemma_lex(s, scope, 0);
    lemma_lex_after(p, s, scope, 0);
    assert(src[0] == 43u8);
    assert(u == seq![Lexeme { token: Token::Infix(InfixOp::Add), position: 0 }] + lex(
        src,
        scope,
        1,
    ));
    assert(u[t.len() as int] == lex(src, scope, 1)[t.len() - 1]);
    assert forall|k: int| 1 <= k < u.len() implies #[trigger] u[k] == renumbered_lexeme(
        t[k - 1],
        shift(1),
    ) by {
        assert(u[k] == lex(src, scope, 1)[k - 1]);
    }
    lemma_signed_start(t, u, 1, shift(1));
    lemma_compiled_follows(src, s, scope, shift(1));
}

/// A leading `--` changes nothing: the expression compiles to the same tree,
/// each literal two bytes further on, or fails where it failed, two bytes
/// further on.
pub proof fn lemma_double_minus_prefix_changes_nothing(s: Seq<u8>, scope: ScopeModel)
    requires
        s.len() + 2 <= usize::MAX,
        scope.variables.len() <= usize::MAX,
        scope.functions.len() <= usize::MAX,
    ensures
        syntax_tree(seq![45u8, 45u8] + s, scope) == renumbered_outcome(
            syntax_tree(s, scope),
            shift(2),
        ),
        compiled(seq![45u8, 45u8] + s, scope) == renumbered_outcome(compiled(s, scope), shift(2)),
{
    let p = seq![45u8, 45u8];
    let src = p + s;
    let t = lex_all(s, scope);
    let u = lex_all(src, scope);
    lemma_lex(s, scope, 0);
    lemma_lex_after(p, s, scope, 0);
    assert(src[0] == 45u8 && src[1] == 45u8);
    assert(lex(src, scope, 1) == seq![Lexeme { token: Token::Infix(InfixOp::Sub), position: 1 }]
        + lex(src, scope, 2));
    assert(u == seq![Lexeme { token: Token::Infix(InfixOp::Sub), position: 0 }] + lex(
        src,
        scope,
        1,
    ));
    assert forall|k: int| 2 <= k < u.len() implies #[trigger] u[k] == renumbered_lexeme(
        t[k - 2],
        shift(2),
    ) by {
        assert(u[k] == lex(src, scope, 2)[k - 2]);
    }
    assert(u[t.len() + 1int] == lex(src, scope, 2)[t.len() - 1]);
    lemma_signed_start(t, u, 2, shift(2));
    lemma_compiled_follows(src, s, scope, shift(2));
}

} // verus!

verus! {

/// A byte that ends every name and every numeric literal, exponent
/// included.
pub open spec fn stopper(b: u8) -> bool {
    !is_ident_byte(b) && b != 46 && b != 43 && b != 45
}

/// Whether scanning a name or a literal stops at offset `y` of `src`.
pub open spec fn stops(src: Seq<u8>, y: int) -> bool {
    y >= src.len() || stopper(src[y])
}

/// Whether `s1` and `s2` hold the same bytes at the offsets `x..y`.
pub open spec fn agree(s1: Seq<u8>, s2: Seq<u8>, x: int, y: int) -> bool {
    &&& 0 <= x
    &&& y <= s1.len()
    &&& y <= s2.len()
    &&& forall|k: int| x <= k < y ==> #[trigger] s1[k] == s2[k]
}

/// Whether lexing `a` followed by `r` reads the lexemes of `a` unchanged up
/// to its last one: the text after `a` stops any name or literal, or `a`
/// itself ends with a byte that does.
pub open spec fn boundary(a: Seq<u8>, r: Seq<u8>) -> bool {
    stops(a + r, a.len() as int) || (a.len() > 0 && stopper(a.last()))
}

proof fn lemma_digit_run_local(s1: Seq<u8>, s2: Seq<u8>, x: int, y: int)
    requires
        0 <= x <= y,
        agree(s1, s2, x, y),
        stops(s1, y),
        stops(s2, y),
    ensures
        digit_run(s1, x) == digit_run(s2, x),
        x + digit_run(s1, x) <= y,
    decreases y - x,
{
    if x < y {
        assert(s1[x] == s2[x]);
        lemma_digit_run_local(s1, s2, x + 1, y);
    }
}

proof fn lemma_ident_run_local(s1: Seq<u8>, s2: Seq<u8>, x: int, y: int)
    requires
        0 <= x <= y,
        agree(s1, s2, x, y),
        stops(s1, y),
        stops(s2, y),
    ensures
        ident_run(s1, x) == ident_run(s2, x),
        x + ident_run(s1, x) <= y,
    decreases y - x,
{
    if x < y {
        assert(s1[x] == s2[x]);
        lemma_ident_run_local(s1, s2, x + 1, y);
    }
}

proof fn lemma_number_len_local(s1: Seq<u8>, s2: Seq<u8>, x: int, y: int)
    requires
        0 <= x <= y,
        agree(s1, s2, x, y),
        stops(s1, y),
        stops(s2, y),
    ensures
        number_len(s1, x) == number_len(s2, x),
{
    assert forall|z: int, b: u8|
        x <= z <= y && (b == 46 || b == 101 || b == 69 || b == 43 || b == 45) implies byte_at(
        s1,
        z,
        b,
    ) == byte_at(s2, z, b) by {
        if z < y {
            assert(s1[z] == s2[z]);
        }
    }
    let i0 = digit_run(s1, x);
    lemma_digit_run_local(s1, s2, x, y);
    if byte_at(s1, x + i0, 46) {
        lemma_digit_run_local(s1, s2, x + i0 + 1, y);
    }
    let i1 = if byte_at(s1, x + i0, 46) {
        i0 + 1 + digit_run(s1, x + i0 + 1)
    } else {
        i0
    };
    assert(byte_at(s1, x + i1, 101) == byte_at(s2, x + i1, 101));
    assert(byte_at(s1, x + i1, 69) == byte_at(s2, x + i1, 69));
    if byte_at(s1, x + i1, 101) || byte_at(s1, x + i1, 69) {
        let j0 = i1 + 1;
        assert(byte_at(s1, x + j0, 43) == byte_at(s2, x + j0, 43));
        assert(byte_at(s1, x + j0, 45) == byte_at(s2, x + j0, 45));
        let j = if byte_at(s1, x + j0, 43) || byte_at(s1, x + j0, 45) {
            j0 + 1
        } else {
            j0
        };
        if x + j < y {
            assert(s1[x + j] == s2[x + j]);
            lemma_digit_run_local(s1, s2, x + j, y);
        }
    }
}

/// Blanks before a token are skipped.
proof fn lemma_skip_blanks(src: Seq<u8>, scope: ScopeModel, y: int, z: int)
    requires
        0 <= y <= z <= src.len(),
        forall|k: int| y <= k < z ==> is_blank(#[trigger] src[k]),
    ensures
        next_token(src, scope, y) == next_token(src, scope, z),
    decreases z - y,
{
    if y < z {
        lemma_skip_blanks(src, scope, y + 1, z);
    }
}

/// The end token is read only where nothing but blanks is left.
proof fn lemma_end_after_blanks(src: Seq<u8>, scope: ScopeModel, x: int)
    requires
        0 <= x,
        next_token(src, scope, x).0 is End,
    ensures
        forall|k: int| x <= k < src.len() ==> is_blank(#[trigger] src[k]),
    decreases src.len() - x,
{
    if x < src.len() {
        let b = src[x];
        if is_alpha(b) {
            let k = ident_run(src, x);
            let name = src.subrange(x, x + k);
            assert(!(resolve(scope, name, x) is End));
        }
        if is_blank(b) {
            lemma_end_after_blanks(src, scope, x + 1);
        }
    }
}

/// The end token is the last lexeme and the only one.
proof fn lemma_lex_ends_once(src: Seq<u8>, scope: ScopeModel, pos: int)
    requires
        0 <= pos <= src.len(),
        src.len() <= usize::MAX,
        scope.variables.len() <= usize::MAX,
        scope.functions.len() <= usize::MAX,
    ensures
        forall|k: int|
            0 <= k < lex(src, scope, pos).len() - 1 ==> !(#[trigger] lex(
                src,
                scope,
                pos,
            )[k].token is End),
    decreases src.len() - pos,
{
    lemma_next_token(src, scope, pos);
    let (tk, q) = next_token(src, scope, pos);
    if !(tk is End) {
        lemma_lex_ends_once(src, scope, q);
        lemma_lex(src, scope, q);
        let all = lex(src, scope, pos);
        assert forall|k: int| 0 <= k < all.len() - 1 implies !(#[trigger] all[k].token is End) by {
            if k > 0 {
                assert(all[k] == lex(src, scope, q)[k - 1]);
            }
        }
    }
}

proof fn lemma_next_token_before(a: Seq<u8>, r: Seq<u8>, scope: ScopeModel, x: int)
    requires
        boundary(a, r),
        0 <= x <= a.len(),
    ensures
        ({
            let (tk, q) = next_token(a, scope, x);
            &&& !(tk is End) ==> next_token(a + r, scope, x) == (tk, q)
            &&& tk is End ==> next_token(a + r, scope, x) == next_token(
                a + r,
                scope,
                a.len() as int,
            )
        }),
    decreases a.len() - x,
{
    let src = a + r;
    if x < a.len() {
        let y = if stops(src, a.len() as int) {
            a.len() as int
        } else {
            a.len() - 1
        };
        assert(agree(a, src, x, y));
        assert(stops(a, y) && stops(src, y)) by {
            if y < a.len() {
                assert(src[y] == a[y]);
            }
        }
        let b = a[x];
        assert(src[x] == b);
        if is_digit(b) || b == 46 {
            lemma_number_len_local(a, src, x, y);
        } else if is_alpha(b) {
            lemma_ident_run_local(a, src, x, y);
            let k = ident_run(a, x);
            assert(a.subrange(x, x + k) =~= src.subrange(x, x + k));
        } else if is_blank(b) {
            lemma_next_token_before(a, r, scope, x + 1);
        }
    }
}

/// Lexing `a` followed by `r`, across a boundary, reads the lexemes of `a`
/// but its last, then goes on from where that last one stood.
proof fn lemma_lex_before(a: Seq<u8>, r: Seq<u8>, scope: ScopeModel, x: int)
    requires
        boundary(a, r),
        0 <= x <= a.len(),
        a.len() + r.len() <= usize::MAX,
        scope.variables.len() <= usize::MAX,
        scope.functions.len() <= usize::MAX,
    ensures
        lex(a + r, scope, x) == lex(a, scope, x).drop_last() + lex(
            a + r,
            scope,
            lex(a, scope, x).last().position as int,
        ),
    decreases a.len() - x,
{
    lemma_next_token(a, scope, x);
    lemma_next_token_before(a, r, scope, x);
    lemma_lex(a, scope, x);
    let (tk, q) = next_token(a, scope, x);
    if tk is End {
        assert(lex(a, scope, x).drop_last() =~= Seq::<Lexeme>::empty());
    } else {
        lemma_lex_before(a, r, scope, q);
        lemma_lex(a, scope, q);
        assert(lex(a, scope, x).drop_last() =~= seq![
            Lexeme { token: tk, position: x as usize },
        ] + lex(a, scope, q).drop_last());
    }
}

} // verus!

verus! {

/// The last lexeme stands where the end token is read.
proof fn lemma_lex_last(src: Seq<u8>, scope: ScopeModel, pos: int)
    requires
        0 <= pos <= src.len(),
        src.len() <= usize::MAX,
        scope.variables.len() <= usize::MAX,
        scope.functions.len() <= usize::MAX,
    ensures
        pos <= lex(src, scope, pos).last().position <= src.len(),
        next_token(src, scope, lex(src, scope, pos).last().position as int).0 is End,
    decreases src.len() - pos,
{
    lemma_next_token(src, scope, pos);
    let (tk, q) = next_token(src, scope, pos);
    if !(tk is End) {
        lemma_lex_last(src, scope, q);
        lemma_lex(src, scope, q);
    }
}

/// Where `u` carries all of `t`, ending where it ends, `u` parses to the
/// tree of `t` whenever `t` parses.
proof fn lemma_carried_whole(t: Seq<Lexeme>, u: Seq<Lexeme>, f: spec_fn(usize) -> usize)
    requires
        carries(t, u, 0, f),
        u.len() == t.len(),
        u.last().token is End,
    ensures
        parse_lexemes(t) matches Ok(a) ==> parse_lexemes(u) == Ok::<Ast, usize>(
            renumbered_tree(a, f),
        ),
{
    lemma_list(t, u, 0, f, 0);
    if let Ok((a, j)) = p_list(t, 0) {
        lemma_carried_token(t, u, 0, f, j);
    }
}

/// Where `u` is `t` within a pair of parentheses, `u` parses to the tree of
/// `t` whenever `t` parses.
proof fn lemma_parenthesized(t: Seq<Lexeme>, u: Seq<Lexeme>, f: spec_fn(usize) -> usize)
    requires
        carries(t, u, 1, f),
        u.len() == t.len() + 2,
        u[0].token is Open,
        u[t.len() as int].token is Close,
        u[t.len() + 1int].token is End,
        forall|k: int| 0 <= k < t.len() - 1 ==> !(#[trigger] t[k].token is End),
    ensures
        parse_lexemes(t) matches Ok(a) ==> parse_lexemes(u) == Ok::<Ast, usize>(
            renumbered_tree(a, f),
        ),
{
    lemma_list(t, u, 1, f, 0);
    if let Ok((a, j)) = p_list(t, 0) {
        if tok(t, j) is End {
            let n = t.len() + 1int;
            let x = renumbered_tree(a, f);
            assert(j == t.len() - 1);
            assert(p_list(u, 1) == Ok::<(Ast, int), usize>((x, j + 1)));
            assert(tok(u, j + 1) is Close);
            assert(p_base(u, 0) == Ok::<(Ast, int), usize>((x, n)));
            assert(p_power(u, 0, false) == Ok::<(Ast, int), usize>((x, n)));
            assert(tok(u, n) is End);
            assert(factor_tail(u, x, n) == Ok::<(Ast, int), usize>((x, n)));
            assert(p_factor(u, 0) == Ok::<(Ast, int), usize>((x, n)));
            assert(term_tail(u, x, n) == Ok::<(Ast, int), usize>((x, n)));
            assert(p_term(u, 0) == Ok::<(Ast, int), usize>((x, n)));
            assert(expr_tail(u, x, n) == Ok::<(Ast, int), usize>((x, n)));
            assert(p_expr(u, 0) == Ok::<(Ast, int), usize>((x, n)));
            assert(list_tail(u, x, n) == Ok::<(Ast, int), usize>((x, n)));
            assert(p_list(u, 0) == Ok::<(Ast, int), usize>((x, n)));
        }
    }
}

proof fn lemma_compiled_carried(
    src: Seq<u8>,
    s: Seq<u8>,
    scope: ScopeModel,
    f: spec_fn(usize) -> usize,
)
    requires
        syntax_tree(s, scope) matches Ok(a) ==> syntax_tree(src, scope) == Ok::<Ast, usize>(
            renumbered_tree(a, f),
        ),
    ensures
        compiled(s, scope) matches Ok(a) ==> compiled(src, scope) == Ok::<Ast, usize>(
            renumbered_tree(a, f),
        ),
{
    if let Ok(a) = syntax_tree(s, scope) {
        lemma_fold_renumbered(a, f);
    }
}

/// Trailing blanks add no lexeme.
proof fn lemma_lex_trailing_blanks(s: Seq<u8>, w: Seq<u8>, scope: ScopeModel)
    requires
        forall|k: int| 0 <= k < w.len() ==> is_blank(#[trigger] w[k]),
        s.len() + w.len() <= usize::MAX,
        scope.variables.len() <= usize::MAX,
        scope.functions.len() <= usize::MAX,
    ensures
        lex_all(s + w, scope) == lex_all(s, scope),
{
    let src = s + w;
    lemma_lex(s, scope, 0);
    lemma_lex_last(s, scope, 0);
    let e = lex(s, scope, 0).last().position as int;
    if w.len() > 0 {
        assert(src[s.len() as int] == w[0]);
    }
    assert(boundary(s, w));
    lemma_lex_before(s, w, scope, 0);
    lemma_end_after_blanks(s, scope, e);
    assert forall|k: int| e <= k < src.len() implies is_blank(#[trigger] src[k]) by {
        if k < s.len() {
            assert(src[k] == s[k]);
        } else {
            assert(src[k] == w[k - s.len()]);
        }
    }
    lemma_skip_blanks(src, scope, e, src.len() as int);
    assert(lex(src, scope, e) =~= seq![lex(s, scope, 0).last()]);
    assert(lex(src, scope, 0) =~= lex(s, scope, 0));
}

/// Surrounding blanks change nothing: an expression that compiles compiles
/// to the same tree with blanks around it, each literal as many bytes
/// further on as blanks were put before it.
pub proof fn lemma_surrounding_blanks_change_nothing(
    w1: Seq<u8>,
    s: Seq<u8>,
    w2: Seq<u8>,
    scope: ScopeModel,
)
    requires
        forall|k: int| 0 <= k < w1.len() ==> is_blank(#[trigger] w1[k]),
        forall|k: int| 0 <= k < w2.len() ==> is_blank(#[trigger] w2[k]),
        w1.len() + s.len() + w2.len() <= usize::MAX,
        scope.variables.len() <= usize::MAX,
        scope.functions.len() <= usize::MAX,
    ensures
        syntax_tree(s, scope) matches Ok(a) ==> syntax_tree(w1 + s + w2, scope) == Ok::<
            Ast,
            usize,
        >(renumbered_tree(a, shift(w1.len()))),
        compiled(s, scope) matches Ok(a) ==> compiled(w1 + s + w2, scope) == Ok::<Ast, usize>(
            renumbered_tree(a, shift(w1.len())),
        ),
{
    let f = shift(w1.len());
    let s2 = s + w2;
    let src = w1 + s2;
    assert(src =~= w1 + s + w2);
    lemma_lex_trailing_blanks(s, w2, scope);
    let t = lex_all(s2, scope);
    lemma_lex(s2, scope, 0);
    lemma_next_token(s2, scope, 0);
    lemma_next_token_after(w1, s2, scope, 0);
    assert forall|k: int| 0 <= k < w1.len() implies is_blank(#[trigger] src[k]) by {
        assert(src[k] == w1[k]);
    }
    lemma_skip_blanks(src, scope, 0, w1.len() as int);
    let (tk, q) = next_token(s2, scope, 0);
    let u = lex_all(src, scope);
    if !(tk is End) {
        lemma_lex_after(w1, s2, scope, q);
        assert(u == seq![Lexeme { token: renumbered_token(tk, f), position: 0 }] + lex(
            src,
            scope,
            q + w1.len(),
        ));
        assert(t == seq![Lexeme { token: tk, position: 0 }] + lex(s2, scope, q));
        assert forall|k: int| 0 <= k < t.len() implies #[trigger] u[k].token == renumbered_token(
            t[k].token,
            f,
        ) by {
            if k > 0 {
                assert(u[k] == lex(src, scope, q + w1.len())[k - 1]);
                assert(t[k] == lex(s2, scope, q)[k - 1]);
            }
        }
    }
    assert(u.len() == t.len());
    assert(u.last().token is End);
    assert(carries(t, u, 0, f));
    lemma_carried_whole(t, u, f);
    lemma_compiled_carried(w1 + s + w2, s, scope, f);
}

/// Enclosing parentheses change nothing: an expression that compiles
/// compiles to the same tree within a pair of parentheses, each literal one
/// byte further on.
pub proof fn lemma_enclosing_parentheses_change_nothing(s: Seq<u8>, scope: ScopeModel)
    requires
        s.len() + 2 <= usize::MAX,
        scope.variables.len() <= usize::MAX,
        scope.functions.len() <= usize::MAX,
    ensures
        syntax_tree(s, scope) matches Ok(a) ==> syntax_tree(seq![40u8] + s + seq![41u8], scope)
            == Ok::<Ast, usize>(renumbered_tree(a, shift(1))),
        compiled(s, scope) matches Ok(a) ==> compiled(seq![40u8] + s + seq![41u8], scope) == Ok::<
            Ast,
            usize,
        >(renumbered_tree(a, shift(1))),
{
    let f = shift(1);
    let close = seq![41u8];
    let open = seq![40u8];
    let s2 = s + close;
    let src = open + s2;
    assert(src =~= seq![40u8] + s + seq![41u8]);
    let t = lex_all(s, scope);
    lemma_lex(s, scope, 0);
    lemma_lex_ends_once(s, scope, 0);
    lemma_lex_last(s, scope, 0);
    let e = t.last().position as int;
    assert(s2[s.len() as int] == 41u8);
    assert(boundary(s, close));
    lemma_lex_before(s, close, scope, 0);
    lemma_end_after_blanks(s, scope, e);
    assert forall|k: int| e <= k < s.len() implies is_blank(#[trigger] s2[k]) by {
        assert(s2[k] == s[k]);
    }
    lemma_skip_blanks(s2, scope, e, s.len() as int);
    assert(lex(s2, scope, s.len() + 1int) == seq![
        Lexeme { token: Token::End, position: (s.len() + 1) as usize },
    ]);
    assert(lex(s2, scope, e) == seq![Lexeme { token: Token::Close, position: e as usize }] + lex(
        s2,
        scope,
        s.len() + 1int,
    ));
    let v = lex_all(s2, scope);
    assert(v == t.drop_last() + lex(s2, scope, e));
    lemma_lex_after(open, s2, scope, 0);
    assert(src[0] == 40u8);
    let u = lex_all(src, scope);
    assert(u == seq![Lexeme { token: Token::Open, position: 0 }] + lex(src, scope, 1));
    assert forall|k: int| 1 <= k < u.len() implies #[trigger] u[k] == renumbered_lexeme(
        v[k - 1],
        f,
    ) by {
        assert(u[k] == lex(src, scope, 1)[k - 1]);
    }
    assert forall|k: int| 1 <= k < t.len() implies #[trigger] u[k].token == renumbered_token(
        t[k - 1].token,
        f,
    ) by {
        assert(v[k - 1] == t[k - 1]);
    }
    assert(u[t.len() as int].token is Close) by {
        assert(v[t.len() - 1] == lex(s2, scope, e)[0]);
    }
    assert(u[t.len() + 1int].token is End) by {
        assert(v[t.len() as int] == lex(s2, scope, e)[1]);
    }
    assert(carries(t, u, 1, f));
    lemma_parenthesized(t, u, f);
    lemma_compiled_carried(seq![40u8] + s + seq![41u8], s, scope, f);
}

} // verus!

verus! {

/// The renumbering that moves every byte offset after `at` by `n` bytes:
/// how offsets change when `n` bytes are put in after offset `at`.
pub open spec fn inserted(at: nat, n: nat) -> spec_fn(usize) -> usize {
    |x: usize|
        if x <= at {
            x
        } else {
            (x + n) as usize
        }
}

/// After a prefix and blanks, the lexemes read are those of what follows,
/// moved past both.
proof fn lemma_lex_past_blanks(pre: Seq<u8>, w: Seq<u8>, b: Seq<u8>, scope: ScopeModel)
    requires
        forall|k: int| 0 <= k < w.len() ==> is_blank(#[trigger] w[k]),
        pre.len() + w.len() + b.len() <= usize::MAX,
        scope.variables.len() <= usize::MAX,
        scope.functions.len() <= usize::MAX,
    ensures
        lex(pre + w + b, scope, pre.len() as int).len() == lex(b, scope, 0).len(),
        forall|k: int|
            0 <= k < lex(b, scope, 0).len() ==> #[trigger] lex(
                pre + w + b,
                scope,
                pre.len() as int,
            )[k].token
                == renumbered_token(lex(b, scope, 0)[k].token, shift(pre.len() + w.len())),
{
    let pw = pre + w;
    let src = pw + b;
    assert(src =~= pre + w + b);
    let d = pw.len();
    lemma_lex(b, scope, 0);
    lemma_next_token(b, scope, 0);
    lemma_next_token_after(pw, b, scope, 0);
    assert forall|k: int| pre.len() <= k < d implies is_blank(#[trigger] src[k]) by {
        assert(src[k] == w[k - pre.len()]);
    }
    lemma_skip_blanks(src, scope, pre.len() as int, d as int);
    let (tk, q) = next_token(b, scope, 0);
    let lb = lex(b, scope, 0);
    let l = lex(src, scope, pre.len() as int);
    if !(tk is End) {
        lemma_lex_after(pw, b, scope, q);
        assert(l == seq![
            Lexeme { token: renumbered_token(tk, shift(d)), position: pre.len() as usize },
        ] + lex(src, scope, q + d));
        assert(lb == seq![Lexeme { token: tk, position: 0 }] + lex(b, scope, q));
        assert forall|k: int| 0 <= k < lb.len() implies #[trigger] l[k].token == renumbered_token(
            lb[k].token,
            shift(d),
        ) by {
            if k > 0 {
                assert(l[k] == lex(src, scope, q + d)[k - 1]);
                assert(lb[k] == lex(b, scope, q)[k - 1]);
            }
        }
    }
}

/// The lexemes of `a`, a punctuation byte and `b` (with `n` bytes more
/// before the lexemes of `b` in `u`) are carried from `t` to `u` by the
/// renumbering of an insertion after `a`.
proof fn lemma_spliced(
    a: Seq<u8>,
    b: Seq<u8>,
    scope: ScopeModel,
    t: Seq<Lexeme>,
    u: Seq<Lexeme>,
    n: nat,
)
    requires
        a.len() + 1 + n + b.len() <= usize::MAX,
        scope.variables.len() <= usize::MAX,
        scope.functions.len() <= usize::MAX,
        t.len() == u.len(),
        t.len() == lex(a, scope, 0).len() + lex(b, scope, 0).len(),
        forall|k: int|
            0 <= k < lex(a, scope, 0).len() - 1 ==> #[trigger] t[k] == lex(a, scope, 0)[k] && u[k]
                == lex(a, scope, 0)[k],
        t[lex(a, scope, 0).len() - 1].token == u[lex(a, scope, 0).len() - 1].token,
        t[lex(a, scope, 0).len() - 1].token is Open || t[lex(a, scope, 0).len() - 1].token is Close
            || t[lex(a, scope, 0).len() - 1].token is Sep,
        forall|k: int|
            0 <= k < lex(b, scope, 0).len() ==> #[trigger] t[lex(a, scope, 0).len() + k].token
                == renumbered_token(lex(b, scope, 0)[k].token, shift(a.len() + 1)) && u[lex(
                a,
                scope,
                0,
            ).len() + k].token == renumbered_token(
                lex(b, scope, 0)[k].token,
                shift(a.len() + 1 + n),
            ),
    ensures
        carries(t, u, 0, inserted(a.len(), n)),
        u.last().token is End,
{
    let la = lex(a, scope, 0);
    let lb = lex(b, scope, 0);
    let f = inserted(a.len(), n);
    lemma_lex(a, scope, 0);
    lemma_lex(b, scope, 0);
    let np = la.len() - 1;
    assert forall|k: int| 0 <= k < t.len() - 1 implies #[trigger] u[k].token == renumbered_token(
        t[k].token,
        f,
    ) by {
        if k < np {
            assert(t[k] == la[k] && u[k] == la[k]);
            assert(la[k].token matches Token::Number(s, e) ==> s < e <= a.len());
            assert(la[k].token matches Token::Error(e) ==> e <= a.len());
        } else if k > np {
            let kb = k - la.len();
            assert(t[la.len() + kb].token == renumbered_token(lb[kb].token, shift(a.len() + 1)));
            assert(lb[kb].token matches Token::Number(s, e) ==> s < e <= b.len());
            assert(lb[kb].token matches Token::Error(e) ==> e <= b.len());
        }
    }
    assert(t[t.len() - 1] == t[la.len() + (lb.len() - 1)]);
    assert(u[u.len() - 1] == u[la.len() + (lb.len() - 1)]);
}

} // verus!

verus! {

/// Whether a byte is an opening or closing parenthesis or a separator.
pub open spec fn is_bracket_or_separator(c: u8) -> bool {
    c == 40 || c == 41 || c == 44
}

/// The lexemes of `a`, then `c`, then whatever lexing from right after `c`
/// reads, when the text goes on after `a` with `c`, possibly after blanks.
proof fn lemma_lex_through_punctuation(
    a: Seq<u8>,
    w: Seq<u8>,
    c: u8,
    rest: Seq<u8>,
    scope: ScopeModel,
)
    requires
        is_bracket_or_separator(c),
        forall|k: int| 0 <= k < w.len() ==> is_blank(#[trigger] w[k]),
        a.len() + w.len() + 1 + rest.len() <= usize::MAX,
        scope.variables.len() <= usize::MAX,
        scope.functions.len() <= usize::MAX,
    ensures
        ({
            let src = a + w + seq![c] + rest;
            let la = lex(a, scope, 0);
            &&& lex_all(src, scope).len() == la.len() + lex(
                src,
                scope,
                a.len() + w.len() + 1int,
            ).len()
            &&& forall|k: int| 0 <= k < la.len() - 1 ==> #[trigger] lex_all(src, scope)[k] == la[k]
            &&& lex_all(src, scope)[la.len() - 1].token == (if c == 40 {
                Token::Open
            } else if c == 41 {
                Token::Close
            } else {
                Token::Sep
            })
            &&& forall|k: int|
                0 <= k < lex(src, scope, a.len() + w.len() + 1int).len() ==> #[trigger] lex_all(
                    src,
                    scope,
                )[la.len() + k] == lex(src, scope, a.len() + w.len() + 1int)[k]
        }),
{
    let r = w + seq![c] + rest;
    let src = a + r;
    assert(src =~= a + w + seq![c] + rest);
    let la = lex(a, scope, 0);
    lemma_lex(a, scope, 0);
    lemma_lex_last(a, scope, 0);
    let e = la.last().position as int;
    let q = a.len() + w.len() + 0int;
    assert(src[q] == c);
    assert(boundary(a, r)) by {
        if w.len() > 0 {
            assert(src[a.len() as int] == w[0]);
        }
    }
    lemma_lex_before(a, r, scope, 0);
    lemma_end_after_blanks(a, scope, e);
    assert forall|k: int| e <= k < q implies is_blank(#[trigger] src[k]) by {
        if k < a.len() {
            assert(src[k] == a[k]);
        } else {
            assert(src[k] == w[k - a.len()]);
        }
    }
    lemma_skip_blanks(src, scope, e, q);
    let tk = if c == 40 {
        Token::Open
    } else if c == 41 {
        Token::Close
    } else {
        Token::Sep
    };
    assert(lex(src, scope, e) == seq![Lexeme { token: tk, position: e as usize }] + lex(
        src,
        scope,
        q + 1,
    ));
}

/// Blanks put right after an opening or closing parenthesis or a separator
/// change nothing: an expression that compiles compiles to the same tree,
/// each literal after the blanks as many bytes further on as there are
/// blanks.
pub proof fn lemma_blanks_after_punctuation_change_nothing(
    a: Seq<u8>,
    c: u8,
    w: Seq<u8>,
    b: Seq<u8>,
    scope: ScopeModel,
)
    requires
        is_bracket_or_separator(c),
        forall|k: int| 0 <= k < w.len() ==> is_blank(#[trigger] w[k]),
        a.len() + 1 + w.len() + b.len() <= usize::MAX,
        scope.variables.len() <= usize::MAX,
        scope.functions.len() <= usize::MAX,
    ensures
        syntax_tree(a + seq![c] + b, scope) matches Ok(x) ==> syntax_tree(
            a + seq![c] + w + b,
            scope,
        ) == Ok::<Ast, usize>(renumbered_tree(x, inserted(a.len(), w.len()))),
        compiled(a + seq![c] + b, scope) matches Ok(x) ==> compiled(a + seq![c] + w + b, scope)
            == Ok::<Ast, usize>(renumbered_tree(x, inserted(a.len(), w.len()))),
{
    let none = Seq::<u8>::empty();
    let src = a + seq![c] + b;
    let after = a + seq![c] + w + b;
    assert(a + none + seq![c] + b =~= src);
    assert(a + none + seq![c] + (w + b) =~= after);
    lemma_lex_through_punctuation(a, none, c, b, scope);
    lemma_lex_through_punctuation(a, none, c, w + b, scope);
    let pre = a + seq![c];
    assert(pre + b =~= src);
    assert(pre + w + b =~= after);
    lemma_lex_after(pre, b, scope, 0);
    lemma_lex_past_blanks(pre, w, b, scope);
    let t = lex_all(src, scope);
    let u = lex_all(after, scope);
    let la = lex(a, scope, 0);
    let lb = lex(b, scope, 0);
    assert forall|k: int| 0 <= k < lb.len() implies #[trigger] t[la.len() + k].token
        == renumbered_token(lb[k].token, shift(a.len() + 1)) && u[la.len() + k].token
        == renumbered_token(lb[k].token, shift(a.len() + 1 + w.len())) by {
        assert(t[la.len() + k] == lex(src, scope, a.len() + 1int)[k]);
        assert(u[la.len() + k] == lex(after, scope, a.len() + 1int)[k]);
    }
    lemma_spliced(a, b, scope, t, u, w.len());
    lemma_lex(src, scope, 0);
    lemma_carried_whole(t, u, inserted(a.len(), w.len()));
    lemma_compiled_carried(after, src, scope, inserted(a.len(), w.len()));
}

/// Blanks put right before an opening or closing parenthesis or a separator
/// change nothing: an expression that compiles compiles to the same tree,
/// each literal after the blanks as many bytes further on as there are
/// blanks.
pub proof fn lemma_blanks_before_punctuation_change_nothing(
    a: Seq<u8>,
    w: Seq<u8>,
    c: u8,
    b: Seq<u8>,
    scope: ScopeModel,
)
    requires
        is_bracket_or_separator(c),
        forall|k: int| 0 <= k < w.len() ==> is_blank(#[trigger] w[k]),
        a.len() + w.len() + 1int + b.len() <= usize::MAX,
        scope.variables.len() <= usize::MAX,
        scope.functions.len() <= usize::MAX,
    ensures
        syntax_tree(a + seq![c] + b, scope) matches Ok(x) ==> syntax_tree(
            a + w + seq![c] + b,
            scope,
        ) == Ok::<Ast, usize>(renumbered_tree(x, inserted(a.len(), w.len()))),
        compiled(a + seq![c] + b, scope) matches Ok(x) ==> compiled(a + w + seq![c] + b, scope)
            == Ok::<Ast, usize>(renumbered_tree(x, inserted(a.len(), w.len()))),
{
    let none = Seq::<u8>::empty();
    let src = a + seq![c] + b;
    let before = a + w + seq![c] + b;
    assert(a + none + seq![c] + b =~= src);
    lemma_lex_through_punctuation(a, none, c, b, scope);
    lemma_lex_through_punctuation(a, w, c, b, scope);
    let pre = a + seq![c];
    assert(pre + b =~= src);
    let pre2 = a + w + seq![c];
    assert(pre2 + b =~= before);
    lemma_lex_after(pre, b, scope, 0);
    lemma_lex_after(pre2, b, scope, 0);
    let t = lex_all(src, scope);
    let u = lex_all(before, scope);
    let la = lex(a, scope, 0);
    let lb = lex(b, scope, 0);
    assert forall|k: int| 0 <= k < lb.len() implies #[trigger] t[la.len() + k].token
        == renumbered_token(lb[k].token, shift(a.len() + 1)) && u[la.len() + k].token
        == renumbered_token(lb[k].token, shift(a.len() + 1 + w.len())) by {
        assert(t[la.len() + k] == lex(src, scope, a.len() + 1int)[k]);
        assert(u[la.len() + k] == lex(before, scope, a.len() + w.len() + 1int)[k]);
    }
    lemma_spliced(a, b, scope, t, u, w.len());
    lemma_lex(src, scope, 0);
    lemma_carried_whole(t, u, inserted(a.len(), w.len()));
    lemma_compiled_carried(before, src, scope, inserted(a.len(), w.len()));
}

} // verus!
