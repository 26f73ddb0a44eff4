use vstd::prelude::*;

use crate::ast::{Ast, BinOp, Node, args_model, bound_in, lemma_call_model, literals_within, plain};
use crate::fold::{fold, in_compiled_form, lemma_fold_keeps_leaves, optimize};
use crate::lexer::{
    InfixOp, Lexeme, Token, lemma_lex, lex_all, lexemes_within, token_in_scope, tokenize,
};
use crate::scope::{Scope, ScopeModel, Signature};
use vstd::string::StringSliceAdditionalSpecFns;
use crate::ParseError;

verus! {

/// The outcome of parsing a phrase: its tree and the index of the lexeme
/// after it, or the byte offset of the error.
pub type Parsed = Result<(Ast, int), usize>;

/// The token at index `i`; past the end, the end token.
pub open spec fn tok(t: Seq<Lexeme>, i: int) -> Token {
    if 0 <= i < t.len() {
        t[i].token
    } else {
        Token::End
    }
}

/// The position recorded for the lexeme at index `i`.
pub open spec fn at(t: Seq<Lexeme>, i: int) -> usize {
    if 0 <= i < t.len() {
        t[i].position
    } else {
        0
    }
}

/// A phrase that starts at `i` and ends before `j` consumed at least one
/// lexeme and stayed within the sequence.
pub open spec fn progressed(t: Seq<Lexeme>, i: int, j: int) -> bool {
    i < j <= t.len()
}

pub open spec fn bin(op: BinOp, a: Ast, b: Ast) -> Ast {
    Ast::Bin(op, Box::new(a), Box::new(b))
}

/// `list = expr {"," expr}`; the items are joined by `Comma`, leftmost first.
pub open spec fn p_list(t: Seq<Lexeme>, i: int) -> Parsed
    decreases t.len() - i, 8int,
{
    match p_expr(t, i) {
        Err(e) => Err(e),
        Ok((a, j)) => if progressed(t, i, j) {
            list_tail(t, a, j)
        } else {
            Err(at(t, i))
        },
    }
}

pub open spec fn list_tail(t: Seq<Lexeme>, acc: Ast, j: int) -> Parsed
    decreases t.len() - j, 8int,
{
    if tok(t, j) is Sep {
        match p_expr(t, j + 1) {
            Err(e) => Err(e),
            Ok((b, k)) => if progressed(t, j, k) {
                list_tail(t, bin(BinOp::Comma, acc, b), k)
            } else {
                Err(at(t, j))
            },
        }
    } else {
        Ok((acc, j))
    }
}

/// `expr = term {("+" | "-") term}`, left associative.
pub open spec fn p_expr(t: Seq<Lexeme>, i: int) -> Parsed
    decreases t.len() - i, 6int,
{
    match p_term(t, i) {
        Err(e) => Err(e),
        Ok((a, j)) => if progressed(t, i, j) {
            expr_tail(t, a, j)
        } else {
            Err(at(t, i))
        },
    }
}

pub open spec fn additive(tk: Token) -> Option<BinOp> {
    match tk {
        Token::Infix(InfixOp::Add) => Some(BinOp::Add),
        Token::Infix(InfixOp::Sub) => Some(BinOp::Sub),
        _ => None,
    }
}

pub open spec fn expr_tail(t: Seq<Lexeme>, acc: Ast, j: int) -> Parsed
    decreases t.len() - j, 6int,
{
    match additive(tok(t, j)) {
        Some(op) => match p_term(t, j + 1) {
            Err(e) => Err(e),
            Ok((b, k)) => if progressed(t, j, k) {
                expr_tail(t, bin(op, acc, b), k)
            } else {
                Err(at(t, j))
            },
        },
        None => Ok((acc, j)),
    }
}

/// `term = factor {("*" | "/" | "%") factor}`, left associative.
pub open spec fn p_term(t: Seq<Lexeme>, i: int) -> Parsed
    decreases t.len() - i, 5int,
{
    match p_factor(t, i) {
        Err(e) => Err(e),
        Ok((a, j)) => if progressed(t, i, j) {
            term_tail(t, a, j)
        } else {
            Err(at(t, i))
        },
    }
}

pub open spec fn multiplicative(tk: Token) -> Option<BinOp> {
    match tk {
        Token::Infix(InfixOp::Mul) => Some(BinOp::Mul),
        Token::Infix(InfixOp::Div) => Some(BinOp::Div),
        Token::Infix(InfixOp::Mod) => Some(BinOp::Mod),
        _ => None,
    }
}

pub open spec fn term_tail(t: Seq<Lexeme>, acc: Ast, j: int) -> Parsed
    decreases t.len() - j, 5int,
{
    match multiplicative(tok(t, j)) {
        Some(op) => match p_factor(t, j + 1) {
            Err(e) => Err(e),
            Ok((b, k)) => if progressed(t, j, k) {
                term_tail(t, bin(op, acc, b), k)
            } else {
                Err(at(t, j))
            },
        },
        None => Ok((acc, j)),
    }
}

/// `factor = power {"^" power}`, left associative.
pub open spec fn p_factor(t: Seq<Lexeme>, i: int) -> Parsed
    decreases t.len() - i, 4int,
{
    match p_power(t, i, false) {
        Err(e) => Err(e),
        Ok((a, j)) => if progressed(t, i, j) {
            factor_tail(t, a, j)
        } else {
            Err(at(t, i))
        },
    }
}

pub open spec fn factor_tail(t: Seq<Lexeme>, acc: Ast, j: int) -> Parsed
    decreases t.len() - j, 4int,
{
    if tok(t, j) == Token::Infix(InfixOp::Pow) {
        match p_power(t, j + 1, false) {
            Err(e) => Err(e),
            Ok((b, k)) => if progressed(t, j, k) {
                factor_tail(t, bin(BinOp::Pow, acc, b), k)
            } else {
                Err(at(t, j))
            },
        }
    } else {
        Ok((acc, j))
    }
}

/// `power = {("-" | "+")} base`; the base is negated when the number of
/// minus signs read so far, together with `neg`, is odd.
pub open spec fn p_power(t: Seq<Lexeme>, i: int, neg: bool) -> Parsed
    decreases t.len() - i, 3int,
{
    match tok(t, i) {
        Token::Infix(InfixOp::Add) => p_power(t, i + 1, neg),
        Token::Infix(InfixOp::Sub) => p_power(t, i + 1, !neg),
        _ => match p_base(t, i) {
            Err(e) => Err(e),
            Ok((b, j)) => Ok(
                (
                    if neg {
                        Ast::Neg(Box::new(b))
                    } else {
                        b
                    },
                    j,
                ),
            ),
        },
    }
}

/// `base = number | variable | function0 ["(" ")"] | function1 power
///       | functionN "(" expr {"," expr} ")" | "(" list ")"`.
pub open spec fn p_base(t: Seq<Lexeme>, i: int) -> Parsed
    decreases t.len() - i, 2int,
{
    match tok(t, i) {
        Token::Number(s, e) => Ok((Ast::Num(s, e), i + 1)),
        Token::Variable(v) => Ok((Ast::Var(v), i + 1)),
        Token::Function(sig) => {
            let j = i + 1;
            if sig.arity == 0 {
                if tok(t, j) is Open {
                    if tok(t, j + 1) is Close {
                        Ok((Ast::Call(sig.index, sig.pure, seq![]), j + 2))
                    } else {
                        Err(at(t, j + 1))
                    }
                } else {
                    Ok((Ast::Call(sig.index, sig.pure, seq![]), j))
                }
            } else if sig.arity == 1 {
                match p_power(t, j, false) {
                    Err(e) => Err(e),
                    Ok((a, k)) => Ok((Ast::Call(sig.index, sig.pure, seq![a]), k)),
                }
            } else if tok(t, j) is Open {
                arguments(t, sig, seq![], j + 1)
            } else {
                Err(at(t, j))
            }
        },
        Token::Open => match p_list(t, i + 1) {
            Err(e) => Err(e),
            Ok((a, k)) => if tok(t, k) is Close {
                Ok((a, k + 1))
            } else {
                Err(at(t, k))
            },
        },
        Token::Error(p) => Err(p),
        _ => Err(at(t, i)),
    }
}

/// The arguments of a call of a function of two or more arguments, from
/// index `j`, with `args` read so far: each is an `expr`; a separator after
/// it is consumed and another argument follows, unless `arity` arguments
/// have been read, where a separator is an error at the lexeme after it.
/// Reading stops at the first argument not followed by a separator.
pub open spec fn arguments(t: Seq<Lexeme>, sig: Signature, args: Seq<Ast>, j: int) -> Parsed
    decreases t.len() - j, 7int,
{
    match p_expr(t, j) {
        Err(e) => Err(e),
        Ok((a, k)) => if progressed(t, j, k) {
            let more = args.push(a);
            if tok(t, k) is Sep {
                if more.len() < sig.arity {
                    arguments(t, sig, more, k + 1)
                } else {
                    Err(at(t, k + 1))
                }
            } else {
                finish_call(t, sig, more, k)
            }
        } else {
            Err(at(t, j))
        },
    }
}

/// A call is complete when the closing parenthesis follows and exactly
/// `arity` arguments were read.
pub open spec fn finish_call(t: Seq<Lexeme>, sig: Signature, args: Seq<Ast>, j: int) -> Parsed {
    if tok(t, j) is Close && args.len() == sig.arity {
        Ok((Ast::Call(sig.index, sig.pure, args), j + 1))
    } else {
        Err(at(t, j))
    }
}

/// The tree of a whole lexeme sequence: a `list` followed by the end token.
pub open spec fn parse_lexemes(t: Seq<Lexeme>) -> Result<Ast, usize> {
    match p_list(t, 0) {
        Err(e) => Err(e),
        Ok((a, j)) => if tok(t, j) is End {
            Ok(a)
        } else {
            Err(at(t, j))
        },
    }
}

pub open spec fn outcome(r: Result<(Node, usize), ParseError>) -> Parsed {
    match r {
        Ok((n, j)) => Ok((n@, j as int)),
        Err(e) => Err(e.position),
    }
}

/// A recursive-descent parser over a lexeme sequence that ends with the end
/// token; `len` is the length of the expression the lexemes were read from,
/// and `names` the scope its names were resolved in.
pub struct Parser {
    pub tokens: Vec<Lexeme>,
    pub len: usize,
    pub names: Ghost<ScopeModel>,
}

impl Parser {
    pub open spec fn wf(&self) -> bool {
        &&& 1 <= self.tokens@.len() <= usize::MAX
        &&& self.tokens@.last().token is End
        &&& lexemes_within(self.tokens@, self.len as int)
        &&& forall|k: int|
            0 <= k < self.tokens@.len() ==> token_in_scope(
                #[trigger] self.tokens@[k].token,
                self.names@,
            )
    }

    /// Every argument read so far is a plain tree whose literals lie within
    /// the expression and whose names are bound in the scope.
    pub open spec fn fit(&self, args: Seq<Node>) -> bool {
        forall|k: int|
            0 <= k < args.len() ==> {
                &&& plain(#[trigger] args[k]@)
                &&& literals_within(args[k]@, self.len as int)
                &&& bound_in(args[k]@, self.names@)
            }
    }

    pub open spec fn answers(&self, i: usize, r: Result<(Node, usize), ParseError>) -> bool {
        &&& r matches Ok((_, j)) ==> i < j < self.tokens@.len()
        &&& r matches Err(e) ==> e.position <= self.len
        &&& r matches Ok((n, _)) ==> plain(n@) && literals_within(n@, self.len as int)
            && bound_in(n@, self.names@)
    }

    fn token(&self, i: usize) -> (tk: Token)
        requires
            i < self.tokens@.len(),
        ensures
            tk == tok(self.tokens@, i as int),
    {
        self.tokens[i].token
    }

    fn err(&self, i: usize) -> (e: ParseError)
        requires
            self.wf(),
            i < self.tokens@.len(),
        ensures
            e.position == at(self.tokens@, i as int),
            e.position <= self.len,
    {
        ParseError { position: self.tokens[i].position }
    }

    proof fn lemma_not_last(&self, i: usize)
        requires
            self.wf(),
            i < self.tokens@.len(),
            !(tok(self.tokens@, i as int) is End),
        ensures
            i + 1 < self.tokens@.len(),
    {
    }

    pub fn list(&self, i: usize) -> (r: Result<(Node, usize), ParseError>)
        requires
            self.wf(),
            i < self.tokens@.len(),
        ensures
            outcome(r) == p_list(self.tokens@, i as int),
            self.answers(i, r),
        decreases self.tokens@.len() - i, 8int,
    {
        let (mut acc, mut cur) = match self.expr(i) {
            Ok(p) => p,
            Err(e) => return Err(e),
        };
        loop
            invariant
                self.wf(),
                i < cur < self.tokens@.len(),
                plain(acc@),
                literals_within(acc@, self.len as int),
                bound_in(acc@, self.names@),
                list_tail(self.tokens@, acc@, cur as int) == p_list(self.tokens@, i as int),
            decreases self.tokens@.len() - cur,
        {
            match self.token(cur) {
                Token::Sep => {
                    proof {
                        self.lemma_not_last(cur);
                    }
                    let (b, k) = match self.expr(cur + 1) {
                        Ok(p) => p,
                        Err(e) => return Err(e),
                    };
                    acc = Node::Bin(BinOp::Comma, Box::new(acc), Box::new(b));
                    cur = k;
                },
                _ => return Ok((acc, cur)),
            }
        }
    }

    pub fn expr(&self, i: usize) -> (r: Result<(Node, usize), ParseError>)
        requires
            self.wf(),
            i < self.tokens@.len(),
        ensures
            outcome(r) == p_expr(self.tokens@, i as int),
            self.answers(i, r),
        decreases self.tokens@.len() - i, 6int,
    {
        let (mut acc, mut cur) = match self.term(i) {
            Ok(p) => p,
            Err(e) => return Err(e),
        };
        loop
            invariant
                self.wf(),
                i < cur < self.tokens@.len(),
                plain(acc@),
                literals_within(acc@, self.len as int),
                bound_in(acc@, self.names@),
                expr_tail(self.tokens@, acc@, cur as int) == p_expr(self.tokens@, i as int),
            decreases self.tokens@.len() - cur,
        {
            let op = match self.token(cur) {
                Token::Infix(InfixOp::Add) => BinOp::Add,
                Token::Infix(InfixOp::Sub) => BinOp::Sub,
                _ => return Ok((acc, cur)),
            };
            proof {
                self.lemma_not_last(cur);
            }
            let (b, k) = match self.term(cur + 1) {
                Ok(p) => p,
                Err(e) => return Err(e),
            };
            acc = Node::Bin(op, Box::new(acc), Box::new(b));
            cur = k;
        }
    }

    pub fn term(&self, i: usize) -> (r: Result<(Node, usize), ParseError>)
        requires
            self.wf(),
            i < self.tokens@.len(),
        ensures
            outcome(r) == p_term(self.tokens@, i as int),
            self.answers(i, r),
        decreases self.tokens@.len() - i, 5int,
    {
        let (mut acc, mut cur) = match self.factor(i) {
            Ok(p) => p,
            Err(e) => return Err(e),
        };
        loop
            invariant
                self.wf(),
                i < cur < self.tokens@.len(),
                plain(acc@),
                literals_within(acc@, self.len as int),
                bound_in(acc@, self.names@),
                term_tail(self.tokens@, acc@, cur as int) == p_term(self.tokens@, i as int),
            decreases self.tokens@.len() - cur,
        {
            let op = match self.token(cur) {
                Token::Infix(InfixOp::Mul) => BinOp::Mul,
                Token::Infix(InfixOp::Div) => BinOp::Div,
                Token::Infix(InfixOp::Mod) => BinOp::Mod,
                _ => return Ok((acc, cur)),
            };
            proof {
                self.lemma_not_last(cur);
            }
            let (b, k) = match self.factor(cur + 1) {
                Ok(p) => p,
                Err(e) => return Err(e),
            };
            acc = Node::Bin(op, Box::new(acc), Box::new(b));
            cur = k;
        }
    }

    pub fn factor(&self, i: usize) -> (r: Result<(Node, usize), ParseError>)
        requires
            self.wf(),
            i < self.tokens@.len(),
        ensures
            outcome(r) == p_factor(self.tokens@, i as int),
            self.answers(i, r),
        decreases self.tokens@.len() - i, 4int,
    {
        let (mut acc, mut cur) = match self.power(i, false) {
            Ok(p) => p,
            Err(e) => return Err(e),
        };
        loop
            invariant
                self.wf(),
                i < cur < self.tokens@.len(),
                plain(acc@),
                literals_within(acc@, self.len as int),
                bound_in(acc@, self.names@),
                factor_tail(self.tokens@, acc@, cur as int) == p_factor(self.tokens@, i as int),
            decreases self.tokens@.len() - cur,
        {
            match self.token(cur) {
                Token::Infix(InfixOp::Pow) => {
                    proof {
                        self.lemma_not_last(cur);
                    }
                    let (b, k) = match self.power(cur + 1, false) {
                        Ok(p) => p,
                        Err(e) => return Err(e),
                    };
                    acc = Node::Bin(BinOp::Pow, Box::new(acc), Box::new(b));
                    cur = k;
                },
                _ => return Ok((acc, cur)),
            }
        }
    }

    pub fn power(&self, i: usize, neg: bool) -> (r: Result<(Node, usize), ParseError>)
        requires
            self.wf(),
            i < self.tokens@.len(),
        ensures
            outcome(r) == p_power(self.tokens@, i as int, neg),
            self.answers(i, r),
        decreases self.tokens@.len() - i, 3int,
    {
        match self.token(i) {
            Token::Infix(InfixOp::Add) => {
                proof {
                    self.lemma_not_last(i);
                }
                self.power(i + 1, neg)
            },
            Token::Infix(InfixOp::Sub) => {
                proof {
                    self.lemma_not_last(i);
                }
                self.power(i + 1, !neg)
            },
            _ => match self.base(i) {
                Err(e) => Err(e),
                Ok((b, j)) => if neg {
                    Ok((Node::Neg(Box::new(b)), j))
                } else {
                    Ok((b, j))
                },
            },
        }
    }

    pub fn base(&self, i: usize) -> (r: Result<(Node, usize), ParseError>)
        requires
            self.wf(),
            i < self.tokens@.len(),
        ensures
            outcome(r) == p_base(self.tokens@, i as int),
            self.answers(i, r),
        decreases self.tokens@.len() - i, 2int,
    {
        match self.token(i) {
            Token::Number(s, e) => {
                proof {
                    self.lemma_not_last(i);
                    assert(self.tokens@[i as int].token == Token::Number(s, e));
                }
                Ok((Node::Num(s, e), i + 1))
            },
            Token::Variable(v) => {
                proof {
                    self.lemma_not_last(i);
                    assert(token_in_scope(self.tokens@[i as int].token, self.names@));
                }
                Ok((Node::Var(v), i + 1))
            },
            Token::Function(sig) => {
                proof {
                    self.lemma_not_last(i);
                    assert(token_in_scope(self.tokens@[i as int].token, self.names@));
                }
                let j = i + 1;
                if sig.arity == 0 {
                    let empty: Vec<Node> = Vec::new();
                    proof {
                        lemma_call_model(sig.index, sig.pure, empty);
                        assert(args_model(empty@) =~= Seq::<Ast>::empty());
                    }
                    let call = Node::Call(sig.index, sig.pure, empty);
                    match self.token(j) {
                        Token::Open => {
                            proof {
                                self.lemma_not_last(j);
                            }
                            match self.token(j + 1) {
                                Token::Close => {
                                    proof {
                                        self.lemma_not_last((j + 1) as usize);
                                    }
                                    Ok((call, j + 2))
                                },
                                _ => Err(self.err(j + 1)),
                            }
                        },
                        _ => Ok((call, j)),
                    }
                } else if sig.arity == 1 {
                    match self.power(j, false) {
                        Err(e) => Err(e),
                        Ok((a, k)) => {
                            let ghost am = a@;
                            let mut args: Vec<Node> = Vec::new();
                            args.push(a);
                            proof {
                                lemma_call_model(sig.index, sig.pure, args);
                                assert(args_model(args@) =~= seq![am]);
                                assert(plain(seq![am][0]));
                                assert(literals_within(seq![am][0], self.len as int));
                                assert(bound_in(seq![am][0], self.names@));
                            }
                            let call = Node::Call(sig.index, sig.pure, args);
                            Ok((call, k))
                        },
                    }
                } else {
                    match self.token(j) {
                        Token::Open => {
                            proof {
                                self.lemma_not_last(j);
                            }
                            self.arguments(sig, j + 1)
                        },
                        _ => Err(self.err(j)),
                    }
                }
            },
            Token::Open => {
                proof {
                    self.lemma_not_last(i);
                }
                match self.list(i + 1) {
                    Err(e) => Err(e),
                    Ok((inner, k)) => match self.token(k) {
                        Token::Close => {
                            proof {
                                self.lemma_not_last(k);
                            }
                            Ok((inner, k + 1))
                        },
                        _ => Err(self.err(k)),
                    },
                }
            },
            Token::Error(p) => {
                assert(self.tokens@[i as int].token == Token::Error(p));
                Err(ParseError { position: p })
            },
            _ => Err(self.err(i)),
        }
    }

    fn arguments(&self, sig: Signature, start: usize) -> (r: Result<(Node, usize), ParseError>)
        requires
            self.wf(),
            token_in_scope(Token::Function(sig), self.names@),
            start < self.tokens@.len(),
            sig.arity >= 2,
        ensures
            outcome(r) == arguments(self.tokens@, sig, seq![], start as int),
            self.answers(start, r),
        decreases self.tokens@.len() - start, 7int,
    {
        let mut args: Vec<Node> = Vec::new();
        let mut cur = start;
        assert(args_model(args@) =~= seq![]);
        loop
            invariant
                self.wf(),
                sig.arity >= 2,
                start <= cur < self.tokens@.len(),
                args@.len() < sig.arity,
                self.fit(args@),
                token_in_scope(Token::Function(sig), self.names@),
                arguments(self.tokens@, sig, args_model(args@), cur as int) == arguments(
                    self.tokens@,
                    sig,
                    seq![],
                    start as int,
                ),
            decreases self.tokens@.len() - cur,
        {
            let (a, k) = match self.expr(cur) {
                Ok(p) => p,
                Err(e) => return Err(e),
            };
            let ghost before = args_model(args@);
            let ghost am = a@;
            args.push(a);
            assert(args_model(args@) =~= before.push(am));
            assert(self.fit(args@));
            match self.token(k) {
                Token::Sep => {
                    proof {
                        self.lemma_not_last(k);
                    }
                    if args.len() < sig.arity {
                        cur = k + 1;
                    } else {
                        return Err(self.err(k + 1));
                    }
                },
                _ => return self.finish_call(sig, args, k),
            }
        }
    }

    fn finish_call(&self, sig: Signature, args: Vec<Node>, j: usize) -> (r: Result<
        (Node, usize),
        ParseError,
    >)
        requires
            self.wf(),
            j < self.tokens@.len(),
            self.fit(args@),
            token_in_scope(Token::Function(sig), self.names@),
        ensures
            outcome(r) == finish_call(self.tokens@, sig, args_model(args@), j as int),
            self.answers(j, r),
    {
        match self.token(j) {
            Token::Close => {
                if args.len() == sig.arity {
                    proof {
                        self.lemma_not_last(j);
                        lemma_call_model(sig.index, sig.pure, args);
                        let m = args_model(args@);
                        assert forall|q: int| 0 <= q < m.len() implies {
                            &&& plain(#[trigger] m[q])
                            &&& literals_within(m[q], self.len as int)
                            &&& bound_in(m[q], self.names@)
                        } by {
                            assert(m[q] == args@[q]@);
                        }
                    }
                    Ok((Node::Call(sig.index, sig.pure, args), j + 1))
                } else {
                    Err(self.err(j))
                }
            },
            _ => Err(self.err(j)),
        }
    }
}

} // verus!

verus! {

/// The syntax tree of an expression, or the byte offset of its error.
pub open spec fn syntax_tree(src: Seq<u8>, scope: ScopeModel) -> Result<Ast, usize> {
    parse_lexemes(lex_all(src, scope))
}

/// The compiled tree of an expression (its syntax tree with constant
/// subtrees folded), or the byte offset of its error.
pub open spec fn compiled(src: Seq<u8>, scope: ScopeModel) -> Result<Ast, usize> {
    match syntax_tree(src, scope) {
        Ok(a) => Ok(fold(a)),
        Err(e) => Err(e),
    }
}

/// Parses `expression` with the names of `scope`, without folding.
pub fn parse_tree<V, F>(expression: &str, scope: &Scope<V, F>) -> (r: Result<Node, ParseError>)
    ensures
        r matches Ok(n) ==> syntax_tree(expression.spec_bytes(), scope@) == Ok::<Ast, usize>(n@)
            && plain(n@) && literals_within(n@, expression.spec_bytes().len() as int) && bound_in(
            n@,
            scope@,
        ),
        r matches Err(e) ==> syntax_tree(expression.spec_bytes(), scope@) == Err::<Ast, usize>(
            e.position,
        ),
        r matches Err(e) ==> e.position <= expression.spec_bytes().len(),
{
    let src = expression.as_bytes();
    let len = src.len();
    let variables = scope.variable_count();
    let functions = scope.function_count();
    let tokens = tokenize(src, scope);
    let count = tokens.len();
    proof {
        lemma_lex(src@, scope@, 0);
        assert(tokens@.len() == count);
        assert(scope@.variables.len() == variables && scope@.functions.len() == functions);
    }
    let parser = Parser { tokens, len, names: Ghost(scope@) };
    match parser.list(0) {
        Err(e) => Err(e),
        Ok((root, j)) => match parser.token(j) {
            Token::End => Ok(root),
            _ => Err(parser.err(j)),
        },
    }
}

/// Compiles `expression` with the names of `scope`: parses it and folds its
/// constant subtrees. An error carries the byte offset where parsing
/// stopped, which lies within the expression.
pub fn parse<V, F>(expression: &str, scope: &Scope<V, F>) -> (r: Result<Node, ParseError>)
    ensures
        r matches Ok(n) ==> compiled(expression.spec_bytes(), scope@) == Ok::<Ast, usize>(n@),
        r matches Ok(n) ==> in_compiled_form(n@),
        r matches Ok(n) ==> literals_within(n@, expression.spec_bytes().len() as int) && bound_in(
            n@,
            scope@,
        ),
        r matches Err(e) ==> compiled(expression.spec_bytes(), scope@) == Err::<Ast, usize>(
            e.position,
        ),
        r matches Err(e) ==> e.position <= expression.spec_bytes().len(),
{
    match parse_tree(expression, scope) {
        Ok(root) => {
            proof {
                lemma_fold_keeps_leaves(root@, expression.spec_bytes().len() as int, scope@);
            }
            Ok(optimize(root))
        },
        Err(e) => Err(e),
    }
}

} // verus!

verus! {

/// The tree of a single-token operand: a numeric literal or a variable.
pub open spec fn atom(tk: Token) -> Option<Ast> {
    match tk {
        Token::Number(s, e) => Some(Ast::Num(s, e)),
        Token::Variable(v) => Some(Ast::Var(v)),
        _ => None,
    }
}

/// Whether the lexemes of `t` carry exactly the tokens `ts`.
pub open spec fn tokens_are(t: Seq<Lexeme>, ts: Seq<Token>) -> bool {
    t.len() == ts.len() && forall|k: int| 0 <= k < t.len() ==> #[trigger] t[k].token == ts[k]
}

proof fn lemma_atom_power(t: Seq<Lexeme>, i: int)
    requires
        atom(tok(t, i)) is Some,
    ensures
        p_power(t, i, false) == Ok::<(Ast, int), usize>((atom(tok(t, i)).unwrap(), i + 1)),
        p_power(t, i, true) == Ok::<(Ast, int), usize>(
            (Ast::Neg(Box::new(atom(tok(t, i)).unwrap())), i + 1),
        ),
{
    assert(p_base(t, i) == Ok::<(Ast, int), usize>((atom(tok(t, i)).unwrap(), i + 1)));
}

proof fn lemma_atom_factor(t: Seq<Lexeme>, i: int)
    requires
        0 <= i,
        i + 1 < t.len(),
        atom(tok(t, i)) is Some,
        !(tok(t, i + 1) == Token::Infix(InfixOp::Pow)),
    ensures
        p_factor(t, i) == Ok::<(Ast, int), usize>((atom(tok(t, i)).unwrap(), i + 1)),
{
    lemma_atom_power(t, i);
}

proof fn lemma_closed_list(t: Seq<Lexeme>, a: Ast, j: int)
    requires
        0 <= j < t.len(),
        tok(t, j) is End || tok(t, j) is Close,
    ensures
        factor_tail(t, a, j) == Ok::<(Ast, int), usize>((a, j)),
        term_tail(t, a, j) == Ok::<(Ast, int), usize>((a, j)),
        expr_tail(t, a, j) == Ok::<(Ast, int), usize>((a, j)),
        list_tail(t, a, j) == Ok::<(Ast, int), usize>((a, j)),
{
}

/// `^` is left associative: `x ^ y ^ z` reads as `(x ^ y) ^ z`.
pub proof fn lemma_power_left_associative(t: Seq<Lexeme>, x: Token, y: Token, z: Token)
    requires
        atom(x) is Some,
        atom(y) is Some,
        atom(z) is Some,
        tokens_are(
            t,
            seq![x, Token::Infix(InfixOp::Pow), y, Token::Infix(InfixOp::Pow), z, Token::End],
        ),
    ensures
        parse_lexemes(t) == Ok::<Ast, usize>(
            bin(BinOp::Pow, bin(BinOp::Pow, atom(x).unwrap(), atom(y).unwrap()), atom(z).unwrap()),
        ),
{
    assert(tok(t, 0) == x && tok(t, 1) == Token::Infix(InfixOp::Pow) && tok(t, 2) == y);
    assert(tok(t, 3) == Token::Infix(InfixOp::Pow) && tok(t, 4) == z && tok(t, 5) == Token::End);
    let (a, b, c) = (atom(x).unwrap(), atom(y).unwrap(), atom(z).unwrap());
    lemma_atom_power(t, 0);
    lemma_atom_power(t, 2);
    lemma_atom_power(t, 4);
    let r = bin(BinOp::Pow, bin(BinOp::Pow, a, b), c);
    lemma_closed_list(t, r, 5);
    assert(factor_tail(t, bin(BinOp::Pow, a, b), 3) == Ok::<(Ast, int), usize>((r, 5)));
    assert(factor_tail(t, a, 1) == Ok::<(Ast, int), usize>((r, 5)));
    assert(p_factor(t, 0) == Ok::<(Ast, int), usize>((r, 5)));
    assert(p_term(t, 0) == Ok::<(Ast, int), usize>((r, 5)));
    assert(p_expr(t, 0) == Ok::<(Ast, int), usize>((r, 5)));
    assert(p_list(t, 0) == Ok::<(Ast, int), usize>((r, 5)));
}

/// Unary minus binds tighter than `^`: `-x ^ y` reads as `(-x) ^ y`.
pub proof fn lemma_negation_binds_tighter(t: Seq<Lexeme>, x: Token, y: Token)
    requires
        atom(x) is Some,
        atom(y) is Some,
        tokens_are(
            t,
            seq![Token::Infix(InfixOp::Sub), x, Token::Infix(InfixOp::Pow), y, Token::End],
        ),
    ensures
        parse_lexemes(t) == Ok::<Ast, usize>(
            bin(BinOp::Pow, Ast::Neg(Box::new(atom(x).unwrap())), atom(y).unwrap()),
        ),
{
    assert(tok(t, 0) == Token::Infix(InfixOp::Sub) && tok(t, 1) == x);
    assert(tok(t, 2) == Token::Infix(InfixOp::Pow) && tok(t, 3) == y && tok(t, 4) == Token::End);
    let (a, b) = (atom(x).unwrap(), atom(y).unwrap());
    lemma_atom_power(t, 1);
    lemma_atom_power(t, 3);
    assert(p_power(t, 0, false) == p_power(t, 1, true));
    let r = bin(BinOp::Pow, Ast::Neg(Box::new(a)), b);
    lemma_closed_list(t, r, 4);
    assert(factor_tail(t, Ast::Neg(Box::new(a)), 2) == Ok::<(Ast, int), usize>((r, 4)));
    assert(p_factor(t, 0) == Ok::<(Ast, int), usize>((r, 4)));
    assert(p_term(t, 0) == Ok::<(Ast, int), usize>((r, 4)));
    assert(p_expr(t, 0) == Ok::<(Ast, int), usize>((r, 4)));
    assert(p_list(t, 0) == Ok::<(Ast, int), usize>((r, 4)));
}

/// `*` binds tighter than `+`: `x + y * z` reads as `x + (y * z)`.
pub proof fn lemma_product_binds_tighter(t: Seq<Lexeme>, x: Token, y: Token, z: Token)
    requires
        atom(x) is Some,
        atom(y) is Some,
        atom(z) is Some,
        tokens_are(
            t,
            seq![x, Token::Infix(InfixOp::Add), y, Token::Infix(InfixOp::Mul), z, Token::End],
        ),
    ensures
        parse_lexemes(t) == Ok::<Ast, usize>(
            bin(BinOp::Add, atom(x).unwrap(), bin(BinOp::Mul, atom(y).unwrap(), atom(z).unwrap())),
        ),
{
    assert(tok(t, 0) == x && tok(t, 1) == Token::Infix(InfixOp::Add) && tok(t, 2) == y);
    assert(tok(t, 3) == Token::Infix(InfixOp::Mul) && tok(t, 4) == z && tok(t, 5) == Token::End);
    let (a, b, c) = (atom(x).unwrap(), atom(y).unwrap(), atom(z).unwrap());
    lemma_atom_factor(t, 0);
    lemma_atom_factor(t, 2);
    lemma_atom_factor(t, 4);
    let m = bin(BinOp::Mul, b, c);
    let r = bin(BinOp::Add, a, m);
    lemma_closed_list(t, m, 5);
    lemma_closed_list(t, r, 5);
    assert(term_tail(t, a, 1) == Ok::<(Ast, int), usize>((a, 1)));
    assert(p_term(t, 0) == Ok::<(Ast, int), usize>((a, 1)));
    assert(term_tail(t, b, 3) == Ok::<(Ast, int), usize>((m, 5)));
    assert(p_term(t, 2) == Ok::<(Ast, int), usize>((m, 5)));
    assert(expr_tail(t, a, 1) == Ok::<(Ast, int), usize>((r, 5)));
    assert(p_expr(t, 0) == Ok::<(Ast, int), usize>((r, 5)));
    assert(p_list(t, 0) == Ok::<(Ast, int), usize>((r, 5)));
}

/// A comma list reads left to right: `x, y, z` reads as `(x, y), z`, whose
/// value is that of its last item.
pub proof fn lemma_list_left_associative(t: Seq<Lexeme>, x: Token, y: Token, z: Token)
    requires
        atom(x) is Some,
        atom(y) is Some,
        atom(z) is Some,
        tokens_are(t, seq![x, Token::Sep, y, Token::Sep, z, Token::End]),
    ensures
        parse_lexemes(t) == Ok::<Ast, usize>(
            bin(BinOp::Comma, bin(BinOp::Comma, atom(x).unwrap(), atom(y).unwrap()), atom(z).unwrap()),
        ),
{
    assert(tok(t, 0) == x && tok(t, 1) == Token::Sep && tok(t, 2) == y);
    assert(tok(t, 3) == Token::Sep && tok(t, 4) == z && tok(t, 5) == Token::End);
    let (a, b, c) = (atom(x).unwrap(), atom(y).unwrap(), atom(z).unwrap());
    lemma_atom_factor(t, 0);
    lemma_atom_factor(t, 2);
    lemma_atom_factor(t, 4);
    assert(p_expr(t, 0) == Ok::<(Ast, int), usize>((a, 1)));
    assert(p_expr(t, 2) == Ok::<(Ast, int), usize>((b, 3)));
    lemma_closed_list(t, c, 5);
    assert(p_expr(t, 4) == Ok::<(Ast, int), usize>((c, 5)));
    let r = bin(BinOp::Comma, bin(BinOp::Comma, a, b), c);
    lemma_closed_list(t, r, 5);
    assert(list_tail(t, bin(BinOp::Comma, a, b), 3) == Ok::<(Ast, int), usize>((r, 5)));
    assert(p_list(t, 0) == Ok::<(Ast, int), usize>((r, 5)));
}

/// A function of one argument needs no parentheses: `f x` and `f(x)` read
/// the same.
pub proof fn lemma_unary_call_parentheses_optional(
    t: Seq<Lexeme>,
    u: Seq<Lexeme>,
    f: Signature,
    x: Token,
)
    requires
        f.arity == 1,
        atom(x) is Some,
        tokens_are(t, seq![Token::Function(f), x, Token::End]),
        tokens_are(u, seq![Token::Function(f), Token::Open, x, Token::Close, Token::End]),
    ensures
        parse_lexemes(t) == Ok::<Ast, usize>(Ast::Call(f.index, f.pure, seq![atom(x).unwrap()])),
        parse_lexemes(u) == parse_lexemes(t),
{
    assert(tok(t, 0) == Token::Function(f) && tok(t, 1) == x && tok(t, 2) == Token::End);
    assert(tok(u, 0) == Token::Function(f) && tok(u, 1) == Token::Open && tok(u, 2) == x);
    assert(tok(u, 3) == Token::Close && tok(u, 4) == Token::End);
    let a = atom(x).unwrap();
    let call = Ast::Call(f.index, f.pure, seq![a]);
    lemma_atom_power(t, 1);
    lemma_closed_list(t, call, 2);
    assert(p_power(t, 0, false) == Ok::<(Ast, int), usize>((call, 2)));
    assert(p_factor(t, 0) == Ok::<(Ast, int), usize>((call, 2)));
    assert(p_term(t, 0) == Ok::<(Ast, int), usize>((call, 2)));
    assert(p_expr(t, 0) == Ok::<(Ast, int), usize>((call, 2)));
    assert(p_list(t, 0) == Ok::<(Ast, int), usize>((call, 2)));
    lemma_atom_factor(u, 2);
    lemma_closed_list(u, a, 3);
    assert(p_expr(u, 2) == Ok::<(Ast, int), usize>((a, 3)));
    assert(p_list(u, 2) == Ok::<(Ast, int), usize>((a, 3)));
    assert(p_power(u, 1, false) == Ok::<(Ast, int), usize>((a, 4)));
    lemma_closed_list(u, call, 4);
    assert(p_power(u, 0, false) == Ok::<(Ast, int), usize>((call, 4)));
    assert(p_factor(u, 0) == Ok::<(Ast, int), usize>((call, 4)));
    assert(p_term(u, 0) == Ok::<(Ast, int), usize>((call, 4)));
    assert(p_expr(u, 0) == Ok::<(Ast, int), usize>((call, 4)));
    assert(p_list(u, 0) == Ok::<(Ast, int), usize>((call, 4)));
}

/// A function of no arguments may be written with or without `()`.
pub proof fn lemma_nullary_call_parentheses_optional(t: Seq<Lexeme>, u: Seq<Lexeme>, f: Signature)
    requires
        f.arity == 0,
        tokens_are(t, seq![Token::Function(f), Token::End]),
        tokens_are(u, seq![Token::Function(f), Token::Open, Token::Close, Token::End]),
    ensures
        parse_lexemes(t) == Ok::<Ast, usize>(Ast::Call(f.index, f.pure, seq![])),
        parse_lexemes(u) == parse_lexemes(t),
{
    assert(tok(t, 0) == Token::Function(f) && tok(t, 1) == Token::End);
    assert(tok(u, 0) == Token::Function(f) && tok(u, 1) == Token::Open);
    assert(tok(u, 2) == Token::Close && tok(u, 3) == Token::End);
    let call = Ast::Call(f.index, f.pure, seq![]);
    lemma_closed_list(t, call, 1);
    assert(p_factor(t, 0) == Ok::<(Ast, int), usize>((call, 1)));
    assert(p_term(t, 0) == Ok::<(Ast, int), usize>((call, 1)));
    assert(p_expr(t, 0) == Ok::<(Ast, int), usize>((call, 1)));
    assert(p_list(t, 0) == Ok::<(Ast, int), usize>((call, 1)));
    lemma_closed_list(u, call, 3);
    assert(p_factor(u, 0) == Ok::<(Ast, int), usize>((call, 3)));
    assert(p_term(u, 0) == Ok::<(Ast, int), usize>((call, 3)));
    assert(p_expr(u, 0) == Ok::<(Ast, int), usize>((call, 3)));
    assert(p_list(u, 0) == Ok::<(Ast, int), usize>((call, 3)));
}

/// The operator of the tree that an infix token builds.
pub open spec fn operator_of(op: InfixOp) -> BinOp {
    match op {
        InfixOp::Add => BinOp::Add,
        InfixOp::Sub => BinOp::Sub,
        InfixOp::Mul => BinOp::Mul,
        InfixOp::Div => BinOp::Div,
        InfixOp::Mod => BinOp::Mod,
        InfixOp::Pow => BinOp::Pow,
    }
}

/// Whether an infix operator is `+` or `-`.
pub open spec fn is_sum_operator(op: InfixOp) -> bool {
    op == InfixOp::Add || op == InfixOp::Sub
}

/// Whether an infix operator is `*`, `/` or `%`.
pub open spec fn is_product_operator(op: InfixOp) -> bool {
    op == InfixOp::Mul || op == InfixOp::Div || op == InfixOp::Mod
}

proof fn lemma_operator_levels(op: InfixOp)
    ensures
        is_sum_operator(op) ==> additive(Token::Infix(op)) == Some(operator_of(op))
            && multiplicative(Token::Infix(op)) is None,
        is_product_operator(op) ==> multiplicative(Token::Infix(op)) == Some(operator_of(op))
            && additive(Token::Infix(op)) is None,
        is_sum_operator(op) || is_product_operator(op) ==> Token::Infix(op) != Token::Infix(
            InfixOp::Pow,
        ),
{
}

/// Each of `*`, `/` and `%` binds tighter than each of `+` and `-`:
/// `x + y % z` reads as `x + (y % z)`.
pub proof fn lemma_products_bind_tighter(
    t: Seq<Lexeme>,
    x: Token,
    sum: InfixOp,
    y: Token,
    product: InfixOp,
    z: Token,
)
    requires
        atom(x) is Some,
        atom(y) is Some,
        atom(z) is Some,
        is_sum_operator(sum),
        is_product_operator(product),
        tokens_are(t, seq![x, Token::Infix(sum), y, Token::Infix(product), z, Token::End]),
    ensures
        parse_lexemes(t) == Ok::<Ast, usize>(
            bin(
                operator_of(sum),
                atom(x).unwrap(),
                bin(operator_of(product), atom(y).unwrap(), atom(z).unwrap()),
            ),
        ),
{
    assert(tok(t, 0) == x && tok(t, 1) == Token::Infix(sum) && tok(t, 2) == y);
    assert(tok(t, 3) == Token::Infix(product) && tok(t, 4) == z && tok(t, 5) == Token::End);
    lemma_operator_levels(sum);
    lemma_operator_levels(product);
    let (a, b, c) = (atom(x).unwrap(), atom(y).unwrap(), atom(z).unwrap());
    lemma_atom_factor(t, 0);
    lemma_atom_factor(t, 2);
    lemma_atom_factor(t, 4);
    let m = bin(operator_of(product), b, c);
    let r = bin(operator_of(sum), a, m);
    lemma_closed_list(t, m, 5);
    lemma_closed_list(t, r, 5);
    assert(term_tail(t, a, 1) == Ok::<(Ast, int), usize>((a, 1)));
    assert(p_term(t, 0) == Ok::<(Ast, int), usize>((a, 1)));
    assert(term_tail(t, b, 3) == Ok::<(Ast, int), usize>((m, 5)));
    assert(p_term(t, 2) == Ok::<(Ast, int), usize>((m, 5)));
    assert(expr_tail(t, a, 1) == Ok::<(Ast, int), usize>((r, 5)));
    assert(p_expr(t, 0) == Ok::<(Ast, int), usize>((r, 5)));
    assert(p_list(t, 0) == Ok::<(Ast, int), usize>((r, 5)));
}

/// `*`, `/` and `%` share one level and read left to right: `x * y % z`
/// reads as `(x * y) % z`.
pub proof fn lemma_products_left_associative(
    t: Seq<Lexeme>,
    x: Token,
    first: InfixOp,
    y: Token,
    second: InfixOp,
    z: Token,
)
    requires
        atom(x) is Some,
        atom(y) is Some,
        atom(z) is Some,
        is_product_operator(first),
        is_product_operator(second),
        tokens_are(t, seq![x, Token::Infix(first), y, Token::Infix(second), z, Token::End]),
    ensures
        parse_lexemes(t) == Ok::<Ast, usize>(
            bin(
                operator_of(second),
                bin(operator_of(first), atom(x).unwrap(), atom(y).unwrap()),
                atom(z).unwrap(),
            ),
        ),
{
    assert(tok(t, 0) == x && tok(t, 1) == Token::Infix(first) && tok(t, 2) == y);
    assert(tok(t, 3) == Token::Infix(second) && tok(t, 4) == z && tok(t, 5) == Token::End);
    lemma_operator_levels(first);
    lemma_operator_levels(second);
    let (a, b, c) = (atom(x).unwrap(), atom(y).unwrap(), atom(z).unwrap());
    lemma_atom_factor(t, 0);
    lemma_atom_factor(t, 2);
    lemma_atom_factor(t, 4);
    let m = bin(operator_of(first), a, b);
    let r = bin(operator_of(second), m, c);
    lemma_closed_list(t, r, 5);
    assert(term_tail(t, m, 3) == Ok::<(Ast, int), usize>((r, 5)));
    assert(term_tail(t, a, 1) == Ok::<(Ast, int), usize>((r, 5)));
    assert(p_term(t, 0) == Ok::<(Ast, int), usize>((r, 5)));
    assert(p_expr(t, 0) == Ok::<(Ast, int), usize>((r, 5)));
    assert(p_list(t, 0) == Ok::<(Ast, int), usize>((r, 5)));
}

/// `+` and `-` share one level and read left to right: `x - y + z` reads
/// as `(x - y) + z`.
pub proof fn lemma_sums_left_associative(
    t: Seq<Lexeme>,
    x: Token,
    first: InfixOp,
    y: Token,
    second: InfixOp,
    z: Token,
)
    requires
        atom(x) is Some,
        atom(y) is Some,
        atom(z) is Some,
        is_sum_operator(first),
        is_sum_operator(second),
        tokens_are(t, seq![x, Token::Infix(first), y, Token::Infix(second), z, Token::End]),
    ensures
        parse_lexemes(t) == Ok::<Ast, usize>(
            bin(
                operator_of(second),
                bin(operator_of(first), atom(x).unwrap(), atom(y).unwrap()),
                atom(z).unwrap(),
            ),
        ),
{
    assert(tok(t, 0) == x && tok(t, 1) == Token::Infix(first) && tok(t, 2) == y);
    assert(tok(t, 3) == Token::Infix(second) && tok(t, 4) == z && tok(t, 5) == Token::End);
    lemma_operator_levels(first);
    lemma_operator_levels(second);
    let (a, b, c) = (atom(x).unwrap(), atom(y).unwrap(), atom(z).unwrap());
    lemma_atom_factor(t, 0);
    lemma_atom_factor(t, 2);
    lemma_atom_factor(t, 4);
    let m = bin(operator_of(first), a, b);
    let r = bin(operator_of(second), m, c);
    lemma_closed_list(t, c, 5);
    lemma_closed_list(t, r, 5);
    assert(p_term(t, 0) == Ok::<(Ast, int), usize>((a, 1)));
    assert(p_term(t, 2) == Ok::<(Ast, int), usize>((b, 3)));
    assert(p_term(t, 4) == Ok::<(Ast, int), usize>((c, 5)));
    assert(expr_tail(t, m, 3) == Ok::<(Ast, int), usize>((r, 5)));
    assert(expr_tail(t, a, 1) == Ok::<(Ast, int), usize>((r, 5)));
    assert(p_expr(t, 0) == Ok::<(Ast, int), usize>((r, 5)));
    assert(p_list(t, 0) == Ok::<(Ast, int), usize>((r, 5)));
}

/// Each argument of a call of two arguments is a whole sum: `f(x, y + z)`
/// reads as the call of `f` on `x` and `y + z`.
pub proof fn lemma_call_arguments_are_sums(
    t: Seq<Lexeme>,
    f: Signature,
    x: Token,
    y: Token,
    sum: InfixOp,
    z: Token,
)
    requires
        f.arity == 2,
        atom(x) is Some,
        atom(y) is Some,
        atom(z) is Some,
        is_sum_operator(sum),
        tokens_are(
            t,
            seq![
                Token::Function(f),
                Token::Open,
                x,
                Token::Sep,
                y,
                Token::Infix(sum),
                z,
                Token::Close,
                Token::End,
            ],
        ),
    ensures
        parse_lexemes(t) == Ok::<Ast, usize>(
            Ast::Call(
                f.index,
                f.pure,
                seq![
                    atom(x).unwrap(),
                    bin(operator_of(sum), atom(y).unwrap(), atom(z).unwrap()),
                ],
            ),
        ),
{
    assert(tok(t, 0) == Token::Function(f) && tok(t, 1) == Token::Open && tok(t, 2) == x);
    assert(tok(t, 3) == Token::Sep && tok(t, 4) == y && tok(t, 5) == Token::Infix(sum));
    assert(tok(t, 6) == z && tok(t, 7) == Token::Close && tok(t, 8) == Token::End);
    lemma_operator_levels(sum);
    let (a, b, c) = (atom(x).unwrap(), atom(y).unwrap(), atom(z).unwrap());
    let s = bin(operator_of(sum), b, c);
    lemma_atom_factor(t, 2);
    lemma_atom_factor(t, 4);
    lemma_atom_factor(t, 6);
    assert(p_term(t, 2) == Ok::<(Ast, int), usize>((a, 3)));
    assert(p_expr(t, 2) == Ok::<(Ast, int), usize>((a, 3)));
    assert(p_term(t, 4) == Ok::<(Ast, int), usize>((b, 5)));
    lemma_closed_list(t, c, 7);
    lemma_closed_list(t, s, 7);
    assert(p_term(t, 6) == Ok::<(Ast, int), usize>((c, 7)));
    assert(expr_tail(t, b, 5) == Ok::<(Ast, int), usize>((s, 7)));
    assert(p_expr(t, 4) == Ok::<(Ast, int), usize>((s, 7)));
    let call = Ast::Call(f.index, f.pure, seq![a, s]);
    assert(seq![a].push(s) =~= seq![a, s]);
    assert(seq![].push(a) =~= seq![a]);
    assert(finish_call(t, f, seq![a, s], 7) == Ok::<(Ast, int), usize>((call, 8)));
    assert(arguments(t, f, seq![a], 4) == Ok::<(Ast, int), usize>((call, 8)));
    assert(arguments(t, f, seq![], 2) == Ok::<(Ast, int), usize>((call, 8)));
    assert(p_base(t, 0) == Ok::<(Ast, int), usize>((call, 8)));
    lemma_closed_list(t, call, 8);
    assert(p_power(t, 0, false) == Ok::<(Ast, int), usize>((call, 8)));
    assert(p_factor(t, 0) == Ok::<(Ast, int), usize>((call, 8)));
    assert(p_term(t, 0) == Ok::<(Ast, int), usize>((call, 8)));
    assert(p_expr(t, 0) == Ok::<(Ast, int), usize>((call, 8)));
    assert(p_list(t, 0) == Ok::<(Ast, int), usize>((call, 8)));
}

/// The argument of a one-argument call without parentheses is a power and
/// may carry signs: `f -x` reads as the call of `f` on `-x`, and `f +x` as
/// the call of `f` on `x`.
pub proof fn lemma_unary_call_takes_signs(t: Seq<Lexeme>, u: Seq<Lexeme>, f: Signature, x: Token)
    requires
        f.arity == 1,
        atom(x) is Some,
        tokens_are(t, seq![Token::Function(f), Token::Infix(InfixOp::Sub), x, Token::End]),
        tokens_are(u, seq![Token::Function(f), Token::Infix(InfixOp::Add), x, Token::End]),
    ensures
        parse_lexemes(t) == Ok::<Ast, usize>(
            Ast::Call(f.index, f.pure, seq![Ast::Neg(Box::new(atom(x).unwrap()))]),
        ),
        parse_lexemes(u) == Ok::<Ast, usize>(Ast::Call(f.index, f.pure, seq![atom(x).unwrap()])),
{
    assert(tok(t, 0) == Token::Function(f) && tok(t, 1) == Token::Infix(InfixOp::Sub));
    assert(tok(t, 2) == x && tok(t, 3) == Token::End);
    assert(tok(u, 0) == Token::Function(f) && tok(u, 1) == Token::Infix(InfixOp::Add));
    assert(tok(u, 2) == x && tok(u, 3) == Token::End);
    let a = atom(x).unwrap();
    lemma_atom_power(t, 2);
    assert(p_power(t, 1, false) == Ok::<(Ast, int), usize>((Ast::Neg(Box::new(a)), 3)));
    let call = Ast::Call(f.index, f.pure, seq![Ast::Neg(Box::new(a))]);
    assert(p_base(t, 0) == Ok::<(Ast, int), usize>((call, 3)));
    lemma_closed_list(t, call, 3);
    assert(p_power(t, 0, false) == Ok::<(Ast, int), usize>((call, 3)));
    assert(p_factor(t, 0) == Ok::<(Ast, int), usize>((call, 3)));
    assert(p_term(t, 0) == Ok::<(Ast, int), usize>((call, 3)));
    assert(p_expr(t, 0) == Ok::<(Ast, int), usize>((call, 3)));
    assert(p_list(t, 0) == Ok::<(Ast, int), usize>((call, 3)));
    lemma_atom_power(u, 2);
    assert(p_power(u, 1, false) == Ok::<(Ast, int), usize>((a, 3)));
    let call2 = Ast::Call(f.index, f.pure, seq![a]);
    assert(p_base(u, 0) == Ok::<(Ast, int), usize>((call2, 3)));
    lemma_closed_list(u, call2, 3);
    assert(p_power(u, 0, false) == Ok::<(Ast, int), usize>((call2, 3)));
    assert(p_factor(u, 0) == Ok::<(Ast, int), usize>((call2, 3)));
    assert(p_term(u, 0) == Ok::<(Ast, int), usize>((call2, 3)));
    assert(p_expr(u, 0) == Ok::<(Ast, int), usize>((call2, 3)));
    assert(p_list(u, 0) == Ok::<(Ast, int), usize>((call2, 3)));
}

/// `^` binds tighter than each of `*`, `/` and `%`: `x * y ^ z` reads as
/// `x * (y ^ z)`.
pub proof fn lemma_power_binds_tighter(
    t: Seq<Lexeme>,
    x: Token,
    product: InfixOp,
    y: Token,
    z: Token,
)
    requires
        atom(x) is Some,
        atom(y) is Some,
        atom(z) is Some,
        is_product_operator(product),
        tokens_are(
            t,
            seq![x, Token::Infix(product), y, Token::Infix(InfixOp::Pow), z, Token::End],
        ),
    ensures
        parse_lexemes(t) == Ok::<Ast, usize>(
            bin(
                operator_of(product),
                atom(x).unwrap(),
                bin(BinOp::Pow, atom(y).unwrap(), atom(z).unwrap()),
            ),
        ),
{
    assert(tok(t, 0) == x && tok(t, 1) == Token::Infix(product) && tok(t, 2) == y);
    assert(tok(t, 3) == Token::Infix(InfixOp::Pow) && tok(t, 4) == z && tok(t, 5) == Token::End);
    lemma_operator_levels(product);
    let (a, b, c) = (atom(x).unwrap(), atom(y).unwrap(), atom(z).unwrap());
    lemma_atom_factor(t, 0);
    lemma_atom_power(t, 2);
    lemma_atom_power(t, 4);
    let w = bin(BinOp::Pow, b, c);
    let r = bin(operator_of(product), a, w);
    lemma_closed_list(t, w, 5);
    lemma_closed_list(t, r, 5);
    assert(factor_tail(t, b, 3) == Ok::<(Ast, int), usize>((w, 5)));
    assert(p_factor(t, 2) == Ok::<(Ast, int), usize>((w, 5)));
    assert(term_tail(t, a, 1) == Ok::<(Ast, int), usize>((r, 5)));
    assert(p_term(t, 0) == Ok::<(Ast, int), usize>((r, 5)));
    assert(p_expr(t, 0) == Ok::<(Ast, int), usize>((r, 5)));
    assert(p_list(t, 0) == Ok::<(Ast, int), usize>((r, 5)));
}

/// Parentheses group: `(x + y) * z` reads as `(x + y) * z`, the sum taken
/// first.
pub proof fn lemma_parentheses_group(
    t: Seq<Lexeme>,
    x: Token,
    sum: InfixOp,
    y: Token,
    product: InfixOp,
    z: Token,
)
    requires
        atom(x) is Some,
        atom(y) is Some,
        atom(z) is Some,
        is_sum_operator(sum),
        is_product_operator(product),
        tokens_are(
            t,
            seq![
                Token::Open,
                x,
                Token::Infix(sum),
                y,
                Token::Close,
                Token::Infix(product),
                z,
                Token::End,
            ],
        ),
    ensures
        parse_lexemes(t) == Ok::<Ast, usize>(
            bin(
                operator_of(product),
                bin(operator_of(sum), atom(x).unwrap(), atom(y).unwrap()),
                atom(z).unwrap(),
            ),
        ),
{
    assert(tok(t, 0) == Token::Open && tok(t, 1) == x && tok(t, 2) == Token::Infix(sum));
    assert(tok(t, 3) == y && tok(t, 4) == Token::Close && tok(t, 5) == Token::Infix(product));
    assert(tok(t, 6) == z && tok(t, 7) == Token::End);
    lemma_operator_levels(sum);
    lemma_operator_levels(product);
    let (a, b, c) = (atom(x).unwrap(), atom(y).unwrap(), atom(z).unwrap());
    lemma_atom_factor(t, 1);
    lemma_atom_factor(t, 3);
    lemma_atom_factor(t, 6);
    let g = bin(operator_of(sum), a, b);
    lemma_closed_list(t, b, 4);
    lemma_closed_list(t, g, 4);
    assert(p_term(t, 1) == Ok::<(Ast, int), usize>((a, 2)));
    assert(p_term(t, 3) == Ok::<(Ast, int), usize>((b, 4)));
    assert(expr_tail(t, a, 2) == Ok::<(Ast, int), usize>((g, 4)));
    assert(p_expr(t, 1) == Ok::<(Ast, int), usize>((g, 4)));
    assert(p_list(t, 1) == Ok::<(Ast, int), usize>((g, 4)));
    assert(p_base(t, 0) == Ok::<(Ast, int), usize>((g, 5)));
    assert(p_power(t, 0, false) == Ok::<(Ast, int), usize>((g, 5)));
    assert(factor_tail(t, g, 5) == Ok::<(Ast, int), usize>((g, 5)));
    assert(p_factor(t, 0) == Ok::<(Ast, int), usize>((g, 5)));
    let r = bin(operator_of(product), g, c);
    lemma_closed_list(t, r, 7);
    assert(term_tail(t, g, 5) == Ok::<(Ast, int), usize>((r, 7)));
    assert(p_term(t, 0) == Ok::<(Ast, int), usize>((r, 7)));
    assert(p_expr(t, 0) == Ok::<(Ast, int), usize>((r, 7)));
    assert(p_list(t, 0) == Ok::<(Ast, int), usize>((r, 7)));
}

} // verus!
