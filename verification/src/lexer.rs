use vstd::prelude::*;

use crate::scope::{
    Scope, ScopeModel, Signature, first_index, function_names, lemma_first_index,
    lemma_first_index_push,
};

verus! {

/// The infix operators.
#[derive(Debug, Clone, Copy, PartialEq, Eq, Structural)]
pub enum InfixOp {
    Add,
    Sub,
    Mul,
    Div,
    Pow,
    Mod,
}

/// A token of the expression language.
#[derive(Debug, Clone, Copy, PartialEq, Eq, Structural)]
pub enum Token {
    /// A numeric literal, by the byte range `start..end` of its text.
    Number(usize, usize),
    /// A variable, by its slot.
    Variable(usize),
    /// A function, by its signature.
    Function(Signature),
    Infix(InfixOp),
    Open,
    Close,
    Sep,
    End,
    /// A byte or a name that is not part of the language, by its offset.
    Error(usize),
}

/// A token together with the lexer's position before it was read (that is,
/// before any blanks that precede it).
#[derive(Debug, Clone, Copy, PartialEq, Eq, Structural)]
pub struct Lexeme {
    pub token: Token,
    pub position: usize,
}

pub open spec fn is_digit(b: u8) -> bool {
    48 <= b <= 57
}

pub open spec fn is_alpha(b: u8) -> bool {
    (65 <= b <= 90) || (97 <= b <= 122)
}

pub open spec fn is_ident_byte(b: u8) -> bool {
    is_digit(b) || is_alpha(b) || b == 95
}

pub open spec fn is_blank(b: u8) -> bool {
    b == 32 || b == 9 || b == 10 || b == 13
}

/// The number of consecutive digits in `src` from offset `p`.
pub open spec fn digit_run(src: Seq<u8>, p: int) -> nat
    decreases src.len() - p,
{
    if 0 <= p < src.len() && is_digit(src[p]) {
        1 + digit_run(src, p + 1)
    } else {
        0
    }
}

/// The number of consecutive identifier bytes (letters, digits,
/// underscores) in `src` from offset `p`.
pub open spec fn ident_run(src: Seq<u8>, p: int) -> nat
    decreases src.len() - p,
{
    if 0 <= p < src.len() && is_ident_byte(src[p]) {
        1 + ident_run(src, p + 1)
    } else {
        0
    }
}

/// Whether `src` has the byte `b` at offset `p`.
pub open spec fn byte_at(src: Seq<u8>, p: int, b: u8) -> bool {
    0 <= p < src.len() && src[p] == b
}

/// The length of the numeric literal at offset `p`: digits, then an
/// optional fraction `.digits*`, then an optional exponent
/// `e[+-]digits+` that is taken only when it has a digit.
pub open spec fn number_len(src: Seq<u8>, p: int) -> nat {
    let i0 = digit_run(src, p);
    let i1 = if byte_at(src, p + i0, 46) {
        i0 + 1 + digit_run(src, p + i0 + 1)
    } else {
        i0
    };
    if byte_at(src, p + i1, 101) || byte_at(src, p + i1, 69) {
        let j0 = i1 + 1;
        let j = if byte_at(src, p + j0, 43) || byte_at(src, p + j0, 45) {
            j0 + 1
        } else {
            j0
        };
        if 0 <= p + j < src.len() && is_digit(src[p + j]) {
            j + digit_run(src, p + j)
        } else {
            i1
        }
    } else {
        i1
    }
}

/// What a name stands for: a variable first, then a function; an unknown
/// name is an error at its first byte.
pub open spec fn resolve(scope: ScopeModel, name: Seq<u8>, start: int) -> Token {
    match scope.variable_slot(name) {
        Some(k) => Token::Variable(k as usize),
        None => match scope.function_signature(name) {
            Some(sig) => Token::Function(sig),
            None => Token::Error(start as usize),
        },
    }
}

/// The token for a byte that is neither a digit, a letter, a dot nor a blank.
pub open spec fn punctuation(b: u8, start: int) -> Token {
    if b == 43 {
        Token::Infix(InfixOp::Add)
    } else if b == 45 {
        Token::Infix(InfixOp::Sub)
    } else if b == 42 {
        Token::Infix(InfixOp::Mul)
    } else if b == 47 {
        Token::Infix(InfixOp::Div)
    } else if b == 94 {
        Token::Infix(InfixOp::Pow)
    } else if b == 37 {
        Token::Infix(InfixOp::Mod)
    } else if b == 40 {
        Token::Open
    } else if b == 41 {
        Token::Close
    } else if b == 44 {
        Token::Sep
    } else {
        Token::Error(start as usize)
    }
}

/// The token that starts at or after offset `pos` (blanks are skipped), and
/// the offset after it.
pub open spec fn next_token(src: Seq<u8>, scope: ScopeModel, pos: int) -> (Token, int)
    decreases src.len() - pos,
{
    if !(0 <= pos < src.len()) {
        (Token::End, pos)
    } else {
        let b = src[pos];
        if is_digit(b) || b == 46 {
            let k = number_len(src, pos);
            (Token::Number(pos as usize, (pos + k) as usize), pos + k)
        } else if is_alpha(b) {
            let k = ident_run(src, pos);
            (resolve(scope, src.subrange(pos, pos + k), pos), pos + k)
        } else if is_blank(b) {
            next_token(src, scope, pos + 1)
        } else {
            (punctuation(b, pos), pos + 1)
        }
    }
}

/// The lexemes of `src` from offset `pos`, up to and including the end
/// token.
pub open spec fn lex(src: Seq<u8>, scope: ScopeModel, pos: int) -> Seq<Lexeme>
    decreases src.len() - pos,
{
    let (t, q) = next_token(src, scope, pos);
    let here = Lexeme { token: t, position: pos as usize };
    if t is End || !(pos < q <= src.len()) {
        seq![here]
    } else {
        seq![here] + lex(src, scope, q)
    }
}

/// The lexemes of a whole expression.
pub open spec fn lex_all(src: Seq<u8>, scope: ScopeModel) -> Seq<Lexeme> {
    lex(src, scope, 0)
}

/// Defining a variable makes its name read as that variable (in the slot
/// it had, or a new one), even where a function has the same name.
pub proof fn lemma_defined_variable_resolves(m: ScopeModel, name: Seq<u8>, start: int)
    ensures
        resolve(m.with_variable(name), name, start) == Token::Variable(
            (match m.variable_slot(name) {
                Some(k) => k,
                None => m.variables.len(),
            }) as usize,
        ),
{
    lemma_first_index_push(m.variables, name, name);
}

/// Defining a variable changes how no other name reads.
pub proof fn lemma_defined_variable_keeps_others(
    m: ScopeModel,
    name: Seq<u8>,
    other: Seq<u8>,
    start: int,
)
    requires
        other != name,
    ensures
        resolve(m.with_variable(name), other, start) == resolve(m, other, start),
{
    lemma_first_index_push(m.variables, name, other);
}

proof fn lemma_function_names_update(m: ScopeModel, name: Seq<u8>, arity: usize, pure: bool)
    ensures
        first_index(function_names(m.functions), name) matches Some(k) ==> function_names(
            m.functions.update(k as int, (name, arity, pure)),
        ) == function_names(m.functions),
        function_names(m.functions.push((name, arity, pure))) == function_names(m.functions).push(
            name,
        ),
{
    let names = function_names(m.functions);
    lemma_first_index(names, name);
    if let Some(k) = first_index(names, name) {
        assert(function_names(m.functions.update(k as int, (name, arity, pure))) =~= names);
    }
    assert(function_names(m.functions.push((name, arity, pure))) =~= names.push(name));
}

/// Defining a function makes a name that no variable has read as that
/// function, with the arity and purity given, at its old index or a new one.
pub proof fn lemma_defined_function_resolves(
    m: ScopeModel,
    name: Seq<u8>,
    arity: usize,
    pure: bool,
    start: int,
)
    requires
        m.variable_slot(name) is None,
    ensures
        resolve(m.with_function(name, arity, pure), name, start) == Token::Function(
            Signature {
                index: (match first_index(function_names(m.functions), name) {
                    Some(k) => k,
                    None => m.functions.len(),
                }) as usize,
                arity,
                pure,
            },
        ),
{
    lemma_function_names_update(m, name, arity, pure);
    lemma_first_index_push(function_names(m.functions), name, name);
    lemma_first_index(function_names(m.functions), name);
}

/// Defining a function changes how no other name reads.
pub proof fn lemma_defined_function_keeps_others(
    m: ScopeModel,
    name: Seq<u8>,
    arity: usize,
    pure: bool,
    other: Seq<u8>,
    start: int,
)
    requires
        other != name,
    ensures
        resolve(m.with_function(name, arity, pure), other, start) == resolve(m, other, start),
{
    let names = function_names(m.functions);
    lemma_function_names_update(m, name, arity, pure);
    lemma_first_index_push(names, name, other);
    lemma_first_index(names, name);
    lemma_first_index(names, other);
}

proof fn lemma_digit_run_bound(src: Seq<u8>, p: int)
    requires
        0 <= p,
    ensures
        p <= src.len() ==> p + digit_run(src, p) <= src.len(),
        p >= src.len() ==> digit_run(src, p) == 0,
    decreases src.len() - p,
{
    if 0 <= p < src.len() && is_digit(src[p]) {
        lemma_digit_run_bound(src, p + 1);
    }
}

proof fn lemma_ident_run_bound(src: Seq<u8>, p: int)
    requires
        0 <= p,
    ensures
        p <= src.len() ==> p + ident_run(src, p) <= src.len(),
        p >= src.len() ==> ident_run(src, p) == 0,
    decreases src.len() - p,
{
    if 0 <= p < src.len() && is_ident_byte(src[p]) {
        lemma_ident_run_bound(src, p + 1);
    }
}

proof fn lemma_number_len_bound(src: Seq<u8>, p: int)
    requires
        0 <= p < src.len(),
        is_digit(src[p]) || src[p] == 46,
    ensures
        1 <= number_len(src, p),
        p + number_len(src, p) <= src.len(),
{
    let i0 = digit_run(src, p);
    lemma_digit_run_bound(src, p);
    lemma_digit_run_bound(src, p + i0 + 1);
    let i1 = if byte_at(src, p + i0, 46) {
        i0 + 1 + digit_run(src, p + i0 + 1)
    } else {
        i0
    };
    let j0 = i1 + 1;
    let j = if byte_at(src, p + j0, 43) || byte_at(src, p + j0, 45) {
        j0 + 1
    } else {
        j0
    };
    lemma_digit_run_bound(src, p + j);
}

proof fn lemma_digit_run_ends(src: Seq<u8>, p: int)
    requires
        0 <= p,
    ensures
        !(p + digit_run(src, p) < src.len() && is_digit(src[p + digit_run(src, p)])),
    decreases src.len() - p,
{
    if 0 <= p < src.len() && is_digit(src[p]) {
        lemma_digit_run_ends(src, p + 1);
    }
}

/// Whether an exponent starts at offset `q`: `e` or `E`, an optional sign,
/// and a digit.
pub open spec fn exponent_at(src: Seq<u8>, q: int) -> bool {
    &&& (byte_at(src, q, 101) || byte_at(src, q, 69))
    &&& {
        ||| 0 <= q + 1 < src.len() && is_digit(src[q + 1])
        ||| (byte_at(src, q + 1, 43) || byte_at(src, q + 1, 45)) && 0 <= q + 2 < src.len()
            && is_digit(src[q + 2])
    }
}

/// A numeric literal is as long as it can be: the byte right after it is
/// not a digit (its integer part, its fraction and its exponent each take
/// all their digits), and an exponent right after it is taken unless the
/// literal already has one.
pub proof fn lemma_literal_is_maximal(src: Seq<u8>, scope: ScopeModel, pos: int)
    requires
        0 <= pos,
        src.len() <= usize::MAX,
    ensures
        next_token(src, scope, pos).0 matches Token::Number(s, e) ==> {
            &&& !(e < src.len() && is_digit(src[e as int]))
            &&& exponent_at(src, e as int) ==> exists|k: int|
                s <= k < e && (src[k] == 101 || src[k] == 69)
        },
    decreases src.len() - pos,
{
    if pos < src.len() {
        let b = src[pos];
        if is_digit(b) || b == 46 {
            lemma_number_len_bound(src, pos);
            let p = pos;
            let i0 = digit_run(src, p);
            lemma_digit_run_ends(src, p);
            lemma_digit_run_ends(src, p + i0 + 1);
            lemma_digit_run_bound(src, p);
            let i1 = if byte_at(src, p + i0, 46) {
                i0 + 1 + digit_run(src, p + i0 + 1)
            } else {
                i0
            };
            let j0 = i1 + 1;
            let j = if byte_at(src, p + j0, 43) || byte_at(src, p + j0, 45) {
                j0 + 1
            } else {
                j0
            };
            lemma_digit_run_ends(src, p + j);
            assert(!(p + i1 < src.len() && is_digit(src[p + i1])));
            if byte_at(src, p + i1, 101) || byte_at(src, p + i1, 69) {
                assert(src[p + i1] == 101 || src[p + i1] == 69);
            }
        } else if is_blank(b) {
            lemma_literal_is_maximal(src, scope, pos + 1);
        }
    }
}

/// Each operator, parenthesis and separator byte is a token of its own:
/// `+ - * / ^ %` are the infix operators of those signs, `(` and `)` open
/// and close, `,` separates, and reading goes on right after the byte.
pub proof fn lemma_punctuation_tokens(src: Seq<u8>, scope: ScopeModel, pos: int)
    requires
        0 <= pos < src.len(),
    ensures
        src[pos] == 43 ==> next_token(src, scope, pos) == (Token::Infix(InfixOp::Add), pos + 1),
        src[pos] == 45 ==> next_token(src, scope, pos) == (Token::Infix(InfixOp::Sub), pos + 1),
        src[pos] == 42 ==> next_token(src, scope, pos) == (Token::Infix(InfixOp::Mul), pos + 1),
        src[pos] == 47 ==> next_token(src, scope, pos) == (Token::Infix(InfixOp::Div), pos + 1),
        src[pos] == 94 ==> next_token(src, scope, pos) == (Token::Infix(InfixOp::Pow), pos + 1),
        src[pos] == 37 ==> next_token(src, scope, pos) == (Token::Infix(InfixOp::Mod), pos + 1),
        src[pos] == 40 ==> next_token(src, scope, pos) == (Token::Open, pos + 1),
        src[pos] == 41 ==> next_token(src, scope, pos) == (Token::Close, pos + 1),
        src[pos] == 44 ==> next_token(src, scope, pos) == (Token::Sep, pos + 1),
{
}

proof fn lemma_ident_run_ends(src: Seq<u8>, p: int)
    requires
        0 <= p,
    ensures
        !(p + ident_run(src, p) < src.len() && is_ident_byte(src[p + ident_run(src, p)])),
    decreases src.len() - p,
{
    if 0 <= p < src.len() && is_ident_byte(src[p]) {
        lemma_ident_run_ends(src, p + 1);
    }
}

/// A name is as long as it can be: it starts with a letter, and the byte
/// right after it is not a letter, a digit or an underscore; it reads as
/// what the scope makes of the whole name.
pub proof fn lemma_name_is_maximal(src: Seq<u8>, scope: ScopeModel, pos: int)
    requires
        0 <= pos < src.len(),
        is_alpha(src[pos]),
    ensures
        ({
            let (tk, q) = next_token(src, scope, pos);
            &&& pos < q <= src.len()
            &&& !(q < src.len() && is_ident_byte(src[q]))
            &&& forall|k: int| pos <= k < q ==> is_ident_byte(#[trigger] src[k])
            &&& tk == resolve(scope, src.subrange(pos, q), pos)
        }),
{
    lemma_ident_run_ends(src, pos);
    lemma_ident_run_bound(src, pos);
    lemma_ident_run_bytes(src, pos);
}

proof fn lemma_ident_run_bytes(src: Seq<u8>, p: int)
    requires
        0 <= p,
    ensures
        forall|k: int| p <= k < p + ident_run(src, p) ==> is_ident_byte(#[trigger] src[k]),
    decreases src.len() - p,
{
    if 0 <= p < src.len() && is_ident_byte(src[p]) {
        lemma_ident_run_bytes(src, p + 1);
    }
}

/// What the lexer hands back is within the expression and the scope: a
/// token other than the end moves the position forward, numeric literals and
/// errors lie inside the text, the end token is reached at its end, and a
/// name token refers to an existing entry of the scope.
pub proof fn lemma_next_token(src: Seq<u8>, scope: ScopeModel, pos: int)
    requires
        0 <= pos <= src.len(),
        src.len() <= usize::MAX,
        scope.variables.len() <= usize::MAX,
        scope.functions.len() <= usize::MAX,
    ensures
        ({
            let (t, q) = next_token(src, scope, pos);
            &&& token_in_scope(t, scope)
            &&& t is End ==> q == src.len()
            &&& !(t is End) ==> pos < q <= src.len()
            &&& t matches Token::Number(s, e) ==> pos <= s < e <= src.len() && q == e
            &&& t matches Token::Error(e) ==> pos <= e < src.len()
        }),
    decreases src.len() - pos,
{
    if pos < src.len() {
        let b = src[pos];
        if is_digit(b) || b == 46 {
            lemma_number_len_bound(src, pos);
        } else if is_alpha(b) {
            lemma_ident_run_bound(src, pos);
            assert(ident_run(src, pos) >= 1);
            let name = src.subrange(pos, pos + ident_run(src, pos));
            lemma_first_index(scope.variables, name);
            lemma_first_index(function_names(scope.functions), name);
        } else if is_blank(b) {
            lemma_next_token(src, scope, pos + 1);
        }
    }
}

/// Whether a token names an existing entry of `scope`, with the entry's
/// arity and purity.
pub open spec fn token_in_scope(tk: Token, scope: ScopeModel) -> bool {
    match tk {
        Token::Variable(v) => v < scope.variables.len(),
        Token::Function(sig) => {
            &&& sig.index < scope.functions.len()
            &&& scope.functions[sig.index as int].1 == sig.arity
            &&& scope.functions[sig.index as int].2 == sig.pure
        },
        _ => true,
    }
}

/// Whether every lexeme of `toks` lies within an expression of `len` bytes.
pub open spec fn lexemes_within(toks: Seq<Lexeme>, len: int) -> bool {
    forall|k: int|
        0 <= k < toks.len() ==> {
            &&& toks[k].position <= len
            &&& toks[k].token matches Token::Error(e) ==> e <= len
            &&& toks[k].token matches Token::Number(s, e) ==> s < e <= len
        }
}

/// The lexemes of an expression end with the end token, every one lies
/// within the expression, and every name token refers to an existing entry
/// of the scope.
pub proof fn lemma_lex(src: Seq<u8>, scope: ScopeModel, pos: int)
    requires
        0 <= pos <= src.len(),
        src.len() <= usize::MAX,
        scope.variables.len() <= usize::MAX,
        scope.functions.len() <= usize::MAX,
    ensures
        lex(src, scope, pos).len() >= 1,
        forall|k: int|
            0 <= k < lex(src, scope, pos).len() ==> token_in_scope(
                #[trigger] lex(src, scope, pos)[k].token,
                scope,
            ),
        lex(src, scope, pos).last().token is End,
        lexemes_within(lex(src, scope, pos), src.len() as int),
    decreases src.len() - pos,
{
    lemma_next_token(src, scope, pos);
    let (t, q) = next_token(src, scope, pos);
    if !(t is End) {
        lemma_lex(src, scope, q);
        let rest = lex(src, scope, q);
        let all = lex(src, scope, pos);
        assert(all == seq![Lexeme { token: t, position: pos as usize }] + rest);
        assert forall|k: int| 0 <= k < all.len() implies {
            &&& all[k].position <= src.len()
            &&& all[k].token matches Token::Error(e) ==> e <= src.len()
            &&& all[k].token matches Token::Number(s, e) ==> s < e <= src.len()
            &&& token_in_scope(all[k].token, scope)
        } by {
            if k > 0 {
                assert(all[k] == rest[k - 1]);
            }
        }
    }
}

fn is_digit_byte(b: u8) -> (r: bool)
    ensures
        r == is_digit(b),
{
    48 <= b && b <= 57
}

fn is_alpha_byte(b: u8) -> (r: bool)
    ensures
        r == is_alpha(b),
{
    (65 <= b && b <= 90) || (97 <= b && b <= 122)
}

fn count_digits(src: &[u8], p: usize) -> (n: usize)
    requires
        p <= src@.len(),
    ensures
        n == digit_run(src@, p as int),
        p + n <= src@.len(),
{
    proof {
        lemma_digit_run_bound(src@, p as int);
    }
    let mut i = p;
    while i < src.len() && is_digit_byte(src[i])
        invariant
            p <= i <= src@.len(),
            digit_run(src@, p as int) == (i - p) + digit_run(src@, i as int),
        decreases src@.len() - i,
    {
        i = i + 1;
    }
    i - p
}

fn byte_is(src: &[u8], p: usize, b: u8) -> (r: bool)
    ensures
        r == byte_at(src@, p as int, b),
{
    p < src.len() && src[p] == b
}

/// The length of the numeric literal that starts at `pos`.
fn read_number(src: &[u8], pos: usize) -> (n: usize)
    requires
        pos < src@.len(),
        is_digit(src@[pos as int]) || src@[pos as int] == 46,
    ensures
        n == number_len(src@, pos as int),
{
    let len = src.len();
    proof {
        lemma_number_len_bound(src@, pos as int);
    }
    let mut i = count_digits(src, pos);
    if byte_is(src, pos + i, 46) {
        assert(pos + i < len);
        let d = count_digits(src, pos + i + 1);
        i = i + 1 + d;
    }
    if byte_is(src, pos + i, 101) || byte_is(src, pos + i, 69) {
        let mut j = i + 1;
        if byte_is(src, pos + j, 43) || byte_is(src, pos + j, 45) {
            j = j + 1;
        }
        if pos + j < src.len() && is_digit_byte(src[pos + j]) {
            let d = count_digits(src, pos + j);
            i = j + d;
        }
    }
    i
}

/// The token for the name that starts at `pos`.
fn read_identifier<V, F>(src: &[u8], scope: &Scope<V, F>, pos: usize) -> (r: (Token, usize))
    requires
        pos < src@.len(),
        is_alpha(src@[pos as int]),
    ensures
        r.0 == resolve(scope@, src@.subrange(pos as int, pos + ident_run(src@, pos as int)), pos as int),
        r.1 == pos + ident_run(src@, pos as int),
{
    proof {
        lemma_ident_run_bound(src@, pos as int);
    }
    let mut i = pos;
    while i < src.len() && (is_alpha_byte(src[i]) || is_digit_byte(src[i]) || src[i] == 95)
        invariant
            pos <= i <= src@.len(),
            ident_run(src@, pos as int) == (i - pos) + ident_run(src@, i as int),
        decreases src@.len() - i,
    {
        i = i + 1;
    }
    let name = vstd::slice::slice_subrange(src, pos, i);
    match scope.variable_slot(name) {
        Some(k) => (Token::Variable(k), i),
        None => match scope.function_signature(name) {
            Some(sig) => (Token::Function(sig), i),
            None => (Token::Error(pos), i),
        },
    }
}

fn punctuation_token(b: u8, start: usize) -> (t: Token)
    ensures
        t == punctuation(b, start as int),
{
    if b == 43 {
        Token::Infix(InfixOp::Add)
    } else if b == 45 {
        Token::Infix(InfixOp::Sub)
    } else if b == 42 {
        Token::Infix(InfixOp::Mul)
    } else if b == 47 {
        Token::Infix(InfixOp::Div)
    } else if b == 94 {
        Token::Infix(InfixOp::Pow)
    } else if b == 37 {
        Token::Infix(InfixOp::Mod)
    } else if b == 40 {
        Token::Open
    } else if b == 41 {
        Token::Close
    } else if b == 44 {
        Token::Sep
    } else {
        Token::Error(start)
    }
}

/// Reads the token at or after `pos`, skipping blanks; returns it with the
/// position after it.
pub fn next_token_at<V, F>(src: &[u8], scope: &Scope<V, F>, pos: usize) -> (r: (Token, usize))
    requires
        pos <= src@.len(),
    ensures
        r.0 == next_token(src@, scope@, pos as int).0,
        r.1 == next_token(src@, scope@, pos as int).1,
{
    let mut p = pos;
    while p < src.len() && (src[p] == 32 || src[p] == 9 || src[p] == 10 || src[p] == 13)
        invariant
            pos <= p <= src@.len(),
            next_token(src@, scope@, pos as int) == next_token(src@, scope@, p as int),
        decreases src@.len() - p,
    {
        p = p + 1;
    }
    if p >= src.len() {
        return (Token::End, p);
    }
    let b = src[p];
    if is_digit_byte(b) || b == 46 {
        let k = read_number(src, p);
        proof {
            lemma_number_len_bound(src@, p as int);
        }
        (Token::Number(p, p + k), p + k)
    } else if is_alpha_byte(b) {
        read_identifier(src, scope, p)
    } else {
        (punctuation_token(b, p), p + 1)
    }
}

/// The lexemes of `src`, up to and including the end token.
pub fn tokenize<V, F>(src: &[u8], scope: &Scope<V, F>) -> (toks: Vec<Lexeme>)
    ensures
        toks@ == lex_all(src@, scope@),
{
    let len = src.len();
    let variables = scope.variable_count();
    let functions = scope.function_count();
    let mut toks: Vec<Lexeme> = Vec::new();
    let mut pos: usize = 0;
    loop
        invariant
            pos <= src@.len(),
            len == src@.len(),
            variables == scope@.variables.len(),
            functions == scope@.functions.len(),
            toks@ + lex(src@, scope@, pos as int) == lex_all(src@, scope@),
        decreases src@.len() - pos,
    {
        let (t, q) = next_token_at(src, scope, pos);
        proof {
            lemma_next_token(src@, scope@, pos as int);
        }
        let here = Lexeme { token: t, position: pos };
        let ghost rest = lex(src@, scope@, pos as int);
        toks.push(here);
        match t {
            Token::End => {
                assert(rest == seq![here]);
                return toks;
            },
            _ => {
                assert(rest == seq![here] + lex(src@, scope@, q as int));
                assert(toks@ + lex(src@, scope@, q as int) =~= (toks@.drop_last() + seq![here]) + lex(src@, scope@, q as int));
                pos = q;
            },
        }
    }
}

} // verus!
