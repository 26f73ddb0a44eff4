//! The verified core of a small math-expression compiler: a byte-level
//! lexer, a recursive-descent parser, the planner that decides which
//! subtrees are folded to constants at compile time, the symbol table that
//! resolves names, and the integer cores of the combinatorial built-ins.
pub mod ast;
pub mod scope;
pub mod lexer;
pub mod parser;
pub mod fold;
pub mod combinatorics;
pub mod layout;
pub mod builtins;

use vstd::prelude::*;
use vstd::string::StringExecFns;

verus! {

/// A compile error: the byte offset in the expression at which parsing
/// stopped.
#[derive(Debug, Clone, Copy, PartialEq, Eq, Structural)]
pub struct ParseError {
    pub position: usize,
}

/// The character of a decimal digit.
pub open spec fn digit_char(d: nat) -> char {
    (48 + d) as char
}

/// The decimal representation of `n`, without leading zeros.
pub open spec fn decimal(n: nat) -> Seq<char>
    decreases n,
{
    if n < 10 {
        seq![digit_char(n)]
    } else {
        decimal(n / 10).push(digit_char(n % 10))
    }
}

fn digit_str(d: usize) -> (s: &'static str)
    requires
        d < 10,
    ensures
        s@ == seq![digit_char(d as nat)],
{
    proof {
        reveal_strlit("0");
        reveal_strlit("1");
        reveal_strlit("2");
        reveal_strlit("3");
        reveal_strlit("4");
        reveal_strlit("5");
        reveal_strlit("6");
        reveal_strlit("7");
        reveal_strlit("8");
        reveal_strlit("9");
    }
    match d {
        0 => "0",
        1 => "1",
        2 => "2",
        3 => "3",
        4 => "4",
        5 => "5",
        6 => "6",
        7 => "7",
        8 => "8",
        _ => "9",
    }
}

fn push_decimal(text: &mut String, n: usize)
    ensures
        final(text)@ == old(text)@ + decimal(n as nat),
    decreases n,
{
    if n >= 10 {
        push_decimal(text, n / 10);
    }
    text.append(digit_str(n % 10));
    proof {
        if n >= 10 {
            assert(old(text)@ + decimal(n as nat) =~= old(text)@ + decimal((n / 10) as nat) + seq![
                digit_char((n % 10) as nat),
            ]);
        } else {
            assert(n % 10 == n);
        }
    }
}

impl ParseError {
    /// The text of the error: `parse error at byte offset N`.
    pub fn message(&self) -> (text: String)
        ensures
            text@ == "parse error at byte offset "@ + decimal(self.position as nat),
    {
        let mut text = String::from_str("parse error at byte offset ");
        push_decimal(&mut text, self.position);
        text
    }
}

} // verus!
