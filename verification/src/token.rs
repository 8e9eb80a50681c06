use vstd::prelude::*;
use crate::text::{char_digit, is_digit_char};

verus! {

/// Why a push was rejected or an evaluation failed.
#[derive(Clone, Copy, PartialEq, Eq, Structural, Debug)]
pub enum CalcError {
    DivideByZero,
    DomainError,
    OverflowError,
    MalformedExpression,
    UnknownToken,
}

/// A pending binary operator.
#[derive(Clone, Copy, PartialEq, Eq, Structural, Debug)]
pub enum BinOp {
    Add,
    Sub,
    Mul,
    Div,
}

/// A unary function key.
#[derive(Clone, Copy, PartialEq, Eq, Structural, Debug)]
pub enum Func {
    Sin,
    Cos,
    Tan,
    Asin,
    Acos,
    Atan,
    Square,
    Sqrt,
    Inv,
    Abs,
    Pow10,
    Log,
    Ln,
    Neg,
}

/// A classified input token.
#[derive(Clone, Copy, PartialEq, Eq, Structural, Debug)]
pub enum Token {
    Digit(u8),
    Decimal,
    Bin(BinOp),
    Percent,
    Unary(Func),
    Open,
    Close,
    Evaluate,
    ClearAll,
    Undo,
}

/// Shunting-yard precedence: `*`, `/` bind tighter than `+`, `-`.
pub open spec fn prec(op: BinOp) -> nat {
    match op {
        BinOp::Add => 1,
        BinOp::Sub => 1,
        BinOp::Mul => 2,
        BinOp::Div => 2,
    }
}

/// The display character of a binary operator.
pub open spec fn op_char(op: BinOp) -> char {
    match op {
        BinOp::Add => '+',
        BinOp::Sub => '-',
        BinOp::Mul => '*',
        BinOp::Div => '/',
    }
}

pub fn op_char_exec(op: BinOp) -> (c: char)
    ensures
        c == op_char(op),
{
    match op {
        BinOp::Add => '+',
        BinOp::Sub => '-',
        BinOp::Mul => '*',
        BinOp::Div => '/',
    }
}

/// The name of a unary function key, as the input source spells it.
pub open spec fn func_name(f: Func) -> Seq<char> {
    match f {
        Func::Sin => seq!['s', 'i', 'n'],
        Func::Cos => seq!['c', 'o', 's'],
        Func::Tan => seq!['t', 'a', 'n'],
        Func::Asin => seq!['a', 's', 'i', 'n'],
        Func::Acos => seq!['a', 'c', 'o', 's'],
        Func::Atan => seq!['a', 't', 'a', 'n'],
        Func::Square => seq!['s', 'q', 'u', 'a', 'r', 'e'],
        Func::Sqrt => seq!['s', 'q', 'r', 't'],
        Func::Inv => seq!['i', 'n', 'v'],
        Func::Abs => seq!['a', 'b', 's'],
        Func::Pow10 => seq!['p', 'o', 'w', '1', '0'],
        Func::Log => seq!['l', 'o', 'g'],
        Func::Ln => seq!['l', 'n'],
        Func::Neg => seq!['n', 'e', 'g'],
    }
}

pub fn func_name_chars(f: Func) -> (v: Vec<char>)
    ensures
        v@ == func_name(f),
{
    let v: Vec<char> = match f {
        Func::Sin => vec!['s', 'i', 'n'],
        Func::Cos => vec!['c', 'o', 's'],
        Func::Tan => vec!['t', 'a', 'n'],
        Func::Asin => vec!['a', 's', 'i', 'n'],
        Func::Acos => vec!['a', 'c', 'o', 's'],
        Func::Atan => vec!['a', 't', 'a', 'n'],
        Func::Square => vec!['s', 'q', 'u', 'a', 'r', 'e'],
        Func::Sqrt => vec!['s', 'q', 'r', 't'],
        Func::Inv => vec!['i', 'n', 'v'],
        Func::Abs => vec!['a', 'b', 's'],
        Func::Pow10 => vec!['p', 'o', 'w', '1', '0'],
        Func::Log => vec!['l', 'o', 'g'],
        Func::Ln => vec!['l', 'n'],
        Func::Neg => vec!['n', 'e', 'g'],
    };
    proof {
        assert(v@ =~= func_name(f));
    }
    v
}

/// The token a raw key string denotes, or `None` for an unrecognized key.
pub open spec fn classify_spec(s: Seq<char>) -> Option<Token> {
    if s.len() == 1 {
        let c = s[0];
        if is_digit_char(c) {
            Some(Token::Digit(char_digit(c) as u8))
        } else if c == '.' {
            Some(Token::Decimal)
        } else if c == '+' {
            Some(Token::Bin(BinOp::Add))
        } else if c == '-' {
            Some(Token::Bin(BinOp::Sub))
        } else if c == '*' {
            Some(Token::Bin(BinOp::Mul))
        } else if c == '/' {
            Some(Token::Bin(BinOp::Div))
        } else if c == '%' {
            Some(Token::Percent)
        } else if c == '(' {
            Some(Token::Open)
        } else if c == ')' {
            Some(Token::Close)
        } else if c == '=' {
            Some(Token::Evaluate)
        } else if c == '<' {
            Some(Token::Undo)
        } else {
            None
        }
    } else if s == seq!['a', 'c'] {
        Some(Token::ClearAll)
    } else if s == func_name(Func::Sin) {
        Some(Token::Unary(Func::Sin))
    } else if s == func_name(Func::Cos) {
        Some(Token::Unary(Func::Cos))
    } else if s == func_name(Func::Tan) {
        Some(Token::Unary(Func::Tan))
    } else if s == func_name(Func::Asin) {
        Some(Token::Unary(Func::Asin))
    } else if s == func_name(Func::Acos) {
        Some(Token::Unary(Func::Acos))
    } else if s == func_name(Func::Atan) {
        Some(Token::Unary(Func::Atan))
    } else if s == func_name(Func::Square) {
        Some(Token::Unary(Func::Square))
    } else if s == func_name(Func::Sqrt) {
        Some(Token::Unary(Func::Sqrt))
    } else if s == func_name(Func::Inv) {
        Some(Token::Unary(Func::Inv))
    } else if s == func_name(Func::Abs) {
        Some(Token::Unary(Func::Abs))
    } else if s == func_name(Func::Pow10) {
        Some(Token::Unary(Func::Pow10))
    } else if s == func_name(Func::Log) {
        Some(Token::Unary(Func::Log))
    } else if s == func_name(Func::Ln) {
        Some(Token::Unary(Func::Ln))
    } else if s == func_name(Func::Neg) {
        Some(Token::Unary(Func::Neg))
    } else {
        None
    }
}

/// Collects the characters of a key string.
pub fn chars_of(s: &str) -> (v: Vec<char>)
    ensures
        v@ == s@,
{
    let n = s.unicode_len();
    let mut v: Vec<char> = Vec::new();
    let mut i: usize = 0;
    while i < n
        invariant
            i <= n,
            n == s@.len(),
            v@ == s@.take(i as int),
        decreases n - i,
    {
        v.push(s.get_char(i));
        assert(v@ =~= s@.take(i + 1));
        i = i + 1;
    }
    assert(s@.take(n as int) =~= s@);
    v
}

pub fn eq_chars(a: &Vec<char>, b: &Vec<char>) -> (r: bool)
    ensures
        r == (a@ == b@),
{
    if a.len() != b.len() {
        assert(a@ != b@);
        return false;
    }
    let mut i: usize = 0;
    while i < a.len()
        invariant
            i <= a.len(),
            a@.len() == b@.len(),
            forall|j: int| 0 <= j < i ==> a@[j] == b@[j],
        decreases a.len() - i,
    {
        if a[i] != b[i] {
            return false;
        }
        i = i + 1;
    }
    proof {
        assert(a@ =~= b@);
    }
    true
}

/// Classifies one raw key string.
pub fn classify(s: &str) -> (r: Option<Token>)
    ensures
        r == classify_spec(s@),
{
    let v = chars_of(s);
    if v.len() == 1 {
        let c = v[0];
        if c == '0' {
            Some(Token::Digit(0))
        } else if c == '1' {
            Some(Token::Digit(1))
        } else if c == '2' {
            Some(Token::Digit(2))
        } else if c == '3' {
            Some(Token::Digit(3))
        } else if c == '4' {
            Some(Token::Digit(4))
        } else if c == '5' {
            Some(Token::Digit(5))
        } else if c == '6' {
            Some(Token::Digit(6))
        } else if c == '7' {
            Some(Token::Digit(7))
        } else if c == '8' {
            Some(Token::Digit(8))
        } else if c == '9' {
            Some(Token::Digit(9))
        } else if c == '.' {
            Some(Token::Decimal)
        } else if c == '+' {
            Some(Token::Bin(BinOp::Add))
        } else if c == '-' {
            Some(Token::Bin(BinOp::Sub))
        } else if c == '*' {
            Some(Token::Bin(BinOp::Mul))
        } else if c == '/' {
            Some(Token::Bin(BinOp::Div))
        } else if c == '%' {
            Some(Token::Percent)
        } else if c == '(' {
            Some(Token::Open)
        } else if c == ')' {
            Some(Token::Close)
        } else if c == '=' {
            Some(Token::Evaluate)
        } else if c == '<' {
            Some(Token::Undo)
        } else {
            None
        }
    } else {
        let ac: Vec<char> = vec!['a', 'c'];
        proof {
            assert(ac@ =~= seq!['a', 'c']);
        }
        if eq_chars(&v, &ac) {
            Some(Token::ClearAll)
        } else if eq_chars(&v, &func_name_chars(Func::Sin)) {
            Some(Token::Unary(Func::Sin))
        } else if eq_chars(&v, &func_name_chars(Func::Cos)) {
            Some(Token::Unary(Func::Cos))
        } else if eq_chars(&v, &func_name_chars(Func::Tan)) {
            Some(Token::Unary(Func::Tan))
        } else if eq_chars(&v, &func_name_chars(Func::Asin)) {
            Some(Token::Unary(Func::Asin))
        } else if eq_chars(&v, &func_name_chars(Func::Acos)) {
            Some(Token::Unary(Func::Acos))
        } else if eq_chars(&v, &func_name_chars(Func::Atan)) {
            Some(Token::Unary(Func::Atan))
        } else if eq_chars(&v, &func_name_chars(Func::Square)) {
            Some(Token::Unary(Func::Square))
        } else if eq_chars(&v, &func_name_chars(Func::Sqrt)) {
            Some(Token::Unary(Func::Sqrt))
        } else if eq_chars(&v, &func_name_chars(Func::Inv)) {
            Some(Token::Unary(Func::Inv))
        } else if eq_chars(&v, &func_name_chars(Func::Abs)) {
            Some(Token::Unary(Func::Abs))
        } else if eq_chars(&v, &func_name_chars(Func::Pow10)) {
            Some(Token::Unary(Func::Pow10))
        } else if eq_chars(&v, &func_name_chars(Func::Log)) {
            Some(Token::Unary(Func::Log))
        } else if eq_chars(&v, &func_name_chars(Func::Ln)) {
            Some(Token::Unary(Func::Ln))
        } else if eq_chars(&v, &func_name_chars(Func::Neg)) {
            Some(Token::Unary(Func::Neg))
        } else {
            None
        }
    }
}

} // verus!
