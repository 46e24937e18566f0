use vstd::prelude::*;

use crate::lexer::Token;

verus! {

/// `<regex> ::= <alt>`
#[derive(Debug, PartialEq, Eq)]
pub struct Regexp {
    pub val: Alt,
}

/// `<alt> ::= ε | <concat> | <concat> "|" <alt>`
#[derive(Debug, PartialEq, Eq)]
pub struct Alt {
    pub val: Option<Concat>,
    pub tail: Option<Box<Alt>>,
}

/// `<concat> ::= <factor> <concat> | <factor>`
#[derive(Debug, PartialEq, Eq)]
pub struct Concat {
    pub val: Factor,
    pub tail: Option<Box<Concat>>,
}

/// `<factor> ::= <base> <quantifier> | <base>`
#[derive(Debug, PartialEq, Eq)]
pub struct Factor {
    pub val: Base,
    pub q: Option<Token>,
}

/// `<base> ::= <character> | "(" <alt> ")"`
#[derive(Debug, PartialEq, Eq)]
pub enum Base {
    Char(Token),
    Alt(Box<Alt>),
}

/// Where parsing stopped: the token found there (none at the end of the input) and its index.
#[derive(Debug, PartialEq, Eq)]
pub struct ParseRegexpError {
    pub cause: Option<Token>,
    pub idx: usize,
}

impl ParseRegexpError {
    pub fn new(cause: Option<Token>, idx: usize) -> (r: ParseRegexpError)
        ensures
            r.cause == cause,
            r.idx == idx,
    {
        ParseRegexpError { cause, idx }
    }
}

/// The tokens that an alternation is written with.
pub open spec fn alt_tokens(a: Alt) -> Seq<Token>
    decreases a,
{
    let head = match a.val {
        None => Seq::empty(),
        Some(c) => concat_tokens(c),
    };
    match a.tail {
        None => head,
        Some(t) => head + seq![Token::Selector] + alt_tokens(*t),
    }
}

/// The tokens that a concatenation is written with.
pub open spec fn concat_tokens(c: Concat) -> Seq<Token>
    decreases c,
{
    match c.tail {
        None => factor_tokens(c.val),
        Some(t) => factor_tokens(c.val) + concat_tokens(*t),
    }
}

/// The tokens that a factor is written with.
pub open spec fn factor_tokens(f: Factor) -> Seq<Token>
    decreases f,
{
    match f.q {
        None => base_tokens(f.val),
        Some(q) => base_tokens(f.val).push(q),
    }
}

/// The tokens that a base is written with.
pub open spec fn base_tokens(b: Base) -> Seq<Token>
    decreases b,
{
    match b {
        Base::Char(t) => seq![t],
        Base::Alt(a) => seq![Token::Lparen] + alt_tokens(*a) + seq![Token::Rparen],
    }
}

pub type ParserResult<T> = Result<T, ParseRegexpError>;

/// A front end that turns a token sequence into a syntax tree.
pub trait Parser {
    fn parse(&mut self, tokens: &Vec<Token>) -> ParserResult<Regexp>;
}

} // verus!
