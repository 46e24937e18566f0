use vstd::prelude::*;
use vstd::string::*;

verus! {

/// One symbol of a pattern.
#[derive(PartialEq, Eq, Structural, Debug, Clone, Copy)]
pub enum Token {
    Char(char),
    Quantifier(char),
    Selector,
    Lparen,
    Rparen,
}

/// The character that a token was read from.
pub open spec fn token_char(t: Token) -> char {
    match t {
        Token::Char(c) => c,
        Token::Quantifier(c) => c,
        Token::Selector => '|',
        Token::Lparen => '(',
        Token::Rparen => ')',
    }
}

/// The token that one pattern character stands for: `*` and `?` quantify, `|` selects, the two
/// parentheses group, and every other character is a literal.
pub open spec fn token_of(c: char) -> Token {
    if c == '*' || c == '?' {
        Token::Quantifier(c)
    } else if c == '|' {
        Token::Selector
    } else if c == '(' {
        Token::Lparen
    } else if c == ')' {
        Token::Rparen
    } else {
        Token::Char(c)
    }
}

impl Token {
    pub fn to_char(&self) -> (r: char)
        ensures
            r == token_char(*self),
    {
        match *self {
            Token::Char(c) => c,
            Token::Quantifier(c) => c,
            Token::Selector => '|',
            Token::Lparen => '(',
            Token::Rparen => ')',
        }
    }
}

fn get_token(raw_token: char) -> (r: Token)
    ensures
        r == token_of(raw_token),
{
    if raw_token == '*' || raw_token == '?' {
        Token::Quantifier(raw_token)
    } else if raw_token == '|' {
        Token::Selector
    } else if raw_token == '(' {
        Token::Lparen
    } else if raw_token == ')' {
        Token::Rparen
    } else {
        Token::Char(raw_token)
    }
}

/// Classifies each character of a pattern, one token per character, in order.
pub fn get_tokens(raw: &str) -> (r: Vec<Token>)
    ensures
        r@ == raw@.map_values(|c: char| token_of(c)),
{
    let n = raw.unicode_len();
    let mut r: Vec<Token> = Vec::new();
    let mut i: usize = 0;
    while i < n
        invariant
            n == raw@.len(),
            i <= n,
            r@ == raw@.take(i as int).map_values(|c: char| token_of(c)),
        decreases n - i,
    {
        let c = raw.get_char(i);
        r.push(get_token(c));
        i += 1;
        assert(r@ =~= raw@.take(i as int).map_values(|c: char| token_of(c)));
    }
    assert(raw@.take(n as int) =~= raw@);
    r
}

} // verus!
