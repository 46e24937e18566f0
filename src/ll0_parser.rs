use vstd::prelude::*;

use crate::lexer::Token;
use crate::parser::{
    alt_tokens, base_tokens, concat_tokens, factor_tokens, Alt, Base, Concat, Factor, ParseRegexpError, Parser,
    ParserResult, Regexp,
};

verus! {

/// The token at index `i`, none past the end.
pub open spec fn peek(toks: Seq<Token>, i: int) -> Option<Token> {
    if 0 <= i < toks.len() {
        Some(toks[i])
    } else {
        None
    }
}

/// The error for the token at index `i`.
pub open spec fn error_at(toks: Seq<Token>, i: int) -> ParseRegexpError {
    ParseRegexpError { cause: peek(toks, i), idx: i as usize }
}

/// The value of a parse, without the index where it stopped.
pub open spec fn value_of<T>(r: Result<(T, int), ParseRegexpError>) -> Result<T, ParseRegexpError> {
    match r {
        Ok(p) => Ok(p.0),
        Err(e) => Err(e),
    }
}

/// `<alt> ::= ε | <concat> | <concat> "|" <alt>`, read from index `i`: the tree and the index
/// after it. The empty alternative is taken where the next token cannot start a concatenation.
pub open spec fn alt_from(toks: Seq<Token>, i: int) -> Result<(Alt, int), ParseRegexpError>
    decreases toks.len() - i, 3int,
{
    let head: Result<(Option<Concat>, int), ParseRegexpError> = match peek(toks, i) {
        None => Ok((None, i)),
        Some(Token::Selector) => Ok((None, i)),
        Some(Token::Rparen) => Ok((None, i)),
        Some(_) => match concat_from(toks, i) {
            Ok((c, j)) => Ok((Some(c), j)),
            Err(e) => Err(e),
        },
    };
    match head {
        Err(e) => Err(e),
        Ok((c, j)) => if peek(toks, j) == Some(Token::Selector) && i <= j {
            match alt_from(toks, j + 1) {
                Ok((t, k)) => Ok((Alt { val: c, tail: Some(Box::new(t)) }, k)),
                Err(e) => Err(e),
            }
        } else {
            Ok((Alt { val: c, tail: None }, j))
        },
    }
}

/// `<concat> ::= <factor> <concat> | <factor>`, read from index `i`; a further factor follows
/// while the next token is a character or an opening parenthesis.
pub open spec fn concat_from(toks: Seq<Token>, i: int) -> Result<(Concat, int), ParseRegexpError>
    decreases toks.len() - i, 2int,
{
    match factor_from(toks, i) {
        Err(e) => Err(e),
        Ok((f, j)) => if (peek(toks, j) matches Some(Token::Char(_)) || peek(toks, j) == Some(Token::Lparen)) && i
            < j {
            match concat_from(toks, j) {
                Ok((t, k)) => Ok((Concat { val: f, tail: Some(Box::new(t)) }, k)),
                Err(e) => Err(e),
            }
        } else {
            Ok((Concat { val: f, tail: None }, j))
        },
    }
}

/// `<factor> ::= <base> <quantifier> | <base>`, read from index `i`.
pub open spec fn factor_from(toks: Seq<Token>, i: int) -> Result<(Factor, int), ParseRegexpError>
    decreases toks.len() - i, 1int,
{
    match base_from(toks, i) {
        Err(e) => Err(e),
        Ok((b, j)) => match peek(toks, j) {
            Some(Token::Quantifier(c)) => Ok((Factor { val: b, q: Some(Token::Quantifier(c)) }, j + 1)),
            _ => Ok((Factor { val: b, q: None }, j)),
        },
    }
}

/// `<base> ::= <character> | "(" <alt> ")"`, read from index `i`; any other token, or the end of
/// the input, is an error at `i`, and a group that does not close is an error where it should.
pub open spec fn base_from(toks: Seq<Token>, i: int) -> Result<(Base, int), ParseRegexpError>
    decreases toks.len() - i, 0int,
{
    match peek(toks, i) {
        Some(Token::Char(c)) => Ok((Base::Char(Token::Char(c)), i + 1)),
        Some(Token::Lparen) => match alt_from(toks, i + 1) {
            Err(e) => Err(e),
            Ok((a, j)) => if peek(toks, j) == Some(Token::Rparen) {
                Ok((Base::Alt(Box::new(a)), j + 1))
            } else {
                Err(error_at(toks, j))
            },
        },
        _ => Err(error_at(toks, i)),
    }
}

/// A whole pattern read from index `i`: an alternation that takes every remaining token.
pub open spec fn regexp_from(toks: Seq<Token>, i: int) -> Result<(Regexp, int), ParseRegexpError> {
    match alt_from(toks, i) {
        Err(e) => Err(e),
        Ok((a, j)) => if peek(toks, j) is Some {
            Err(error_at(toks, j))
        } else {
            Ok((Regexp { val: a }, j))
        },
    }
}

/// What an alternation parse reads from `i` on is the text of the tree it returns.
pub proof fn lemma_alt_spells(toks: Seq<Token>, i: int)
    requires
        0 <= i <= toks.len(),
    ensures
        alt_from(toks, i) matches Ok((a, j)) ==> i <= j <= toks.len() && toks.subrange(i, j) == alt_tokens(a),
    decreases toks.len() - i, 3int,
{
    match peek(toks, i) {
        None => {},
        Some(Token::Selector) => {},
        Some(Token::Rparen) => {},
        Some(_) => lemma_concat_spells(toks, i),
    }
    if let Ok((a, j)) = alt_from(toks, i) {
        let head: Result<(Option<Concat>, int), ParseRegexpError> = match peek(toks, i) {
            None => Ok((None, i)),
            Some(Token::Selector) => Ok((None, i)),
            Some(Token::Rparen) => Ok((None, i)),
            Some(_) => match concat_from(toks, i) {
                Ok((c, j)) => Ok((Some(c), j)),
                Err(e) => Err(e),
            },
        };
        let (c, m) = head->Ok_0;
        let head_toks = match c {
            None => Seq::<Token>::empty(),
            Some(v) => concat_tokens(v),
        };
        assert(toks.subrange(i, m) =~= head_toks);
        if peek(toks, m) == Some(Token::Selector) && i <= m {
            lemma_alt_spells(toks, m + 1);
            let t = a.tail->Some_0;
            assert(toks.subrange(i, j) =~= toks.subrange(i, m) + seq![Token::Selector] + toks.subrange(m + 1, j));
        }
    }
}

/// What a concatenation parse reads from `i` on is the text of the tree it returns.
pub proof fn lemma_concat_spells(toks: Seq<Token>, i: int)
    requires
        0 <= i <= toks.len(),
    ensures
        concat_from(toks, i) matches Ok((c, j)) ==> i < j <= toks.len() && toks.subrange(i, j) == concat_tokens(c),
    decreases toks.len() - i, 2int,
{
    lemma_factor_spells(toks, i);
    if let Ok((f, m)) = factor_from(toks, i) {
        if (peek(toks, m) matches Some(Token::Char(_)) || peek(toks, m) == Some(Token::Lparen)) && i < m {
            lemma_concat_spells(toks, m);
            if let Ok((c, j)) = concat_from(toks, i) {
                assert(toks.subrange(i, j) =~= toks.subrange(i, m) + toks.subrange(m, j));
            }
        }
    }
}

/// What a factor parse reads from `i` on is the text of the tree it returns.
pub proof fn lemma_factor_spells(toks: Seq<Token>, i: int)
    requires
        0 <= i <= toks.len(),
    ensures
        factor_from(toks, i) matches Ok((f, j)) ==> i < j <= toks.len() && toks.subrange(i, j) == factor_tokens(f),
    decreases toks.len() - i, 1int,
{
    lemma_base_spells(toks, i);
    if let Ok((b, m)) = base_from(toks, i) {
        if let Some(Token::Quantifier(q)) = peek(toks, m) {
            assert(toks.subrange(i, m + 1) =~= toks.subrange(i, m).push(Token::Quantifier(q)));
        }
    }
}

/// What a base parse reads from `i` on is the text of the tree it returns.
pub proof fn lemma_base_spells(toks: Seq<Token>, i: int)
    requires
        0 <= i <= toks.len(),
    ensures
        base_from(toks, i) matches Ok((b, j)) ==> i < j <= toks.len() && toks.subrange(i, j) == base_tokens(b),
    decreases toks.len() - i, 0int,
{
    match peek(toks, i) {
        Some(Token::Char(c)) => {
            assert(toks.subrange(i, i + 1) =~= seq![Token::Char(c)]);
        },
        Some(Token::Lparen) => {
            lemma_alt_spells(toks, i + 1);
            if let Ok((a, m)) = alt_from(toks, i + 1) {
                if peek(toks, m) == Some(Token::Rparen) {
                    assert(toks.subrange(i, m + 1) =~= seq![Token::Lparen] + toks.subrange(i + 1, m) + seq![
                        Token::Rparen,
                    ]);
                }
            }
        },
        _ => {},
    }
}

/// A parse from the start that succeeds returns the one tree that is written with exactly the
/// given tokens.
pub proof fn lemma_parse_spells(toks: Seq<Token>)
    ensures
        regexp_from(toks, 0) matches Ok((r, _)) ==> alt_tokens(r.val) == toks,
{
    lemma_alt_spells(toks, 0);
    if let Ok((a, j)) = alt_from(toks, 0) {
        if peek(toks, j) is None {
            assert(toks.subrange(0, j) =~= toks);
        }
    }
}

/// A recursive-descent parser that reads tokens left to right, one token of lookahead.
pub struct LL0Parser {
    next_idx: usize,
}

impl LL0Parser {
    /// The index of the next token to read.
    pub closed spec fn position(&self) -> int {
        self.next_idx as int
    }

    pub fn new() -> (r: LL0Parser)
        ensures
            r.position() == 0,
    {
        LL0Parser { next_idx: 0 }
    }

    fn parse_alt(&mut self, tokens: &Vec<Token>) -> (r: ParserResult<Alt>)
        ensures
            r == value_of(alt_from(tokens@, old(self).next_idx as int)),
            r is Ok ==> final(self).next_idx == alt_from(tokens@, old(self).next_idx as int)->Ok_0.1,
            r is Ok ==> old(self).next_idx <= final(self).next_idx,
            r is Ok && old(self).next_idx <= tokens@.len() ==> final(self).next_idx <= tokens@.len(),
        decreases tokens@.len() - old(self).next_idx, 3int,
    {
        let concat = match self.get_next_token(tokens) {
            None => None,
            Some(Token::Selector) => None,
            Some(Token::Rparen) => None,
            Some(_) => match self.parse_concat(tokens) {
                Ok(c) => Some(c),
                Err(e) => {
                    return Err(e);
                },
            },
        };
        match self.get_next_token(tokens) {
            Some(Token::Selector) => {
                self.next_idx += 1;
                match self.parse_alt(tokens) {
                    Ok(tail) => Ok(Alt { val: concat, tail: Some(Box::new(tail)) }),
                    Err(e) => Err(e),
                }
            },
            _ => Ok(Alt { val: concat, tail: None }),
        }
    }

    fn parse_concat(&mut self, tokens: &Vec<Token>) -> (r: ParserResult<Concat>)
        ensures
            r == value_of(concat_from(tokens@, old(self).next_idx as int)),
            r is Ok ==> final(self).next_idx == concat_from(tokens@, old(self).next_idx as int)->Ok_0.1,
            r is Ok ==> old(self).next_idx < final(self).next_idx <= tokens@.len(),
        decreases tokens@.len() - old(self).next_idx, 2int,
    {
        let factor = match self.parse_factor(tokens) {
            Ok(f) => f,
            Err(e) => {
                return Err(e);
            },
        };
        match self.get_next_token(tokens) {
            Some(Token::Char(_)) | Some(Token::Lparen) => match self.parse_concat(tokens) {
                Ok(tail) => Ok(Concat { val: factor, tail: Some(Box::new(tail)) }),
                Err(e) => Err(e),
            },
            _ => Ok(Concat { val: factor, tail: None }),
        }
    }

    fn parse_factor(&mut self, tokens: &Vec<Token>) -> (r: ParserResult<Factor>)
        ensures
            r == value_of(factor_from(tokens@, old(self).next_idx as int)),
            r is Ok ==> final(self).next_idx == factor_from(tokens@, old(self).next_idx as int)->Ok_0.1,
            r is Ok ==> old(self).next_idx < final(self).next_idx <= tokens@.len(),
        decreases tokens@.len() - old(self).next_idx, 1int,
    {
        let base = match self.parse_base(tokens) {
            Ok(b) => b,
            Err(e) => {
                return Err(e);
            },
        };
        match self.get_next_token(tokens) {
            Some(Token::Quantifier(c)) => {
                self.next_idx += 1;
                Ok(Factor { val: base, q: Some(Token::Quantifier(c)) })
            },
            _ => Ok(Factor { val: base, q: None }),
        }
    }

    fn parse_base(&mut self, tokens: &Vec<Token>) -> (r: ParserResult<Base>)
        ensures
            r == value_of(base_from(tokens@, old(self).next_idx as int)),
            r is Ok ==> final(self).next_idx == base_from(tokens@, old(self).next_idx as int)->Ok_0.1,
            r is Ok ==> old(self).next_idx < final(self).next_idx <= tokens@.len(),
        decreases tokens@.len() - old(self).next_idx, 0int,
    {
        match self.get_next_token(tokens) {
            Some(Token::Char(c)) => {
                self.next_idx += 1;
                Ok(Base::Char(Token::Char(c)))
            },
            Some(Token::Lparen) => {
                self.next_idx += 1;
                let inner = match self.parse_alt(tokens) {
                    Ok(a) => a,
                    Err(e) => {
                        return Err(e);
                    },
                };
                let next = self.get_next_token(tokens);
                if next != Some(Token::Rparen) {
                    return Err(ParseRegexpError::new(next, self.next_idx));
                }
                self.next_idx += 1;
                Ok(Base::Alt(Box::new(inner)))
            },
            cause => Err(ParseRegexpError::new(cause, self.next_idx)),
        }
    }

    fn get_next_token(&self, tokens: &Vec<Token>) -> (r: Option<Token>)
        ensures
            r == peek(tokens@, self.next_idx as int),
            r is Some ==> self.next_idx < tokens.len(),
    {
        if self.next_idx >= tokens.len() {
            None
        } else {
            Some(tokens[self.next_idx])
        }
    }
}

impl Parser for LL0Parser {
    /// Reads a whole pattern from the current position; tokens left over are an error at the
    /// first of them.
    fn parse(&mut self, tokens: &Vec<Token>) -> (r: ParserResult<Regexp>)
        ensures
            r == value_of(regexp_from(tokens@, old(self).position())),
            old(self).position() <= tokens@.len() ==> (r matches Ok(re) ==> alt_tokens(re.val) == tokens@.subrange(
                old(self).position(),
                tokens@.len() as int,
            )),
    {
        proof {
            if self.next_idx <= tokens@.len() {
                lemma_alt_spells(tokens@, self.next_idx as int);
            }
        }
        let alt = match self.parse_alt(tokens) {
            Ok(a) => a,
            Err(e) => {
                return Err(e);
            },
        };
        if let Some(c) = self.get_next_token(tokens) {
            return Err(ParseRegexpError::new(Some(c), self.next_idx));
        }
        assert(self.next_idx >= tokens@.len());
        Ok(Regexp { val: alt })
    }
}

} // verus!
