use nfa_regex::lexer::{get_tokens, Token};

#[test]
fn valid_string_only_with_literal_get_tokens() {
    let raw = "a";
    let expect = vec![Token::Char('a')];
    let actual = get_tokens(raw);
    assert_eq!(expect, actual);

    let raw = "ab";
    let expect = vec![Token::Char('a'), Token::Char('b')];
    let actual = get_tokens(raw);
    assert_eq!(expect, actual);

    let raw = "a*a";
    let expect = vec![Token::Char('a'), Token::Quantifier('*'), Token::Char('a')];
    let actual = get_tokens(raw);
    assert_eq!(expect, actual);

    let raw = "a*";
    let expect = vec![Token::Char('a'), Token::Quantifier('*')];
    let actual = get_tokens(raw);
    assert_eq!(expect, actual);

    let raw = "*a";
    let expect = vec![Token::Quantifier('*'), Token::Char('a')];
    let actual = get_tokens(raw);
    assert_eq!(expect, actual);

    let raw = "(ab|c )*d?";
    let expect = vec![
        Token::Lparen,
        Token::Char('a'),
        Token::Char('b'),
        Token::Selector,
        Token::Char('c'),
        Token::Char(' '),
        Token::Rparen,
        Token::Quantifier('*'), 
        Token::Char('d'),
        Token::Quantifier('?')
    ];
    let actual = get_tokens(raw);
    assert_eq!(expect, actual);
}
