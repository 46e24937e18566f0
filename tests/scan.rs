use nfa_regex::backtracker::{BackTracer, Matcher};
use nfa_regex::lexer::{get_tokens, Token};
use nfa_regex::ll0_parser::LL0Parser;
use nfa_regex::parser::Parser;
use nfa_regex::thompson::{NFABuilder, ThompsonWayBuilder};

fn matches(pattern: &str, input: &str) -> Vec<String> {
    let ast = LL0Parser::new().parse(&get_tokens(pattern)).unwrap();
    let nfa = ThompsonWayBuilder::new().exec(ast);
    BackTracer::new(nfa).exec(input)
}

#[test]
fn greedy_star_takes_the_whole_run() {
    assert_eq!(matches("a*", "aaaa")[0], "aaaa");
}

#[test]
fn star_then_symbol_backtracks_once() {
    assert_eq!(matches("a*a", "aaaa"), vec!["aaaa"]);
}

#[test]
fn alternation_matches_each_branch_in_turn() {
    assert_eq!(matches("aaa|bbb", "aaabbb"), vec!["aaa", "bbb"]);
}

#[test]
fn empty_pattern_matches_at_every_offset() {
    assert_eq!(matches("", "aaa"), vec!["", "", "", ""]);
}

#[test]
fn no_match_gives_nothing() {
    assert!(matches("a", "bbb").is_empty());
}

#[test]
fn matches_are_ordered_and_disjoint() {
    let input = "aabaaba";
    let found = matches("a*", input);
    assert_eq!(found, vec!["aa", "", "aa", "", "a", ""]);
    // the non-empty matches appear in order without sharing characters
    let mut pos = 0;
    for m in found.iter().filter(|m| !m.is_empty()) {
        let at = input[pos..].find(m.as_str()).unwrap() + pos;
        pos = at + m.len();
    }
    assert!(pos <= input.len());
}

#[test]
fn scan_ends_after_one_step_per_offset() {
    // an empty-matching pattern reports exactly one match per offset, one past the end included
    assert_eq!(matches("b*", "aaaaa").len(), 6);
}

#[test]
fn question_mark_repeats_like_star() {
    assert_eq!(matches("a?", "aaa"), vec!["aaa", ""]);
}

#[test]
fn empty_loop_terminates() {
    assert_eq!(matches("()*", "ab"), vec!["", "", ""]);
    assert_eq!(matches("(a|)*b", "aab"), vec!["aab"]);
}

#[test]
fn wildcard_stops_before_tilde() {
    assert_eq!(matches(".", " }"), vec![" ", "}"]);
    assert!(matches(".", "~").is_empty());
}

#[test]
fn unicode_input_is_sliced_by_character() {
    assert_eq!(matches("b", "ébé"), vec!["b"]);
    assert_eq!(matches(".*", "xé"), vec!["x", "", ""]);
}

#[test]
fn token_to_char_gives_source_character() {
    assert_eq!(Token::Char('x').to_char(), 'x');
    assert_eq!(Token::Quantifier('?').to_char(), '?');
    assert_eq!(Token::Selector.to_char(), '|');
    assert_eq!(Token::Lparen.to_char(), '(');
    assert_eq!(Token::Rparen.to_char(), ')');
}

#[test]
fn parse_errors_name_token_and_index() {
    let err = LL0Parser::new().parse(&get_tokens("a)")).unwrap_err();
    assert_eq!(err.cause, Some(Token::Rparen));
    assert_eq!(err.idx, 1);
    let err = LL0Parser::new().parse(&get_tokens("(a")).unwrap_err();
    assert_eq!(err.cause, None);
    assert_eq!(err.idx, 2);
}

#[test]
fn first_choice_spelling_matches_whole() {
    assert_eq!(matches("a(b|c).", "abx")[0], "abx");
    assert_eq!(matches("(|a)b", "b")[0], "b");
    assert_eq!(matches("x(y|yz)", "xy"), vec!["xy"]);
}
