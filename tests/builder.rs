use nfa_regex::lexer::get_tokens;
use nfa_regex::ll0_parser::LL0Parser;
use nfa_regex::nfa::{Edge, Node, State, Trigger, NFA};
use nfa_regex::parser::Parser;
use nfa_regex::thompson::{NFABuilder, ThompsonWayBuilder};

#[test]
fn empty_string() {
    let ast = LL0Parser::new().parse(&get_tokens("")).unwrap();
    let states = vec![State::new(1), State::new(2)];
    let transition_table = vec![Edge::new(State::new(1), Trigger::Epsilon, Node::new(State::new(2), 1))];
    let expected = NFA::new(states, transition_table, State::new(1), State::new(2));
    let actual = ThompsonWayBuilder::new().exec(ast);
    assert_eq!(expected, actual);
}

#[test]
fn only_one_char() {
    let ast = LL0Parser::new().parse(&get_tokens("a")).unwrap();
    let states = vec![State::new(1), State::new(2)];
    let transition_table = vec![Edge::new(State::new(1), Trigger::Char('a'), Node::new(State::new(2), 1))];
    let expected = NFA::new(states, transition_table, State::new(1), State::new(2));
    let actual = ThompsonWayBuilder::new().exec(ast);
    assert_eq!(expected, actual);
}

fn build(pattern: &str) -> NFA {
    let ast = LL0Parser::new().parse(&get_tokens(pattern)).unwrap();
    ThompsonWayBuilder::new().exec(ast)
}

#[test]
fn star_wraps_child_with_priorities() {
    let nfa = build("a*");
    let q0 = State::new(1);
    let qn = State::new(2);
    let init = State::new(3);
    let accept = State::new(4);
    assert_eq!(nfa.get_init_state(), q0);
    assert_eq!(nfa.get_accepted_state(), qn);
    assert_eq!(nfa.transit(q0, Trigger::Epsilon), Ok(vec![Node::new(qn, 2), Node::new(init, 1)]));
    assert_eq!(nfa.transit(accept, Trigger::Epsilon), Ok(vec![Node::new(qn, 2), Node::new(init, 1)]));
    assert_eq!(nfa.transit(init, Trigger::Char('a')), Ok(vec![Node::new(accept, 1)]));
    assert!(nfa.transit(init, Trigger::Char('b')).is_err());
    assert!(nfa.transit(qn, Trigger::Epsilon).is_err());
}

#[test]
fn alternation_adds_fresh_ends() {
    let nfa = build("a|b");
    // left branch 1 -> 2, then the fresh states 3 and 4, then the right branch 5 -> 6
    let q0 = State::new(3);
    let qn = State::new(4);
    assert_eq!(nfa.get_init_state(), q0);
    assert_eq!(nfa.get_accepted_state(), qn);
    assert_eq!(
        nfa.transit(q0, Trigger::Epsilon),
        Ok(vec![Node::new(State::new(1), 1), Node::new(State::new(5), 1)])
    );
    assert_eq!(nfa.transit(State::new(2), Trigger::Epsilon), Ok(vec![Node::new(qn, 1)]));
    assert_eq!(nfa.transit(State::new(6), Trigger::Epsilon), Ok(vec![Node::new(qn, 1)]));
    assert_eq!(nfa.states.len(), 6);
}

#[test]
fn concatenation_splices_right_onto_left() {
    let nfa = build("ab");
    // 'a' is 1 -> 2, 'b' was 3 -> 4; state 3 is dropped and its edge starts from 2
    assert_eq!(nfa.states, vec![State::new(1), State::new(2), State::new(4)]);
    assert_eq!(nfa.get_init_state(), State::new(1));
    assert_eq!(nfa.get_accepted_state(), State::new(4));
    assert_eq!(nfa.transit(State::new(2), Trigger::Char('b')), Ok(vec![Node::new(State::new(4), 1)]));
    assert!(nfa.transit(State::new(3), Trigger::Char('b')).is_err());
    assert_eq!(nfa.get_transition_table().len(), 2);
}

#[test]
fn wildcard_covers_printable_range() {
    let nfa = build(".");
    assert_eq!(nfa.get_transition_table().len(), 94);
    let to_accept = Ok(vec![Node::new(State::new(2), 1)]);
    assert_eq!(nfa.transit(State::new(1), Trigger::Char(' ')), to_accept);
    assert_eq!(nfa.transit(State::new(1), Trigger::Char('}')), to_accept);
    assert!(nfa.transit(State::new(1), Trigger::Char('~')).is_err());
    assert!(nfa.transit(State::new(1), Trigger::Char('\n')).is_err());
}

#[test]
fn node_accessors() {
    let n = Node::new(State::new(7), 2);
    assert_eq!(n.state(), State::new(7));
    assert_eq!(n.priority(), 2);
}
