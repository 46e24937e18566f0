use vstd::prelude::*;

use crate::lexer::token_char;
use crate::nfa::{Edge, NfaModel, Node, State, Trigger, NFA};
use crate::parser::{Alt, Base, Concat, Factor, Regexp};

verus! {

broadcast use vstd::seq_lib::group_seq_properties;

/// The state with the identifier `n`.
pub open spec fn sid(n: int) -> State {
    State { id: n as u32 }
}

/// How many fresh states the construction issues for an alternation.
pub open spec fn alt_ids(a: Alt) -> nat
    decreases a,
{
    let head: nat = match a.val {
        None => 2,
        Some(c) => concat_ids(c),
    };
    match a.tail {
        None => head,
        Some(t) => head + 2 + alt_ids(*t),
    }
}

/// How many fresh states the construction issues for a concatenation.
pub open spec fn concat_ids(c: Concat) -> nat
    decreases c,
{
    match c.tail {
        None => factor_ids(c.val),
        Some(t) => factor_ids(c.val) + concat_ids(*t),
    }
}

/// How many fresh states the construction issues for a factor.
pub open spec fn factor_ids(f: Factor) -> nat
    decreases f,
{
    if f.q.is_some() {
        2 + base_ids(f.val)
    } else {
        base_ids(f.val)
    }
}

/// How many fresh states the construction issues for a base.
pub open spec fn base_ids(b: Base) -> nat
    decreases b,
{
    match b {
        Base::Char(_) => 2,
        Base::Alt(a) => alt_ids(*a),
    }
}

/// The edges of a wildcard: one for every printable character from `' '` up to, not including, `'~'`.
pub open spec fn wildcard_edges(init: State, accept: State) -> Seq<Edge> {
    Seq::new(
        94,
        |i: int| Edge { from: init, trigger: Trigger::Char(((i + 32) as u8) as char), to: Node { state: accept, priority: 1 } },
    )
}

/// The edges of the fragment for one symbol.
pub open spec fn symbol_edges(t: Trigger, init: State, accept: State) -> Seq<Edge> {
    if t == Trigger::Char('.') {
        wildcard_edges(init, accept)
    } else {
        seq![Edge { from: init, trigger: t, to: Node { state: accept, priority: 1 } }]
    }
}

/// The fragment for one symbol, with two fresh states after the counter value `c`.
pub open spec fn symbol_model(t: Trigger, c: int) -> NfaModel {
    NfaModel {
        states: seq![sid(c + 1), sid(c + 2)],
        edges: symbol_edges(t, sid(c + 1), sid(c + 2)),
        init: sid(c + 1),
        accept: sid(c + 2),
    }
}

/// The states of `s` other than `x`, in order.
pub open spec fn without(s: Seq<State>, x: State) -> Seq<State>
    decreases s.len(),
{
    if s.len() == 0 {
        s
    } else {
        let rest = without(s.drop_last(), x);
        if s.last() == x {
            rest
        } else {
            rest.push(s.last())
        }
    }
}

/// The edge `e`, moved to start from `dst` where it started from `src`.
pub open spec fn reroute_edge(e: Edge, src: State, dst: State) -> Edge {
    if e.from == src {
        Edge { from: dst, trigger: e.trigger, to: e.to }
    } else {
        e
    }
}

/// The edges `edges`, each moved to start from `dst` where it started from `src`.
pub open spec fn reroute(edges: Seq<Edge>, src: State, dst: State) -> Seq<Edge> {
    edges.map_values(|e: Edge| reroute_edge(e, src, dst))
}

/// Concatenation: `l`'s initial state, `r`'s accepting state, and `r`'s initial state replaced by
/// `l`'s accepting state.
pub open spec fn splice_model(l: NfaModel, r: NfaModel) -> NfaModel {
    NfaModel {
        states: l.states + without(r.states, r.init),
        edges: l.edges + reroute(r.edges, r.init, l.accept),
        init: l.init,
        accept: r.accept,
    }
}

/// Alternation: a fresh initial state with empty moves into both fragments, and empty moves from
/// both accepting states into a fresh accepting state.
pub open spec fn union_model(a: NfaModel, b: NfaModel, q0: State, qn: State) -> NfaModel {
    NfaModel {
        states: seq![q0, qn] + a.states + b.states,
        edges: seq![
            Edge { from: q0, trigger: Trigger::Epsilon, to: Node { state: a.init, priority: 1 } },
            Edge { from: q0, trigger: Trigger::Epsilon, to: Node { state: b.init, priority: 1 } },
            Edge { from: a.accept, trigger: Trigger::Epsilon, to: Node { state: qn, priority: 1 } },
            Edge { from: b.accept, trigger: Trigger::Epsilon, to: Node { state: qn, priority: 1 } },
        ] + a.edges + b.edges,
        init: q0,
        accept: qn,
    }
}

/// Repetition: from a fresh initial state and from the child's accepting state, an empty move
/// into the child (priority 1, tried first) and one out to a fresh accepting state (priority 2).
pub open spec fn repeat_model(c: NfaModel, q0: State, qn: State) -> NfaModel {
    NfaModel {
        states: seq![q0, qn] + c.states,
        edges: seq![
            Edge { from: q0, trigger: Trigger::Epsilon, to: Node { state: qn, priority: 2 } },
            Edge { from: q0, trigger: Trigger::Epsilon, to: Node { state: c.init, priority: 1 } },
            Edge { from: c.accept, trigger: Trigger::Epsilon, to: Node { state: qn, priority: 2 } },
            Edge { from: c.accept, trigger: Trigger::Epsilon, to: Node { state: c.init, priority: 1 } },
        ] + c.edges,
        init: q0,
        accept: qn,
    }
}

/// The automaton built for an alternation when the counter stands at `c`.
pub open spec fn alt_model(a: Alt, c: int) -> NfaModel
    decreases a,
{
    let head = match a.val {
        None => symbol_model(Trigger::Epsilon, c),
        Some(v) => concat_model(v, c),
    };
    let c1 = c + match a.val {
        None => 2,
        Some(v) => concat_ids(v),
    };
    match a.tail {
        None => head,
        Some(t) => union_model(head, alt_model(*t, c1 + 2), sid(c1 + 1), sid(c1 + 2)),
    }
}

/// The automaton built for a concatenation when the counter stands at `c`.
pub open spec fn concat_model(x: Concat, c: int) -> NfaModel
    decreases x,
{
    match x.tail {
        None => factor_model(x.val, c),
        Some(t) => splice_model(factor_model(x.val, c), concat_model(*t, c + factor_ids(x.val))),
    }
}

/// The automaton built for a factor when the counter stands at `c`.
pub open spec fn factor_model(f: Factor, c: int) -> NfaModel
    decreases f,
{
    if f.q.is_some() {
        repeat_model(base_model(f.val, c + 2), sid(c + 1), sid(c + 2))
    } else {
        base_model(f.val, c)
    }
}

/// The automaton built for a base when the counter stands at `c`.
pub open spec fn base_model(b: Base, c: int) -> NfaModel
    decreases b,
{
    match b {
        Base::Char(t) => symbol_model(Trigger::Char(token_char(t)), c),
        Base::Alt(a) => alt_model(*a, c),
    }
}

/// The automaton built for a whole pattern.
pub open spec fn regexp_model(r: Regexp) -> NfaModel {
    alt_model(r.val, 0)
}

/// A fragment whose states all have identifiers in `(lo, hi]`, that holds its initial and its
/// accepting state (two distinct states), whose edges lead to its own states, and none of them
/// back into its initial state, and whose edges start from identifiers in the same range and
/// never from its accepting state.
pub open spec fn fragment_ok(m: NfaModel, lo: int, hi: int) -> bool {
    &&& forall|x: State| #[trigger] m.states.contains(x) ==> lo < x.id <= hi
    &&& m.states.contains(m.init)
    &&& m.states.contains(m.accept)
    &&& m.init != m.accept
    &&& forall|i: int| 0 <= i < m.edges.len() ==> m.states.contains(#[trigger] m.edges[i].to.state)
    &&& forall|i: int| 0 <= i < m.edges.len() ==> #[trigger] m.edges[i].to.state != m.init
    &&& forall|i: int| 0 <= i < m.edges.len() ==> lo < #[trigger] m.edges[i].from.id <= hi
    &&& forall|i: int| 0 <= i < m.edges.len() ==> #[trigger] m.edges[i].from != m.accept
}

/// The states without `x` are the states other than `x`.
pub proof fn lemma_without(s: Seq<State>, x: State, y: State)
    ensures
        without(s, x).contains(y) <==> (s.contains(y) && y != x),
    decreases s.len(),
{
    if s.len() > 0 {
        lemma_without(s.drop_last(), x, y);
        assert(s =~= s.drop_last().push(s.last()));
    }
}

/// The fragment for one symbol is well formed.
pub proof fn lemma_symbol_ok(t: Trigger, c: int)
    requires
        0 <= c,
        c + 2 <= u32::MAX,
    ensures
        fragment_ok(symbol_model(t, c), c, c + 2),
{
    let m = symbol_model(t, c);
    assert(m.states[0] == sid(c + 1));
    assert(m.states[1] == sid(c + 2));
    assert forall|x: State| #[trigger] m.states.contains(x) implies c < x.id <= c + 2 by {
        let i = choose|i: int| 0 <= i < m.states.len() && m.states[i] == x;
    }
    assert forall|i: int| 0 <= i < m.edges.len() implies #[trigger] m.edges[i].to.state == sid(c + 2) by {}
}

/// Concatenation keeps fragments well formed.
proof fn lemma_splice_ok(l: NfaModel, r: NfaModel, lo: int, mid: int, hi: int)
    requires
        fragment_ok(l, lo, mid),
        fragment_ok(r, mid, hi),
    ensures
        fragment_ok(splice_model(l, r), lo, hi),
{
    let m = splice_model(l, r);
    assert forall|x: State| #[trigger] m.states.contains(x) implies lo < x.id <= hi by {
        lemma_without(r.states, r.init, x);
    }
    lemma_without(r.states, r.init, r.accept);
    assert forall|i: int| 0 <= i < m.edges.len() implies m.states.contains(#[trigger] m.edges[i].to.state)
        && m.edges[i].to.state != m.init by {
        if i >= l.edges.len() {
            let k = i - l.edges.len();
            assert(m.edges[i] == reroute_edge(r.edges[k], r.init, l.accept));
            lemma_without(r.states, r.init, r.edges[k].to.state);
        }
    }
}

proof fn lemma_union_ok(a: NfaModel, b: NfaModel, lo: int, mid: int, hi: int)
    requires
        fragment_ok(a, lo, mid),
        fragment_ok(b, mid + 2, hi),
        mid + 2 <= u32::MAX,
        lo >= 0,
    ensures
        fragment_ok(union_model(a, b, sid(mid + 1), sid(mid + 2)), lo, hi),
{
    let m = union_model(a, b, sid(mid + 1), sid(mid + 2));
    let head = seq![sid(mid + 1), sid(mid + 2)];
    assert(m.states == head + a.states + b.states);
    assert(head[0] == sid(mid + 1));
    assert(head[1] == sid(mid + 2));
    assert forall|x: State| #[trigger] m.states.contains(x) implies lo < x.id <= hi by {
        if head.contains(x) {
            let i = choose|i: int| 0 <= i < head.len() && head[i] == x;
        }
    }
    assert forall|i: int| 0 <= i < m.edges.len() implies m.states.contains(#[trigger] m.edges[i].to.state)
        && m.edges[i].to.state != m.init by {
        if i >= 4 + a.edges.len() {
            assert(m.edges[i] == b.edges[i - 4 - a.edges.len()]);
        } else if i >= 4 {
            assert(m.edges[i] == a.edges[i - 4]);
        }
    }
    assert forall|i: int| 0 <= i < m.edges.len() implies #[trigger] m.edges[i].from != m.accept by {
        if i >= 4 + a.edges.len() {
            assert(m.edges[i] == b.edges[i - 4 - a.edges.len()]);
            assert(mid + 2 < b.edges[i - 4 - a.edges.len()].from.id);
        } else if i >= 4 {
            assert(m.edges[i] == a.edges[i - 4]);
            assert(a.edges[i - 4].from.id <= mid);
        } else {
            assert(a.accept.id <= mid && b.accept.id > mid + 2);
        }
    }
}

proof fn lemma_repeat_ok(ch: NfaModel, lo: int, hi: int)
    requires
        fragment_ok(ch, lo + 2, hi),
        lo + 2 <= u32::MAX,
        lo >= 0,
    ensures
        fragment_ok(repeat_model(ch, sid(lo + 1), sid(lo + 2)), lo, hi),
{
    let m = repeat_model(ch, sid(lo + 1), sid(lo + 2));
    let head = seq![sid(lo + 1), sid(lo + 2)];
    assert(m.states == head + ch.states);
    assert(head[0] == sid(lo + 1));
    assert(head[1] == sid(lo + 2));
    assert forall|x: State| #[trigger] m.states.contains(x) implies lo < x.id <= hi by {
        if head.contains(x) {
            let i = choose|i: int| 0 <= i < head.len() && head[i] == x;
        }
    }
    assert forall|i: int| 0 <= i < m.edges.len() implies m.states.contains(#[trigger] m.edges[i].to.state)
        && m.edges[i].to.state != m.init by {
        if i >= 4 {
            assert(m.edges[i] == ch.edges[i - 4]);
        }
    }
}

/// Every fragment built for an alternation is well formed, with its states among the identifiers
/// that it issued.
pub proof fn lemma_alt_ok(a: Alt, c: int)
    requires
        0 <= c,
        c + alt_ids(a) <= u32::MAX,
    ensures
        fragment_ok(alt_model(a, c), c, c + alt_ids(a)),
    decreases a, 0int,
{
    let c1 = c + match a.val {
        None => 2,
        Some(v) => concat_ids(v),
    };
    match a.val {
        None => lemma_symbol_ok(Trigger::Epsilon, c),
        Some(v) => lemma_concat_ok(v, c),
    }
    match a.tail {
        None => {},
        Some(t) => {
            lemma_alt_ok(*t, c1 + 2);
            let head = match a.val {
                None => symbol_model(Trigger::Epsilon, c),
                Some(v) => concat_model(v, c),
            };
            lemma_union_ok(head, alt_model(*t, c1 + 2), c, c1, c + alt_ids(a));
        },
    }
}

/// Every fragment built for a concatenation is well formed.
pub proof fn lemma_concat_ok(x: Concat, c: int)
    requires
        0 <= c,
        c + concat_ids(x) <= u32::MAX,
    ensures
        fragment_ok(concat_model(x, c), c, c + concat_ids(x)),
    decreases x, 0int,
{
    lemma_factor_ok(x.val, c);
    match x.tail {
        None => {},
        Some(t) => {
            lemma_concat_ok(*t, c + factor_ids(x.val));
            lemma_splice_ok(
                factor_model(x.val, c),
                concat_model(*t, c + factor_ids(x.val)),
                c,
                c + factor_ids(x.val),
                c + concat_ids(x),
            );
        },
    }
}

/// Every fragment built for a factor is well formed.
pub proof fn lemma_factor_ok(f: Factor, c: int)
    requires
        0 <= c,
        c + factor_ids(f) <= u32::MAX,
    ensures
        fragment_ok(factor_model(f, c), c, c + factor_ids(f)),
    decreases f, 0int,
{
    if f.q.is_some() {
        lemma_base_ok(f.val, c + 2);
        lemma_repeat_ok(base_model(f.val, c + 2), c, c + factor_ids(f));
    } else {
        lemma_base_ok(f.val, c);
    }
}

/// Every fragment built for a base is well formed.
pub proof fn lemma_base_ok(b: Base, c: int)
    requires
        0 <= c,
        c + base_ids(b) <= u32::MAX,
    ensures
        fragment_ok(base_model(b, c), c, c + base_ids(b)),
    decreases b, 0int,
{
    match b {
        Base::Char(t) => lemma_symbol_ok(Trigger::Char(token_char(t)), c),
        Base::Alt(a) => lemma_alt_ok(*a, c),
    }
}

/// A way to turn a syntax tree into an automaton.
pub trait NFABuilder {
    fn exec(&self, node: Regexp) -> (r: NFA)
        requires
            alt_ids(node.val) <= u32::MAX,
        ensures
            r.wf(),
    ;
}

/// Thompson's construction, with priorities on the edges that make repetition greedy.
pub struct ThompsonWayBuilder {}

/// Issues the next state identifier.
fn fresh(ids: &mut u32) -> (r: State)
    requires
        *old(ids) < u32::MAX,
    ensures
        *final(ids) == *old(ids) + 1,
        r == sid(*final(ids) as int),
{
    *ids = *ids + 1;
    State::new(*ids)
}

impl NFABuilder for ThompsonWayBuilder {
    fn exec(&self, root: Regexp) -> (r: NFA)
        ensures
            r@ == regexp_model(root),
    {
        let mut ids: u32 = 0;
        proof {
            lemma_alt_ok(root.val, 0);
        }
        self.alt(root.val, &mut ids)
    }
}

impl ThompsonWayBuilder {
    pub fn new() -> (r: ThompsonWayBuilder) {
        ThompsonWayBuilder {  }
    }

    fn alt(&self, ast: Alt, ids: &mut u32) -> (r: NFA)
        requires
            *old(ids) + alt_ids(ast) <= u32::MAX,
        ensures
            r@ == alt_model(ast, *old(ids) as int),
            *final(ids) == *old(ids) + alt_ids(ast),
        decreases ast,
    {
        let Alt { val, tail } = ast;
        let mut head = match val {
            None => self.symbol(Trigger::Epsilon, ids),
            Some(v) => self.concat(v, ids),
        };
        match tail {
            None => head,
            Some(t) => {
                let init_state = fresh(ids);
                let accepted_state = fresh(ids);
                let mut other = self.alt(*t, ids);
                let mut states = vec![init_state, accepted_state];
                states.append(&mut head.states);
                states.append(&mut other.states);
                let mut transitions = vec![
                    Edge::new(init_state, Trigger::Epsilon, Node::new(head.init_state, 1)),
                    Edge::new(init_state, Trigger::Epsilon, Node::new(other.init_state, 1)),
                    Edge::new(head.accepted_state, Trigger::Epsilon, Node::new(accepted_state, 1)),
                    Edge::new(other.accepted_state, Trigger::Epsilon, Node::new(accepted_state, 1)),
                ];
                transitions.append(&mut head.transitions);
                transitions.append(&mut other.transitions);
                let r = NFA { states, transitions, init_state, accepted_state };
                assert(r@.states =~= alt_model(Alt { val, tail }, *old(ids) as int).states);
                assert(r@.edges =~= alt_model(Alt { val, tail }, *old(ids) as int).edges);
                r
            },
        }
    }

    fn concat(&self, ast: Concat, ids: &mut u32) -> (r: NFA)
        requires
            *old(ids) + concat_ids(ast) <= u32::MAX,
        ensures
            r@ == concat_model(ast, *old(ids) as int),
            *final(ids) == *old(ids) + concat_ids(ast),
        decreases ast,
    {
        let Concat { val, tail } = ast;
        match tail {
            None => self.factor(val, ids),
            Some(t) => {
                let left = self.factor(val, ids);
                let right = self.concat(*t, ids);
                let NFA { states: mut states, transitions: mut transitions, init_state, accepted_state: joint } = left;
                let ghost left_states = states@;
                let ghost left_edges = transitions@;
                let mut i: usize = 0;
                while i < right.transitions.len()
                    invariant
                        i <= right.transitions@.len(),
                        transitions@ == left_edges + reroute(right.transitions@.take(i as int), right.init_state, joint),
                    decreases right.transitions@.len() - i,
                {
                    let e = right.transitions[i];
                    if e.from == right.init_state {
                        transitions.push(Edge::new(joint, e.trigger, e.to));
                    } else {
                        transitions.push(e);
                    }
                    i += 1;
                    assert(reroute(right.transitions@.take(i as int), right.init_state, joint)
                        =~= reroute(right.transitions@.take(i - 1), right.init_state, joint).push(
                        reroute_edge(e, right.init_state, joint)));
                }
                let mut j: usize = 0;
                while j < right.states.len()
                    invariant
                        j <= right.states@.len(),
                        states@ == left_states + without(right.states@.take(j as int), right.init_state),
                    decreases right.states@.len() - j,
                {
                    let q = right.states[j];
                    assert(right.states@.take(j + 1).drop_last() =~= right.states@.take(j as int));
                    if q != right.init_state {
                        states.push(q);
                    }
                    j += 1;
                }
                assert(right.transitions@.take(i as int) =~= right.transitions@);
                assert(right.states@.take(j as int) =~= right.states@);
                NFA { states, transitions, init_state, accepted_state: right.accepted_state }
            },
        }
    }

    fn factor(&self, ast: Factor, ids: &mut u32) -> (r: NFA)
        requires
            *old(ids) + factor_ids(ast) <= u32::MAX,
        ensures
            r@ == factor_model(ast, *old(ids) as int),
            *final(ids) == *old(ids) + factor_ids(ast),
        decreases ast, 1int,
    {
        if ast.q.is_some() {
            self.reps(ast, ids)
        } else {
            self.base(ast.val, ids)
        }
    }

    /// Repetition of the factor's base. Both quantifiers are built this way, so `?` repeats as
    /// `*` does.
    fn reps(&self, ast: Factor, ids: &mut u32) -> (r: NFA)
        requires
            ast.q.is_some(),
            *old(ids) + factor_ids(ast) <= u32::MAX,
        ensures
            r@ == factor_model(ast, *old(ids) as int),
            *final(ids) == *old(ids) + factor_ids(ast),
        decreases ast, 0int,
    {
        let init_state = fresh(ids);
        let accepted_state = fresh(ids);
        let mut child = self.base(ast.val, ids);
        let mut states = vec![init_state, accepted_state];
        states.append(&mut child.states);
        let mut transitions = vec![
            Edge::new(init_state, Trigger::Epsilon, Node::new(accepted_state, 2)),
            Edge::new(init_state, Trigger::Epsilon, Node::new(child.init_state, 1)),
            Edge::new(child.accepted_state, Trigger::Epsilon, Node::new(accepted_state, 2)),
            Edge::new(child.accepted_state, Trigger::Epsilon, Node::new(child.init_state, 1)),
        ];
        transitions.append(&mut child.transitions);
        let r = NFA { states, transitions, init_state, accepted_state };
        assert(r@.states =~= factor_model(ast, *old(ids) as int).states);
        assert(r@.edges =~= factor_model(ast, *old(ids) as int).edges);
        r
    }

    fn base(&self, ast: Base, ids: &mut u32) -> (r: NFA)
        requires
            *old(ids) + base_ids(ast) <= u32::MAX,
        ensures
            r@ == base_model(ast, *old(ids) as int),
            *final(ids) == *old(ids) + base_ids(ast),
        decreases ast,
    {
        match ast {
            Base::Alt(v) => self.alt(*v, ids),
            Base::Char(c) => self.symbol(Trigger::Char(c.to_char()), ids),
        }
    }

    fn symbol(&self, t: Trigger, ids: &mut u32) -> (r: NFA)
        requires
            *old(ids) + 2 <= u32::MAX,
        ensures
            r@ == symbol_model(t, *old(ids) as int),
            *final(ids) == *old(ids) + 2,
    {
        let init_state = fresh(ids);
        let accepted_state = fresh(ids);
        let target = Node::new(accepted_state, 1);
        let mut transitions: Vec<Edge> = Vec::new();
        if t == Trigger::Char('.') {
            let mut code: u8 = 0x20;
            while code < 0x7e
                invariant
                    0x20 <= code <= 0x7e,
                    target == (Node { state: accepted_state, priority: 1 }),
                    transitions@ == wildcard_edges(init_state, accepted_state).take(code - 0x20),
                decreases 0x7e - code,
            {
                transitions.push(Edge::new(init_state, Trigger::Char(code as char), target));
                code += 1;
                assert(transitions@ =~= wildcard_edges(init_state, accepted_state).take(code - 0x20));
            }
            assert(transitions@ =~= wildcard_edges(init_state, accepted_state));
        } else {
            transitions.push(Edge::new(init_state, t, target));
            assert(transitions@ =~= symbol_edges(t, init_state, accepted_state));
        }
        let r = NFA { states: vec![init_state, accepted_state], transitions, init_state, accepted_state };
        assert(r@.states =~= symbol_model(t, *old(ids) as int).states);
        r
    }
}

} // verus!
