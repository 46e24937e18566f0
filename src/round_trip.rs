use vstd::prelude::*;

use crate::backtracker::{all_matches, by_priority, candidates, first_min, match_at, search, spans_from, try_candidates};
use crate::lexer::{token_char, Token};
use crate::nfa::{lemma_targets_of_append, targets_of, Edge, NfaModel, Node, State, Trigger, NFA};
use crate::parser::{Alt, Base, Concat, Regexp};
use crate::thompson::{
    alt_ids, alt_model, base_ids, base_model, concat_ids, concat_model, factor_ids, factor_model, fragment_ok,
    lemma_alt_ok, lemma_base_ok, lemma_concat_ok, lemma_symbol_ok, lemma_without, regexp_model, reroute, reroute_edge,
    sid, splice_model, symbol_edges, symbol_model, union_model, wildcard_edges,
};

verus! {

broadcast use vstd::seq_lib::group_seq_properties;

/// How many characters the first-choice spelling of an alternation has: its first branch, with
/// every alternation inside also taken by its first branch.
pub open spec fn alt_len(a: Alt) -> nat
    decreases a,
{
    match a.val {
        None => 0,
        Some(c) => concat_len(c),
    }
}

/// How many characters the first-choice spelling of a concatenation has.
pub open spec fn concat_len(x: Concat) -> nat
    decreases x,
{
    match x.tail {
        None => base_len(x.val.val),
        Some(t) => base_len(x.val.val) + concat_len(*t),
    }
}

/// How many characters the first-choice spelling of a base has.
pub open spec fn base_len(b: Base) -> nat
    decreases b,
{
    match b {
        Base::Char(_) => 1,
        Base::Alt(a) => alt_len(*a),
    }
}

/// Whether `s` holds, from index `i` on, the first-choice spelling of the alternation `a`: its
/// first branch, each character standing for itself (the wildcard for any printable character),
/// with no repetition on the way.
pub open spec fn alt_spells(a: Alt, s: Seq<char>, i: int) -> bool
    decreases a,
{
    match a.val {
        None => 0 <= i <= s.len(),
        Some(c) => concat_spells(c, s, i),
    }
}

/// Whether `s` holds, from index `i` on, the first-choice spelling of a concatenation.
pub open spec fn concat_spells(x: Concat, s: Seq<char>, i: int) -> bool
    decreases x,
{
    &&& x.val.q is None
    &&& base_spells(x.val.val, s, i)
    &&& match x.tail {
        None => true,
        Some(t) => concat_spells(*t, s, i + base_len(x.val.val)),
    }
}

/// Whether `s` holds, from index `i` on, the first-choice spelling of a base.
pub open spec fn base_spells(b: Base, s: Seq<char>, i: int) -> bool
    decreases b,
{
    match b {
        Base::Char(t) => 0 <= i < s.len() && char_fits(t, s[i]),
        Base::Alt(a) => alt_spells(*a, s, i),
    }
}

/// Whether the character `c` is one that the pattern character of `t` stands for: itself, or any
/// printable character from `' '` up to, not including, `'~'` for the wildcard `.`.
pub open spec fn char_fits(t: Token, c: char) -> bool {
    token_char(t) == c || (token_char(t) == '.' && 32 <= (c as int) && (c as int) < 126)
}

proof fn lemma_targets_none(edges: Seq<Edge>, q: State, t: Trigger)
    requires
        forall|i: int| 0 <= i < edges.len() ==> #[trigger] edges[i].from != q,
    ensures
        targets_of(edges, q, t) == Seq::<Node>::empty(),
    decreases edges.len(),
{
    if edges.len() > 0 {
        lemma_targets_none(edges.drop_last(), q, t);
    }
}

proof fn lemma_targets_reroute(edges: Seq<Edge>, a: State, b: State, q: State, t: Trigger)
    requires
        a != b,
        forall|i: int| 0 <= i < edges.len() ==> #[trigger] edges[i].from != b,
    ensures
        targets_of(reroute(edges, a, b), q, t) == if q == b {
            targets_of(edges, a, t)
        } else if q == a {
            Seq::<Node>::empty()
        } else {
            targets_of(edges, q, t)
        },
    decreases edges.len(),
{
    if edges.len() > 0 {
        lemma_targets_reroute(edges.drop_last(), a, b, q, t);
        assert(reroute(edges, a, b).drop_last() =~= reroute(edges.drop_last(), a, b));
        assert(reroute(edges, a, b).last() == reroute_edge(edges.last(), a, b));
    }
}

proof fn lemma_wildcard_targets(init: State, acc: State, x: char, k: int)
    requires
        0 <= k <= 94,
    ensures
        targets_of(wildcard_edges(init, acc).take(k), init, Trigger::Char(x)) == if 32 <= (x as int) && (x as int)
            < 32 + k {
            seq![Node { state: acc, priority: 1 }]
        } else {
            Seq::<Node>::empty()
        },
    decreases k,
{
    let w = wildcard_edges(init, acc);
    if k > 0 {
        lemma_wildcard_targets(init, acc, x, k - 1);
        assert(w.take(k).drop_last() =~= w.take(k - 1));
        let c = ((k - 1 + 32) as u8) as char;
        assert(w.take(k).last().trigger == Trigger::Char(c));
        assert((c == x) <==> ((x as int) == k - 1 + 32));
    } else {
        assert(w.take(0) =~= Seq::<Edge>::empty());
    }
}

/// The moves of the fragment for one symbol out of its initial state.
proof fn lemma_symbol_targets(ch: char, init: State, acc: State, t: Trigger)
    requires
        init != acc,
    ensures
        targets_of(symbol_edges(Trigger::Char(ch), init, acc), acc, t) == Seq::<Node>::empty(),
        t == Trigger::Epsilon ==> targets_of(symbol_edges(Trigger::Char(ch), init, acc), init, t)
            == Seq::<Node>::empty(),
        forall|x: char|
            t == Trigger::Char(x) ==> targets_of(symbol_edges(Trigger::Char(ch), init, acc), init, t) == if (ch == x
                || (ch == '.' && 32 <= (x as int) && (x as int) < 126)) {
                seq![Node { state: acc, priority: 1 }]
            } else {
                Seq::<Node>::empty()
            },
{
    let e = symbol_edges(Trigger::Char(ch), init, acc);
    if ch == '.' {
        let w = wildcard_edges(init, acc);
        assert(w.take(94) =~= w);
        lemma_targets_none(e, acc, t);
        if t == Trigger::Epsilon {
            assert(forall|i: int| 0 <= i < w.len() ==> #[trigger] w[i].trigger != Trigger::Epsilon);
            lemma_targets_no_trigger(e, init, t);
        }
        assert forall|x: char| t == Trigger::Char(x) implies targets_of(e, init, t) == if (ch == x || (ch == '.'
            && 32 <= (x as int) && (x as int) < 126)) {
            seq![Node { state: acc, priority: 1 }]
        } else {
            Seq::<Node>::empty()
        } by {
            lemma_wildcard_targets(init, acc, x, 94);
            assert(32 <= ('.' as int) < 126);
        }
    } else {
        lemma_targets_none(e, acc, t);
        assert(e.drop_last() =~= Seq::<Edge>::empty());
        assert(targets_of(e.drop_last(), init, t) == Seq::<Node>::empty());
    }
}

proof fn lemma_targets_no_trigger(edges: Seq<Edge>, q: State, t: Trigger)
    requires
        forall|i: int| 0 <= i < edges.len() ==> #[trigger] edges[i].trigger != t,
    ensures
        targets_of(edges, q, t) == Seq::<Node>::empty(),
    decreases edges.len(),
{
    if edges.len() > 0 {
        lemma_targets_no_trigger(edges.drop_last(), q, t);
    }
}

/// `nfa` behaves as the fragment `f` does: at `entry` it has the moves of `f`'s initial state, at
/// every other state of `f` but the accepting one it has that state's moves, and it does not
/// accept at any of them.
pub open spec fn runs_as(nfa: NFA, f: NfaModel, entry: State) -> bool {
    &&& forall|t: Trigger| #[trigger] nfa.targets(entry, t) == targets_of(f.edges, f.init, t)
    &&& forall|q: State, t: Trigger|
        f.states.contains(q) && q != f.init && q != f.accept ==> #[trigger] nfa.targets(q, t) == targets_of(
            f.edges,
            q,
            t,
        )
    &&& nfa.accepted_state != entry
    &&& forall|q: State| f.states.contains(q) && q != f.init && q != f.accept ==> nfa.accepted_state != q
}

proof fn lemma_runs_entry(nfa: NFA, f: NfaModel, e: State, t: Trigger)
    requires
        runs_as(nfa, f, e),
    ensures
        nfa.targets(e, t) == targets_of(f.edges, f.init, t),
{
}

/// A single consuming move: from `entry`, whose only move is on the character at `i`, the search
/// goes on from the target at the next offset.
proof fn lemma_char_step(nfa: NFA, s: Seq<char>, entry: State, i: int, p: Set<State>, target: State)
    requires
        0 <= i < s.len(),
        nfa.accepted_state != entry,
        nfa.targets(entry, Trigger::Epsilon) == Seq::<Node>::empty(),
        nfa.targets(entry, Trigger::Char(s[i])) == seq![Node { state: target, priority: 1 }],
    ensures
        search(nfa, s, entry, i, p) == search(nfa, s, target, i + 1, set![target]),
{
    let c = candidates(nfa, s, entry, i);
    let only: (bool, Node) = (true, Node { state: target, priority: 1 });
    assert(c =~= seq![only]);
    assert(by_priority(c) =~= seq![only]) by {
        assert(first_min(c) == 0);
        assert(c.remove(0) =~= Seq::<(bool, Node)>::empty());
        assert(by_priority(c.remove(0)) == Seq::<(bool, Node)>::empty());
    }
    assert(try_candidates(nfa, s, i, p, seq![only], 1) == None::<int>);
}

/// An empty move tried first: from `x`, whose moves at offset `i` are empty moves of priority 1,
/// the first of them into `t`, a search that succeeds through `t` gives the result.
proof fn lemma_eps_step(nfa: NFA, s: Seq<char>, x: State, i: int, p: Set<State>, t: State, others: Seq<Node>)
    requires
        0 <= i <= s.len(),
        nfa.accepted_state != x,
        nfa.targets(x, Trigger::Epsilon) == seq![Node { state: t, priority: 1 }] + others,
        others.len() <= 1,
        others.len() == 1 ==> others[0].priority == 1,
        i < s.len() ==> nfa.targets(x, Trigger::Char(s[i])) == Seq::<Node>::empty(),
        nfa.states@.contains(t),
        !p.contains(t),
        search(nfa, s, t, i, p.insert(t)) is Some,
    ensures
        search(nfa, s, x, i, p) == search(nfa, s, t, i, p.insert(t)),
{
    let eps = nfa.targets(x, Trigger::Epsilon);
    let c = candidates(nfa, s, x, i);
    let first: (bool, Node) = (false, Node { state: t, priority: 1 });
    assert(c =~= crate::backtracker::flagged(eps, false));
    assert(c[0] == first);
    assert(first_min(c) == 0) by {
        if c.len() == 2 {
            assert(c.drop_last().len() == 1);
            assert(first_min(c.drop_last()) == 0);
            assert(c[1].1.priority == 1);
        }
    }
    assert(by_priority(c)[0] == first);
}

proof fn lemma_targets_single(e: Edge, q: State, t: Trigger)
    ensures
        targets_of(seq![e], q, t) == if e.from == q && e.trigger == t {
            seq![e.to]
        } else {
            Seq::<Node>::empty()
        },
{
    assert(seq![e].drop_last() =~= Seq::<Edge>::empty());
    assert(targets_of(seq![e].drop_last(), q, t) == Seq::<Node>::empty());
}

/// The moves that the four edges of an alternation's frame give to `(q, t)`.
proof fn lemma_targets_four(e0: Edge, e1: Edge, e2: Edge, e3: Edge, q: State, t: Trigger)
    ensures
        targets_of(seq![e0, e1, e2, e3], q, t) == targets_of(seq![e0], q, t) + targets_of(seq![e1], q, t)
            + targets_of(seq![e2], q, t) + targets_of(seq![e3], q, t),
{
    assert(seq![e0, e1, e2, e3] =~= seq![e0] + seq![e1] + seq![e2] + seq![e3]);
    lemma_targets_of_append(seq![e0] + seq![e1] + seq![e2], seq![e3], q, t);
    lemma_targets_of_append(seq![e0] + seq![e1], seq![e2], q, t);
    lemma_targets_of_append(seq![e0], seq![e1], q, t);
}

proof fn lemma_target_is_state(nfa: NFA, x: State, t: Trigger, k: int)
    requires
        nfa.wf(),
        0 <= k < nfa.targets(x, t).len(),
    ensures
        nfa.states@.contains(nfa.targets(x, t)[k].state),
{
    crate::nfa::lemma_targets_of_from_edges(nfa.transitions@, x, t, k);
}

/// The path `p` holds the entry `e` and no other state with an identifier in `(lo, hi]`.
pub open spec fn path_ok(p: Set<State>, e: State, lo: int, hi: int) -> bool {
    &&& p.contains(e)
    &&& forall|x: State| #[trigger] p.contains(x) && x != e ==> !(lo < x.id <= hi)
}

proof fn lemma_splice_runs(nfa: NFA, l: NfaModel, r: NfaModel, lo: int, mid: int, hi: int, e: State)
    requires
        fragment_ok(l, lo, mid),
        fragment_ok(r, mid, hi),
        runs_as(nfa, splice_model(l, r), e),
    ensures
        runs_as(nfa, l, e),
        runs_as(nfa, r, l.accept),
{
    let f = splice_model(l, r);
    let moved = reroute(r.edges, r.init, l.accept);
    assert(l.accept.id <= mid);
    assert(r.init.id > mid);
    assert forall|k: int| 0 <= k < r.edges.len() implies #[trigger] r.edges[k].from != l.accept by {
        assert(mid < r.edges[k].from.id);
    }
    assert forall|tr: Trigger| #[trigger] nfa.targets(e, tr) == targets_of(l.edges, l.init, tr) by {
        lemma_targets_of_append(l.edges, moved, l.init, tr);
        lemma_targets_reroute(r.edges, r.init, l.accept, l.init, tr);
        assert forall|k: int| 0 <= k < r.edges.len() implies #[trigger] r.edges[k].from != l.init by {
            assert(mid < r.edges[k].from.id);
        }
        lemma_targets_none(r.edges, l.init, tr);
    }
    assert forall|q: State, tr: Trigger| l.states.contains(q) && q != l.init && q != l.accept implies #[trigger] nfa.targets(
        q,
        tr,
    ) == targets_of(l.edges, q, tr) by {
        assert(q.id <= mid);
        assert(f.states.contains(q));
        lemma_targets_of_append(l.edges, moved, q, tr);
        lemma_targets_reroute(r.edges, r.init, l.accept, q, tr);
        assert forall|k: int| 0 <= k < r.edges.len() implies #[trigger] r.edges[k].from != q by {
            assert(mid < r.edges[k].from.id);
        }
        lemma_targets_none(r.edges, q, tr);
    }
    assert forall|q: State| l.states.contains(q) && q != l.init && q != l.accept implies nfa.accepted_state != q by {
        assert(q.id <= mid);
        assert(f.states.contains(q));
    }
    lemma_without(r.states, r.init, r.accept);
    assert(f.states.contains(l.accept));
    assert forall|tr: Trigger| #[trigger] nfa.targets(l.accept, tr) == targets_of(r.edges, r.init, tr) by {
        lemma_targets_of_append(l.edges, moved, l.accept, tr);
        lemma_targets_none(l.edges, l.accept, tr);
        lemma_targets_reroute(r.edges, r.init, l.accept, l.accept, tr);
    }
    assert forall|q: State, tr: Trigger| r.states.contains(q) && q != r.init && q != r.accept implies #[trigger] nfa.targets(
        q,
        tr,
    ) == targets_of(r.edges, q, tr) by {
        assert(q.id > mid);
        lemma_without(r.states, r.init, q);
        assert(f.states.contains(q));
        lemma_targets_of_append(l.edges, moved, q, tr);
        assert forall|k: int| 0 <= k < l.edges.len() implies #[trigger] l.edges[k].from != q by {
            assert(l.edges[k].from.id <= mid);
        }
        lemma_targets_none(l.edges, q, tr);
        lemma_targets_reroute(r.edges, r.init, l.accept, q, tr);
    }
    assert forall|q: State| r.states.contains(q) && q != r.init && q != r.accept implies nfa.accepted_state != q by {
        assert(q.id > mid);
        lemma_without(r.states, r.init, q);
        assert(f.states.contains(q));
    }
}

proof fn lemma_union_runs(nfa: NFA, a: NfaModel, b: NfaModel, lo: int, mid: int, hi: int, e: State, ch: char)
    requires
        fragment_ok(a, lo, mid),
        fragment_ok(b, mid + 2, hi),
        mid + 2 <= u32::MAX,
        lo >= 0,
        runs_as(nfa, union_model(a, b, sid(mid + 1), sid(mid + 2)), e),
    ensures
        runs_as(nfa, a, a.init),
        nfa.targets(e, Trigger::Epsilon) == seq![Node { state: a.init, priority: 1 }] + seq![
            Node { state: b.init, priority: 1 },
        ],
        nfa.targets(e, Trigger::Char(ch)) == Seq::<Node>::empty(),
        nfa.targets(a.accept, Trigger::Epsilon) == seq![Node { state: sid(mid + 2), priority: 1 }],
        nfa.targets(a.accept, Trigger::Char(ch)) == Seq::<Node>::empty(),
        nfa.accepted_state != a.init,
        nfa.accepted_state != a.accept,
{
    let q0 = sid(mid + 1);
    let qn = sid(mid + 2);
    let f = union_model(a, b, q0, qn);
    let e0 = Edge { from: q0, trigger: Trigger::Epsilon, to: Node { state: a.init, priority: 1 } };
    let e1 = Edge { from: q0, trigger: Trigger::Epsilon, to: Node { state: b.init, priority: 1 } };
    let e2 = Edge { from: a.accept, trigger: Trigger::Epsilon, to: Node { state: qn, priority: 1 } };
    let e3 = Edge { from: b.accept, trigger: Trigger::Epsilon, to: Node { state: qn, priority: 1 } };
    let head = seq![e0, e1, e2, e3];
    assert(f.edges == head + a.edges + b.edges);
    assert(f.states == seq![q0, qn] + a.states + b.states);
    assert(a.init.id <= mid && a.accept.id <= mid && b.init.id > mid + 2 && b.accept.id > mid + 2);
    assert(f.states.contains(a.init) && f.states.contains(a.accept));
    assert forall|k: int| 0 <= k < b.edges.len() implies #[trigger] b.edges[k].from.id > mid + 2 by {}
    assert forall|k: int| 0 <= k < a.edges.len() implies #[trigger] a.edges[k].from.id <= mid by {}
    // moves of any state, split over the frame and the two branches
    assert forall|q: State, tr: Trigger| #[trigger] targets_of(f.edges, q, tr) == targets_of(head, q, tr) + targets_of(
        a.edges,
        q,
        tr,
    ) + targets_of(b.edges, q, tr) by {
        lemma_targets_of_append(head + a.edges, b.edges, q, tr);
        lemma_targets_of_append(head, a.edges, q, tr);
    }
    assert forall|q: State, tr: Trigger| q.id <= mid + 2 implies #[trigger] targets_of(b.edges, q, tr)
        == Seq::<Node>::empty() by {
        lemma_targets_none(b.edges, q, tr);
    }
    assert forall|q: State, tr: Trigger| q.id > mid implies #[trigger] targets_of(a.edges, q, tr)
        == Seq::<Node>::empty() by {
        lemma_targets_none(a.edges, q, tr);
    }
    assert forall|q: State, tr: Trigger| #[trigger] targets_of(head, q, tr) == targets_of(seq![e0], q, tr) + targets_of(
        seq![e1],
        q,
        tr,
    ) + targets_of(seq![e2], q, tr) + targets_of(seq![e3], q, tr) by {
        lemma_targets_four(e0, e1, e2, e3, q, tr);
        lemma_targets_single(e0, q, tr);
        lemma_targets_single(e1, q, tr);
        lemma_targets_single(e2, q, tr);
        lemma_targets_single(e3, q, tr);
    }
    // the entry has the frame's two empty moves
    assert forall|tr: Trigger| #[trigger] nfa.targets(e, tr) == targets_of(head, q0, tr) by {
        lemma_targets_single(e0, q0, tr);
        lemma_targets_single(e1, q0, tr);
        lemma_targets_single(e2, q0, tr);
        lemma_targets_single(e3, q0, tr);
        assert(targets_of(a.edges, q0, tr) == Seq::<Node>::empty());
        assert(targets_of(b.edges, q0, tr) == Seq::<Node>::empty());
    }
    lemma_targets_single(e0, q0, Trigger::Epsilon);
    lemma_targets_single(e1, q0, Trigger::Epsilon);
    lemma_targets_single(e2, q0, Trigger::Epsilon);
    lemma_targets_single(e3, q0, Trigger::Epsilon);
    assert(nfa.targets(e, Trigger::Epsilon) =~= seq![Node { state: a.init, priority: 1 }] + seq![
        Node { state: b.init, priority: 1 },
    ]);
    lemma_targets_single(e0, q0, Trigger::Char(ch));
    lemma_targets_single(e1, q0, Trigger::Char(ch));
    lemma_targets_single(e2, q0, Trigger::Char(ch));
    lemma_targets_single(e3, q0, Trigger::Char(ch));
    assert(nfa.targets(e, Trigger::Char(ch)) =~= Seq::<Node>::empty());
    // the first branch's accepting state has the one empty move out of the branch
    assert forall|tr: Trigger| #[trigger] nfa.targets(a.accept, tr) == targets_of(seq![e2], a.accept, tr) by {
        lemma_targets_single(e0, a.accept, tr);
        lemma_targets_single(e1, a.accept, tr);
        lemma_targets_single(e3, a.accept, tr);
        lemma_targets_none(a.edges, a.accept, tr);
        assert(nfa.targets(a.accept, tr) =~= targets_of(seq![e2], a.accept, tr));
    }
    lemma_targets_single(e2, a.accept, Trigger::Epsilon);
    lemma_targets_single(e2, a.accept, Trigger::Char(ch));
    assert(nfa.targets(a.accept, Trigger::Char(ch)) == Seq::<Node>::empty());
    // inside the first branch the moves are the branch's own
    assert forall|q: State, tr: Trigger| a.states.contains(q) && q != a.accept implies #[trigger] nfa.targets(q, tr)
        == targets_of(a.edges, q, tr) by {
        assert(q.id <= mid);
        assert(f.states.contains(q));
        lemma_targets_single(e0, q, tr);
        lemma_targets_single(e1, q, tr);
        lemma_targets_single(e2, q, tr);
        lemma_targets_single(e3, q, tr);
        assert(nfa.targets(q, tr) =~= targets_of(a.edges, q, tr));
    }
    assert forall|q: State| a.states.contains(q) implies nfa.accepted_state != q by {
        assert(q.id <= mid);
        assert(f.states.contains(q));
    }
}

/// The fragment of the empty alternative: one empty move from the entry into its accepting state.
proof fn lemma_empty_run(c: int, nfa: NFA, s: Seq<char>, i: int, e: State, p: Set<State>) -> (q: Set<State>)
    requires
        0 <= c,
        c + 2 <= u32::MAX,
        0 <= i <= s.len(),
        nfa.wf(),
        runs_as(nfa, symbol_model(Trigger::Epsilon, c), e),
        e == symbol_model(Trigger::Epsilon, c).init || !(c < e.id <= c + 2),
        path_ok(p, e, c, c + 2),
    ensures
        q.contains(symbol_model(Trigger::Epsilon, c).accept),
        forall|x: State| #[trigger] q.contains(x) ==> (c < x.id <= c + 2) || p.contains(x),
        search(nfa, s, symbol_model(Trigger::Epsilon, c).accept, i, q) is Some ==> search(nfa, s, e, i, p)
            == search(nfa, s, symbol_model(Trigger::Epsilon, c).accept, i, q),
{
    let f = symbol_model(Trigger::Epsilon, c);
    let edge = Edge { from: f.init, trigger: Trigger::Epsilon, to: Node { state: f.accept, priority: 1 } };
    assert(f.edges == seq![edge]);
    lemma_targets_single(edge, f.init, Trigger::Epsilon);
    assert(nfa.targets(e, Trigger::Epsilon) =~= seq![Node { state: f.accept, priority: 1 }] + Seq::<Node>::empty());
    if i < s.len() {
        let tc = Trigger::Char(s[i]);
        lemma_targets_single(edge, f.init, tc);
        lemma_runs_entry(nfa, f, e, tc);
        assert(nfa.targets(e, tc) == Seq::<Node>::empty());
    }
    lemma_target_is_state(nfa, e, Trigger::Epsilon, 0);
    let q = p.insert(f.accept);
    if search(nfa, s, f.accept, i, q) is Some {
        lemma_eps_step(nfa, s, e, i, p, f.accept, Seq::<Node>::empty());
    }
    q
}

/// A base run on its first-choice spelling ends in its accepting state after that spelling.
proof fn lemma_base_run(b: Base, c: int, nfa: NFA, s: Seq<char>, i: int, e: State, p: Set<State>) -> (q: Set<State>)
    requires
        base_spells(b, s, i),
        0 <= i <= s.len(),
        0 <= c,
        c + base_ids(b) <= u32::MAX,
        nfa.wf(),
        runs_as(nfa, base_model(b, c), e),
        e == base_model(b, c).init || !(c < e.id <= c + base_ids(b)),
        path_ok(p, e, c, c + base_ids(b)),
    ensures
        i + base_len(b) <= s.len(),
        q.contains(base_model(b, c).accept),
        forall|x: State| #[trigger] q.contains(x) ==> (c < x.id <= c + base_ids(b)) || (base_len(b) == 0 && p.contains(x)),
        search(nfa, s, base_model(b, c).accept, i + base_len(b), q) is Some ==> search(nfa, s, e, i, p) == search(
            nfa,
            s,
            base_model(b, c).accept,
            i + base_len(b),
            q,
        ),
    decreases b,
{
    match b {
        Base::Char(t) => {
            let ch = token_char(t);
            let f = symbol_model(Trigger::Char(ch), c);
            lemma_symbol_targets(ch, f.init, f.accept, Trigger::Epsilon);
            lemma_symbol_targets(ch, f.init, f.accept, Trigger::Char(s[i]));
            assert(nfa.targets(e, Trigger::Epsilon) == targets_of(f.edges, f.init, Trigger::Epsilon));
            assert(nfa.targets(e, Trigger::Char(s[i])) == targets_of(f.edges, f.init, Trigger::Char(s[i])));
            lemma_char_step(nfa, s, e, i, p, f.accept);
            let q = set![f.accept];
            assert(f.accept.id == c + 2);
            q
        },
        Base::Alt(a) => lemma_alt_run(*a, c, nfa, s, i, e, p),
    }
}

/// A concatenation run on its first-choice spelling ends in its accepting state after that
/// spelling.
proof fn lemma_concat_run(x: Concat, c: int, nfa: NFA, s: Seq<char>, i: int, e: State, p: Set<State>) -> (q: Set<
    State,
>)
    requires
        concat_spells(x, s, i),
        0 <= i <= s.len(),
        0 <= c,
        c + concat_ids(x) <= u32::MAX,
        nfa.wf(),
        runs_as(nfa, concat_model(x, c), e),
        e == concat_model(x, c).init || !(c < e.id <= c + concat_ids(x)),
        path_ok(p, e, c, c + concat_ids(x)),
    ensures
        i + concat_len(x) <= s.len(),
        q.contains(concat_model(x, c).accept),
        forall|y: State| #[trigger] q.contains(y) ==> (c < y.id <= c + concat_ids(x)) || (concat_len(x) == 0 && p.contains(y)),
        search(nfa, s, concat_model(x, c).accept, i + concat_len(x), q) is Some ==> search(nfa, s, e, i, p) == search(
            nfa,
            s,
            concat_model(x, c).accept,
            i + concat_len(x),
            q,
        ),
    decreases x,
{
    let b = x.val.val;
    assert(factor_model(x.val, c) == base_model(b, c));
    assert(factor_ids(x.val) == base_ids(b));
    match x.tail {
        None => lemma_base_run(b, c, nfa, s, i, e, p),
        Some(t) => {
            let mid = c + base_ids(b);
            let l = base_model(b, c);
            let r = concat_model(*t, mid);
            assert(concat_model(x, c) == splice_model(l, r));
            lemma_base_ok(b, c);
            lemma_concat_ok(*t, mid);
            lemma_splice_runs(nfa, l, r, c, mid, c + concat_ids(x), e);
            let ql = lemma_base_run(b, c, nfa, s, i, e, p);
            let j = i + base_len(b);
            assert(l.accept.id <= mid);
            assert forall|y: State| #[trigger] ql.contains(y) && y != l.accept implies !(mid < y.id <= c + concat_ids(
                x,
            )) by {
                if !(c < y.id <= mid) {
                    assert(p.contains(y));
                    if y == e {
                        if e == concat_model(x, c).init {
                            assert(l.states.contains(l.init));
                        }
                    }
                }
            }
            let q = lemma_concat_run(*t, mid, nfa, s, j, l.accept, ql);
            q
        },
    }
}

/// An alternation run on its first-choice spelling ends in its accepting state after that
/// spelling.
proof fn lemma_alt_run(a: Alt, c: int, nfa: NFA, s: Seq<char>, i: int, e: State, p: Set<State>) -> (q: Set<State>)
    requires
        alt_spells(a, s, i),
        0 <= i <= s.len(),
        0 <= c,
        c + alt_ids(a) <= u32::MAX,
        nfa.wf(),
        runs_as(nfa, alt_model(a, c), e),
        e == alt_model(a, c).init || !(c < e.id <= c + alt_ids(a)),
        path_ok(p, e, c, c + alt_ids(a)),
    ensures
        i + alt_len(a) <= s.len(),
        q.contains(alt_model(a, c).accept),
        forall|y: State| #[trigger] q.contains(y) ==> (c < y.id <= c + alt_ids(a)) || (alt_len(a) == 0 && p.contains(y)),
        search(nfa, s, alt_model(a, c).accept, i + alt_len(a), q) is Some ==> search(nfa, s, e, i, p) == search(
            nfa,
            s,
            alt_model(a, c).accept,
            i + alt_len(a),
            q,
        ),
    decreases a,
{
    let hi = c + alt_ids(a);
    let head = match a.val {
        None => symbol_model(Trigger::Epsilon, c),
        Some(v) => concat_model(v, c),
    };
    let c1 = c + match a.val {
        None => 2,
        Some(v) => concat_ids(v),
    };
    match a.tail {
        None => {
            match a.val {
                None => lemma_empty_run(c, nfa, s, i, e, p),
                Some(v) => lemma_concat_run(v, c, nfa, s, i, e, p),
            }
        },
        Some(t) => {
            let q0 = sid(c1 + 1);
            let qn = sid(c1 + 2);
            let other = alt_model(*t, c1 + 2);
            let f = alt_model(a, c);
            assert(f == union_model(head, other, q0, qn));
            match a.val {
                None => lemma_symbol_ok(Trigger::Epsilon, c),
                Some(v) => lemma_concat_ok(v, c),
            }
            lemma_alt_ok(*t, c1 + 2);
            let ch = if i < s.len() {
                s[i]
            } else {
                ' '
            };
            lemma_union_runs(nfa, head, other, c, c1, hi, e, ch);
            let n = alt_len(a);
            // into the first branch
            assert(head.init.id <= c1);
            assert(!p.contains(head.init)) by {
                if p.contains(head.init) {
                    assert(head.init == e);
                    assert(e == f.init);
                }
            }
            lemma_target_is_state(nfa, e, Trigger::Epsilon, 0);
            let ph = p.insert(head.init);
            assert forall|y: State| #[trigger] ph.contains(y) && y != head.init implies !(c < y.id <= c1) by {
                if y == e {
                    assert(e == f.init || !(c < e.id <= hi));
                }
            }
            let qh = match a.val {
                None => lemma_empty_run(c, nfa, s, i, head.init, ph),
                Some(v) => lemma_concat_run(v, c, nfa, s, i, head.init, ph),
            };
            // out of the first branch
            let j = i + n;
            let ch2 = if j < s.len() {
                s[j]
            } else {
                ' '
            };
            lemma_union_runs(nfa, head, other, c, c1, hi, e, ch2);
            lemma_target_is_state(nfa, head.accept, Trigger::Epsilon, 0);
            assert(!qh.contains(qn)) by {
                if qh.contains(qn) {
                    assert(!(c < qn.id <= c1));
                    assert(ph.contains(qn));
                    assert(qn != e) by {
                        assert(e == f.init || !(c < e.id <= hi));
                    }
                }
            }
            let q = qh.insert(qn);
            if search(nfa, s, qn, j, q) is Some {
                lemma_eps_step(nfa, s, head.accept, j, qh, qn, Seq::<Node>::empty());
                assert(nfa.targets(e, Trigger::Epsilon) == seq![Node { state: head.init, priority: 1 }] + seq![
                    Node { state: other.init, priority: 1 },
                ]);
                lemma_eps_step(nfa, s, e, i, p, head.init, seq![Node { state: other.init, priority: 1 }]);
            }
            assert forall|y: State| #[trigger] q.contains(y) implies (c < y.id <= hi) || (n == 0 && p.contains(y)) by {
                if y != qn && !(c < y.id <= c1) {
                    assert(ph.contains(y));
                }
            }
            q
        },
    }
}

/// Round trip: an automaton built from a pattern matches, from the start, a text that spells the
/// pattern's first-choice derivation (each alternation by its first branch, each character by
/// itself or, for the wildcard, by any printable character), where no repetition lies on the way,
/// to its end; and the scan reports that whole text first.
pub proof fn lemma_round_trip(r: Regexp, nfa: NFA, s: Seq<char>)
    requires
        alt_spells(r.val, s, 0),
        s.len() == alt_len(r.val),
        alt_ids(r.val) <= u32::MAX,
        nfa@ == regexp_model(r),
    ensures
        match_at(nfa, s, 0) == Some(s.len() as int),
        all_matches(nfa, s).len() > 0,
        all_matches(nfa, s)[0] == s,
{
    let f = alt_model(r.val, 0);
    lemma_alt_ok(r.val, 0);
    assert(nfa.transitions@ == f.edges);
    assert(nfa.states@ == f.states);
    assert(nfa.wf());
    let q = lemma_alt_run(r.val, 0, nfa, s, 0, f.init, set![f.init]);
    assert(search(nfa, s, f.accept, s.len() as int, q) == Some(s.len() as int));
    assert(spans_from(nfa, s, 0)[0] == (0int, s.len() as int));
    assert(s.subrange(0, s.len() as int) =~= s);
}

} // verus!
