use vstd::prelude::*;
use vstd::string::*;

use crate::nfa::{lemma_targets_of_from_edges, Node, State, Trigger, NFA};

verus! {

broadcast use vstd::seq_lib::group_seq_properties;

/// A candidate move: whether it consumes the current input character, and where it leads.
pub type Candidate = (bool, Node);

/// The nodes `nodes`, each marked as consuming or not.
pub open spec fn flagged(nodes: Seq<Node>, consumed: bool) -> Seq<Candidate> {
    nodes.map_values(|n: Node| (consumed, n))
}

/// The moves out of `q` at input offset `idx`: its empty moves, then, while input is left, the
/// moves on the character at `idx`.
pub open spec fn candidates(nfa: NFA, input: Seq<char>, q: State, idx: int) -> Seq<Candidate> {
    let eps = flagged(nfa.targets(q, Trigger::Epsilon), false);
    if 0 <= idx < input.len() {
        eps + flagged(nfa.targets(q, Trigger::Char(input[idx])), true)
    } else {
        eps
    }
}

/// The index of the first candidate of least priority.
pub open spec fn first_min(c: Seq<Candidate>) -> int
    decreases c.len(),
{
    if c.len() <= 1 {
        0
    } else {
        let j = first_min(c.drop_last());
        if c.last().1.priority < c[j].1.priority {
            c.len() - 1
        } else {
            j
        }
    }
}

/// The first candidate of least priority is one of the candidates.
pub proof fn lemma_first_min_bounds(c: Seq<Candidate>)
    requires
        c.len() > 0,
    ensures
        0 <= first_min(c) < c.len(),
    decreases c.len(),
{
    if c.len() > 1 {
        lemma_first_min_bounds(c.drop_last());
    }
}

/// The candidates ordered by priority, lowest first; candidates of equal priority keep their
/// order.
pub open spec fn by_priority(c: Seq<Candidate>) -> Seq<Candidate>
    decreases c.len(),
{
    if c.len() == 0 {
        c
    } else {
        proof {
            lemma_first_min_bounds(c);
        }
        seq![c[first_min(c)]] + by_priority(c.remove(first_min(c)))
    }
}

/// Ordering by priority brings in no new candidate.
proof fn lemma_by_priority_contains(c: Seq<Candidate>, x: Candidate)
    requires
        by_priority(c).contains(x),
    ensures
        c.contains(x),
    decreases c.len(),
{
    if c.len() > 0 {
        lemma_first_min_bounds(c);
        let i = first_min(c);
        let rest = by_priority(c.remove(i));
        if x != c[i] {
            assert(rest.contains(x)) by {
                let k = choose|k: int| 0 <= k < by_priority(c).len() && by_priority(c)[k] == x;
                assert(rest[k - 1] == x);
            }
            lemma_by_priority_contains(c.remove(i), x);
            let k = choose|k: int| 0 <= k < c.remove(i).len() && c.remove(i)[k] == x;
            if k < i {
                assert(c[k] == x);
            } else {
                assert(c[k + 1] == x);
            }
        }
    }
}

/// The states of `nfa` that the set `path` does not hold.
pub open spec fn unvisited(nfa: NFA, path: Set<State>) -> nat {
    nfa.states@.to_set().difference(path).len()
}

/// Moving into a state not yet on the path leaves fewer states unvisited.
pub proof fn lemma_unvisited_shrinks(nfa: NFA, path: Set<State>, t: State)
    requires
        nfa.states@.contains(t),
        !path.contains(t),
    ensures
        unvisited(nfa, path.insert(t)) < unvisited(nfa, path),
{
    let all = nfa.states@.to_set();
    assert(all.difference(path.insert(t)) =~= all.difference(path).remove(t));
    assert(all.difference(path).contains(t));
}

/// The end of the first accepting path, in priority order, from state `q` at input offset `idx`.
/// `path` holds the states that the current path has visited at this offset; moving into one of
/// them again would only repeat a configuration, so such a move is not taken.
pub open spec fn search(nfa: NFA, input: Seq<char>, q: State, idx: int, path: Set<State>) -> Option<int>
    decreases input.len() - idx, unvisited(nfa, path), 1int, 0int,
{
    if q == nfa.accepted_state {
        Some(idx)
    } else {
        try_candidates(nfa, input, idx, path, by_priority(candidates(nfa, input, q, idx)), 0)
    }
}

/// The first success among the candidates from index `k` on, each searched in turn.
pub open spec fn try_candidates(
    nfa: NFA,
    input: Seq<char>,
    idx: int,
    path: Set<State>,
    cands: Seq<Candidate>,
    k: int,
) -> Option<int>
    decreases input.len() - idx, unvisited(nfa, path), 0int, cands.len() - k,
{
    if k < 0 || k >= cands.len() {
        None
    } else {
        let t = cands[k].1.state;
        let found = if cands[k].0 {
            if 0 <= idx < input.len() {
                search(nfa, input, t, idx + 1, set![t])
            } else {
                None
            }
        } else if nfa.states@.contains(t) && !path.contains(t) {
            proof {
                lemma_unvisited_shrinks(nfa, path, t);
            }
            search(nfa, input, t, idx, path.insert(t))
        } else {
            None
        };
        if found is Some {
            found
        } else {
            try_candidates(nfa, input, idx, path, cands, k + 1)
        }
    }
}

/// The search from the initial state at offset `begin`.
pub open spec fn match_at(nfa: NFA, input: Seq<char>, begin: int) -> Option<int> {
    search(nfa, input, nfa.init_state, begin, set![nfa.init_state])
}

/// A result of the executable search, as an integer.
pub open spec fn widen(r: Option<usize>) -> Option<int> {
    match r {
        Some(e) => Some(e as int),
        None => None,
    }
}

/// Where the scan goes on after trying offset `begin`: at the end of a non-empty match, else one
/// offset further.
pub open spec fn next_begin(begin: int, found: Option<int>) -> int {
    match found {
        Some(end) => if end > begin {
            end
        } else {
            begin + 1
        },
        None => begin + 1,
    }
}

/// The spans `(start, end)` of the matches that the scan reports from offset `begin` on.
pub open spec fn spans_from(nfa: NFA, input: Seq<char>, begin: int) -> Seq<(int, int)>
    decreases input.len() + 1 - begin,
{
    if begin < 0 || begin > input.len() {
        Seq::empty()
    } else {
        let found = match_at(nfa, input, begin);
        let nb = next_begin(begin, found);
        let rest = if nb <= input.len() {
            spans_from(nfa, input, nb)
        } else {
            Seq::empty()
        };
        match found {
            Some(end) => seq![(begin, end)] + rest,
            None => rest,
        }
    }
}

/// How many offsets the scan tries from offset `begin` on.
pub open spec fn scan_steps(nfa: NFA, input: Seq<char>, begin: int) -> nat
    decreases input.len() + 1 - begin,
{
    if begin < 0 || begin > input.len() {
        0
    } else {
        let nb = next_begin(begin, match_at(nfa, input, begin));
        if nb <= input.len() {
            1 + scan_steps(nfa, input, nb)
        } else {
            1
        }
    }
}

/// The text of each span.
pub open spec fn texts(input: Seq<char>, spans: Seq<(int, int)>) -> Seq<Seq<char>> {
    spans.map_values(|s: (int, int)| input.subrange(s.0, s.1))
}

/// Every match of the automaton in the input, in scan order.
pub open spec fn all_matches(nfa: NFA, input: Seq<char>) -> Seq<Seq<char>> {
    texts(input, spans_from(nfa, input, 0))
}

/// The contents of strings.
pub open spec fn strings(v: Seq<String>) -> Seq<Seq<char>> {
    v.map_values(|s: String| s@)
}

/// A search that succeeds ends at or after its start and within the input.
pub proof fn lemma_search_bounds(nfa: NFA, input: Seq<char>, q: State, idx: int, path: Set<State>)
    requires
        0 <= idx <= input.len(),
    ensures
        search(nfa, input, q, idx, path) matches Some(e) ==> idx <= e <= input.len(),
    decreases input.len() - idx, unvisited(nfa, path), 1int, 0int,
{
    if q != nfa.accepted_state {
        lemma_try_bounds(nfa, input, idx, path, by_priority(candidates(nfa, input, q, idx)), 0);
    }
}

/// A candidate list that succeeds ends at or after its start and within the input.
pub proof fn lemma_try_bounds(
    nfa: NFA,
    input: Seq<char>,
    idx: int,
    path: Set<State>,
    cands: Seq<Candidate>,
    k: int,
)
    requires
        0 <= idx <= input.len(),
    ensures
        try_candidates(nfa, input, idx, path, cands, k) matches Some(e) ==> idx <= e <= input.len(),
    decreases input.len() - idx, unvisited(nfa, path), 0int, cands.len() - k,
{
    if 0 <= k < cands.len() {
        let t = cands[k].1.state;
        if cands[k].0 {
            if 0 <= idx < input.len() {
                lemma_search_bounds(nfa, input, t, idx + 1, set![t]);
            }
        } else if nfa.states@.contains(t) && !path.contains(t) {
            lemma_unvisited_shrinks(nfa, path, t);
            lemma_search_bounds(nfa, input, t, idx, path.insert(t));
        }
        lemma_try_bounds(nfa, input, idx, path, cands, k + 1);
    }
}

/// Each step of the scan moves its offset strictly forward, so that the scan tries at most one
/// offset more than the input has characters.
pub proof fn lemma_scan_progress(nfa: NFA, input: Seq<char>, begin: int)
    requires
        0 <= begin <= input.len(),
    ensures
        next_begin(begin, match_at(nfa, input, begin)) > begin,
        scan_steps(nfa, input, begin) <= input.len() + 1 - begin,
    decreases input.len() + 1 - begin,
{
    let nb = next_begin(begin, match_at(nfa, input, begin));
    if nb <= input.len() {
        lemma_scan_progress(nfa, input, nb);
    }
}

/// The spans from offset `begin` on lie within the input, each after the end of the one before
/// it, and start strictly after it, so that no two consecutive matches share a position.
pub proof fn lemma_spans_disjoint(nfa: NFA, input: Seq<char>, begin: int)
    requires
        0 <= begin,
    ensures
        forall|i: int|
            0 <= i < spans_from(nfa, input, begin).len() ==> begin <= #[trigger] spans_from(nfa, input, begin)[i].0
                <= spans_from(nfa, input, begin)[i].1 <= input.len(),
        forall|i: int|
            0 <= i < spans_from(nfa, input, begin).len() - 1 ==> #[trigger] spans_from(nfa, input, begin)[i].1
                <= spans_from(nfa, input, begin)[i + 1].0 && spans_from(nfa, input, begin)[i].0
                < spans_from(nfa, input, begin)[i + 1].0,
    decreases input.len() + 1 - begin,
{
    if begin <= input.len() {
        let found = match_at(nfa, input, begin);
        lemma_search_bounds(nfa, input, nfa.init_state, begin, set![nfa.init_state]);
        let nb = next_begin(begin, found);
        if nb <= input.len() {
            lemma_spans_disjoint(nfa, input, nb);
        }
        let rest = if nb <= input.len() {
            spans_from(nfa, input, nb)
        } else {
            Seq::empty()
        };
        let s = spans_from(nfa, input, begin);
        if found is Some {
            assert forall|i: int| 0 <= i < s.len() - 1 implies #[trigger] s[i].1 <= s[i + 1].0 && s[i].0 < s[i
                + 1].0 by {
                if i > 0 {
                    assert(s[i] == rest[i - 1]);
                    assert(s[i + 1] == rest[i]);
                } else {
                    assert(s[1] == rest[0]);
                }
            }
            assert forall|i: int| 0 <= i < s.len() implies begin <= #[trigger] s[i].0 <= s[i].1 <= input.len() by {
                if i > 0 {
                    assert(s[i] == rest[i - 1]);
                }
            }
        }
    }
}

/// The input pieced back together from position `from` on: before each span the gap up to it,
/// then the span's own text, and after the last span the rest of the input.
pub open spec fn stitch(input: Seq<char>, spans: Seq<(int, int)>, from: int) -> Seq<char>
    decreases spans.len(),
{
    if spans.len() == 0 {
        input.subrange(from, input.len() as int)
    } else {
        input.subrange(from, spans[0].0) + input.subrange(spans[0].0, spans[0].1) + stitch(
            input,
            spans.drop_first(),
            spans[0].1,
        )
    }
}

/// Spans in order and within the input, pieced together with their gaps, give the input back.
proof fn lemma_stitch(input: Seq<char>, spans: Seq<(int, int)>, from: int)
    requires
        0 <= from <= input.len(),
        spans.len() > 0 ==> from <= spans[0].0,
        forall|i: int| 0 <= i < spans.len() ==> 0 <= #[trigger] spans[i].0 <= spans[i].1 <= input.len(),
        forall|i: int| 0 <= i < spans.len() - 1 ==> #[trigger] spans[i].1 <= spans[i + 1].0,
    ensures
        stitch(input, spans, from) == input.subrange(from, input.len() as int),
    decreases spans.len(),
{
    if spans.len() > 0 {
        let rest = spans.drop_first();
        assert forall|i: int| 0 <= i < rest.len() implies 0 <= #[trigger] rest[i].0 <= rest[i].1 <= input.len() by {
            assert(rest[i] == spans[i + 1]);
        }
        assert forall|i: int| 0 <= i < rest.len() - 1 implies #[trigger] rest[i].1 <= rest[i + 1].0 by {
            assert(rest[i] == spans[i + 1]);
            assert(rest[i + 1] == spans[i + 2]);
        }
        if rest.len() > 0 {
            assert(rest[0] == spans[1]);
        }
        lemma_stitch(input, rest, spans[0].1);
        assert(input.subrange(from, spans[0].0) + input.subrange(spans[0].0, spans[0].1) + input.subrange(
            spans[0].1,
            input.len() as int,
        ) =~= input.subrange(from, input.len() as int));
    }
}

/// Non-overlap of the whole scan: every match lies within the input, each consecutive pair of
/// matches is disjoint and in order, and the matches with the gaps between them piece the input
/// back together exactly.
pub proof fn lemma_matches_do_not_overlap(nfa: NFA, input: Seq<char>)
    ensures
        forall|i: int|
            0 <= i < spans_from(nfa, input, 0).len() ==> 0 <= #[trigger] spans_from(nfa, input, 0)[i].0
                <= spans_from(nfa, input, 0)[i].1 <= input.len(),
        forall|i: int|
            0 <= i < spans_from(nfa, input, 0).len() - 1 ==> #[trigger] spans_from(nfa, input, 0)[i].1
                <= spans_from(nfa, input, 0)[i + 1].0,
        all_matches(nfa, input).len() == spans_from(nfa, input, 0).len(),
        forall|i: int|
            0 <= i < all_matches(nfa, input).len() ==> #[trigger] all_matches(nfa, input)[i]
                == input.subrange(spans_from(nfa, input, 0)[i].0, spans_from(nfa, input, 0)[i].1),
        stitch(input, spans_from(nfa, input, 0), 0) == input,
{
    lemma_spans_disjoint(nfa, input, 0);
    lemma_stitch(input, spans_from(nfa, input, 0), 0);
    assert(input.subrange(0, input.len() as int) =~= input);
}

/// Every candidate leads to a state of a well-formed automaton, and a consuming one exists only
/// while input is left.
proof fn lemma_candidate(nfa: NFA, input: Seq<char>, q: State, idx: int, x: Candidate)
    requires
        nfa.wf(),
        by_priority(candidates(nfa, input, q, idx)).contains(x),
    ensures
        nfa.states@.contains(x.1.state),
        x.0 ==> 0 <= idx < input.len(),
{
    let c = candidates(nfa, input, q, idx);
    lemma_by_priority_contains(c, x);
    let i = choose|i: int| 0 <= i < c.len() && c[i] == x;
    let eps = nfa.targets(q, Trigger::Epsilon);
    if i < eps.len() {
        lemma_targets_of_from_edges(nfa.transitions@, q, Trigger::Epsilon, i);
    } else {
        lemma_targets_of_from_edges(nfa.transitions@, q, Trigger::Char(input[idx]), i - eps.len());
    }
}

fn first_min_index(c: &Vec<Candidate>) -> (r: usize)
    requires
        c@.len() > 0,
    ensures
        r == first_min(c@),
{
    let mut best: usize = 0;
    let mut i: usize = 1;
    while i < c.len()
        invariant
            1 <= i <= c@.len(),
            best == first_min(c@.take(i as int)),
            best < i,
        decreases c@.len() - i,
    {
        assert(c@.take(i + 1).drop_last() =~= c@.take(i as int));
        if c[i].1.priority < c[best].1.priority {
            best = i;
        }
        i += 1;
    }
    assert(c@.take(i as int) =~= c@);
    best
}

/// Orders candidates by priority, lowest first, keeping the order of equal ones.
fn sort_by_priority(c: Vec<Candidate>) -> (r: Vec<Candidate>)
    ensures
        r@ == by_priority(c@),
{
    let mut rest = c;
    let mut out: Vec<Candidate> = Vec::new();
    while rest.len() > 0
        invariant
            out@ + by_priority(rest@) == by_priority(c@),
        decreases rest@.len(),
    {
        let i = first_min_index(&rest);
        proof {
            lemma_first_min_bounds(rest@);
        }
        let ghost before = rest@;
        let x = rest.remove(i);
        out.push(x);
        assert(by_priority(before) == seq![x] + by_priority(rest@));
        assert(out@ + by_priority(rest@) =~= (out@.drop_last() + seq![x]) + by_priority(rest@));
    }
    assert(by_priority(rest@) =~= Seq::<Candidate>::empty());
    assert(out@ =~= out@ + by_priority(rest@));
    out
}

/// Whether `q` is among `visited`.
fn holds_state(visited: &Vec<State>, q: State) -> (r: bool)
    ensures
        r == visited@.contains(q),
{
    let mut i: usize = 0;
    while i < visited.len()
        invariant
            i <= visited@.len(),
            forall|j: int| 0 <= j < i ==> visited@[j] != q,
        decreases visited@.len() - i,
    {
        if visited[i] == q {
            return true;
        }
        i += 1;
    }
    false
}

/// Runs an automaton over text, reporting every greedy, leftmost, non-overlapping match.
pub struct BackTracer {
    nfa: NFA,
}

/// A matcher over text.
pub trait Matcher {
    fn exec(&self, input: &str) -> Vec<String>;
}

impl BackTracer {
    #[verifier::type_invariant]
    spec fn inv(&self) -> bool {
        self.nfa.wf()
    }

    /// The automaton that this matcher runs.
    pub closed spec fn automaton(&self) -> NFA {
        self.nfa
    }

    pub fn new(nfa: NFA) -> (r: BackTracer)
        requires
            nfa.wf(),
        ensures
            r.automaton() == nfa,
    {
        BackTracer { nfa }
    }

    /// The end of the first accepting path, in priority order, from `cur` at offset `idx`, with
    /// `visited` the states already on the path at this offset.
    fn match_dfs(&self, input: &Vec<char>, cur: State, idx: usize, visited: &mut Vec<State>) -> (r: Option<usize>)
        requires
            idx <= input@.len(),
        ensures
            final(visited)@ == old(visited)@,
            widen(r) == search(self.nfa, input@, cur, idx as int, old(visited)@.to_set()),
            r matches Some(e) ==> idx <= e <= input@.len(),
        decreases input@.len() - idx, unvisited(self.nfa, old(visited)@.to_set()),
    {
        proof {
            use_type_invariant(self);
        }
        let ghost nfa = self.nfa;
        let ghost path = visited@.to_set();
        if self.is_accepted(cur) {
            return Some(idx);
        }
        let mut found = self.get_next_states(cur, None);
        if idx < input.len() {
            let mut more = self.get_next_states(cur, Some(input[idx]));
            found.append(&mut more);
        }
        assert(found@ == candidates(nfa, input@, cur, idx as int));
        let cands = sort_by_priority(found);
        let mut k: usize = 0;
        while k < cands.len()
            invariant
                nfa == self.nfa,
                nfa.wf(),
                idx <= input@.len(),
                visited@ == old(visited)@,
                path == visited@.to_set(),
                k <= cands@.len(),
                cands@ == by_priority(candidates(nfa, input@, cur, idx as int)),
                search(nfa, input@, cur, idx as int, path) == try_candidates(nfa, input@, idx as int, path, cands@, k as int),
            decreases cands@.len() - k,
        {
            let (consumed, node) = cands[k];
            let t = node.state();
            proof {
                assert(cands@.contains(cands@[k as int]));
                lemma_candidate(nfa, input@, cur, idx as int, cands@[k as int]);
            }
            assert(consumed == cands@[k as int].0 && node == cands@[k as int].1);
            if consumed {
                assert(idx < input.len());
                let mut fresh_path = vec![t];
                assert(fresh_path@.to_set() =~= set![t]);
                let r = self.match_dfs(input, t, idx + 1, &mut fresh_path);
                if r.is_some() {
                    return r;
                }
            } else if !holds_state(visited, t) {
                proof {
                    lemma_unvisited_shrinks(nfa, path, t);
                }
                visited.push(t);
                assert(visited@.to_set() =~= path.insert(t));
                let r = self.match_dfs(input, t, idx, visited);
                visited.pop();
                assert(visited@ =~= old(visited)@);
                if r.is_some() {
                    return r;
                }
            }
            k += 1;
        }
        None
    }

    fn is_accepted(&self, state: State) -> (r: bool)
        ensures
            r == (state == self.nfa.accepted_state),
    {
        state == self.nfa.get_accepted_state()
    }

    /// The moves out of `cur`: its empty moves where `trigger` is `None`, else its moves on that
    /// character, each marked with whether it consumes a character.
    fn get_next_states(&self, cur: State, trigger: Option<char>) -> (r: Vec<Candidate>)
        ensures
            r@ == match trigger {
                Some(c) => flagged(self.nfa.targets(cur, Trigger::Char(c)), true),
                None => flagged(self.nfa.targets(cur, Trigger::Epsilon), false),
            },
    {
        let (is_consumed, key) = match trigger {
            Some(v) => (true, Trigger::Char(v)),
            None => (false, Trigger::Epsilon),
        };
        let nodes = self.nfa.lookup(cur, key);
        let mut r: Vec<Candidate> = Vec::new();
        let mut i: usize = 0;
        while i < nodes.len()
            invariant
                i <= nodes@.len(),
                r@ == flagged(nodes@.take(i as int), is_consumed),
            decreases nodes@.len() - i,
        {
            r.push((is_consumed, nodes[i]));
            i += 1;
            assert(r@ =~= flagged(nodes@.take(i as int), is_consumed));
        }
        assert(nodes@.take(i as int) =~= nodes@);
        r
    }
}

/// The characters of a string, in order.
fn to_chars(input: &str) -> (r: Vec<char>)
    ensures
        r@ == input@,
{
    let n = input.unicode_len();
    let mut r: Vec<char> = Vec::new();
    let mut i: usize = 0;
    while i < n
        invariant
            n == input@.len(),
            i <= n,
            r@ == input@.take(i as int),
        decreases n - i,
    {
        r.push(input.get_char(i));
        i += 1;
        assert(r@ =~= input@.take(i as int));
    }
    assert(input@.take(n as int) =~= input@);
    r
}

impl Matcher for BackTracer {
    /// Scans every start offset from the first to one past the last, left to right, and reports
    /// the text of each match found there.
    fn exec(&self, input: &str) -> (r: Vec<String>)
        ensures
            strings(r@) == all_matches(self.automaton(), input@),
    {
        proof {
            use_type_invariant(self);
        }
        let ghost nfa = self.nfa;
        let chars = to_chars(input);
        let n = chars.len();
        let init = self.nfa.get_init_state();
        let mut begin: usize = 0;
        let mut ret: Vec<String> = Vec::new();
        assert(strings(ret@) + texts(input@, spans_from(nfa, input@, 0)) =~= all_matches(nfa, input@));
        loop
            invariant_except_break
                strings(ret@) + texts(input@, spans_from(nfa, input@, begin as int)) == all_matches(nfa, input@),
            invariant
                nfa == self.nfa,
                chars@ == input@,
                n == input@.len(),
                begin <= n,
                init == nfa.init_state,
            ensures
                strings(ret@) == all_matches(nfa, input@),
            decreases n - begin,
        {
            let mut path = vec![init];
            assert(path@.to_set() =~= set![init]);
            let found = self.match_dfs(&chars, init, begin, &mut path);
            let ghost before = strings(ret@);
            let ghost nb = next_begin(begin as int, widen(found));
            let ghost rest = if nb <= n {
                spans_from(nfa, input@, nb)
            } else {
                Seq::empty()
            };
            match found {
                Some(end) => {
                    let text = input.substring_char(begin, end);
                    ret.push(String::from_str(text));
                    assert(texts(input@, spans_from(nfa, input@, begin as int)) =~= seq![input@.subrange(begin as int, end as int)] + texts(input@, rest));
                    assert(strings(ret@) =~= before.push(input@.subrange(begin as int, end as int)));
                    assert(strings(ret@) + texts(input@, rest) =~= before + texts(input@, spans_from(nfa, input@, begin as int)));
                },
                None => {
                    assert(strings(ret@) + texts(input@, rest) =~= before + texts(input@, spans_from(nfa, input@, begin as int)));
                },
            }
            if begin == n {
                assert(texts(input@, rest) =~= Seq::<Seq<char>>::empty());
                assert(strings(ret@) =~= strings(ret@) + texts(input@, rest));
                break;
            }
            begin = match found {
                Some(end) => if end > begin {
                    end
                } else {
                    begin + 1
                },
                None => begin + 1,
            };
        }
        ret
    }
}

} // verus!
