use vstd::prelude::*;

verus! {

/// A state of an automaton, identified by a number that is unique within one construction.
#[derive(PartialEq, Eq, Structural, Hash, Clone, Copy, Debug)]
pub struct State {
    pub id: u32,
}

impl State {
    pub fn new(id: u32) -> (r: State)
        ensures
            r.id == id,
    {
        State { id }
    }
}

/// What a transition fires on: a concrete input character, or nothing at all.
#[derive(PartialEq, Eq, Structural, Hash, Clone, Copy, Debug)]
pub enum Trigger {
    Epsilon,
    Char(char),
}

/// The target of a transition, with the priority that orders the search (lower first).
#[derive(PartialEq, Eq, Structural, Hash, Clone, Copy, Debug)]
pub struct Node {
    pub state: State,
    pub priority: u8,
}

impl Node {
    pub fn new(state: State, priority: u8) -> (r: Node)
        ensures
            r.state == state,
            r.priority == priority,
    {
        Node { state, priority }
    }

    pub fn state(&self) -> (r: State)
        ensures
            r == self.state,
    {
        self.state
    }

    pub fn priority(&self) -> (r: u8)
        ensures
            r == self.priority,
    {
        self.priority
    }
}

/// One entry of the transition table: from `from`, on `trigger`, to `to`.
#[derive(PartialEq, Eq, Structural, Hash, Clone, Copy, Debug)]
pub struct Edge {
    pub from: State,
    pub trigger: Trigger,
    pub to: Node,
}

impl Edge {
    pub fn new(from: State, trigger: Trigger, to: Node) -> (r: Edge)
        ensures
            r == (Edge { from, trigger, to }),
    {
        Edge { from, trigger, to }
    }
}

/// The ordered targets that the edges `edges` give to the key `(q, t)`, in edge order.
pub open spec fn targets_of(edges: Seq<Edge>, q: State, t: Trigger) -> Seq<Node>
    decreases edges.len(),
{
    if edges.len() == 0 {
        Seq::empty()
    } else {
        let rest = targets_of(edges.drop_last(), q, t);
        if edges.last().from == q && edges.last().trigger == t {
            rest.push(edges.last().to)
        } else {
            rest
        }
    }
}

/// Every target named under any key is the target of one of the edges.
pub proof fn lemma_targets_of_from_edges(edges: Seq<Edge>, q: State, t: Trigger, i: int)
    requires
        0 <= i < targets_of(edges, q, t).len(),
    ensures
        exists|j: int| 0 <= j < edges.len() && #[trigger] edges[j].to == targets_of(edges, q, t)[i],
    decreases edges.len(),
{
    let rest = targets_of(edges.drop_last(), q, t);
    if i < rest.len() {
        lemma_targets_of_from_edges(edges.drop_last(), q, t, i);
        let j = choose|j: int| 0 <= j < edges.drop_last().len() && #[trigger] edges.drop_last()[j].to == rest[i];
        assert(edges[j].to == targets_of(edges, q, t)[i]);
    } else {
        assert(edges[edges.len() - 1].to == targets_of(edges, q, t)[i]);
    }
}

/// The targets under a key of edges appended to others are those of the first part, then those of
/// the second.
pub proof fn lemma_targets_of_append(a: Seq<Edge>, b: Seq<Edge>, q: State, t: Trigger)
    ensures
        targets_of(a + b, q, t) == targets_of(a, q, t) + targets_of(b, q, t),
    decreases b.len(),
{
    if b.len() == 0 {
        assert(a + b =~= a);
        assert(targets_of(a, q, t) + targets_of(b, q, t) =~= targets_of(a, q, t));
    } else {
        assert((a + b).drop_last() =~= a + b.drop_last());
        lemma_targets_of_append(a, b.drop_last(), q, t);
        assert((a + b).last() == b.last());
        if b.last().from == q && b.last().trigger == t {
            assert(targets_of(a + b, q, t) =~= targets_of(a, q, t) + targets_of(b, q, t));
        } else {
            assert(targets_of(a + b, q, t) =~= targets_of(a, q, t) + targets_of(b, q, t));
        }
    }
}

/// A nondeterministic finite automaton: its states, its transition table as a list of edges, one
/// initial and one accepting state.
#[derive(PartialEq, Eq, Debug)]
pub struct NFA {
    pub states: Vec<State>,
    pub transitions: Vec<Edge>,
    pub init_state: State,
    pub accepted_state: State,
}

/// An automaton as plain values: the states in order, the edges in order, the initial and the
/// accepting state.
pub struct NfaModel {
    pub states: Seq<State>,
    pub edges: Seq<Edge>,
    pub init: State,
    pub accept: State,
}

impl View for NFA {
    type V = NfaModel;

    open spec fn view(&self) -> NfaModel {
        NfaModel {
            states: self.states@,
            edges: self.transitions@,
            init: self.init_state,
            accept: self.accepted_state,
        }
    }
}

impl NFA {
    /// The set of states.
    pub open spec fn state_set(&self) -> Set<State> {
        self.states@.to_set()
    }

    /// The ordered list of targets under the key `(q, t)`; it is empty where the table has no entry.
    pub open spec fn targets(&self, q: State, t: Trigger) -> Seq<Node> {
        targets_of(self.transitions@, q, t)
    }

    /// The transition table as a map from `(state, trigger)` to its ordered list of targets.
    pub open spec fn table(&self) -> Map<(State, Trigger), Seq<Node>> {
        Map::new(|k: (State, Trigger)| self.targets(k.0, k.1).len() > 0, |k: (State, Trigger)| self.targets(k.0, k.1))
    }

    /// The initial and the accepting state are states, and so is every target of the table.
    pub open spec fn wf(&self) -> bool {
        &&& self.states@.contains(self.init_state)
        &&& self.states@.contains(self.accepted_state)
        &&& forall|i: int| 0 <= i < self.transitions@.len() ==> self.states@.contains(#[trigger] self.transitions@[i].to.state)
    }

    pub fn new(
        states: Vec<State>,
        transitions: Vec<Edge>,
        init_state: State,
        accepted_state: State,
    ) -> (r: NFA)
        requires
            states@.contains(init_state),
            states@.contains(accepted_state),
            forall|i: int| 0 <= i < transitions@.len() ==> states@.contains(#[trigger] transitions@[i].to.state),
        ensures
            r.wf(),
            r.states@ == states@,
            r.transitions@ == transitions@,
            r.init_state == init_state,
            r.accepted_state == accepted_state,
    {
        NFA { states, transitions, init_state, accepted_state }
    }

    /// The ordered targets under `(q, trigger)`, or an error where the table has none.
    pub fn transit(&self, q: State, trigger: Trigger) -> (r: Result<Vec<Node>, &'static str>)
        ensures
            r is Err <==> !self.table().contains_key((q, trigger)),
            r matches Ok(v) ==> v@ == self.table()[(q, trigger)],
    {
        let v = self.lookup(q, trigger);
        if v.len() == 0 {
            Err("no transition")
        } else {
            Ok(v)
        }
    }

    /// The ordered targets under `(q, trigger)`, empty where the table has none.
    pub fn lookup(&self, q: State, trigger: Trigger) -> (r: Vec<Node>)
        ensures
            r@ == self.targets(q, trigger),
    {
        let mut r: Vec<Node> = Vec::new();
        let mut i: usize = 0;
        while i < self.transitions.len()
            invariant
                i <= self.transitions@.len(),
                r@ == targets_of(self.transitions@.take(i as int), q, trigger),
            decreases self.transitions@.len() - i,
        {
            let e = self.transitions[i];
            assert(self.transitions@.take(i + 1).drop_last() =~= self.transitions@.take(i as int));
            if e.from == q && e.trigger == trigger {
                r.push(e.to);
            }
            i += 1;
        }
        assert(self.transitions@.take(i as int) =~= self.transitions@);
        r
    }

    pub fn get_init_state(&self) -> (r: State)
        ensures
            r == self.init_state,
    {
        self.init_state
    }

    pub fn get_accepted_state(&self) -> (r: State)
        ensures
            r == self.accepted_state,
    {
        self.accepted_state
    }

    pub fn get_transition_table(&self) -> (r: &Vec<Edge>)
        ensures
            r@ == self.transitions@,
    {
        &self.transitions
    }
}

} // verus!
