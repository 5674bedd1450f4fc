//! What a canonical graph means as an automaton, and the check that a graph
//! keeps the invariant on which that meaning rests.
use vstd::prelude::*;
use vstd::string::*;
use crate::errors::CompilerError;
use crate::structs::{
    ascending_dests, dests_below, disjoint_sets, graph_ok, nonempty_sets, state_ok,
    transitions_view, DFAGraph, DFAStateNode, StateType, StateView, TransitionView,
};

verus! {

/// The destination of the first transition at or after `i` that byte `b` takes.
pub open spec fn edge_on(ts: Seq<TransitionView>, b: u8, i: int) -> Option<nat>
    decreases ts.len() - i,
{
    if i < 0 || i >= ts.len() {
        None
    } else if ts[i].bytes.contains(b) {
        Some(ts[i].dest)
    } else {
        edge_on(ts, b, i + 1)
    }
}

/// The state that follows state `s` on byte `b`, where there is one.
pub open spec fn delta(g: Seq<StateView>, s: nat, b: u8) -> Option<nat> {
    if s < g.len() {
        edge_on(g[s as int].transitions, b, 0)
    } else {
        None
    }
}

/// The state in which the automaton is after the first `k` bytes of `input`,
/// read from state 0; `None` once a byte had no transition.
pub open spec fn state_after(g: Seq<StateView>, input: Seq<u8>, k: nat) -> Option<nat>
    decreases k,
{
    if k == 0 || k > input.len() {
        Some(0)
    } else {
        match state_after(g, input, (k - 1) as nat) {
            Some(s) => delta(g, s, input[k - 1]),
            None => None,
        }
    }
}

/// Whether `s` is an accepting state of the graph.
pub open spec fn is_accepting(g: Seq<StateView>, s: nat) -> bool {
    s < g.len() && g[s as int].accepting
}

/// Whether the automaton accepts `input`: every byte has a transition, and the
/// last leads to an accepting state.
pub open spec fn accepts(g: Seq<StateView>, input: Seq<u8>) -> bool {
    match state_after(g, input, input.len()) {
        Some(s) => is_accepting(g, s),
        None => false,
    }
}

/// In a graph that keeps its invariant, a transition's byte decides it: the
/// byte belongs to no other transition of the state.
pub proof fn lemma_edge_on_unique(ts: Seq<TransitionView>, b: u8, j: int)
    requires
        disjoint_sets(ts),
        0 <= j < ts.len(),
        ts[j].bytes.contains(b),
    ensures
        edge_on(ts, b, 0) == Some(ts[j].dest),
{
    lemma_edge_on_from(ts, b, j, 0);
}

proof fn lemma_edge_on_from(ts: Seq<TransitionView>, b: u8, j: int, i: int)
    requires
        disjoint_sets(ts),
        0 <= i <= j < ts.len(),
        ts[j].bytes.contains(b),
    ensures
        edge_on(ts, b, i) == Some(ts[j].dest),
    decreases j - i,
{
    if i < j {
        assert(ts[i].bytes.disjoint(ts[j].bytes));
        lemma_edge_on_from(ts, b, j, i + 1);
    }
}

/// Where no transition takes the byte, there is no next state, and the other
/// way round.
pub proof fn lemma_edge_on_none(ts: Seq<TransitionView>, b: u8, i: int)
    requires
        0 <= i <= ts.len(),
    ensures
        edge_on(ts, b, i) is None <==> forall|j: int|
            i <= j < ts.len() ==> !(#[trigger] ts[j]).bytes.contains(b),
        edge_on(ts, b, i) is Some ==> exists|j: int|
            i <= j < ts.len() && (#[trigger] ts[j]).bytes.contains(b) && edge_on(ts, b, i) == Some(
                ts[j].dest,
            ),
    decreases ts.len() - i,
{
    if i < ts.len() {
        lemma_edge_on_none(ts, b, i + 1);
        if ts[i].bytes.contains(b) {
            assert(ts[i].bytes.contains(b) && edge_on(ts, b, i) == Some(ts[i].dest));
        } else {
            if edge_on(ts, b, i) is Some {
                let j = choose|j: int|
                    i + 1 <= j < ts.len() && (#[trigger] ts[j]).bytes.contains(b) && edge_on(
                        ts,
                        b,
                        i + 1,
                    ) == Some(ts[j].dest);
                assert(i <= j < ts.len() && ts[j].bytes.contains(b));
            }
        }
    }
}

/// In a graph that keeps its invariant the automaton never leaves the graph.
pub proof fn lemma_state_after_in_graph(g: Seq<StateView>, input: Seq<u8>, k: nat)
    requires
        graph_ok(g),
        k <= input.len(),
    ensures
        state_after(g, input, k) is Some ==> state_after(g, input, k)->Some_0 < g.len(),
    decreases k,
{
    if k > 0 {
        lemma_state_after_in_graph(g, input, (k - 1) as nat);
        match state_after(g, input, (k - 1) as nat) {
            Some(s) => {
                let ts = g[s as int].transitions;
                lemma_edge_on_none(ts, input[k - 1], 0);
                assert(state_ok(g[s as int], s, g.len()));
            },
            None => {},
        }
    }
}

/// Whether `r` is the error for a graph that breaks its invariant, with the
/// given message.
pub open spec fn invariant_failed<T>(r: Result<T, CompilerError>, message: Seq<char>) -> bool {
    r is Err && r->Err_0 is GraphInvariantError && r->Err_0->GraphInvariantError_0@ == message
}

/// What is wrong with transition `idx`, given that nothing is wrong with those
/// before it: it leaves the graph, it is out of order, it has no byte, or it
/// shares a byte with an earlier one; the first of these that holds is told.
pub open spec fn fault_at(ts: Seq<TransitionView>, n: nat, idx: int) -> Option<Seq<char>> {
    if ts[idx].dest >= n {
        Some("a transition leads to a state that does not exist"@)
    } else if idx > 0 && ts[idx - 1].dest >= ts[idx].dest {
        Some("the transitions of a state are not ordered by destination"@)
    } else if ts[idx].bytes == Set::<u8>::empty() {
        Some("a transition has no byte"@)
    } else if exists|a: int| 0 <= a < idx && !(#[trigger] ts[a]).bytes.disjoint(ts[idx].bytes) {
        Some("two transitions of a state share a byte"@)
    } else {
        None
    }
}

/// What is wrong with the first of the first `k` transitions with which
/// something is wrong.
pub open spec fn transitions_fault(ts: Seq<TransitionView>, n: nat, k: nat) -> Option<Seq<char>>
    decreases k,
{
    if k == 0 || k > ts.len() {
        None
    } else {
        match transitions_fault(ts, n, (k - 1) as nat) {
            Some(message) => Some(message),
            None => fault_at(ts, n, k - 1),
        }
    }
}

/// What is wrong with state `i` of a graph of `n` states: it carries another
/// number, or something is wrong with its transitions.
pub open spec fn state_fault(s: StateView, i: nat, n: nat) -> Option<Seq<char>> {
    if s.state_id != i {
        Some("a state does not carry its own index"@)
    } else {
        transitions_fault(s.transitions, n, s.transitions.len())
    }
}

/// What is wrong with the first of the first `k` states with which something
/// is wrong.
pub open spec fn states_fault(g: Seq<StateView>, k: nat) -> Option<Seq<char>>
    decreases k,
{
    if k == 0 || k > g.len() {
        None
    } else {
        match states_fault(g, (k - 1) as nat) {
            Some(message) => Some(message),
            None => state_fault(g[k - 1], (k - 1) as nat, g.len()),
        }
    }
}

/// What is wrong with a graph: it has no state, or something is wrong with one
/// of its states.
pub open spec fn graph_fault(g: Seq<StateView>) -> Option<Seq<char>> {
    if g.len() == 0 {
        Some("the graph has no start state"@)
    } else {
        states_fault(g, g.len())
    }
}

proof fn lemma_transitions_fault_stays(ts: Seq<TransitionView>, n: nat, k: nat, m: nat)
    requires
        k <= m <= ts.len(),
        transitions_fault(ts, n, k) is Some,
    ensures
        transitions_fault(ts, n, m) == transitions_fault(ts, n, k),
    decreases m - k,
{
    if k < m {
        lemma_transitions_fault_stays(ts, n, k, (m - 1) as nat);
    }
}

proof fn lemma_states_fault_stays(g: Seq<StateView>, k: nat, m: nat)
    requires
        k <= m <= g.len(),
        states_fault(g, k) is Some,
    ensures
        states_fault(g, m) == states_fault(g, k),
    decreases m - k,
{
    if k < m {
        lemma_states_fault_stays(g, k, (m - 1) as nat);
    }
}

fn invariant_error(message: &str) -> (r: Result<(), CompilerError>)
    ensures
        invariant_failed(r, message@),
{
    Err(CompilerError::GraphInvariantError(String::from_str(message)))
}

/// Checks one state of a graph of `n` states, and tells the first thing that
/// is wrong with it.
pub fn check_state(state: &DFAStateNode, i: usize, n: usize) -> (r: Result<(), CompilerError>)
    requires
        state.repr(),
    ensures
        r is Ok <==> state_ok(state@, i as nat, n as nat),
        match state_fault(state@, i as nat, n as nat) {
            Some(message) => invariant_failed(r, message),
            None => r is Ok,
        },
{
    let ghost ts = state@.transitions;
    if state.state_id != i {
        return invariant_error("a state does not carry its own index");
    }
    let len: usize = state.transitions.len();
    let mut j: usize = 0;
    while j < len
        invariant
            j <= len,
            len == state.transitions@.len(),
            state.repr(),
            state.state_id == i,
            ts == state@.transitions,
            ts == transitions_view(state.transitions@),
            transitions_fault(ts, n as nat, j as nat) is None,
            ascending_dests(ts.take(j as int)),
            nonempty_sets(ts.take(j as int)),
            disjoint_sets(ts.take(j as int)),
            dests_below(ts.take(j as int), n as nat),
        decreases len - j,
    {
        let t = &state.transitions[j];
        assert(ts[j as int] == t@);
        let ghost next = ts.take(j + 1);
        if t.dest >= n {
            assert(next[j as int].dest >= n);
            assert(!dests_below(ts, n as nat)) by {
                assert(ts[j as int].dest >= n);
            }
            proof {
                lemma_transitions_fault_stays(ts, n as nat, (j + 1) as nat, len as nat);
            }
            return invariant_error("a transition leads to a state that does not exist");
        }
        if j > 0 && state.transitions[j - 1].dest >= t.dest {
            assert(ts[j - 1] == state.transitions@[j - 1]@);
            assert(!ascending_dests(ts)) by {
                assert(ts[j - 1].dest >= ts[j as int].dest);
            }
            proof {
                lemma_transitions_fault_stays(ts, n as nat, (j + 1) as nat, len as nat);
            }
            return invariant_error("the transitions of a state are not ordered by destination");
        }
        if j > 0 {
            assert(ts[j - 1] == state.transitions@[j - 1]@);
        }
        if t.bytes.is_empty() {
            assert(!nonempty_sets(ts)) by {
                assert(ts[j as int].bytes == Set::<u8>::empty());
            }
            proof {
                lemma_transitions_fault_stays(ts, n as nat, (j + 1) as nat, len as nat);
            }
            return invariant_error("a transition has no byte");
        }
        let mut k: usize = 0;
        while k < j
            invariant
                k <= j < len,
                len == state.transitions@.len(),
                state.repr(),
                state.state_id == i,
                ts == state@.transitions,
                ts == transitions_view(state.transitions@),
                t == &state.transitions@[j as int],
                transitions_fault(ts, n as nat, j as nat) is None,
                ts[j as int].dest < n,
                !(j > 0 && ts[j - 1].dest >= ts[j as int].dest),
                ts[j as int].bytes != Set::<u8>::empty(),
                forall|a: int| 0 <= a < k ==> (#[trigger] ts[a]).bytes.disjoint(ts[j as int].bytes),
            decreases j - k,
        {
            let other = &state.transitions[k];
            assert(ts[k as int] == other@);
            if !other.bytes.is_disjoint(&t.bytes) {
                assert(!disjoint_sets(ts)) by {
                    assert(!ts[k as int].bytes.disjoint(ts[j as int].bytes));
                }
                proof {
                    assert(0 <= k < j && !ts[k as int].bytes.disjoint(ts[j as int].bytes));
                    assert(fault_at(ts, n as nat, j as int) == Some(
                        "two transitions of a state share a byte"@,
                    ));
                    lemma_transitions_fault_stays(ts, n as nat, (j + 1) as nat, len as nat);
                }
                return invariant_error("two transitions of a state share a byte");
            }
            k = k + 1;
        }
        proof {
            let prev = ts.take(j as int);
            assert(fault_at(ts, n as nat, j as int) is None);
            assert forall|a: int, b: int| 0 <= a < b < next.len() implies next[a].dest
                < next[b].dest by {
                if b < j {
                    assert(prev[a].dest < prev[b].dest);
                } else if a < j - 1 {
                    assert(prev[a].dest < prev[j - 1].dest);
                }
            }
            assert forall|a: int| 0 <= a < next.len() implies (#[trigger] next[a]).bytes
                != Set::<u8>::empty() by {
                if a < j {
                    assert(prev[a].bytes != Set::<u8>::empty());
                }
            }
            assert forall|a: int, b: int| 0 <= a < b < next.len() implies next[a].bytes.disjoint(
                next[b].bytes,
            ) by {
                if b < j {
                    assert(prev[a].bytes.disjoint(prev[b].bytes));
                } else {
                    assert(ts[a].bytes.disjoint(ts[j as int].bytes));
                }
            }
            assert forall|a: int| 0 <= a < next.len() implies (#[trigger] next[a]).dest < n by {
                if a < j {
                    assert(prev[a].dest < n);
                }
            }
        }
        j = j + 1;
    }
    assert(ts.take(len as int) =~= ts);
    Ok(())
}

impl DFAGraph {
    /// Checks the invariant of a canonical graph: a start state, each state under
    /// its own index, transitions ordered by destination with non-empty and
    /// pairwise disjoint byte sets, every destination a state of the graph. The
    /// error tells the first thing that is wrong.
    pub fn check(&self) -> (r: Result<(), CompilerError>)
        requires
            self.repr(),
        ensures
            r is Ok <==> graph_ok(self@),
            r is Ok ==> self.wf(),
            match graph_fault(self@) {
                Some(message) => invariant_failed(r, message),
                None => r is Ok,
            },
    {
        let n: usize = self.states.len();
        if n == 0 {
            return invariant_error("the graph has no start state");
        }
        let mut i: usize = 0;
        while i < n
            invariant
                i <= n,
                n == self.states@.len(),
                self.repr(),
                states_fault(self@, i as nat) is None,
                forall|k: int| 0 <= k < i ==> state_ok(#[trigger] self@[k], k as nat, n as nat),
            decreases n - i,
        {
            assert(self@[i as int] == self.states@[i as int]@);
            match check_state(&self.states[i], i, n) {
                Ok(()) => {},
                Err(e) => {
                    proof {
                        lemma_states_fault_stays(self@, (i + 1) as nat, n as nat);
                    }
                    return Err(e);
                },
            }
            i = i + 1;
        }
        Ok(())
    }

    /// The state that follows state `s` on byte `b`.
    pub fn next_state(&self, s: usize, b: u8) -> (r: Option<usize>)
        requires
            self.repr(),
        ensures
            match r {
                Some(t) => delta(self@, s as nat, b) == Some(t as nat),
                None => delta(self@, s as nat, b) is None,
            },
    {
        if s >= self.states.len() {
            return None;
        }
        let state = &self.states[s];
        assert(self@[s as int] == state@);
        let ghost ts = state@.transitions;
        let mut j: usize = 0;
        while j < state.transitions.len()
            invariant
                j <= state.transitions@.len(),
                state.repr(),
                (s as nat) < self@.len(),
                self@[s as int].transitions == ts,
                ts == transitions_view(state.transitions@),
                edge_on(ts, b, 0) == edge_on(ts, b, j as int),
            decreases state.transitions.len() - j,
        {
            let t = &state.transitions[j];
            assert(ts[j as int] == t@);
            if t.bytes.contains(b) {
                return Some(t.dest);
            }
            j = j + 1;
        }
        None
    }

    /// Whether the automaton accepts `input`.
    pub fn matches(&self, input: &[u8]) -> (r: bool)
        requires
            self.repr(),
        ensures
            r == accepts(self@, input@),
    {
        let mut state: usize = 0;
        let mut k: usize = 0;
        while k < input.len()
            invariant
                k <= input.len(),
                self.repr(),
                state_after(self@, input@, k as nat) == Some(state as nat),
            decreases input.len() - k,
        {
            match self.next_state(state, input[k]) {
                Some(t) => {
                    state = t;
                },
                None => {
                    proof {
                        lemma_state_after_stuck(self@, input@, (k + 1) as nat, input@.len());
                    }
                    return false;
                },
            }
            k = k + 1;
        }
        state < self.states.len() && self.states[state].state_type == StateType::Accept
    }
}

/// Once a byte had no transition, none of the longer prefixes has a state.
pub proof fn lemma_state_after_stuck(g: Seq<StateView>, input: Seq<u8>, k: nat, n: nat)
    requires
        k <= n <= input.len(),
        state_after(g, input, k) is None,
    ensures
        state_after(g, input, n) is None,
    decreases n - k,
{
    if k < n {
        lemma_state_after_stuck(g, input, k, (n - 1) as nat);
    }
}

} // verus!
