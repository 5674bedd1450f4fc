//! What the printed program computes. Each statement of a step is a gate on
//! wires; here the gates are functions on values, folded in the order of the
//! text, and the result is proved to be the automaton's verdict.
use vstd::prelude::*;
use crate::automaton::{
    accepts, delta, edge_on, is_accepting, lemma_edge_on_none, lemma_state_after_in_graph, state_after,
};
use crate::metrics::{is_min_accept_distance, min_accept_distance};
use crate::structs::{
    byte_unused, graph_ok, state_ok, DFAGraph, StateType, StateView,
};

verus! {

/// The wires that the edges of a step fill.
pub struct StepWires {
    pub next_state: nat,
    pub has_transitioned: bool,
}

/// The wires that one step hands to the next.
pub struct Wires {
    pub current_state: nat,
    pub valid: bool,
}

/// The disjunction of the byte tests of an edge: the input wire holds one of
/// the bytes.
pub open spec fn wire_in(input: u64, bytes: Set<u8>) -> bool {
    input < 256 && bytes.contains(input as u8)
}

/// The wires after the statements of the first `n` edges of state `s`: each
/// edge that fired selects its destination and sets `has_transitioned`.
pub open spec fn edges_fold(s: StateView, cur: nat, input: u64, w: StepWires, n: nat) -> StepWires
    decreases n,
{
    if n == 0 || n > s.transitions.len() {
        w
    } else {
        let before = edges_fold(s, cur, input, w, (n - 1) as nat);
        let t = s.transitions[n - 1];
        let fired = cur == s.state_id && wire_in(input, t.bytes);
        StepWires {
            next_state: if fired {
                t.dest
            } else {
                before.next_state
            },
            has_transitioned: before.has_transitioned || fired,
        }
    }
}

/// The wires after the statements of the first `n` states.
pub open spec fn states_fold(g: Seq<StateView>, cur: nat, input: u64, n: nat) -> StepWires
    decreases n,
{
    if n == 0 || n > g.len() {
        StepWires { next_state: cur, has_transitioned: false }
    } else {
        edges_fold(
            g[n - 1],
            cur,
            input,
            states_fold(g, cur, input, (n - 1) as nat),
            g[n - 1].transitions.len(),
        )
    }
}

/// One step of the program: a wire that is no padding and fired no edge clears
/// `valid`; the next state becomes the current one.
pub open spec fn circuit_step(g: Seq<StateView>, w: Wires, input: u64) -> Wires {
    let s = states_fold(g, w.current_state, input, g.len());
    let is_padded = input == 0;
    let invalid_transition = !is_padded && !s.has_transitioned;
    Wires { current_state: s.next_state, valid: w.valid && !invalid_transition }
}

/// The wires after the first `k` steps, from state 0 with `valid` set.
pub open spec fn circuit_run(g: Seq<StateView>, witness: Seq<u64>, k: nat) -> Wires
    decreases k,
{
    if k == 0 || k > witness.len() {
        Wires { current_state: 0, valid: true }
    } else {
        circuit_step(g, circuit_run(g, witness, (k - 1) as nat), witness[k - 1])
    }
}

/// The disjunction of the tests for the accepting states among the first `n`.
pub open spec fn accept_wire(g: Seq<StateView>, cur: nat, n: nat) -> bool
    decreases n,
{
    if n == 0 || n > g.len() {
        false
    } else {
        accept_wire(g, cur, (n - 1) as nat) || (g[n - 1].accepting && cur == g[n - 1].state_id)
    }
}

/// The value of `valid` that the program enforces: no step cleared it, and the
/// state after the last step is accepting.
pub open spec fn circuit_valid(g: Seq<StateView>, witness: Seq<u64>) -> bool {
    let w = circuit_run(g, witness, witness.len());
    w.valid && accept_wire(g, w.current_state, g.len())
}

/// The witness of an input: its bytes, then zeros up to `max_len` wires. An
/// input that is longer is cut, as the program cuts it.
pub open spec fn padded(input: Seq<u8>, max_len: nat) -> Seq<u64> {
    Seq::new(
        max_len,
        |i: int|
            if i < input.len() {
                input[i] as u64
            } else {
                0u64
            },
    )
}

/// No byte of the input is the padding value.
pub open spec fn no_nul(input: Seq<u8>) -> bool {
    forall|i: int| 0 <= i < input.len() ==> input[i] != 0
}

/// What the program for inputs of one fixed length decides: the length lies
/// between the least accepting distance `d` and the number of states, and the
/// automaton accepts.
pub open spec fn fixed_length_valid(g: Seq<StateView>, input: Seq<u8>, d: nat) -> bool {
    d <= input.len() <= g.len() && accepts(g, input)
}

/// The edges of another state leave the wires as they are.
proof fn lemma_edges_fold_other(s: StateView, cur: nat, input: u64, w: StepWires, n: nat)
    requires
        cur != s.state_id,
    ensures
        edges_fold(s, cur, input, w, n) == w,
    decreases n,
{
    if n > 0 && n <= s.transitions.len() {
        lemma_edges_fold_other(s, cur, input, w, (n - 1) as nat);
    }
}

/// The edges of the current state select what the automaton selects.
proof fn lemma_edges_fold_own(s: StateView, b: u8, n: nat)
    requires
        crate::structs::disjoint_sets(s.transitions),
        n <= s.transitions.len(),
    ensures
        ({
            let w = StepWires { next_state: s.state_id, has_transitioned: false };
            let r = edges_fold(s, s.state_id, b as u64, w, n);
            &&& r.has_transitioned <==> exists|j: int|
                0 <= j < n && (#[trigger] s.transitions[j]).bytes.contains(b)
            &&& forall|j: int|
                0 <= j < n && (#[trigger] s.transitions[j]).bytes.contains(b) ==> r.next_state
                    == s.transitions[j].dest
            &&& !r.has_transitioned ==> r.next_state == s.state_id
        }),
    decreases n,
{
    if n > 0 {
        lemma_edges_fold_own(s, b, (n - 1) as nat);
        let w = StepWires { next_state: s.state_id, has_transitioned: false };
        let before = edges_fold(s, s.state_id, b as u64, w, (n - 1) as nat);
        let r = edges_fold(s, s.state_id, b as u64, w, n);
        let t = s.transitions[n - 1];
        if t.bytes.contains(b) {
            assert forall|j: int|
                0 <= j < n && (#[trigger] s.transitions[j]).bytes.contains(b) implies r.next_state
                == s.transitions[j].dest by {
                if j < n - 1 {
                    assert(s.transitions[j].bytes.disjoint(s.transitions[n - 1].bytes));
                }
            }
        } else {
            if r.has_transitioned {
                let j = choose|j: int|
                    0 <= j < n - 1 && (#[trigger] s.transitions[j]).bytes.contains(b);
                assert(0 <= j < n && s.transitions[j].bytes.contains(b));
            }
        }
    }
}

/// The statements of all states but the current one change nothing.
proof fn lemma_states_fold(g: Seq<StateView>, cur: nat, b: u8, n: nat)
    requires
        graph_ok(g),
        cur < g.len(),
        n <= g.len(),
    ensures
        n <= cur ==> states_fold(g, cur, b as u64, n) == (StepWires {
            next_state: cur,
            has_transitioned: false,
        }),
        n > cur ==> states_fold(g, cur, b as u64, n) == (match delta(g, cur, b) {
            Some(t) => StepWires { next_state: t, has_transitioned: true },
            None => StepWires { next_state: cur, has_transitioned: false },
        }),
    decreases n,
{
    if n > 0 {
        lemma_states_fold(g, cur, b, (n - 1) as nat);
        let s = g[n - 1];
        assert(state_ok(s, (n - 1) as nat, g.len()));
        let before = states_fold(g, cur, b as u64, (n - 1) as nat);
        if n - 1 == cur {
            lemma_edges_fold_own(s, b, s.transitions.len());
            lemma_edge_on_none(s.transitions, b, 0);
            let r = edges_fold(s, cur, b as u64, before, s.transitions.len());
            if edge_on(s.transitions, b, 0) is Some {
                let j = choose|j: int|
                    0 <= j < s.transitions.len() && (#[trigger] s.transitions[j]).bytes.contains(b)
                        && edge_on(s.transitions, b, 0) == Some(s.transitions[j].dest);
                assert(r.next_state == s.transitions[j].dest);
            } else {
                if r.has_transitioned {
                    let j = choose|j: int|
                        0 <= j < s.transitions.len() && (#[trigger] s.transitions[j]).bytes.contains(
                            b,
                        );
                }
            }
        } else {
            lemma_edges_fold_other(s, cur, b as u64, before, s.transitions.len());
        }
    }
}

/// On a byte, a step of the program is a step of the automaton.
proof fn lemma_step(g: Seq<StateView>, cur: nat, b: u8)
    requires
        graph_ok(g),
        cur < g.len(),
    ensures
        states_fold(g, cur, b as u64, g.len()) == (match delta(g, cur, b) {
            Some(t) => StepWires { next_state: t, has_transitioned: true },
            None => StepWires { next_state: cur, has_transitioned: false },
        }),
{
    lemma_states_fold(g, cur, b, g.len());
}

/// While the input lasts, the wires hold the automaton's state, and `valid`
/// says whether it still has one.
proof fn lemma_run_input(g: Seq<StateView>, input: Seq<u8>, max_len: nat, k: nat)
    requires
        graph_ok(g),
        no_nul(input),
        k <= input.len() <= max_len,
    ensures
        ({
            let w = circuit_run(g, padded(input, max_len), k);
            match state_after(g, input, k) {
                Some(s) => w.valid && w.current_state == s,
                None => !w.valid,
            }
        }),
    decreases k,
{
    if k > 0 {
        lemma_run_input(g, input, max_len, (k - 1) as nat);
        lemma_state_after_in_graph(g, input, (k - 1) as nat);
        let witness = padded(input, max_len);
        assert(witness[k - 1] == input[k - 1] as u64);
        match state_after(g, input, (k - 1) as nat) {
            Some(s) => {
                lemma_step(g, s, input[k - 1]);
            },
            None => {},
        }
    }
}

/// On the padding the wires keep the state and `valid`.
proof fn lemma_run_padding(g: Seq<StateView>, input: Seq<u8>, max_len: nat, k: nat)
    requires
        graph_ok(g),
        byte_unused(g, 0),
        no_nul(input),
        input.len() <= k <= max_len,
        state_after(g, input, input.len()) is Some,
    ensures
        circuit_run(g, padded(input, max_len), k) == circuit_run(
            g,
            padded(input, max_len),
            input.len(),
        ),
    decreases k,
{
    if k > input.len() {
        lemma_run_padding(g, input, max_len, (k - 1) as nat);
        lemma_run_input(g, input, max_len, input.len());
        lemma_state_after_in_graph(g, input, input.len());
        let witness = padded(input, max_len);
        assert(witness[k - 1] == 0);
        let s = state_after(g, input, input.len())->Some_0;
        lemma_step(g, s, 0u8);
        lemma_edge_on_none(g[s as int].transitions, 0u8, 0);
    }
}

/// Once `valid` is cleared it stays cleared.
proof fn lemma_valid_stays_cleared(g: Seq<StateView>, witness: Seq<u64>, k: nat, n: nat)
    requires
        k <= n <= witness.len(),
        !circuit_run(g, witness, k).valid,
    ensures
        !circuit_run(g, witness, n).valid,
    decreases n - k,
{
    if k < n {
        lemma_valid_stays_cleared(g, witness, k, (n - 1) as nat);
    }
}

/// The acceptance test holds exactly of the accepting states.
proof fn lemma_accept_wire(g: Seq<StateView>, cur: nat, n: nat)
    requires
        graph_ok(g),
        n <= g.len(),
    ensures
        accept_wire(g, cur, n) <==> (cur < n && g[cur as int].accepting),
    decreases n,
{
    if n > 0 {
        lemma_accept_wire(g, cur, (n - 1) as nat);
        assert(state_ok(g[n - 1], (n - 1) as nat, g.len()));
    }
}

/// The program decides acceptance: on the padded witness of an input without a
/// zero byte, of at most `max_len` bytes, `valid` holds exactly where the
/// automaton accepts the input, provided that the graph keeps its invariant
/// and uses the zero byte on no transition.
pub proof fn lemma_padded_program_decides_acceptance(
    g: Seq<StateView>,
    input: Seq<u8>,
    max_len: nat,
)
    requires
        graph_ok(g),
        byte_unused(g, 0),
        no_nul(input),
        input.len() <= max_len,
    ensures
        circuit_valid(g, padded(input, max_len)) <==> accepts(g, input),
{
    let witness = padded(input, max_len);
    lemma_run_input(g, input, max_len, input.len());
    match state_after(g, input, input.len()) {
        Some(s) => {
            lemma_run_padding(g, input, max_len, max_len);
            lemma_state_after_in_graph(g, input, input.len());
            lemma_accept_wire(g, s, g.len());
        },
        None => {
            lemma_valid_stays_cleared(g, witness, input.len(), max_len);
        },
    }
}

/// The program for inputs of one fixed length accepts nothing that is shorter
/// than the least accepting distance, and the bound costs no match: whatever
/// the automaton accepts is at least that long.
pub proof fn lemma_fixed_length_lower_bound(g: Seq<StateView>, input: Seq<u8>, d: nat)
    requires
        is_min_accept_distance(g, d),
    ensures
        fixed_length_valid(g, input, d) ==> input.len() >= d,
        accepts(g, input) ==> input.len() >= d,
{
    if accepts(g, input) {
        crate::metrics::lemma_no_shorter_match(g, input, d);
    }
}

/// The witness of `input` for a program of `max_len` wires; `None` where the
/// input is longer than that or holds the zero byte, which stands for padding.
pub fn pad(input: &[u8], max_len: usize) -> (r: Option<Vec<u64>>)
    ensures
        r is Some <==> (input@.len() <= max_len && no_nul(input@)),
        r is Some ==> r->Some_0@ == padded(input@, max_len as nat),
{
    if input.len() > max_len {
        return None;
    }
    let mut witness: Vec<u64> = Vec::new();
    let mut i: usize = 0;
    while i < input.len()
        invariant
            i <= input.len() <= max_len,
            witness@.len() == i,
            forall|j: int| 0 <= j < i ==> input@[j] != 0,
            forall|j: int| 0 <= j < i ==> witness@[j] == input@[j] as u64,
        decreases input.len() - i,
    {
        if input[i] == 0 {
            return None;
        }
        witness.push(input[i] as u64);
        i = i + 1;
    }
    while i < max_len
        invariant
            input.len() <= i <= max_len,
            witness@.len() == i,
            no_nul(input@),
            forall|j: int| 0 <= j < input@.len() ==> witness@[j] == input@[j] as u64,
            forall|j: int| input@.len() <= j < i ==> witness@[j] == 0,
        decreases max_len - i,
    {
        witness.push(0);
        i = i + 1;
    }
    assert(witness@ =~= padded(input@, max_len as nat));
    Some(witness)
}

/// Runs the gates of the program on a witness and tells the value of `valid`.
pub fn evaluate(graph: &DFAGraph, witness: &[u64]) -> (r: bool)
    requires
        graph.repr(),
    ensures
        r == circuit_valid(graph@, witness@),
{
    let ghost g = graph@;
    let n: usize = graph.states.len();
    let mut current_state: usize = 0;
    let mut valid: bool = true;
    let mut k: usize = 0;
    while k < witness.len()
        invariant
            k <= witness.len(),
            n == graph.states@.len(),
            g == graph@,
            graph.repr(),
            circuit_run(g, witness@, k as nat) == (Wires {
                current_state: current_state as nat,
                valid,
            }),
        decreases witness.len() - k,
    {
        let input = witness[k];
        let mut next_state: usize = current_state;
        let mut has_transitioned: bool = false;
        let mut i: usize = 0;
        while i < n
            invariant
                i <= n,
                n == graph.states@.len(),
                g == graph@,
                graph.repr(),
                states_fold(g, current_state as nat, input, i as nat) == (StepWires {
                    next_state: next_state as nat,
                    has_transitioned,
                }),
            decreases n - i,
        {
            let state = &graph.states[i];
            assert(g[i as int] == state@);
            let ghost before = StepWires { next_state: next_state as nat, has_transitioned };
            let is_state = current_state == state.state_id;
            let mut j: usize = 0;
            while j < state.transitions.len()
                invariant
                    j <= state.transitions@.len(),
                    state.repr(),
                    g[i as int] == state@,
                    is_state == (current_state == state.state_id),
                    edges_fold(g[i as int], current_state as nat, input, before, j as nat) == (
                    StepWires { next_state: next_state as nat, has_transitioned }),
                decreases state.transitions.len() - j,
            {
                let t = &state.transitions[j];
                assert(g[i as int].transitions[j as int] == t@);
                let fired = is_state && input < 256 && t.bytes.contains(input as u8);
                if fired {
                    next_state = t.dest;
                }
                has_transitioned = has_transitioned || fired;
                j = j + 1;
            }
            i = i + 1;
        }
        let is_padded = input == 0;
        let invalid_transition = !is_padded && !has_transitioned;
        valid = valid && !invalid_transition;
        current_state = next_state;
        k = k + 1;
    }
    let mut is_accepting: bool = false;
    let mut i: usize = 0;
    while i < n
        invariant
            i <= n,
            n == graph.states@.len(),
            g == graph@,
            is_accepting == accept_wire(g, current_state as nat, i as nat),
        decreases n - i,
    {
        let state = &graph.states[i];
        assert(g[i as int] == state@);
        is_accepting = is_accepting || (state.state_type == StateType::Accept && current_state
            == state.state_id);
        i = i + 1;
    }
    valid && is_accepting
}

/// Whether a transition of the graph carries byte `b`.
pub fn uses_byte(graph: &DFAGraph, b: u8) -> (r: bool)
    requires
        graph.repr(),
    ensures
        r == !byte_unused(graph@, b),
{
    let ghost g = graph@;
    let mut i: usize = 0;
    while i < graph.states.len()
        invariant
            i <= graph.states@.len(),
            g == graph@,
            graph.repr(),
            forall|x: int, y: int|
                0 <= x < i && 0 <= y < g[x].transitions.len() ==> !(
                #[trigger] g[x].transitions[y]).bytes.contains(b),
        decreases graph.states.len() - i,
    {
        let state = &graph.states[i];
        assert(g[i as int] == state@);
        let mut j: usize = 0;
        while j < state.transitions.len()
            invariant
                j <= state.transitions@.len(),
                i < graph.states@.len(),
                g == graph@,
                state.repr(),
                g[i as int] == state@,
                forall|y: int|
                    0 <= y < j ==> !(#[trigger] g[i as int].transitions[y]).bytes.contains(b),
            decreases state.transitions.len() - j,
        {
            let t = &state.transitions[j];
            assert(g[i as int].transitions[j as int] == t@);
            if t.bytes.contains(b) {
                assert(g[i as int].transitions[j as int].bytes.contains(b));
                return true;
            }
            j = j + 1;
        }
        i = i + 1;
    }
    false
}

/// The verdict of the padded program on `input`, which is the automaton's:
/// `None` where the input cannot be a witness (it is longer than `max_len` or
/// holds the zero byte).
pub fn padded_verdict(graph: &DFAGraph, input: &[u8], max_len: usize) -> (r: Option<bool>)
    requires
        graph.wf(),
        byte_unused(graph@, 0),
    ensures
        r is Some <==> (input@.len() <= max_len && no_nul(input@)),
        r is Some ==> r->Some_0 == accepts(graph@, input@),
        r is Some ==> r->Some_0 == circuit_valid(graph@, padded(input@, max_len as nat)),
{
    match pad(input, max_len) {
        Some(witness) => {
            proof {
                lemma_padded_program_decides_acceptance(graph@, input@, max_len as nat);
            }
            Some(evaluate(graph, witness.as_slice()))
        },
        None => None,
    }
}

/// The verdict of the program for inputs of one fixed length: the length must
/// lie between the least accepting distance and the number of states, and the
/// automaton must accept.
pub fn fixed_length_verdict(graph: &DFAGraph, input: &[u8]) -> (r: bool)
    requires
        graph.repr(),
    ensures
        exists|d: nat| is_min_accept_distance(graph@, d) && r == fixed_length_valid(
            graph@,
            input@,
            d,
        ),
{
    let d = min_accept_distance(graph);
    let r = d <= input.len() && input.len() <= graph.states.len() && graph.matches(input);
    assert(is_min_accept_distance(graph@, d as nat) && r == fixed_length_valid(
        graph@,
        input@,
        d as nat,
    ));
    r
}

} // verus!
