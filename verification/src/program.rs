//! The statements of a step as a syntax tree. Each statement has one printed
//! form and one meaning; the printer's lines are the printed forms, and the
//! gates that `circuit` folds are the meanings.
use vstd::prelude::*;
use crate::arkworks::{
    edge_mark, edge_select, edge_test, edges_before, state_edge_lines, state_test, states_lines,
    step_footer, step_header, transition_logic,
};
use crate::circuit::{circuit_step, edges_fold, states_fold, wire_in, StepWires, Wires};
use crate::byte_set::{lemma_members_below, members};
use crate::structs::StateView;

verus! {

/// A statement of a step.
pub enum Stmt {
    /// `is_state_<id>` becomes "the current state is `id`".
    StateTest { id: nat },
    /// `cond_<c>` becomes "`is_state_<id>` and the input is one of `bytes`".
    EdgeTest { c: nat, id: nat, bytes: Set<u8> },
    /// `next_state` becomes `dest` where `cond_<c>` holds.
    Select { c: nat, dest: nat },
    /// `has_transitioned` is joined with `cond_<c>`.
    Mark { c: nat },
}

/// The values of the wires while a step runs.
pub struct Env {
    pub current_state: nat,
    pub current_input: u64,
    pub is_state: Map<nat, bool>,
    pub cond: Map<nat, bool>,
    pub next_state: nat,
    pub has_transitioned: bool,
}

/// The line that the printer writes for a statement.
pub open spec fn print_stmt(s: Stmt) -> Seq<char> {
    match s {
        Stmt::StateTest { id } => state_test(id),
        Stmt::EdgeTest { c, id, bytes } => edge_test(id, bytes, c),
        Stmt::Select { c, dest } => edge_select(dest, c),
        Stmt::Mark { c } => edge_mark(c),
    }
}

/// The wires after a statement.
pub open spec fn run_stmt(s: Stmt, e: Env) -> Env {
    match s {
        Stmt::StateTest { id } => Env { is_state: e.is_state.insert(id, e.current_state == id), ..e },
        Stmt::EdgeTest { c, id, bytes } => Env {
            cond: e.cond.insert(
                c,
                e.is_state[id] && any_fires(members(bytes), e.current_input, members(bytes).len()),
            ),
            ..e
        },
        Stmt::Select { c, dest } => Env {
            next_state: if e.cond[c] {
                dest
            } else {
                e.next_state
            },
            ..e
        },
        Stmt::Mark { c } => Env { has_transitioned: e.has_transitioned || e.cond[c], ..e },
    }
}

/// The disjunction that the printer writes for an edge: the input is one of
/// the first `n` bytes of the list.
pub open spec fn any_fires(bytes: Seq<u8>, input: u64, n: nat) -> bool
    decreases n,
{
    if n == 0 || n > bytes.len() {
        false
    } else {
        any_fires(bytes, input, (n - 1) as nat) || input == bytes[n - 1] as u64
    }
}

proof fn lemma_any_fires_some(bytes: Seq<u8>, input: u64, n: nat)
    requires
        n <= bytes.len(),
    ensures
        any_fires(bytes, input, n) <==> exists|i: int|
            0 <= i < n && (#[trigger] bytes[i]) as u64 == input,
    decreases n,
{
    if n > 0 {
        lemma_any_fires_some(bytes, input, (n - 1) as nat);
        if any_fires(bytes, input, (n - 1) as nat) {
            let i = choose|i: int| 0 <= i < n - 1 && (#[trigger] bytes[i]) as u64 == input;
            assert(0 <= i < n && bytes[i] as u64 == input);
        }
    }
}

/// The disjunction over the members of a set holds exactly where the input is
/// a byte of the set.
pub proof fn lemma_any_fires(set: Set<u8>, input: u64)
    ensures
        any_fires(members(set), input, members(set).len()) <==> wire_in(input, set),
{
    let list = members(set);
    lemma_members_below(set, 256);
    lemma_any_fires_some(list, input, list.len());
    if wire_in(input, set) {
        let b = input as u8;
        assert(list.contains(b));
        let i = choose|i: int| 0 <= i < list.len() && list[i] == b;
        assert(0 <= i < list.len() && (#[trigger] list[i]) as u64 == input);
    }
    if any_fires(list, input, list.len()) {
        let i = choose|i: int| 0 <= i < list.len() && (#[trigger] list[i]) as u64 == input;
        assert(set.contains(list[i]));
    }
}

/// The lines of a list of statements.
pub open spec fn print_all(stmts: Seq<Stmt>) -> Seq<Seq<char>> {
    Seq::new(stmts.len(), |i: int| print_stmt(stmts[i]))
}

/// The wires after the first `n` statements of a list.
pub open spec fn run_all(stmts: Seq<Stmt>, e: Env, n: nat) -> Env
    decreases n,
{
    if n == 0 || n > stmts.len() {
        e
    } else {
        run_stmt(stmts[n - 1], run_all(stmts, e, (n - 1) as nat))
    }
}

/// The statements of the first `n` edges of a state, numbered from `first`.
pub open spec fn edge_stmts(s: StateView, first: nat, n: nat) -> Seq<Stmt>
    decreases n,
{
    if n == 0 || n > s.transitions.len() {
        Seq::empty()
    } else {
        let t = s.transitions[n - 1];
        let c = (first + n - 1) as nat;
        edge_stmts(s, first, (n - 1) as nat).push(
            Stmt::EdgeTest { c, id: s.state_id, bytes: t.bytes },
        ).push(Stmt::Select { c, dest: t.dest }).push(Stmt::Mark { c })
    }
}

/// The statements of the first `n` states.
pub open spec fn step_stmts(g: Seq<StateView>, n: nat) -> Seq<Stmt>
    decreases n,
{
    if n == 0 || n > g.len() {
        Seq::empty()
    } else {
        step_stmts(g, (n - 1) as nat).push(Stmt::StateTest { id: g[n - 1].state_id }) + edge_stmts(
            g[n - 1],
            edges_before(g, (n - 1) as nat) + 1,
            g[n - 1].transitions.len(),
        )
    }
}

/// The wires at the start of a step.
pub open spec fn step_start(current_state: nat, current_input: u64) -> Env {
    Env {
        current_state,
        current_input,
        is_state: Map::empty(),
        cond: Map::empty(),
        next_state: current_state,
        has_transitioned: false,
    }
}

proof fn lemma_print_edges(s: StateView, first: nat, n: nat)
    requires
        n <= s.transitions.len(),
    ensures
        print_all(edge_stmts(s, first, n)) == state_edge_lines(s, first, n),
    decreases n,
{
    if n > 0 {
        lemma_print_edges(s, first, (n - 1) as nat);
        let before = edge_stmts(s, first, (n - 1) as nat);
        assert(print_all(before) == state_edge_lines(s, first, (n - 1) as nat));
        let t = s.transitions[n - 1];
        let c = (first + n - 1) as nat;
        let a = Stmt::EdgeTest { c, id: s.state_id, bytes: t.bytes };
        let b = Stmt::Select { c, dest: t.dest };
        let m = Stmt::Mark { c };
        assert(print_all(before.push(a).push(b).push(m)) =~= print_all(before).push(
            print_stmt(a),
        ).push(print_stmt(b)).push(print_stmt(m)));
    } else {
        assert(print_all(edge_stmts(s, first, 0)) =~= state_edge_lines(s, first, 0));
    }
}

/// The printer's lines for the states are the printed forms of the statements.
pub proof fn lemma_lines_are_printed_statements(g: Seq<StateView>, n: nat)
    requires
        n <= g.len(),
    ensures
        print_all(step_stmts(g, n)) == states_lines(g, n),
    decreases n,
{
    if n > 0 {
        lemma_lines_are_printed_statements(g, (n - 1) as nat);
        let s = g[n - 1];
        let first = edges_before(g, (n - 1) as nat) + 1;
        lemma_print_edges(s, first, s.transitions.len());
        let before = step_stmts(g, (n - 1) as nat);
        let test = Stmt::StateTest { id: s.state_id };
        let edges = edge_stmts(s, first, s.transitions.len());
        assert(print_all(before.push(test) + edges) =~= print_all(before).push(print_stmt(test))
            + print_all(edges));
    } else {
        assert(print_all(step_stmts(g, 0)) =~= states_lines(g, 0));
    }
}

/// Running a list and then another is running both in a row.
proof fn lemma_run_concat(a: Seq<Stmt>, b: Seq<Stmt>, e: Env, n: nat)
    requires
        n <= b.len(),
    ensures
        run_all(a + b, e, a.len() + n) == run_all(b, run_all(a, e, a.len()), n),
    decreases n,
{
    if n > 0 {
        lemma_run_concat(a, b, e, (n - 1) as nat);
        assert((a + b)[a.len() + n - 1] == b[n - 1]);
    } else {
        lemma_run_prefix(a, b, e, a.len());
    }
}

proof fn lemma_run_prefix(a: Seq<Stmt>, b: Seq<Stmt>, e: Env, n: nat)
    requires
        n <= a.len(),
    ensures
        run_all(a + b, e, n) == run_all(a, e, n),
    decreases n,
{
    if n > 0 {
        lemma_run_prefix(a, b, e, (n - 1) as nat);
        assert((a + b)[n - 1] == a[n - 1]);
    }
}

/// What the statements of a state's edges do to the wires, once the state's
/// test has run: they fold the edges as `edges_fold` does.
proof fn lemma_run_edges(s: StateView, first: nat, n: nat, e: Env)
    requires
        n <= s.transitions.len(),
        e.is_state.contains_key(s.state_id),
        e.is_state[s.state_id] == (e.current_state == s.state_id),
    ensures
        ({
            let stmts = edge_stmts(s, first, n);
            let r = run_all(stmts, e, stmts.len());
            let w = edges_fold(
                s,
                e.current_state,
                e.current_input,
                StepWires { next_state: e.next_state, has_transitioned: e.has_transitioned },
                n,
            );
            &&& r.next_state == w.next_state
            &&& r.has_transitioned == w.has_transitioned
            &&& r.current_state == e.current_state
            &&& r.current_input == e.current_input
            &&& r.is_state == e.is_state
        }),
    decreases n,
{
    if n > 0 {
        lemma_run_edges(s, first, (n - 1) as nat, e);
        let before = edge_stmts(s, first, (n - 1) as nat);
        let t = s.transitions[n - 1];
        let c = (first + n - 1) as nat;
        let tail = seq![
            Stmt::EdgeTest { c, id: s.state_id, bytes: t.bytes },
            Stmt::Select { c, dest: t.dest },
            Stmt::Mark { c },
        ];
        let stmts = edge_stmts(s, first, n);
        assert(stmts =~= before + tail);
        lemma_run_concat(before, tail, e, 3);
        let mid = run_all(before, e, before.len());
        lemma_any_fires(t.bytes, e.current_input);
        assert(run_all(tail, mid, 3) == run_stmt(tail[2], run_all(tail, mid, 2)));
        assert(run_all(tail, mid, 2) == run_stmt(tail[1], run_all(tail, mid, 1)));
        assert(run_all(tail, mid, 1) == run_stmt(tail[0], run_all(tail, mid, 0)));
        assert(stmts.len() == before.len() + 3);
    }
}

/// The statements of a step compute the wires that the gates compute: after
/// the statements of the first `n` states, `next_state` and `has_transitioned`
/// hold what `states_fold` says.
pub proof fn lemma_statements_mean_gates(g: Seq<StateView>, cur: nat, input: u64, n: nat)
    requires
        n <= g.len(),
    ensures
        ({
            let stmts = step_stmts(g, n);
            let r = run_all(stmts, step_start(cur, input), stmts.len());
            let w = states_fold(g, cur, input, n);
            &&& r.next_state == w.next_state
            &&& r.has_transitioned == w.has_transitioned
            &&& r.current_state == cur
            &&& r.current_input == input
            &&& forall|id: nat| #[trigger]
                r.is_state.contains_key(id) ==> r.is_state[id] == (cur == id)
        }),
    decreases n,
{
    if n > 0 {
        lemma_statements_mean_gates(g, cur, input, (n - 1) as nat);
        let s = g[n - 1];
        let first = edges_before(g, (n - 1) as nat) + 1;
        let before = step_stmts(g, (n - 1) as nat);
        let test = Stmt::StateTest { id: s.state_id };
        let edges = edge_stmts(s, first, s.transitions.len());
        let start = step_start(cur, input);
        let e0 = run_all(before, start, before.len());
        let head = before.push(test);
        assert(head[before.len() as int] == test);
        lemma_run_prefix(before, seq![test], start, before.len());
        assert(head =~= before + seq![test]);
        let e1 = run_all(head, start, head.len());
        assert(e1 == run_stmt(test, e0));
        lemma_run_concat(head, edges, start, edges.len());
        lemma_run_edges(s, first, s.transitions.len(), e1);
        assert(step_stmts(g, n) == head + edges);
    }
}

/// The walk that the printer writes is the head of a step, the printed forms
/// of the statements of all states, and the end of a step.
pub proof fn lemma_transition_logic_prints_statements(g: Seq<StateView>)
    ensures
        transition_logic(g) == step_header() + print_all(step_stmts(g, g.len())) + step_footer(),
{
    lemma_lines_are_printed_statements(g, g.len());
}

/// One step of the printed statements, with the trap for a byte that fired no
/// edge, is one step of the circuit.
pub proof fn lemma_printed_step_is_circuit_step(g: Seq<StateView>, w: Wires, input: u64)
    ensures
        ({
            let stmts = step_stmts(g, g.len());
            let r = run_all(stmts, step_start(w.current_state, input), stmts.len());
            let invalid_transition = !(input == 0) && !r.has_transitioned;
            circuit_step(g, w, input) == (Wires {
                current_state: r.next_state,
                valid: w.valid && !invalid_transition,
            })
        }),
{
    lemma_statements_mean_gates(g, w.current_state, input, g.len());
}

} // verus!
