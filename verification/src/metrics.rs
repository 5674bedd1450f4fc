//! The least number of bytes that the automaton can accept: the length of a
//! shortest path from the start state to an accepting state.
use vstd::prelude::*;
use crate::automaton::{accepts, delta, edge_on, is_accepting, lemma_edge_on_none, state_after};
use crate::structs::{DFAGraph, StateType, StateView};

verus! {

/// Whether a transition leads from state `s` to state `t`, whatever its bytes.
pub open spec fn has_edge(g: Seq<StateView>, s: nat, t: nat) -> bool {
    s < g.len() && t < g.len() && exists|j: int|
        0 <= j < g[s as int].transitions.len() && (#[trigger] g[s as int].transitions[j]).dest == t
}

/// The states that a path of exactly `d` transitions reaches from state 0.
pub open spec fn level(g: Seq<StateView>, d: nat) -> Set<nat>
    decreases d,
{
    if d == 0 {
        set![0nat]
    } else {
        Set::new(|t: nat| exists|s: nat| level(g, (d - 1) as nat).contains(s) && has_edge(g, s, t))
    }
}

/// Whether a path of at most `d` transitions reaches `s`.
pub open spec fn within(g: Seq<StateView>, d: nat, s: nat) -> bool
    decreases d,
{
    level(g, d).contains(s) || (d > 0 && within(g, (d - 1) as nat, s))
}

/// Whether a path of exactly `d` transitions reaches an accepting state.
pub open spec fn accept_at(g: Seq<StateView>, d: nat) -> bool {
    exists|s: nat| level(g, d).contains(s) && is_accepting(g, s)
}

/// Whether a path of at most `d` transitions reaches an accepting state.
pub open spec fn accept_within(g: Seq<StateView>, d: nat) -> bool
    decreases d,
{
    accept_at(g, d) || (d > 0 && accept_within(g, (d - 1) as nat))
}

/// What the least accepting distance of a graph is: the length of a shortest
/// path from state 0 to an accepting state, or, where no accepting state can be
/// reached, the number of states.
pub open spec fn is_min_accept_distance(g: Seq<StateView>, r: nat) -> bool {
    if exists|d: nat| accept_at(g, d) {
        accept_at(g, r) && forall|d: nat| d < r ==> !accept_at(g, d)
    } else {
        r == g.len()
    }
}

/// How many flags of `s` are not set.
pub open spec fn count_false(s: Seq<bool>) -> nat
    decreases s.len(),
{
    if s.len() == 0 {
        0
    } else {
        count_false(s.drop_last()) + if s.last() {
            0nat
        } else {
            1nat
        }
    }
}

proof fn lemma_count_false_bound(s: Seq<bool>)
    ensures
        count_false(s) <= s.len(),
    decreases s.len(),
{
    if s.len() > 0 {
        lemma_count_false_bound(s.drop_last());
    }
}

proof fn lemma_count_false_set(s: Seq<bool>, i: int)
    requires
        0 <= i < s.len(),
        !s[i],
    ensures
        count_false(s.update(i, true)) + 1 == count_false(s),
    decreases s.len(),
{
    let u = s.update(i, true);
    if i == s.len() - 1 {
        assert(u.drop_last() =~= s.drop_last());
    } else {
        lemma_count_false_set(s.drop_last(), i);
        assert(u.drop_last() =~= s.drop_last().update(i, true));
    }
}

proof fn lemma_within_grows(g: Seq<StateView>, k: nat, d: nat, s: nat)
    requires
        k <= d,
        within(g, k, s),
    ensures
        within(g, d, s),
    decreases d - k,
{
    if k < d {
        lemma_within_grows(g, k, (d - 1) as nat, s);
    }
}

/// A state within reach lies on some level of its own.
proof fn lemma_within_level(g: Seq<StateView>, d: nat, s: nat) -> (k: nat)
    requires
        within(g, d, s),
    ensures
        k <= d,
        level(g, k).contains(s),
    decreases d,
{
    if level(g, d).contains(s) {
        d
    } else {
        lemma_within_level(g, (d - 1) as nat, s)
    }
}

proof fn lemma_accept_within(g: Seq<StateView>, k: nat, d: nat)
    requires
        k <= d,
        accept_at(g, k),
    ensures
        accept_within(g, d),
    decreases d,
{
    if k < d {
        lemma_accept_within(g, k, (d - 1) as nat);
    }
}

/// Every state on a level but the first is a state of the graph.
proof fn lemma_level_in_graph(g: Seq<StateView>, d: nat, s: nat)
    requires
        level(g, d).contains(s),
        g.len() > 0,
    ensures
        s < g.len(),
{
    if d > 0 {
        let p = choose|p: nat| level(g, (d - 1) as nat).contains(p) && has_edge(g, p, s);
    }
}

/// Once a level brings no new state, none of the later ones does.
proof fn lemma_closed(g: Seq<StateView>, d: nat, m: nat, t: nat)
    requires
        forall|x: nat| level(g, d + 1).contains(x) ==> within(g, d, x),
        level(g, m).contains(t),
    ensures
        within(g, d, t),
    decreases m,
{
    if m <= d {
        lemma_within_grows(g, m, d, t);
    } else if m == d + 1 {
    } else {
        let s = choose|s: nat| level(g, (m - 1) as nat).contains(s) && has_edge(g, s, t);
        lemma_closed(g, d, (m - 1) as nat, s);
        let k = lemma_within_level(g, d, s);
        assert(level(g, k + 1).contains(t));
        if k + 1 <= d {
            lemma_within_grows(g, k + 1, d, t);
        }
    }
}

/// The automaton's run is a path: after `k` bytes it is in a state of level `k`.
pub proof fn lemma_run_on_level(g: Seq<StateView>, input: Seq<u8>, k: nat)
    requires
        k <= input.len(),
        state_after(g, input, k) is Some,
        state_after(g, input, k)->Some_0 < g.len(),
    ensures
        level(g, k).contains(state_after(g, input, k)->Some_0),
    decreases k,
{
    if k > 0 {
        let s = state_after(g, input, (k - 1) as nat)->Some_0;
        let t = state_after(g, input, k)->Some_0;
        assert(delta(g, s, input[k - 1]) == Some(t));
        assert(s < g.len());
        lemma_run_on_level(g, input, (k - 1) as nat);
        let ts = g[s as int].transitions;
        lemma_edge_on_none(ts, input[k - 1], 0);
        let j = choose|j: int|
            0 <= j < ts.len() && (#[trigger] ts[j]).bytes.contains(input[k - 1]) && edge_on(
                ts,
                input[k - 1],
                0,
            ) == Some(ts[j].dest);
        assert(g[s as int].transitions[j].dest == t);
        assert(has_edge(g, s, t));
    }
}

/// No input that the automaton accepts is shorter than the least accepting
/// distance.
pub proof fn lemma_no_shorter_match(g: Seq<StateView>, input: Seq<u8>, d: nat)
    requires
        is_min_accept_distance(g, d),
        accepts(g, input),
    ensures
        input.len() >= d,
{
    let s = state_after(g, input, input.len())->Some_0;
    lemma_run_on_level(g, input, input.len());
    assert(level(g, input.len()).contains(s) && is_accepting(g, s));
    assert(accept_at(g, input.len()));
}

/// Whether a transition of a marked state before state `a`, or one of the first
/// `j` transitions of state `a` if it is marked, leads to `t`.
pub open spec fn reached_from(g: Seq<StateView>, marked: Seq<bool>, a: nat, j: nat, t: nat) -> bool {
    exists|s: int, k: int|
        0 <= s < g.len() && s < marked.len() && 0 <= k < g[s].transitions.len() && (s < a || (s
            == a && k < j)) && marked[s] && (#[trigger] g[s].transitions[k]).dest == t
}

proof fn lemma_reached_step(g: Seq<StateView>, marked: Seq<bool>, a: nat, j: nat, t: nat)
    requires
        a < g.len(),
        a < marked.len(),
        j < g[a as int].transitions.len(),
    ensures
        reached_from(g, marked, a, j + 1, t) <==> (reached_from(g, marked, a, j, t) || (marked[a as int]
            && g[a as int].transitions[j as int].dest == t)),
{
    if reached_from(g, marked, a, j + 1, t) {
        let (s, k) = choose|s: int, k: int|
            0 <= s < g.len() && s < marked.len() && 0 <= k < g[s].transitions.len() && (s < a || (s
                == a && k < j + 1)) && marked[s] && (#[trigger] g[s].transitions[k]).dest == t;
        if !(s == a && k == j) {
            assert(0 <= s < g.len() && 0 <= k < g[s].transitions.len() && (s < a || (s == a && k
                < j)) && marked[s] && g[s].transitions[k].dest == t);
        }
    }
    if reached_from(g, marked, a, j, t) {
        let (s, k) = choose|s: int, k: int|
            0 <= s < g.len() && s < marked.len() && 0 <= k < g[s].transitions.len() && (s < a || (s
                == a && k < j)) && marked[s] && (#[trigger] g[s].transitions[k]).dest == t;
        assert(0 <= s < g.len() && 0 <= k < g[s].transitions.len() && (s < a || (s == a && k < j
            + 1)) && marked[s] && g[s].transitions[k].dest == t);
    }
    if marked[a as int] && g[a as int].transitions[j as int].dest == t {
        assert(0 <= a < g.len() && 0 <= j < g[a as int].transitions.len() && (a < a || (a == a
            && j < j + 1)) && marked[a as int] && g[a as int].transitions[j as int].dest == t);
    }
}

proof fn lemma_reached_next_state(g: Seq<StateView>, marked: Seq<bool>, a: nat, j: nat, t: nat)
    requires
        a < g.len(),
        a < marked.len(),
        j == g[a as int].transitions.len() || !marked[a as int],
        j <= g[a as int].transitions.len(),
    ensures
        reached_from(g, marked, a + 1, 0, t) <==> reached_from(g, marked, a, j, t),
{
    if reached_from(g, marked, a + 1, 0, t) {
        let (s, k) = choose|s: int, k: int|
            0 <= s < g.len() && s < marked.len() && 0 <= k < g[s].transitions.len() && (s < a + 1
                || (s == a + 1 && k < 0)) && marked[s] && (#[trigger] g[s].transitions[k]).dest
                == t;
        assert(0 <= s < g.len() && 0 <= k < g[s].transitions.len() && (s < a || (s == a && k < j))
            && marked[s] && g[s].transitions[k].dest == t);
    }
    if reached_from(g, marked, a, j, t) {
        let (s, k) = choose|s: int, k: int|
            0 <= s < g.len() && s < marked.len() && 0 <= k < g[s].transitions.len() && (s < a || (s
                == a && k < j)) && marked[s] && (#[trigger] g[s].transitions[k]).dest == t;
        assert(0 <= s < g.len() && 0 <= k < g[s].transitions.len() && (s < a + 1 || (s == a + 1
            && k < 0)) && marked[s] && g[s].transitions[k].dest == t);
    }
}

/// What the walk knows after level `d`: which states lie within reach, which of
/// them are new on this level, and that no accepting state came before.
pub open spec fn walk_inv(g: Seq<StateView>, d: nat, seen: Seq<bool>, frontier: Seq<bool>) -> bool {
    &&& seen.len() == g.len()
    &&& frontier.len() == g.len()
    &&& forall|s: int| 0 <= s < g.len() ==> (#[trigger] seen[s] <==> within(g, d, s as nat))
    &&& forall|s: int|
        0 <= s < g.len() ==> (#[trigger] frontier[s] <==> (level(g, d).contains(s as nat) && !(d
            > 0 && within(g, (d - 1) as nat, s as nat))))
    &&& d > 0 ==> !accept_within(g, (d - 1) as nat)
}

/// The next level of the walk, from what a scan of the marked states found.
proof fn lemma_walk_next(
    g: Seq<StateView>,
    d: nat,
    seen_old: Seq<bool>,
    frontier: Seq<bool>,
    seen: Seq<bool>,
    next: Seq<bool>,
)
    requires
        g.len() > 0,
        walk_inv(g, d, seen_old, frontier),
        !accept_at(g, d),
        seen.len() == g.len(),
        next.len() == g.len(),
        forall|t: int|
            0 <= t < g.len() ==> (#[trigger] next[t] <==> (!seen_old[t] && reached_from(
                g,
                frontier,
                g.len(),
                0,
                t as nat,
            ))),
        forall|t: int| 0 <= t < g.len() ==> (#[trigger] seen[t] <==> (seen_old[t] || next[t])),
    ensures
        walk_inv(g, d + 1, seen, next),
        (forall|t: int| 0 <= t < g.len() ==> !#[trigger] next[t]) ==> forall|x: nat|
            level(g, d + 1).contains(x) ==> within(g, d, x),
{
    assert forall|t: int| 0 <= t < g.len() implies (#[trigger] next[t] <==> (level(
        g,
        d + 1,
    ).contains(t as nat) && !within(g, d, t as nat))) by {
        if next[t] {
            let (s, k) = choose|s: int, k: int|
                0 <= s < g.len() && s < frontier.len() && 0 <= k < g[s].transitions.len() && (s
                    < g.len() || (s == g.len() && k < 0)) && frontier[s] && (
                #[trigger] g[s].transitions[k]).dest == t as nat;
            assert(has_edge(g, s as nat, t as nat));
            assert(level(g, d).contains(s as nat));
            assert(level(g, d + 1).contains(t as nat));
        }
        if level(g, d + 1).contains(t as nat) && !within(g, d, t as nat) {
            let s = choose|s: nat| level(g, d).contains(s) && has_edge(g, s, t as nat);
            if d > 0 && within(g, (d - 1) as nat, s) {
                let k = lemma_within_level(g, (d - 1) as nat, s);
                assert(level(g, k + 1).contains(t as nat));
                lemma_within_grows(g, k + 1, d, t as nat);
            }
            assert(frontier[s as int]);
            let j = choose|j: int|
                0 <= j < g[s as int].transitions.len() && (#[trigger] g[s as int].transitions[j]).dest
                    == t as nat;
            assert(0 <= s < g.len() && 0 <= j < g[s as int].transitions.len() && (s < g.len() || (s
                == g.len() && j < 0)) && frontier[s as int] && g[s as int].transitions[j].dest
                == t as nat);
            assert(reached_from(g, frontier, g.len(), 0, t as nat));
        }
    }
    assert(!accept_within(g, d)) by {
        if d > 0 {
            assert(!accept_within(g, (d - 1) as nat));
        }
    }
    if forall|t: int| 0 <= t < g.len() ==> !#[trigger] next[t] {
        assert forall|x: nat| level(g, d + 1).contains(x) implies within(g, d, x) by {
            lemma_level_in_graph(g, d + 1, x);
            assert(!next[x as int]);
        }
    }
}

/// The length of a shortest path from state 0 to an accepting state, or the
/// number of states where no accepting state can be reached.
pub fn min_accept_distance(graph: &DFAGraph) -> (r: usize)
    ensures
        is_min_accept_distance(graph@, r as nat),
{
    let ghost g = graph@;
    let n: usize = graph.states.len();
    if n == 0 {
        assert forall|d: nat| !accept_at(g, d) by {
            if accept_at(g, d) {
                let s = choose|s: nat| level(g, d).contains(s) && is_accepting(g, s);
            }
        }
        return 0;
    }
    let mut seen: Vec<bool> = vec![false; n];
    let mut frontier: Vec<bool> = vec![false; n];
    proof {
        lemma_count_false_bound(seen@);
        lemma_count_false_set(seen@, 0);
    }
    seen.set(0, true);
    frontier.set(0, true);
    let mut d: usize = 0;
    loop
        invariant
            n == graph.states@.len(),
            n > 0,
            g == graph@,
            walk_inv(g, d as nat, seen@, frontier@),
            d + count_false(seen@) < n,
        decreases count_false(seen@),
    {
        let mut s: usize = 0;
        while s < n
            invariant
                s <= n,
                n == graph.states@.len(),
                g == graph@,
                frontier@.len() == n,
                walk_inv(g, d as nat, seen@, frontier@),
                forall|x: int| 0 <= x < s && frontier@[x] ==> !is_accepting(g, x as nat),
            decreases n - s,
        {
            assert(g[s as int] == graph.states@[s as int]@);
            if frontier[s] && graph.states[s].state_type == StateType::Accept {
                proof {
                    assert(level(g, d as nat).contains(s as nat) && is_accepting(g, s as nat));
                    assert(accept_at(g, d as nat));
                    assert forall|k: nat| k < d implies !accept_at(g, k) by {
                        if accept_at(g, k) {
                            lemma_accept_within(g, k, (d - 1) as nat);
                        }
                    }
                }
                return d;
            }
            s = s + 1;
        }
        proof {
            if accept_at(g, d as nat) {
                let x = choose|x: nat| level(g, d as nat).contains(x) && is_accepting(g, x);
                lemma_level_in_graph(g, d as nat, x);
                if d > 0 && within(g, (d - 1) as nat, x) {
                    let k = lemma_within_level(g, (d - 1) as nat, x);
                    assert(accept_at(g, k));
                    lemma_accept_within(g, k, (d - 1) as nat);
                }
                assert(frontier@[x as int]);
            }
        }
        let ghost seen_old = seen@;
        let mut next: Vec<bool> = vec![false; n];
        let mut grew: bool = false;
        let mut a: usize = 0;
        while a < n
            invariant
                a <= n,
                n == graph.states@.len(),
                g == graph@,
                seen@.len() == n,
                next@.len() == n,
                frontier@.len() == n,
                seen_old.len() == n,
                forall|t: int|
                    0 <= t < n ==> (#[trigger] next@[t] <==> (!seen_old[t] && reached_from(
                        g,
                        frontier@,
                        a as nat,
                        0,
                        t as nat,
                    ))),
                forall|t: int| 0 <= t < n ==> (#[trigger] seen@[t] <==> (seen_old[t] || next@[t])),
                count_false(seen@) <= count_false(seen_old),
                grew ==> count_false(seen@) < count_false(seen_old),
                !grew ==> forall|t: int| 0 <= t < n ==> !#[trigger] next@[t],
            decreases n - a,
        {
            let state = &graph.states[a];
            assert(g[a as int] == state@);
            let len: usize = state.transitions.len();
            let mut j: usize = 0;
            if frontier[a] {
                while j < len
                    invariant
                        j <= len,
                        a < n,
                        n == graph.states@.len(),
                        g == graph@,
                        g[a as int] == state@,
                        len == state.transitions@.len(),
                        frontier@[a as int],
                        seen@.len() == n,
                        next@.len() == n,
                        frontier@.len() == n,
                        seen_old.len() == n,
                        forall|t: int|
                            0 <= t < n ==> (#[trigger] next@[t] <==> (!seen_old[t] && reached_from(
                                g,
                                frontier@,
                                a as nat,
                                j as nat,
                                t as nat,
                            ))),
                        forall|t: int|
                            0 <= t < n ==> (#[trigger] seen@[t] <==> (seen_old[t] || next@[t])),
                        count_false(seen@) <= count_false(seen_old),
                        grew ==> count_false(seen@) < count_false(seen_old),
                        !grew ==> forall|t: int| 0 <= t < n ==> !#[trigger] next@[t],
                    decreases len - j,
                {
                    let dest = state.transitions[j].dest;
                    assert(g[a as int].transitions[j as int].dest == dest as nat);
                    let ghost seen_before = seen@;
                    let ghost next_before = next@;
                    if dest < n && !seen[dest] {
                        proof {
                            lemma_count_false_set(seen@, dest as int);
                        }
                        seen.set(dest, true);
                        next.set(dest, true);
                        grew = true;
                    }
                    proof {
                        assert forall|t: int| 0 <= t < n implies (#[trigger] next@[t] <==> (
                        !seen_old[t] && reached_from(
                            g,
                            frontier@,
                            a as nat,
                            (j + 1) as nat,
                            t as nat,
                        ))) by {
                            lemma_reached_step(g, frontier@, a as nat, j as nat, t as nat);
                            assert(next_before[t] <==> (!seen_old[t] && reached_from(
                                g,
                                frontier@,
                                a as nat,
                                j as nat,
                                t as nat,
                            )));
                            assert(seen_before[t] <==> (seen_old[t] || next_before[t]));
                        }
                        assert forall|t: int| 0 <= t < n implies (#[trigger] seen@[t] <==> (
                        seen_old[t] || next@[t])) by {
                            assert(seen_before[t] <==> (seen_old[t] || next_before[t]));
                        }
                    }
                    j = j + 1;
                }
            }
            proof {
                assert forall|t: int| 0 <= t < n implies (#[trigger] next@[t] <==> (!seen_old[t]
                    && reached_from(g, frontier@, (a + 1) as nat, 0, t as nat))) by {
                    lemma_reached_next_state(g, frontier@, a as nat, j as nat, t as nat);
                }
            }
            a = a + 1;
        }
        proof {
            lemma_walk_next(g, d as nat, seen_old, frontier@, seen@, next@);
        }
        if !grew {
            proof {
                assert forall|m: nat| !accept_at(g, m) by {
                    if accept_at(g, m) {
                        let x = choose|x: nat| level(g, m).contains(x) && is_accepting(g, x);
                        lemma_closed(g, d as nat, m, x);
                        let k = lemma_within_level(g, d as nat, x);
                        assert(accept_at(g, k));
                        lemma_accept_within(g, k, d as nat);
                    }
                }
            }
            return n;
        }
        frontier = next;
        d = d + 1;
    }
}

} // verus!
