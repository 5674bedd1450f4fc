//! Canonical numbering: the states are listed in the order in which a
//! breadth-first walk from the start state first reaches them, and numbered by
//! their place in that list.
use vstd::prelude::*;
use crate::structs::{
    all_labels_ascending, labels_ascending, raw_edges_view, raw_states_view, text_before,
    DFAGraphInfo, DFAStateInfo, RawEdge, RawEdgeView, RawStateView,
};

verus! {

/// A moment of the walk: the numbers still to visit, the numbers seen, and the
/// indices of the states listed so far.
pub struct Walk {
    pub queue: Seq<nat>,
    pub visited: Set<nat>,
    pub order: Seq<int>,
}

/// Index of the first state at or after `i` that is printed under number `id`,
/// or the length of `states`.
pub open spec fn first_with_source(states: Seq<RawStateView>, id: nat, i: int) -> int
    decreases states.len() - i,
{
    if 0 <= i < states.len() && states[i].source != id {
        first_with_source(states, id, i + 1)
    } else {
        i
    }
}

/// How many of the first `n` states have a number that was not seen.
pub open spec fn unvisited_count(states: Seq<RawStateView>, visited: Set<nat>, n: nat) -> nat
    decreases n,
{
    if n == 0 || n > states.len() {
        0
    } else if visited.contains(states[n - 1].source) {
        unvisited_count(states, visited, (n - 1) as nat)
    } else {
        unvisited_count(states, visited, (n - 1) as nat) + 1
    }
}

/// The destinations of the first `n` arrows that were not seen, in the order of
/// the arrows.
pub open spec fn fresh_dests(edges: Seq<RawEdgeView>, visited: Set<nat>, n: nat) -> Seq<nat>
    decreases n,
{
    if n == 0 || n > edges.len() {
        Seq::empty()
    } else if visited.contains(edges[n - 1].dest) {
        fresh_dests(edges, visited, (n - 1) as nat)
    } else {
        fresh_dests(edges, visited, (n - 1) as nat).push(edges[n - 1].dest)
    }
}

/// Seeing one more number leaves no more states unseen than before.
pub proof fn lemma_count_insert(states: Seq<RawStateView>, visited: Set<nat>, id: nat, n: nat)
    requires
        n <= states.len(),
    ensures
        unvisited_count(states, visited.insert(id), n) <= unvisited_count(states, visited, n),
    decreases n,
{
    if n > 0 {
        lemma_count_insert(states, visited, id, (n - 1) as nat);
    }
}

/// Seeing the number of a state for the first time leaves fewer states unseen.
pub proof fn lemma_count_drops(
    states: Seq<RawStateView>,
    visited: Set<nat>,
    id: nat,
    k: int,
    n: nat,
)
    requires
        0 <= k < n <= states.len(),
        states[k].source == id,
        !visited.contains(id),
    ensures
        unvisited_count(states, visited.insert(id), n) < unvisited_count(states, visited, n),
    decreases n,
{
    if k == n - 1 {
        lemma_count_insert(states, visited, id, (n - 1) as nat);
    } else {
        lemma_count_drops(states, visited, id, k, (n - 1) as nat);
    }
}

/// The index found lies within the list, and the state there is printed under
/// `id` where it is not the end.
pub proof fn lemma_first_with_source(states: Seq<RawStateView>, id: nat, i: int)
    requires
        0 <= i <= states.len(),
    ensures
        i <= first_with_source(states, id, i) <= states.len(),
        first_with_source(states, id, i) < states.len() ==> states[first_with_source(
            states,
            id,
            i,
        )].source == id,
    decreases states.len() - i,
{
    if i < states.len() && states[i].source != id {
        lemma_first_with_source(states, id, i + 1);
    }
}

/// The walk after its next number is taken from the queue: a number seen before
/// changes nothing else; a new one is marked as seen, and where a state is
/// printed under it, the first such state is listed and its unseen destinations
/// join the queue.
pub open spec fn walk_step(states: Seq<RawStateView>, w: Walk) -> Walk
    recommends
        w.queue.len() > 0,
{
    let id = w.queue[0];
    let rest = w.queue.drop_first();
    if w.visited.contains(id) {
        Walk { queue: rest, visited: w.visited, order: w.order }
    } else {
        let visited = w.visited.insert(id);
        let k = first_with_source(states, id, 0);
        if 0 <= k < states.len() {
            Walk {
                queue: rest + fresh_dests(states[k].edges, visited, states[k].edges.len()),
                visited,
                order: w.order.push(k),
            }
        } else {
            Walk { queue: rest, visited, order: w.order }
        }
    }
}

/// The indices of the states in the order in which the walk lists them, from
/// the moment `w` on.
pub open spec fn bfs_order(states: Seq<RawStateView>, w: Walk) -> Seq<int>
    decreases unvisited_count(states, w.visited, states.len()), w.queue.len(),
{
    if w.queue.len() == 0 {
        w.order
    } else {
        proof {
            lemma_walk_step_decreases(states, w);
        }
        bfs_order(states, walk_step(states, w))
    }
}

/// Each step of the walk brings it nearer to its end.
pub proof fn lemma_walk_step_decreases(states: Seq<RawStateView>, w: Walk)
    requires
        w.queue.len() > 0,
    ensures
        ({
            let v = walk_step(states, w);
            let before = unvisited_count(states, w.visited, states.len());
            let after = unvisited_count(states, v.visited, states.len());
            after < before || (after == before && v.queue.len() < w.queue.len())
        }),
{
    let id = w.queue[0];
    if !w.visited.contains(id) {
        let k = first_with_source(states, id, 0);
        lemma_first_with_source(states, id, 0);
        if 0 <= k < states.len() {
            lemma_count_drops(states, w.visited, id, k, states.len());
        } else {
            lemma_count_insert(states, w.visited, id, states.len());
        }
    }
}

/// The walk at its start: only the start state's number waits.
pub open spec fn walk_start(start: nat) -> Walk {
    Walk { queue: seq![start], visited: Set::empty(), order: Seq::empty() }
}

/// The new number of the state printed under `dst`: its place in the list, or
/// `dst` itself where no listed state is printed under it.
pub open spec fn new_id(states: Seq<RawStateView>, order: Seq<int>, dst: nat, j: int) -> nat
    decreases order.len() - j,
{
    if j < 0 || j >= order.len() {
        dst
    } else if 0 <= order[j] < states.len() && states[order[j]].source == dst {
        j as nat
    } else {
        new_id(states, order, dst, j + 1)
    }
}

/// The arrows with their destinations renumbered.
pub open spec fn renamed_edges(
    edges: Seq<RawEdgeView>,
    states: Seq<RawStateView>,
    order: Seq<int>,
) -> Seq<RawEdgeView> {
    Seq::new(
        edges.len(),
        |i: int| RawEdgeView { label: edges[i].label, dest: new_id(states, order, edges[i].dest, 0) },
    )
}

/// The `j`-th listed state under its new number.
pub open spec fn renamed_state(states: Seq<RawStateView>, order: Seq<int>, j: int) -> RawStateView {
    RawStateView {
        source: j as nat,
        accepting: states[order[j]].accepting,
        edges: renamed_edges(states[order[j]].edges, states, order),
    }
}

/// The listed states under their new numbers.
pub open spec fn renamed(states: Seq<RawStateView>, order: Seq<int>) -> Seq<RawStateView> {
    Seq::new(order.len(), |j: int| renamed_state(states, order, j))
}

/// The states that a breadth-first walk from `start` reaches, in the order in
/// which it first reaches them, each numbered by its place.
pub open spec fn sorted_and_renamed(states: Seq<RawStateView>, start: nat) -> Seq<RawStateView> {
    renamed(states, bfs_order(states, walk_start(start)))
}

/// What holds of the walk at every moment: each listed state is the first one
/// printed under its number, and that number was seen; no state is listed
/// twice; a seen number under
/// which a state is printed has its state listed; and every destination of a
/// listed state was seen or waits in the queue.
pub open spec fn walk_ok(states: Seq<RawStateView>, w: Walk) -> bool {
    &&& forall|j: int|
        0 <= j < w.order.len() ==> 0 <= #[trigger] w.order[j] < states.len() && w.visited.contains(
            states[w.order[j]].source,
        ) && w.order[j] == first_with_source(states, states[w.order[j]].source, 0)
    &&& forall|i: int, j: int| 0 <= i < j < w.order.len() ==> w.order[i] != w.order[j]
    &&& forall|id: nat| #[trigger]
        w.visited.contains(id) && first_with_source(states, id, 0) < states.len()
            ==> w.order.contains(first_with_source(states, id, 0))
    &&& forall|j: int, e: int|
        0 <= j < w.order.len() && 0 <= e < states[w.order[j]].edges.len() ==> w.visited.contains(
            (#[trigger] states[w.order[j]].edges[e]).dest,
        ) || w.queue.contains(states[w.order[j]].edges[e].dest)
}

/// What holds of the list when the walk has ended: each listed state is the
/// first one printed under its number and is listed once, and every destination
/// of a listed state
/// under which a state is printed has that state listed.
pub open spec fn walk_done(states: Seq<RawStateView>, order: Seq<int>) -> bool {
    &&& forall|j: int|
        0 <= j < order.len() ==> 0 <= #[trigger] order[j] < states.len() && order[j]
            == first_with_source(states, states[order[j]].source, 0)
    &&& forall|i: int, j: int| 0 <= i < j < order.len() ==> order[i] != order[j]
    &&& forall|j: int, e: int|
        0 <= j < order.len() && 0 <= e < states[order[j]].edges.len() && first_with_source(
            states,
            (#[trigger] states[order[j]].edges[e]).dest,
            0,
        ) < states.len() ==> order.contains(
            first_with_source(states, states[order[j]].edges[e].dest, 0),
        )
}

/// Every destination that was not seen is among the fresh ones.
proof fn lemma_fresh_dests(edges: Seq<RawEdgeView>, visited: Set<nat>, n: nat, e: int)
    requires
        0 <= e < n <= edges.len(),
        !visited.contains(edges[e].dest),
    ensures
        fresh_dests(edges, visited, n).contains(edges[e].dest),
    decreases n,
{
    let here = fresh_dests(edges, visited, n);
    if e == n - 1 {
        assert(here[here.len() - 1] == edges[e].dest);
    } else {
        lemma_fresh_dests(edges, visited, (n - 1) as nat, e);
        let before = fresh_dests(edges, visited, (n - 1) as nat);
        let i = choose|i: int| 0 <= i < before.len() && before[i] == edges[e].dest;
        assert(here[i] == edges[e].dest);
    }
}

/// A step of the walk keeps what holds of it.
pub proof fn lemma_walk_step_ok(states: Seq<RawStateView>, w: Walk)
    requires
        walk_ok(states, w),
        w.queue.len() > 0,
    ensures
        walk_ok(states, walk_step(states, w)),
        walk_step(states, w).order.len() >= w.order.len(),
        walk_step(states, w).order.take(w.order.len() as int) == w.order,
{
    let v = walk_step(states, w);
    let id = w.queue[0];
    let rest = w.queue.drop_first();
    lemma_first_with_source(states, id, 0);
    assert(v.order.take(w.order.len() as int) =~= w.order);
    assert forall|d: nat| w.queue.contains(d) implies d == id || rest.contains(d) by {
        let i = choose|i: int| 0 <= i < w.queue.len() && w.queue[i] == d;
        if i > 0 {
            assert(rest[i - 1] == d);
        }
    }
    assert(v.queue.len() >= rest.len() && v.queue.take(rest.len() as int) =~= rest);
    assert forall|d: nat| rest.contains(d) implies v.queue.contains(d) by {
        let i = choose|i: int| 0 <= i < rest.len() && rest[i] == d;
        assert(v.queue.take(rest.len() as int)[i] == d);
        assert(v.queue[i] == d);
    }
    if w.visited.contains(id) {
        assert(walk_ok(states, v));
    } else {
        let k = first_with_source(states, id, 0);
        assert forall|x: nat| #[trigger]
            v.visited.contains(x) && first_with_source(states, x, 0) < states.len()
            implies v.order.contains(first_with_source(states, x, 0)) by {
            if x == id {
                assert(v.order[w.order.len() as int] == k);
            } else {
                let i = choose|i: int|
                    0 <= i < w.order.len() && w.order[i] == first_with_source(states, x, 0);
                assert(v.order[i] == first_with_source(states, x, 0));
            }
        }
        assert forall|j: int, e: int|
            0 <= j < v.order.len() && 0 <= e < states[v.order[j]].edges.len()
            implies v.visited.contains((#[trigger] states[v.order[j]].edges[e]).dest)
            || v.queue.contains(states[v.order[j]].edges[e].dest) by {
            let d = states[v.order[j]].edges[e].dest;
            if j < w.order.len() {
                assert(v.order[j] == w.order[j]);
                let old_edge = states[w.order[j]].edges[e];
                assert(w.visited.contains(old_edge.dest) || w.queue.contains(old_edge.dest));
                if !w.visited.contains(d) {
                    assert(w.queue.contains(d));
                    assert(d == id || rest.contains(d));
                    if d != id {
                        assert(v.queue.contains(d));
                    }
                }
            } else {
                assert(0 <= k < states.len());
                assert(v.order[j] == k);
                if !v.visited.contains(d) {
                    let fresh = fresh_dests(states[k].edges, v.visited, states[k].edges.len());
                    lemma_fresh_dests(states[k].edges, v.visited, states[k].edges.len(), e);
                    let i = choose|i: int| 0 <= i < fresh.len() && fresh[i] == d;
                    assert(v.queue =~= rest + fresh);
                    assert(v.queue[rest.len() + i] == d);
                }
            }
        }
        assert forall|j: int| 0 <= j < v.order.len() implies 0 <= #[trigger] v.order[j]
            < states.len() && v.visited.contains(states[v.order[j]].source) && v.order[j]
            == first_with_source(states, states[v.order[j]].source, 0) by {
            if j < w.order.len() {
                assert(v.order[j] == w.order[j]);
            }
        }
        assert forall|i: int, j: int| 0 <= i < j < v.order.len() implies v.order[i]
            != v.order[j] by {
            assert(v.order[i] == w.order[i]);
            if j < w.order.len() {
                assert(v.order[j] == w.order[j]);
            } else {
                assert(w.visited.contains(states[w.order[i]].source));
            }
        }
    }
}

/// The walk only adds to its list, and ends with a list that is closed under
/// the arrows.
pub proof fn lemma_walk_ends_well(states: Seq<RawStateView>, w: Walk)
    requires
        walk_ok(states, w),
    ensures
        walk_done(states, bfs_order(states, w)),
        bfs_order(states, w).len() >= w.order.len(),
        bfs_order(states, w).take(w.order.len() as int) == w.order,
    decreases unvisited_count(states, w.visited, states.len()), w.queue.len(),
{
    if w.queue.len() == 0 {
        assert(w.order.take(w.order.len() as int) =~= w.order);
        assert forall|j: int, e: int|
            0 <= j < w.order.len() && 0 <= e < states[w.order[j]].edges.len() && first_with_source(
                states,
                (#[trigger] states[w.order[j]].edges[e]).dest,
                0,
            ) < states.len() implies w.order.contains(
            first_with_source(states, states[w.order[j]].edges[e].dest, 0),
        ) by {
            let d = states[w.order[j]].edges[e].dest;
            assert(w.visited.contains(d) || w.queue.contains(d));
        }
    } else {
        let v = walk_step(states, w);
        lemma_walk_step_decreases(states, w);
        lemma_walk_step_ok(states, w);
        lemma_walk_ends_well(states, v);
        let end = bfs_order(states, v);
        assert(end.take(w.order.len() as int) =~= end.take(v.order.len() as int).take(
            w.order.len() as int,
        ));
    }
}

/// A destination whose state is listed gets a new number that is the number of
/// a listed state.
pub proof fn lemma_new_id_listed(states: Seq<RawStateView>, order: Seq<int>, dst: nat, j: int, i: int)
    requires
        0 <= i <= j < order.len(),
        0 <= order[j] < states.len(),
        states[order[j]].source == dst,
    ensures
        new_id(states, order, dst, i) < order.len(),
    decreases j - i,
{
    if i < j && !(0 <= order[i] < states.len() && states[order[i]].source == dst) {
        lemma_new_id_listed(states, order, dst, j, i + 1);
    }
}

/// The canonical numbering starts at the start state and is closed: where a
/// state is printed under `start`, the first such state becomes state 0; every
/// state carries its place as its number and is listed once; and an arrow of a
/// listed state that
/// led to a number under which a state is printed leads to a listed state.
pub proof fn lemma_canonical_numbering(states: Seq<RawStateView>, start: nat)
    ensures
        ({
            let order = bfs_order(states, walk_start(start));
            let sorted = sorted_and_renamed(states, start);
            let first = first_with_source(states, start, 0);
            &&& sorted.len() == order.len()
            &&& first < states.len() ==> sorted.len() > 0 && order[0] == first
                && sorted[0].accepting == states[first].accepting
            &&& forall|j: int| 0 <= j < sorted.len() ==> (#[trigger] sorted[j]).source == j
            &&& forall|i: int, j: int| 0 <= i < j < order.len() ==> order[i] != order[j]
            &&& forall|j: int, e: int|
                0 <= j < sorted.len() && 0 <= e < sorted[j].edges.len() && first_with_source(
                    states,
                    states[order[j]].edges[e].dest,
                    0,
                ) < states.len() ==> (#[trigger] sorted[j].edges[e]).dest < sorted.len()
        }),
{
    let w = walk_start(start);
    let order = bfs_order(states, w);
    let sorted = sorted_and_renamed(states, start);
    let first = first_with_source(states, start, 0);
    lemma_first_with_source(states, start, 0);
    assert(walk_ok(states, w));
    lemma_walk_ends_well(states, w);
    if first < states.len() {
        let v = walk_step(states, w);
        lemma_walk_step_ok(states, w);
        lemma_walk_ends_well(states, v);
        assert(v.order =~= seq![first]);
        assert(order == bfs_order(states, v));
        assert(order.take(1)[0] == first);
    }
    assert forall|j: int, e: int|
        0 <= j < sorted.len() && 0 <= e < sorted[j].edges.len() && first_with_source(
            states,
            states[order[j]].edges[e].dest,
            0,
        ) < states.len() implies (#[trigger] sorted[j].edges[e]).dest < sorted.len() by {
        let d = states[order[j]].edges[e].dest;
        let k = first_with_source(states, d, 0);
        lemma_first_with_source(states, d, 0);
        assert(order.contains(first_with_source(states, states[order[j]].edges[e].dest, 0)));
        let at = choose|at: int| 0 <= at < order.len() && order[at] == k;
        lemma_new_id_listed(states, order, d, at, 0);
    }
}

/// The numbers of a list.
pub open spec fn ids(s: Seq<usize>) -> Seq<nat> {
    Seq::new(s.len(), |i: int| s[i] as nat)
}

/// The numbers that occur in a list.
pub open spec fn id_set(s: Seq<usize>) -> Set<nat> {
    Set::new(|x: nat| exists|i: int| 0 <= i < s.len() && #[trigger] s[i] == x)
}

/// The indices of a list.
pub open spec fn indices(s: Seq<usize>) -> Seq<int> {
    Seq::new(s.len(), |i: int| s[i] as int)
}

fn seen(visited: &Vec<usize>, id: usize) -> (r: bool)
    ensures
        r == id_set(visited@).contains(id as nat),
{
    let mut i: usize = 0;
    while i < visited.len()
        invariant
            i <= visited.len(),
            forall|j: int| 0 <= j < i ==> visited@[j] != id,
        decreases visited.len() - i,
    {
        if visited[i] == id {
            return true;
        }
        i = i + 1;
    }
    false
}

fn state_index(states: &Vec<DFAStateInfo>, id: usize) -> (k: usize)
    ensures
        k == first_with_source(raw_states_view(states@), id as nat, 0),
        k <= states.len(),
{
    let mut k: usize = 0;
    while k < states.len() && states[k].source != id
        invariant
            k <= states.len(),
            first_with_source(raw_states_view(states@), id as nat, 0) == first_with_source(
                raw_states_view(states@),
                id as nat,
                k as int,
            ),
        decreases states.len() - k,
    {
        k = k + 1;
    }
    k
}

/// The indices of the states in the order of the walk from `start_state`.
fn walk(states: &Vec<DFAStateInfo>, start_state: usize) -> (order: Vec<usize>)
    ensures
        indices(order@) == bfs_order(raw_states_view(states@), walk_start(start_state as nat)),
        forall|j: int| 0 <= j < order@.len() ==> order@[j] < states@.len(),
{
    let ghost model = raw_states_view(states@);
    let mut queue: Vec<usize> = Vec::new();
    queue.push(start_state);
    let mut head: usize = 0;
    let mut visited: Vec<usize> = Vec::new();
    let mut order: Vec<usize> = Vec::new();
    assert(ids(queue@.skip(0)) =~= seq![start_state as nat]);
    assert(id_set(visited@) =~= Set::<nat>::empty());
    assert(indices(order@) =~= Seq::<int>::empty());
    while head < queue.len()
        invariant
            head <= queue.len(),
            model == raw_states_view(states@),
            forall|j: int| 0 <= j < order@.len() ==> order@[j] < states@.len(),
            bfs_order(
                model,
                Walk {
                    queue: ids(queue@.skip(head as int)),
                    visited: id_set(visited@),
                    order: indices(order@),
                },
            ) == bfs_order(model, walk_start(start_state as nat)),
        decreases unvisited_count(model, id_set(visited@), model.len()), queue.len() - head,
    {
        let ghost w = Walk {
            queue: ids(queue@.skip(head as int)),
            visited: id_set(visited@),
            order: indices(order@),
        };
        proof {
            lemma_walk_step_decreases(model, w);
        }
        let id = queue[head];
        assert(w.queue[0] == id as nat);
        let ghost rest = w.queue.drop_first();
        head = head + 1;
        assert(ids(queue@.skip(head as int)) =~= rest);
        if !seen(&visited, id) {
            let ghost old_visited = visited@;
            visited.push(id);
            assert(id_set(visited@) =~= w.visited.insert(id as nat)) by {
                assert forall|x: nat| id_set(visited@).contains(x) implies w.visited.insert(
                    id as nat,
                ).contains(x) by {
                    let i = choose|i: int| 0 <= i < visited@.len() && #[trigger] visited@[i] == x;
                    if i < old_visited.len() {
                        assert(old_visited[i] == x);
                    }
                }
                assert forall|x: nat| w.visited.insert(id as nat).contains(x) implies id_set(
                    visited@,
                ).contains(x) by {
                    if x == id as nat {
                        assert(visited@[old_visited.len() as int] == x);
                    } else {
                        let i = choose|i: int|
                            0 <= i < old_visited.len() && #[trigger] old_visited[i] == x;
                        assert(visited@[i] == x);
                    }
                }
            }
            let k = state_index(states, id);
            if k < states.len() {
                order.push(k);
                assert(indices(order@) =~= w.order.push(k as int));
                let edges = &states[k].edges;
                let ghost es = raw_edges_view(edges@);
                assert(model[k as int].edges == es);
                let ghost vset = id_set(visited@);
                let mut j: usize = 0;
                assert(ids(queue@.skip(head as int)) =~= rest + fresh_dests(es, vset, 0));
                while j < edges.len()
                    invariant
                        j <= edges.len(),
                        head <= queue.len(),
                        es == raw_edges_view(edges@),
                        vset == id_set(visited@),
                        ids(queue@.skip(head as int)) == rest + fresh_dests(es, vset, j as nat),
                    decreases edges.len() - j,
                {
                    let dst = edges[j].dest;
                    assert(es[j as int].dest == dst as nat);
                    if !seen(&visited, dst) {
                        let ghost q0 = queue@;
                        queue.push(dst);
                        assert(ids(queue@.skip(head as int)) =~= ids(q0.skip(head as int)).push(
                            dst as nat,
                        ));
                        assert(ids(queue@.skip(head as int)) =~= rest + fresh_dests(
                            es,
                            vset,
                            (j + 1) as nat,
                        ));
                    }
                    j = j + 1;
                }
            }
        }
    }
    assert(ids(queue@.skip(head as int)) =~= Seq::<nat>::empty());
    order
}

fn renumbered(states: &Vec<DFAStateInfo>, order: &Vec<usize>, dst: usize) -> (r: usize)
    requires
        forall|j: int| 0 <= j < order@.len() ==> order@[j] < states@.len(),
    ensures
        r == new_id(raw_states_view(states@), indices(order@), dst as nat, 0),
{
    let mut j: usize = 0;
    while j < order.len()
        invariant
            j <= order.len(),
            forall|i: int| 0 <= i < order@.len() ==> order@[i] < states@.len(),
            new_id(raw_states_view(states@), indices(order@), dst as nat, 0) == new_id(
                raw_states_view(states@),
                indices(order@),
                dst as nat,
                j as int,
            ),
        decreases order.len() - j,
    {
        if states[order[j]].source == dst {
            return j;
        }
        j = j + 1;
    }
    dst
}

/// Lists the states in the order of a breadth-first walk from `start_state` and
/// numbers them by their place; every arrow follows its destination to the new
/// number. A state that the walk does not reach is left out; an arrow to a
/// number under which no listed state is printed keeps that number.
pub fn sort_and_rename_states(dfa_info: &DFAGraphInfo, start_state: usize) -> (r: DFAGraphInfo)
    ensures
        r@ == sorted_and_renamed(dfa_info@, start_state as nat),
        all_labels_ascending(dfa_info@) ==> all_labels_ascending(r@),
{
    let order = walk(&dfa_info.states, start_state);
    let ghost model = dfa_info@;
    let ghost ord = indices(order@);
    let mut renamed_states: Vec<DFAStateInfo> = Vec::new();
    let mut j: usize = 0;
    while j < order.len()
        invariant
            j <= order.len(),
            model == dfa_info@,
            ord == indices(order@),
            forall|i: int| 0 <= i < order@.len() ==> order@[i] < dfa_info.states@.len(),
            renamed_states@.len() == j,
            forall|i: int|
                0 <= i < j ==> (#[trigger] renamed_states@[i])@ == renamed_state(model, ord, i),
        decreases order.len() - j,
    {
        let state = &dfa_info.states[order[j]];
        assert(model[ord[j as int]] == state@);
        let ghost es = raw_edges_view(state.edges@);
        let mut edges: Vec<RawEdge> = Vec::new();
        let mut i: usize = 0;
        while i < state.edges.len()
            invariant
                i <= state.edges.len(),
                model == dfa_info@,
                ord == indices(order@),
                es == raw_edges_view(state.edges@),
                forall|i: int| 0 <= i < order@.len() ==> order@[i] < dfa_info.states@.len(),
                edges@.len() == i,
                forall|x: int|
                    0 <= x < i ==> (#[trigger] edges@[x])@ == renamed_edges(es, model, ord)[x],
            decreases state.edges.len() - i,
        {
            let dest = renumbered(&dfa_info.states, &order, state.edges[i].dest);
            edges.push(RawEdge { label: state.edges[i].label.clone(), dest });
            i = i + 1;
        }
        assert(raw_edges_view(edges@) =~= renamed_edges(es, model, ord));
        renamed_states.push(DFAStateInfo { source: j, typ: state.typ, edges });
        j = j + 1;
    }
    let r = DFAGraphInfo { states: renamed_states };
    assert(r@ =~= renamed(model, ord));
    proof {
        if all_labels_ascending(model) {
            assert forall|x: int| 0 <= x < r@.len() implies labels_ascending(
                (#[trigger] r@[x]).edges,
            ) by {
                let old_edges = model[ord[x]].edges;
                let new_edges = r@[x].edges;
                assert(labels_ascending(old_edges));
                assert forall|a: int, b: int| 0 <= a < b < new_edges.len() implies text_before(
                    (#[trigger] new_edges[a]).label,
                    (#[trigger] new_edges[b]).label,
                    0,
                ) by {
                    assert(text_before(old_edges[a].label, old_edges[b].label, 0));
                }
            }
        }
    }
    r
}

/// Whether an arrow of a listed state leads to a number under which no state
/// is printed.
pub open spec fn dangling(states: Seq<RawStateView>, order: Seq<int>) -> bool {
    exists|j: int, e: int|
        0 <= j < order.len() && 0 <= order[j] < states.len() && 0 <= e
            < states[order[j]].edges.len() && first_with_source(
            states,
            (#[trigger] states[order[j]].edges[e]).dest,
            0,
        ) >= states.len()
}

/// Whether the walk from `start` lists a state with an arrow to a number under
/// which no state is printed.
pub open spec fn dangling_arrow(states: Seq<RawStateView>, start: nat) -> bool {
    dangling(states, bfs_order(states, walk_start(start)))
}

/// Where no arrow dangles, every arrow of the renumbered states leads to one
/// of them.
pub proof fn lemma_no_dangling_is_closed(states: Seq<RawStateView>, start: nat)
    requires
        !dangling_arrow(states, start),
    ensures
        forall|j: int, e: int|
            0 <= j < sorted_and_renamed(states, start).len() && 0 <= e < sorted_and_renamed(
                states,
                start,
            )[j].edges.len() ==> (#[trigger] sorted_and_renamed(states, start)[j].edges[e]).dest
                < sorted_and_renamed(states, start).len(),
{
    let order = bfs_order(states, walk_start(start));
    let sorted = sorted_and_renamed(states, start);
    lemma_canonical_numbering(states, start);
    lemma_walk_ends_well(states, walk_start(start));
    assert forall|j: int, e: int| 0 <= j < sorted.len() && 0 <= e < sorted[j].edges.len() implies (
    #[trigger] sorted[j].edges[e]).dest < sorted.len() by {
        let d = states[order[j]].edges[e];
        assert(first_with_source(states, d.dest, 0) < states.len());
    }
}

/// Whether the walk from `start_state` lists a state with an arrow to a number
/// under which no state is printed.
pub fn has_dangling_arrow(dfa_info: &DFAGraphInfo, start_state: usize) -> (r: bool)
    ensures
        r == dangling_arrow(dfa_info@, start_state as nat),
{
    let order = walk(&dfa_info.states, start_state);
    let ghost model = dfa_info@;
    let ghost ord = indices(order@);
    let mut j: usize = 0;
    while j < order.len()
        invariant
            j <= order.len(),
            model == dfa_info@,
            ord == indices(order@),
            ord == bfs_order(model, walk_start(start_state as nat)),
            forall|i: int| 0 <= i < order@.len() ==> order@[i] < dfa_info.states@.len(),
            forall|x: int, e: int|
                0 <= x < j && 0 <= e < model[ord[x]].edges.len() ==> first_with_source(
                    model,
                    (#[trigger] model[ord[x]].edges[e]).dest,
                    0,
                ) < model.len(),
        decreases order.len() - j,
    {
        let state = &dfa_info.states[order[j]];
        assert(model[ord[j as int]] == state@);
        let mut e: usize = 0;
        while e < state.edges.len()
            invariant
                e <= state.edges.len(),
                j < order.len(),
                model == dfa_info@,
                ord == indices(order@),
                ord == bfs_order(model, walk_start(start_state as nat)),
                model[ord[j as int]] == state@,
                0 <= ord[j as int] < model.len(),
                forall|y: int|
                    0 <= y < e ==> first_with_source(
                        model,
                        (#[trigger] model[ord[j as int]].edges[y]).dest,
                        0,
                    ) < model.len(),
            decreases state.edges.len() - e,
        {
            let k = state_index(&dfa_info.states, state.edges[e].dest);
            assert(model[ord[j as int]].edges[e as int].dest == state.edges@[e as int].dest);
            if k >= dfa_info.states.len() {
                assert(0 <= j < ord.len() && 0 <= ord[j as int] < model.len() && 0 <= e
                    < model[ord[j as int]].edges.len() && first_with_source(
                    model,
                    model[ord[j as int]].edges[e as int].dest,
                    0,
                ) >= model.len());
                assert(dangling(model, ord));
                return true;
            }
            e = e + 1;
        }
        j = j + 1;
    }
    false
}

} // verus!
