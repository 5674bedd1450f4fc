//! The canonical numbering follows the distance from the start state: a state
//! that the walk lists earlier is at most as far from the start as one that it
//! lists later.
use vstd::prelude::*;
use crate::renumber::{
    bfs_order, first_with_source, fresh_dests, lemma_first_with_source, lemma_walk_step_decreases,
    lemma_walk_step_ok, unvisited_count, walk_ok, walk_start, walk_step, Walk,
};
use crate::structs::{RawEdgeView, RawStateView};

verus! {

/// Whether the state printed under `a` has an arrow to the number `b`. Where
/// several states are printed under `a`, the first counts.
pub open spec fn arrow(states: Seq<RawStateView>, a: nat, b: nat) -> bool {
    let k = first_with_source(states, a, 0);
    0 <= k < states.len() && exists|e: int|
        0 <= e < states[k].edges.len() && (#[trigger] states[k].edges[e]).dest == b
}

/// The numbers that exactly `d` arrows reach from `start`.
pub open spec fn reach(states: Seq<RawStateView>, start: nat, d: nat) -> Set<nat>
    decreases d,
{
    if d == 0 {
        set![start]
    } else {
        Set::new(
            |b: nat|
                exists|a: nat|
                    reach(states, start, (d - 1) as nat).contains(a) && arrow(states, a, b),
        )
    }
}

/// Whether at most `d` arrows reach the number `x` from `start`.
pub open spec fn near(states: Seq<RawStateView>, start: nat, d: nat, x: nat) -> bool
    decreases d,
{
    reach(states, start, d).contains(x) || (d > 0 && near(states, start, (d - 1) as nat, x))
}

/// Whether the list is ordered by distance from `start`: whatever reaches a
/// later state in some number of arrows reaches every earlier one in as many.
pub open spec fn ordered_by_distance(states: Seq<RawStateView>, start: nat, order: Seq<int>) -> bool {
    forall|i: int, j: int, d: nat|
        #![trigger near(states, start, d, states[order[j]].source), order[i]]
        0 <= i < j < order.len() && near(states, start, d, states[order[j]].source) ==> near(
            states,
            start,
            d,
            states[order[i]].source,
        )
}

proof fn lemma_near_mono(states: Seq<RawStateView>, start: nat, a: nat, b: nat, x: nat)
    requires
        a <= b,
        near(states, start, a, x),
    ensures
        near(states, start, b, x),
    decreases b - a,
{
    if a < b {
        lemma_near_mono(states, start, a, (b - 1) as nat, x);
    }
}

/// What the proof knows of the walk beside `walk_ok`: each waiting number
/// carries the count of arrows by which it was reached; the counts ascend and
/// span at most two values; the list is ordered by distance; the numbers seen
/// are as near as the head of the queue; every nearer number was seen; and a
/// number as far as the head was seen or waits with that count.
pub open spec fn tagged_ok(states: Seq<RawStateView>, start: nat, w: Walk, tags: Seq<nat>) -> bool {
    &&& tags.len() == w.queue.len()
    &&& forall|i: int|
        0 <= i < tags.len() ==> reach(states, start, #[trigger] tags[i]).contains(w.queue[i])
    &&& forall|i: int, j: int| 0 <= i < j < tags.len() ==> tags[i] <= tags[j]
    &&& tags.len() > 0 ==> tags[tags.len() - 1] <= tags[0] + 1
    &&& ordered_by_distance(states, start, w.order)
    &&& tags.len() > 0 ==> {
        &&& forall|x: nat| #[trigger] w.visited.contains(x) ==> near(states, start, tags[0], x)
        &&& forall|x: nat|
            tags[0] > 0 && #[trigger] near(states, start, (tags[0] - 1) as nat, x)
                ==> w.visited.contains(x)
        &&& forall|x: nat| #[trigger]
            reach(states, start, tags[0]).contains(x) ==> w.visited.contains(x) || exists|i: int|
                0 <= i < tags.len() && #[trigger] w.queue[i] == x && tags[i] == tags[0]
    }
}

/// The tags of the walk after a step.
pub open spec fn next_tags(states: Seq<RawStateView>, w: Walk, tags: Seq<nat>) -> Seq<nat> {
    let v = walk_step(states, w);
    tags.drop_first() + Seq::new((v.queue.len() - (w.queue.len() - 1)) as nat, |i: int| tags[0] + 1)
}

/// Every fresh destination is the destination of an arrow.
proof fn lemma_fresh_is_dest(edges: Seq<RawEdgeView>, visited: Set<nat>, n: nat, i: int) -> (e: int)
    requires
        n <= edges.len(),
        0 <= i < fresh_dests(edges, visited, n).len(),
    ensures
        0 <= e < n,
        edges[e].dest == fresh_dests(edges, visited, n)[i],
    decreases n,
{
    let before = fresh_dests(edges, visited, (n - 1) as nat);
    if i < before.len() {
        lemma_fresh_is_dest(edges, visited, (n - 1) as nat, i)
    } else {
        n - 1
    }
}

/// An arrow from a seen number leads to a number that was seen or waits.
proof fn lemma_arrows_pending(states: Seq<RawStateView>, w: Walk, a: nat, b: nat)
    requires
        walk_ok(states, w),
        w.visited.contains(a),
        arrow(states, a, b),
    ensures
        w.visited.contains(b) || w.queue.contains(b),
{
    let k = first_with_source(states, a, 0);
    assert(w.order.contains(k));
    let j = choose|j: int| 0 <= j < w.order.len() && w.order[j] == k;
    let e = choose|e: int| 0 <= e < states[k].edges.len() && (#[trigger] states[k].edges[e]).dest == b;
    assert(w.visited.contains((#[trigger] states[w.order[j]].edges[e]).dest) || w.queue.contains(
        states[w.order[j]].edges[e].dest,
    ));
}

/// A step of the walk keeps what the proof knows of it.
proof fn lemma_tagged_step(states: Seq<RawStateView>, start: nat, w: Walk, tags: Seq<nat>)
    requires
        walk_ok(states, w),
        tagged_ok(states, start, w, tags),
        w.queue.len() > 0,
    ensures
        tagged_ok(states, start, walk_step(states, w), next_tags(states, w, tags)),
{
    let v = walk_step(states, w);
    let nt = next_tags(states, w, tags);
    let id = w.queue[0];
    let depth = tags[0];
    let rest = w.queue.drop_first();
    let rtags = tags.drop_first();
    let k = first_with_source(states, id, 0);
    lemma_first_with_source(states, id, 0);
    lemma_walk_step_ok(states, w);
    assert(reach(states, start, depth).contains(id));
    assert(near(states, start, depth, id));
    let grown = !w.visited.contains(id) && 0 <= k < states.len();
    let fresh = if grown {
        fresh_dests(states[k].edges, v.visited, states[k].edges.len())
    } else {
        Seq::<nat>::empty()
    };
    assert(v.queue =~= rest + fresh);
    assert(nt =~= rtags + Seq::new(fresh.len(), |i: int| depth + 1));
    assert(nt.len() == v.queue.len());
    // every waiting number is reached by as many arrows as its tag says
    assert forall|i: int| 0 <= i < nt.len() implies reach(states, start, #[trigger] nt[i]).contains(
        v.queue[i],
    ) by {
        if i < rest.len() {
            assert(nt[i] == tags[i + 1]);
            assert(v.queue[i] == w.queue[i + 1]);
        } else {
            let e = lemma_fresh_is_dest(
                states[k].edges,
                v.visited,
                states[k].edges.len(),
                i - rest.len(),
            );
            assert(states[k].edges[e].dest == v.queue[i]);
            assert(arrow(states, id, v.queue[i]));
            assert(nt[i] == depth + 1);
        }
    }
    assert forall|i: int, j: int| 0 <= i < j < nt.len() implies nt[i] <= nt[j] by {
        if i < rest.len() {
            assert(nt[i] == tags[i + 1]);
            assert(tags[i + 1] <= tags[tags.len() - 1]);
        }
        if j < rest.len() {
            assert(nt[j] == tags[j + 1]);
        }
    }
    if nt.len() > 0 {
        if rest.len() > 0 {
            assert(nt[0] == tags[1]);
            assert(tags[0] <= tags[1]);
            assert(tags[1] <= tags[tags.len() - 1]);
        }
        if fresh.len() == 0 {
            assert(nt[nt.len() - 1] == tags[tags.len() - 1]);
        }
    }
    // the list stays ordered by distance
    assert(ordered_by_distance(states, start, v.order)) by {
        assert forall|i: int, j: int, d: nat|
            #![trigger near(states, start, d, states[v.order[j]].source), v.order[i]]
            0 <= i < j < v.order.len() && near(
                states,
                start,
                d,
                states[v.order[j]].source,
            ) implies near(states, start, d, states[v.order[i]].source) by {
            assert(v.order[i] == w.order[i]);
            if j < w.order.len() {
                assert(v.order[j] == w.order[j]);
            } else {
                assert(states[v.order[j]].source == id);
                let near_one = states[w.order[i]].source;
                assert(w.visited.contains(near_one));
                assert(near(states, start, depth, near_one));
                if d < depth {
                    lemma_near_mono(states, start, d, (depth - 1) as nat, id);
                    assert(w.visited.contains(id));
                } else {
                    lemma_near_mono(states, start, depth, d, near_one);
                }
            }
        }
    }
    if nt.len() > 0 {
        let deeper = nt[0];
        assert(deeper == depth || deeper == depth + 1);
        assert forall|x: nat| #[trigger] v.visited.contains(x) implies near(
            states,
            start,
            deeper,
            x,
        ) by {
            if x == id {
                lemma_near_mono(states, start, depth, deeper, x);
            } else {
                assert(w.visited.contains(x));
                lemma_near_mono(states, start, depth, deeper, x);
            }
        }
        // whatever is as far as the old head was seen by now, unless it still waits with that tag
        assert forall|x: nat| reach(states, start, depth).contains(x) implies v.visited.contains(x)
            || exists|i: int| 0 <= i < nt.len() && #[trigger] v.queue[i] == x && nt[i] == depth by {
            if !w.visited.contains(x) {
                let i = choose|i: int|
                    0 <= i < tags.len() && #[trigger] w.queue[i] == x && tags[i] == tags[0];
                if i > 0 {
                    assert(v.queue[i - 1] == x && nt[i - 1] == depth);
                }
            }
        }
        assert forall|x: nat|
            deeper > 0 && #[trigger] near(
                states,
                start,
                (deeper - 1) as nat,
                x,
            ) implies v.visited.contains(x) by {
            if deeper == depth {
                assert(w.visited.contains(x));
            } else {
                if reach(states, start, depth).contains(x) {
                    if !v.visited.contains(x) {
                        let i = choose|i: int|
                            0 <= i < nt.len() && #[trigger] v.queue[i] == x && nt[i] == depth;
                        assert(nt[0] <= nt[i]);
                    }
                } else {
                    assert(near(states, start, depth, x));
                    assert(depth > 0 && near(states, start, (depth - 1) as nat, x));
                    assert(tags[0] > 0 && near(states, start, (tags[0] - 1) as nat, x));
                    assert(w.visited.contains(x));
                }
            }
        }
        assert forall|x: nat| #[trigger]
            reach(states, start, deeper).contains(x) implies v.visited.contains(x) || exists|i: int|
            0 <= i < nt.len() && #[trigger] v.queue[i] == x && nt[i] == nt[0] by {
            if deeper == depth {
            } else {
                let a = choose|a: nat|
                    reach(states, start, (deeper - 1) as nat).contains(a) && arrow(states, a, x);
                assert(near(states, start, (deeper - 1) as nat, a));
                assert(v.visited.contains(a));
                lemma_arrows_pending(states, v, a, x);
                if !v.visited.contains(x) {
                    let i = choose|i: int| 0 <= i < v.queue.len() && v.queue[i] == x;
                    assert(nt[0] <= nt[i] || i == 0);
                    assert(nt[i] <= nt[nt.len() - 1] || i == nt.len() - 1);
                    assert(v.queue[i] == x && nt[i] == nt[0]);
                }
            }
        }
    }
}

/// The walk ends with a list that is ordered by distance.
proof fn lemma_walk_ordered(states: Seq<RawStateView>, start: nat, w: Walk, tags: Seq<nat>)
    requires
        walk_ok(states, w),
        tagged_ok(states, start, w, tags),
    ensures
        ordered_by_distance(states, start, bfs_order(states, w)),
    decreases unvisited_count(states, w.visited, states.len()), w.queue.len(),
{
    if w.queue.len() > 0 {
        lemma_walk_step_decreases(states, w);
        lemma_walk_step_ok(states, w);
        lemma_tagged_step(states, start, w, tags);
        lemma_walk_ordered(states, start, walk_step(states, w), next_tags(states, w, tags));
    }
}

/// The canonical numbering follows the distance from the start state: of two
/// listed states, the one with the smaller number is reached by at most as many
/// arrows as the other.
pub proof fn lemma_numbering_follows_distance(states: Seq<RawStateView>, start: nat)
    ensures
        ordered_by_distance(states, start, bfs_order(states, walk_start(start))),
{
    let w = walk_start(start);
    let tags = seq![0nat];
    assert(walk_ok(states, w));
    assert(reach(states, start, 0).contains(start));
    assert forall|x: nat| #[trigger]
        reach(states, start, tags[0]).contains(x) implies w.visited.contains(x) || exists|i: int|
        0 <= i < tags.len() && #[trigger] w.queue[i] == x && tags[i] == tags[0] by {
        assert(w.queue[0] == x && tags[0] == tags[0]);
    }
    assert(tagged_ok(states, start, w, tags));
    lemma_walk_ordered(states, start, w, tags);
}

} // verus!
