//! The data that flows through a compilation: the states as they are read from
//! the printed automaton, and the canonical graph that the printer consumes.
use vstd::prelude::*;
use crate::byte_set::ByteSet;

verus! {

/// Whether reaching a state means that the text read so far matches.
#[derive(Clone, Copy, Debug, PartialEq, Eq, Structural)]
pub enum StateType {
    Normal,
    Accept,
}

/// One labelled arrow of a printed state.
#[derive(Debug)]
pub struct RawEdge {
    pub label: String,
    pub dest: usize,
}

/// What a `RawEdge` stands for.
pub struct RawEdgeView {
    pub label: Seq<char>,
    pub dest: nat,
}

impl View for RawEdge {
    type V = RawEdgeView;

    open spec fn view(&self) -> RawEdgeView {
        RawEdgeView { label: self.label@, dest: self.dest as nat }
    }
}

impl Clone for RawEdge {
    fn clone(&self) -> (r: Self)
        ensures
            r@ == self@,
    {
        RawEdge { label: self.label.clone(), dest: self.dest }
    }
}

/// A state as the printed automaton shows it: its number there, its kind, and
/// its arrows ordered by label.
#[derive(Debug)]
pub struct DFAStateInfo {
    pub source: usize,
    pub typ: StateType,
    pub edges: Vec<RawEdge>,
}

/// What a `DFAStateInfo` stands for.
pub struct RawStateView {
    pub source: nat,
    pub accepting: bool,
    pub edges: Seq<RawEdgeView>,
}

/// Whether `a` comes before `b` in the order of strings, given that they agree
/// before `i`: the first character that differs decides, and a proper prefix
/// comes first.
pub open spec fn text_before(a: Seq<char>, b: Seq<char>, i: int) -> bool
    decreases b.len() - i,
{
    if i < 0 || i >= b.len() {
        false
    } else if i >= a.len() {
        true
    } else if a[i] != b[i] {
        (a[i] as int) < (b[i] as int)
    } else {
        text_before(a, b, i + 1)
    }
}

/// The arrows of a state stand in the order of their labels, each label once:
/// what a map from labels would give.
pub open spec fn labels_ascending(edges: Seq<RawEdgeView>) -> bool {
    forall|i: int, j: int|
        0 <= i < j < edges.len() ==> text_before(
            (#[trigger] edges[i]).label,
            (#[trigger] edges[j]).label,
            0,
        )
}

/// Every state has its arrows in the order of their labels.
pub open spec fn all_labels_ascending(states: Seq<RawStateView>) -> bool {
    forall|i: int| 0 <= i < states.len() ==> labels_ascending((#[trigger] states[i]).edges)
}

/// The arrows of a state, each by what it stands for.
pub open spec fn raw_edges_view(edges: Seq<RawEdge>) -> Seq<RawEdgeView> {
    Seq::new(edges.len(), |i: int| edges[i]@)
}

impl View for DFAStateInfo {
    type V = RawStateView;

    open spec fn view(&self) -> RawStateView {
        RawStateView {
            source: self.source as nat,
            accepting: self.typ == StateType::Accept,
            edges: raw_edges_view(self.edges@),
        }
    }
}

impl Clone for DFAStateInfo {
    fn clone(&self) -> (r: Self)
        ensures
            r@ == self@,
    {
        let mut edges: Vec<RawEdge> = Vec::new();
        let mut i: usize = 0;
        while i < self.edges.len()
            invariant
                i <= self.edges.len(),
                edges@.len() == i,
                forall|j: int| 0 <= j < i ==> (#[trigger] edges@[j])@ == self.edges@[j]@,
            decreases self.edges.len() - i,
        {
            edges.push(self.edges[i].clone());
            i = i + 1;
        }
        assert(raw_edges_view(edges@) =~= raw_edges_view(self.edges@));
        DFAStateInfo { source: self.source, typ: self.typ, edges }
    }
}

/// The states read from a printed automaton, in the order in which it prints them.
#[derive(Debug)]
pub struct DFAGraphInfo {
    pub states: Vec<DFAStateInfo>,
}

/// The states of a list, each by what it stands for.
pub open spec fn raw_states_view(states: Seq<DFAStateInfo>) -> Seq<RawStateView> {
    Seq::new(states.len(), |i: int| states[i]@)
}

impl View for DFAGraphInfo {
    type V = Seq<RawStateView>;

    open spec fn view(&self) -> Seq<RawStateView> {
        raw_states_view(self.states@)
    }
}

/// The bytes on which a state moves to `dest`.
#[derive(Debug)]
pub struct Transition {
    pub dest: usize,
    pub bytes: ByteSet,
}

/// What a `Transition` stands for.
pub struct TransitionView {
    pub dest: nat,
    pub bytes: Set<u8>,
}

impl View for Transition {
    type V = TransitionView;

    open spec fn view(&self) -> TransitionView {
        TransitionView { dest: self.dest as nat, bytes: self.bytes@ }
    }
}

impl Clone for Transition {
    fn clone(&self) -> (r: Self)
        ensures
            r@ == self@,
            r.bytes.wf() == self.bytes.wf(),
    {
        Transition { dest: self.dest, bytes: self.bytes.clone() }
    }
}

/// The transitions of a list, each by what it stands for.
pub open spec fn transitions_view(ts: Seq<Transition>) -> Seq<TransitionView> {
    Seq::new(ts.len(), |i: int| ts[i]@)
}

/// Every byte set of the list keeps its representation invariant.
pub open spec fn transitions_repr(ts: Seq<Transition>) -> bool {
    forall|i: int| 0 <= i < ts.len() ==> (#[trigger] ts[i]).bytes.wf()
}

/// A state of the canonical graph: its number, its kind, and its transitions
/// ordered by destination.
#[derive(Debug)]
pub struct DFAStateNode {
    pub state_type: StateType,
    pub state_id: usize,
    pub transitions: Vec<Transition>,
}

/// What a `DFAStateNode` stands for.
pub struct StateView {
    pub state_id: nat,
    pub accepting: bool,
    pub transitions: Seq<TransitionView>,
}

impl View for DFAStateNode {
    type V = StateView;

    open spec fn view(&self) -> StateView {
        StateView {
            state_id: self.state_id as nat,
            accepting: self.state_type == StateType::Accept,
            transitions: transitions_view(self.transitions@),
        }
    }
}

/// The canonical automaton: state `i` is at index `i`, state 0 is the start.
#[derive(Debug)]
pub struct DFAGraph {
    pub states: Vec<DFAStateNode>,
}

/// The states of a list, each by what it stands for.
pub open spec fn states_view(states: Seq<DFAStateNode>) -> Seq<StateView> {
    Seq::new(states.len(), |i: int| states[i]@)
}

impl View for DFAGraph {
    type V = Seq<StateView>;

    open spec fn view(&self) -> Seq<StateView> {
        states_view(self.states@)
    }
}

/// The transitions are ordered by destination, strictly, so that no destination
/// occurs twice.
pub open spec fn ascending_dests(ts: Seq<TransitionView>) -> bool {
    forall|i: int, j: int| 0 <= i < j < ts.len() ==> ts[i].dest < ts[j].dest
}

/// No byte set is empty.
pub open spec fn nonempty_sets(ts: Seq<TransitionView>) -> bool {
    forall|i: int| 0 <= i < ts.len() ==> (#[trigger] ts[i]).bytes != Set::<u8>::empty()
}

/// The byte sets of distinct transitions have no byte in common.
pub open spec fn disjoint_sets(ts: Seq<TransitionView>) -> bool {
    forall|i: int, j: int| 0 <= i < j < ts.len() ==> ts[i].bytes.disjoint(ts[j].bytes)
}

/// Every destination is the number of a state.
pub open spec fn dests_below(ts: Seq<TransitionView>, n: nat) -> bool {
    forall|i: int| 0 <= i < ts.len() ==> (#[trigger] ts[i]).dest < n
}

/// What must hold of state `i` in a graph of `n` states.
pub open spec fn state_ok(s: StateView, i: nat, n: nat) -> bool {
    &&& s.state_id == i
    &&& ascending_dests(s.transitions)
    &&& nonempty_sets(s.transitions)
    &&& disjoint_sets(s.transitions)
    &&& dests_below(s.transitions, n)
}

/// The invariant of a canonical graph: there is a start state; each state
/// carries its own index; on each byte a state has at most one transition; every
/// destination exists.
pub open spec fn graph_ok(g: Seq<StateView>) -> bool {
    &&& g.len() > 0
    &&& forall|i: int| 0 <= i < g.len() ==> state_ok(#[trigger] g[i], i as nat, g.len())
}

/// Byte `b` labels no transition of the graph.
pub open spec fn byte_unused(g: Seq<StateView>, b: u8) -> bool {
    forall|i: int, j: int|
        0 <= i < g.len() && 0 <= j < g[i].transitions.len() ==> !(
        #[trigger] g[i].transitions[j]).bytes.contains(b)
}

impl DFAStateNode {
    /// Every byte set keeps its representation invariant.
    pub open spec fn repr(&self) -> bool {
        transitions_repr(self.transitions@)
    }
}

impl DFAGraph {
    /// Every byte set keeps its representation invariant.
    pub open spec fn repr(&self) -> bool {
        forall|i: int| 0 <= i < self.states@.len() ==> (#[trigger] self.states@[i]).repr()
    }

    /// The graph is one that the program printer accepts.
    pub open spec fn wf(&self) -> bool {
        self.repr() && graph_ok(self@)
    }
}

/// Ranges of transitions that mark substrings; no part of the matching.
#[derive(Debug)]
pub struct SubstringDefinitions {
    pub substring_ranges: Vec<Vec<(usize, usize)>>,
    pub substring_boundaries: Option<Vec<(usize, usize)>>,
}

/// Substring definitions as a caller writes them down.
#[derive(Debug)]
pub struct SubstringDefinitionsJson {
    pub transitions: Vec<Vec<(usize, usize)>>,
}

/// A pattern with its canonical automaton.
#[derive(Debug)]
pub struct RegexAndDFA {
    pub regex_pattern: String,
    pub dfa: DFAGraph,
    pub has_end_anchor: bool,
    pub substrings: SubstringDefinitions,
}

} // verus!
