//! From a pattern to its canonical automaton: the automaton is built and
//! printed by `regex-automata`, read back, renumbered, and its labels turned
//! into byte sets.
use vstd::prelude::*;
use vstd::string::*;
use crate::automaton::{graph_fault, invariant_failed};
use crate::byte_set::lemma_same_set_same_flags;
use crate::dump::{
    eoi_folded, find_start_state, handle_eoi_transitions, lemma_readable_matches_bound,
    match_state, parse_states, readable_matches, start_read, states_of_matches, STATE_PATTERN,
};
use crate::edges::{edges_expanded, parse_failed, process_state_edges, special_chars};
use crate::engines::{build_dense_dfa_dump, dense_dfa_dump, regex_captures_iter, StartMode};
use crate::errors::CompilerError;
use crate::renumber::{
    dangling_arrow, has_dangling_arrow, sort_and_rename_states, sorted_and_renamed,
};
use crate::structs::{
    dests_below, disjoint_sets, graph_ok, state_ok, transitions_view, DFAGraph, DFAGraphInfo,
    DFAStateNode, RawStateView, RegexAndDFA, StateView, SubstringDefinitions,
    SubstringDefinitionsJson,
};
use crate::text::to_chars;

verus! {

/// What reading a printed automaton gives.
pub enum Reading {
    /// Something could not be read; the message tells what.
    Unreadable(Seq<char>),
    /// An arrow of a state that can be reached leads to a state that is not
    /// printed.
    Dangling,
    /// The graph that the printed automaton stands for.
    Graph(Seq<StateView>),
}

/// The states that a printed automaton shows, or the message of the first that
/// cannot be read.
pub open spec fn states_read(dump: Seq<char>) -> Result<Seq<RawStateView>, Seq<char>> {
    match regex_captures_iter(STATE_PATTERN@, dump) {
        Some(matches) => {
            let k = readable_matches(matches, matches.len());
            if k == matches.len() {
                Ok(states_of_matches(matches, matches.len()))
            } else {
                Err(match_state(matches[k as int])->Err_0)
            }
        },
        None => Err("Failed to compile state pattern"@),
    }
}

/// The states with their arrows on the end of input folded into them.
pub open spec fn states_folded(raw: Seq<RawStateView>) -> Seq<RawStateView> {
    Seq::new(raw.len(), |i: int| eoi_folded(raw[i]))
}

/// The states of a printed automaton under their canonical numbers; none where
/// the states or the start state cannot be read, and none where an arrow of a
/// state that can be reached leads to a state that is not printed.
pub open spec fn canonical_states(dump: Seq<char>) -> Option<Seq<RawStateView>> {
    match (states_read(dump), start_read(dump)) {
        (Ok(raw), Ok(start)) => if dangling_arrow(states_folded(raw), start as nat) {
            None
        } else {
            Some(sorted_and_renamed(states_folded(raw), start as nat))
        },
        _ => None,
    }
}

/// A state with its labels turned into byte sets.
pub open spec fn expanded_state(s: RawStateView) -> Result<StateView, Seq<char>> {
    match edges_expanded(s.edges, s.edges.len(), special_chars()) {
        Ok(transitions) => Ok(StateView { state_id: s.source, accepting: s.accepting, transitions }),
        Err(message) => Err(message),
    }
}

/// The first `n` states with their labels turned into byte sets, or the message
/// of the first label that is malformed.
pub open spec fn expanded_states(raw: Seq<RawStateView>, n: nat) -> Result<
    Seq<StateView>,
    Seq<char>,
>
    decreases n,
{
    if n == 0 || n > raw.len() {
        Ok(Seq::empty())
    } else {
        match expanded_states(raw, (n - 1) as nat) {
            Ok(acc) => match expanded_state(raw[n - 1]) {
                Ok(s) => Ok(acc.push(s)),
                Err(message) => Err(message),
            },
            Err(message) => Err(message),
        }
    }
}

/// What reading the printed automaton `dump` gives: the states are read, then
/// the start state, then the arrows are followed from the start state, then
/// the labels are turned into bytes; the first of these that fails decides.
pub open spec fn graph_of_dump(dump: Seq<char>) -> Reading {
    match states_read(dump) {
        Err(message) => Reading::Unreadable(message),
        Ok(raw) => match start_read(dump) {
            Err(message) => Reading::Unreadable(message),
            Ok(start) => match canonical_states(dump) {
                None => Reading::Dangling,
                Some(states) => match expanded_states(states, states.len()) {
                    Ok(g) => Reading::Graph(g),
                    Err(message) => Reading::Unreadable(message),
                },
            },
        },
    }
}

/// How a build ends, given what was read: with the graph where it keeps the
/// invariant; with a `GraphInvariantError` that tells the first fault where it
/// does not, or that tells of the arrow where one dangles; with a `ParseError`
/// that holds the message where something could not be read.
pub open spec fn built(r: Result<DFAGraph, CompilerError>, reading: Reading) -> bool {
    match reading {
        Reading::Graph(g) => if graph_ok(g) {
            r is Ok && r->Ok_0@ == g && r->Ok_0.wf()
        } else {
            graph_fault(g) is Some && invariant_failed(r, graph_fault(g)->Some_0)
        },
        Reading::Dangling => invariant_failed(
            r,
            "an arrow leads to a state that the automaton does not print"@,
        ),
        Reading::Unreadable(message) => parse_failed(r, message),
    }
}

/// The pattern between a start anchor and an end anchor.
pub open spec fn anchored(pattern: Seq<char>) -> Seq<char> {
    "^"@ + pattern + "$"@
}

/// The printed automaton of a pattern: built for the anchored pattern,
/// minimized, for searches that start at the start of the text, without byte
/// classes, so that each arrow names the bytes themselves.
pub open spec fn automaton_dump(pattern: Seq<char>) -> Option<Seq<char>> {
    dense_dfa_dump(anchored(pattern), true, StartMode::Anchored, false, true)
}

/// How many backslashes stand in a row directly before place `i`.
pub open spec fn backslashes_before(s: Seq<char>, i: int) -> nat
    decreases i,
{
    if 0 < i <= s.len() && s[i - 1] == '\\' {
        1 + backslashes_before(s, i - 1)
    } else {
        0
    }
}

/// Whether a pattern ends in the end anchor: its last character is `$`, and
/// the dollar is not escaped, that is, an even number of backslashes stands
/// directly before it.
pub open spec fn ends_with_anchor(pattern: Seq<char>) -> bool {
    pattern.len() > 0 && pattern.last() == '$' && backslashes_before(pattern, pattern.len() - 1)
        % 2 == 0
}

/// Once a state cannot be expanded, its message stays, however many more
/// states follow.
pub proof fn lemma_expanded_states_fails(raw: Seq<RawStateView>, k: nat, n: nat)
    requires
        k <= n <= raw.len(),
        expanded_states(raw, k) is Err,
    ensures
        expanded_states(raw, n) == expanded_states(raw, k),
    decreases n - k,
{
    if k < n {
        lemma_expanded_states_fails(raw, k, (n - 1) as nat);
    }
}

fn invariant_error<T>(message: &str) -> (r: Result<T, CompilerError>)
    ensures
        invariant_failed(r, message@),
{
    Err(CompilerError::GraphInvariantError(String::from_str(message)))
}

/// Reads the printed form of a dense automaton into the canonical graph, and
/// checks the graph's invariant. An arrow that leads from a state that can be
/// reached to a state that is not printed ends the reading with a
/// `GraphInvariantError`, whatever its number.
pub fn convert_dfa_to_graph(dump: &str) -> (r: Result<DFAGraph, CompilerError>)
    ensures
        built(r, graph_of_dump(dump@)),
{
    let mut dfa_info = DFAGraphInfo { states: Vec::new() };
    assert(dfa_info@ =~= Seq::<RawStateView>::empty());
    proof {
        if regex_captures_iter(STATE_PATTERN@, dump@) is Some {
            let matches = regex_captures_iter(STATE_PATTERN@, dump@)->Some_0;
            lemma_readable_matches_bound(matches, matches.len());
        }
    }
    match parse_states(dump, &mut dfa_info) {
        Ok(()) => {},
        Err(e) => {
            return Err(e);
        },
    }
    proof {
        let matches = regex_captures_iter(STATE_PATTERN@, dump@)->Some_0;
        assert(dfa_info@ =~= states_of_matches(matches, matches.len()));
    }
    handle_eoi_transitions(&mut dfa_info);
    let start_state = match find_start_state(dump) {
        Ok(v) => v,
        Err(e) => {
            return Err(e);
        },
    };
    assert(dfa_info@ == states_folded(states_read(dump@)->Ok_0));
    if has_dangling_arrow(&dfa_info, start_state) {
        return invariant_error("an arrow leads to a state that the automaton does not print");
    }
    let dfa_info = sort_and_rename_states(&dfa_info, start_state);
    let ghost raw = dfa_info@;
    assert(canonical_states(dump@) == Some(raw));
    let mut graph = DFAGraph { states: Vec::new() };
    assert(graph@ =~= Seq::<StateView>::empty());
    let mut i: usize = 0;
    while i < dfa_info.states.len()
        invariant
            i <= dfa_info.states.len(),
            raw == dfa_info@,
            states_read(dump@) is Ok,
            start_read(dump@) is Ok,
            canonical_states(dump@) == Some(raw),
            graph.repr(),
            expanded_states(raw, i as nat) == Ok::<Seq<StateView>, Seq<char>>(graph@),
        decreases dfa_info.states.len() - i,
    {
        let state = &dfa_info.states[i];
        assert(raw[i as int] == state@);
        let edges = match process_state_edges(&state.edges) {
            Ok(edges) => edges,
            Err(e) => {
                proof {
                    lemma_expanded_states_fails(raw, (i + 1) as nat, raw.len());
                }
                return Err(e);
            },
        };
        let ghost before = graph@;
        let node = DFAStateNode { state_type: state.typ, state_id: state.source, transitions: edges };
        assert(expanded_state(raw[i as int]) == Ok::<StateView, Seq<char>>(node@));
        graph.states.push(node);
        assert(graph@ =~= before.push(node@));
        i = i + 1;
    }
    match graph.check() {
        Ok(()) => Ok(graph),
        Err(e) => Err(e),
    }
}

/// How the build for a pattern ends: with a `BuildError` that names the pattern
/// where `regex-automata` refuses it, else as the reading of the printed
/// automaton ends.
pub open spec fn graph_built(pattern: Seq<char>, r: Result<DFAGraph, CompilerError>) -> bool {
    match automaton_dump(pattern) {
        Some(dump) => built(r, graph_of_dump(dump)),
        None => r is Err && r->Err_0 is BuildError && r->Err_0->regex@ == pattern,
    }
}

/// Every graph that a build yields is deterministic and refers to its own
/// states only: the byte sets of a state's transitions are pairwise disjoint,
/// and every destination is the number of a state.
pub proof fn lemma_built_graph_is_sound(pattern: Seq<char>, r: Result<DFAGraph, CompilerError>)
    requires
        graph_built(pattern, r),
        r is Ok,
    ensures
        forall|i: int|
            0 <= i < r->Ok_0@.len() ==> disjoint_sets((#[trigger] r->Ok_0@[i]).transitions),
        forall|i: int|
            0 <= i < r->Ok_0@.len() ==> dests_below(
                (#[trigger] r->Ok_0@[i]).transitions,
                r->Ok_0@.len(),
            ),
{
    let g = r->Ok_0@;
    assert(graph_ok(g));
    assert forall|i: int| 0 <= i < g.len() implies disjoint_sets((#[trigger] g[i]).transitions)
        && dests_below(g[i].transitions, g.len()) by {
        assert(state_ok(g[i], i as nat, g.len()));
    }
}

/// The build is a function of the pattern: two builds of the same pattern end
/// alike, and where they yield graphs, the graphs are the same, state by state,
/// transition by transition and byte by byte.
pub proof fn lemma_build_is_reproducible(
    pattern: Seq<char>,
    first: Result<DFAGraph, CompilerError>,
    second: Result<DFAGraph, CompilerError>,
)
    requires
        graph_built(pattern, first),
        graph_built(pattern, second),
    ensures
        first is Ok <==> second is Ok,
        first is Ok ==> first->Ok_0@ == second->Ok_0@,
        first is Ok ==> forall|i: int, j: int|
            0 <= i < first->Ok_0.states@.len() && 0 <= j < first->Ok_0.states@[i].transitions@.len()
                ==> (#[trigger] first->Ok_0.states@[i].transitions@[j]).bytes.flags@
                == second->Ok_0.states@[i].transitions@[j].bytes.flags@,
{
    if first is Ok {
        let a = first->Ok_0;
        let b = second->Ok_0;
        assert(a@ == b@);
        assert(a@.len() == b@.len());
        assert forall|i: int, j: int|
            0 <= i < a.states@.len() && 0 <= j < a.states@[i].transitions@.len() implies (
        #[trigger] a.states@[i].transitions@[j]).bytes.flags@
            == b.states@[i].transitions@[j].bytes.flags@ by {
            assert(a@[i] == b@[i]);
            assert(a@[i] == a.states@[i]@);
            assert(b@[i] == b.states@[i]@);
            let ta = a.states@[i].transitions@;
            let tb = b.states@[i].transitions@;
            assert(transitions_view(ta) == transitions_view(tb));
            assert(transitions_view(ta)[j] == ta[j]@);
            assert(transitions_view(tb)[j] == tb[j]@);
            assert(a.states@[i].repr());
            assert(b.states@[i].repr());
            assert(ta[j].bytes.wf());
            assert(tb[j].bytes.wf());
            lemma_same_set_same_flags(ta[j].bytes, tb[j].bytes);
        }
    }
}

/// Builds the canonical automaton of `regex`, taken between a start anchor and
/// an end anchor. A pattern that `regex-automata` refuses gives a `BuildError`
/// that names the pattern.
pub fn create_dfa_graph_from_regex(regex: &str) -> (r: Result<DFAGraph, CompilerError>)
    ensures
        graph_built(regex@, r),
        r is Ok ==> r->Ok_0.wf(),
{
    let mut pattern = String::from_str("^");
    pattern.append(regex);
    pattern.append("$");
    match build_dense_dfa_dump(pattern.as_str(), true, StartMode::Anchored, false, true) {
        Ok(dump) => convert_dfa_to_graph(dump.as_str()),
        Err(e) => Err(CompilerError::BuildError { regex: String::from_str(regex), source: e }),
    }
}

/// Whether pair `a` comes before pair `b`: by the first number, then by the
/// second.
pub open spec fn pair_before(a: (usize, usize), b: (usize, usize)) -> bool {
    a.0 < b.0 || (a.0 == b.0 && a.1 < b.1)
}

/// Index of the first pair at or after `i` that does not come before `p`, or
/// the length of `s`.
pub open spec fn pair_rank(s: Seq<(usize, usize)>, p: (usize, usize), i: int) -> int
    decreases s.len() - i,
{
    if 0 <= i < s.len() && pair_before(s[i], p) {
        pair_rank(s, p, i + 1)
    } else {
        i
    }
}

/// `s` with the pair `p` at its place in the order, unless it is there already.
pub open spec fn with_pair(s: Seq<(usize, usize)>, p: (usize, usize)) -> Seq<(usize, usize)> {
    let k = pair_rank(s, p, 0);
    if 0 <= k < s.len() && s[k] == p {
        s
    } else {
        s.insert(k, p)
    }
}

/// The first `n` pairs of `s` in ascending order, each once.
pub open spec fn pair_set(s: Seq<(usize, usize)>, n: nat) -> Seq<(usize, usize)>
    decreases n,
{
    if n == 0 || n > s.len() {
        Seq::empty()
    } else {
        with_pair(pair_set(s, (n - 1) as nat), s[n - 1])
    }
}

/// The pairs of `pairs` in ascending order, each once.
pub fn sorted_pairs(pairs: &Vec<(usize, usize)>) -> (r: Vec<(usize, usize)>)
    ensures
        r@ == pair_set(pairs@, pairs@.len()),
{
    let mut out: Vec<(usize, usize)> = Vec::new();
    let mut i: usize = 0;
    while i < pairs.len()
        invariant
            i <= pairs.len(),
            out@ == pair_set(pairs@, i as nat),
        decreases pairs.len() - i,
    {
        let p = pairs[i];
        let ghost before = out@;
        let mut k: usize = 0;
        while k < out.len() && (out[k].0 < p.0 || (out[k].0 == p.0 && out[k].1 < p.1))
            invariant
                k <= out.len(),
                out@ == before,
                pair_rank(before, p, 0) == pair_rank(before, p, k as int),
            decreases out.len() - k,
        {
            k = k + 1;
        }
        if !(k < out.len() && out[k].0 == p.0 && out[k].1 == p.1) {
            out.insert(k, p);
        }
        i = i + 1;
    }
    out
}

/// Whether the pattern ends in an end anchor that is not escaped.
pub fn has_end_anchor(pattern: &str) -> (r: bool)
    ensures
        r == ends_with_anchor(pattern@),
{
    let chars = to_chars(pattern);
    let n: usize = chars.len();
    if n == 0 || chars[n - 1] != '$' {
        return false;
    }
    let mut i: usize = n - 1;
    let mut even: bool = true;
    while i > 0 && chars[i - 1] == '\\'
        invariant
            i <= n - 1,
            n == chars.len(),
            even == ((backslashes_before(chars@, n - 1) - backslashes_before(chars@, i as int)) % 2
                == 0),
            backslashes_before(chars@, i as int) <= backslashes_before(chars@, n - 1),
        decreases i,
    {
        even = !even;
        i = i - 1;
    }
    even
}

/// What a compilation gives where the build yields the graph `g`: the pattern
/// as it was given, whether it ends in an end anchor, and each substring
/// definition as an ordered set of pairs.
pub open spec fn compiled(
    regex_str: Seq<char>,
    transitions: Seq<Vec<(usize, usize)>>,
    c: RegexAndDFA,
) -> bool {
    &&& c.regex_pattern@ == regex_str
    &&& c.has_end_anchor == ends_with_anchor(regex_str)
    &&& c.substrings.substring_boundaries is None
    &&& c.substrings.substring_ranges@.len() == transitions.len()
    &&& forall|i: int|
        0 <= i < transitions.len() ==> (#[trigger] c.substrings.substring_ranges@[i])@ == pair_set(
            transitions[i]@,
            transitions[i]@.len(),
        )
}

/// Compiles `regex_str` to its canonical automaton and keeps the substring
/// definitions beside it, each as an ordered set of pairs. It fails exactly
/// where the build of the automaton fails, and with the same error.
pub fn create_regex_and_dfa_from_str_and_defs(
    regex_str: &str,
    substrs_defs_json: SubstringDefinitionsJson,
) -> (r: Result<RegexAndDFA, CompilerError>)
    ensures
        match r {
            Ok(c) => graph_built(regex_str@, Ok::<DFAGraph, CompilerError>(c.dfa)) && compiled(
                regex_str@,
                substrs_defs_json.transitions@,
                c,
            ),
            Err(e) => graph_built(regex_str@, Err::<DFAGraph, CompilerError>(e)),
        },
{
    let dfa = match create_dfa_graph_from_regex(regex_str) {
        Ok(dfa) => dfa,
        Err(e) => {
            return Err(e);
        },
    };
    let mut substring_ranges: Vec<Vec<(usize, usize)>> = Vec::new();
    let mut i: usize = 0;
    while i < substrs_defs_json.transitions.len()
        invariant
            i <= substrs_defs_json.transitions@.len(),
            substring_ranges@.len() == i,
            forall|j: int|
                0 <= j < i ==> (#[trigger] substring_ranges@[j])@ == pair_set(
                    substrs_defs_json.transitions@[j]@,
                    substrs_defs_json.transitions@[j]@.len(),
                ),
        decreases substrs_defs_json.transitions.len() - i,
    {
        substring_ranges.push(sorted_pairs(&substrs_defs_json.transitions[i]));
        i = i + 1;
    }
    let substrings = SubstringDefinitions { substring_ranges, substring_boundaries: None };
    let has_end_anchor = has_end_anchor(regex_str);
    Ok(
        RegexAndDFA {
            regex_pattern: String::from_str(regex_str),
            dfa,
            has_end_anchor,
            substrings,
        },
    )
}

} // verus!
