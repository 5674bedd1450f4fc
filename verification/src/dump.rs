//! Reading the printed form of a dense automaton: its states, their arrows,
//! the arrows on the end of input, and the anchored start state.
use vstd::prelude::*;
use vstd::string::*;
use crate::edges::{capture_view, parse_failed, same_chars};
use crate::engines::{captures, captures_iter, groups_view, matches_view, regex_captures,
    regex_captures_iter};
use crate::errors::CompilerError;
use crate::structs::{
    all_labels_ascending, labels_ascending, raw_edges_view, text_before, DFAGraphInfo,
    DFAStateInfo, RawEdge, RawEdgeView, RawStateView, StateType,
};
use crate::text::{
    parse_usize, parsed_usize, to_chars, trim_bounds, trimmed,
};

verus! {

/// The pattern of one printed state: its number and its arrows.
pub const STATE_PATTERN: &'static str = "\\*?(\\d+): ((.+?) => (\\d+),?)+";

/// The pattern of one arrow within a printed state.
pub const TRANSITION_PATTERN: &'static str =
    "\\s+[^=]+\\s*=>\\s*(\\d+)+\\s*|\\s+=+\\s*=>\\s*(\\d+)+|\\s+=-[^=]+=>\\s*\\s*(\\d+)+\\s*|\\s+[^=]+-=\\s*=>\\s*(\\d+)+\\s*";

/// The pattern of the anchored start state in the printed form.
pub const START_PATTERN: &'static str = "START-GROUP\\(anchored\\)[\\s*\\w*\\=>]*Text => (\\d+)";

/// The label of the arrow that is taken at the end of the input.
pub const EOI_LABEL: &'static str = "EOI";

/// Index of the first arrow at or after `i` whose label does not come before
/// `label`, or the length of `edges`.
pub open spec fn label_rank(edges: Seq<RawEdgeView>, label: Seq<char>, i: int) -> int
    decreases edges.len() - i,
{
    if 0 <= i < edges.len() && text_before(edges[i].label, label, 0) {
        label_rank(edges, label, i + 1)
    } else {
        i
    }
}

/// `edges` with an arrow from `label` to `dest`: in place of the arrow with that
/// label where there is one, else at its place in the order of labels.
pub open spec fn with_edge(edges: Seq<RawEdgeView>, label: Seq<char>, dest: nat) -> Seq<
    RawEdgeView,
> {
    let k = label_rank(edges, label, 0);
    if 0 <= k < edges.len() && edges[k].label == label {
        edges.update(k, RawEdgeView { label, dest })
    } else {
        edges.insert(k, RawEdgeView { label, dest })
    }
}

/// Whether `=>` stands at `i`.
pub open spec fn arrow_at(s: Seq<char>, i: int) -> bool {
    0 <= i && i + 1 < s.len() && s[i] == '=' && s[i + 1] == '>'
}

/// Where the first `=>` at or after `from` stands, or the length of `s`.
pub open spec fn find_arrow(s: Seq<char>, from: int) -> int
    decreases s.len() - from,
{
    if from < 0 || from >= s.len() {
        s.len() as int
    } else if arrow_at(s, from) {
        from
    } else {
        find_arrow(s, from + 1)
    }
}

/// The texts on both sides of `=>`, where `s` holds exactly one.
pub open spec fn arrow_split(s: Seq<char>) -> Option<(Seq<char>, Seq<char>)> {
    let i = find_arrow(s, 0);
    if i < s.len() && find_arrow(s, i + 2) >= s.len() {
        Some((s.take(i), s.skip(i + 2)))
    } else {
        None
    }
}

/// The label that an arrow's left side stands for: where its third character is
/// a backslash that starts no hexadecimal escape, the backslash is dropped, so
/// that a range such as `!-\'` ends in the character itself. Places count
/// characters.
pub open spec fn edge_label(src: Seq<char>) -> Seq<char> {
    if src.len() > 2 && src[2] == '\\' && !(src.len() > 3 && src[3] == 'x') {
        src.take(2) + src.skip(3)
    } else {
        src
    }
}

/// The arrow that the text `t` shows, or the message that tells why it shows
/// none: it does not hold exactly one `=>`, or its right side is no number.
pub open spec fn parsed_transition(t: Seq<char>) -> Result<RawEdgeView, Seq<char>> {
    match arrow_split(t) {
        Some((left, right)) => match parsed_usize(trimmed(right)) {
            Some(d) => Ok(RawEdgeView { label: edge_label(trimmed(left)), dest: d as nat }),
            None => Err("Failed to parse destination state"@),
        },
        None => Err("Invalid transition format"@),
    }
}

/// A state with the arrow `e` added.
pub open spec fn state_with_edge(s: RawStateView, e: RawEdgeView) -> RawStateView {
    RawStateView { source: s.source, accepting: s.accepting, edges: with_edge(s.edges, e.label, e.dest) }
}

/// The place found lies within the text, not before `from`, and holds `=>`
/// where it is not the end.
pub proof fn lemma_find_arrow_bounds(s: Seq<char>, from: int)
    requires
        0 <= from,
    ensures
        find_arrow(s, from) <= s.len(),
        from <= s.len() ==> from <= find_arrow(s, from),
        find_arrow(s, from) < s.len() ==> arrow_at(s, find_arrow(s, from)),
    decreases s.len() - from,
{
    if from < s.len() && !arrow_at(s, from) {
        lemma_find_arrow_bounds(s, from + 1);
    }
}

/// The order of strings is transitive.
pub proof fn lemma_text_before_trans(a: Seq<char>, b: Seq<char>, c: Seq<char>, i: int)
    requires
        0 <= i,
        text_before(a, b, i),
        text_before(b, c, i),
    ensures
        text_before(a, c, i),
    decreases c.len() - i,
{
    if i < a.len() && a[i] == b[i] && b[i] == c[i] {
        lemma_text_before_trans(a, b, c, i + 1);
    }
}

/// Of two strings that agree before `i`, one comes before the other, or they
/// are the same.
pub proof fn lemma_text_before_total(a: Seq<char>, b: Seq<char>, i: int)
    requires
        0 <= i <= a.len(),
        i <= b.len(),
        forall|j: int| 0 <= j < i ==> a[j] == b[j],
    ensures
        text_before(a, b, i) || text_before(b, a, i) || a == b,
    decreases a.len() - i,
{
    if i < a.len() && i < b.len() && a[i] == b[i] {
        lemma_text_before_total(a, b, i + 1);
    } else if i >= a.len() && i >= b.len() {
        assert(a =~= b);
    }
}

/// Every arrow before the rank has a label that comes before `label`, and the
/// arrow at the rank has none.
pub proof fn lemma_label_rank(edges: Seq<RawEdgeView>, label: Seq<char>, i: int)
    requires
        0 <= i <= edges.len(),
    ensures
        i <= label_rank(edges, label, i) <= edges.len(),
        forall|j: int|
            i <= j < label_rank(edges, label, i) ==> text_before(
                (#[trigger] edges[j]).label,
                label,
                0,
            ),
        label_rank(edges, label, i) < edges.len() ==> !text_before(
            edges[label_rank(edges, label, i)].label,
            label,
            0,
        ),
    decreases edges.len() - i,
{
    if i < edges.len() && text_before(edges[i].label, label, 0) {
        lemma_label_rank(edges, label, i + 1);
    }
}

/// Putting an arrow into a list that is in the order of its labels keeps it so.
pub proof fn lemma_with_edge_ascending(edges: Seq<RawEdgeView>, label: Seq<char>, dest: nat)
    requires
        labels_ascending(edges),
    ensures
        labels_ascending(with_edge(edges, label, dest)),
{
    let k = label_rank(edges, label, 0);
    lemma_label_rank(edges, label, 0);
    let r = with_edge(edges, label, dest);
    if 0 <= k < edges.len() && edges[k].label == label {
        assert forall|i: int, j: int| 0 <= i < j < r.len() implies text_before(
            (#[trigger] r[i]).label,
            (#[trigger] r[j]).label,
            0,
        ) by {
            assert(r[i].label == edges[i].label && r[j].label == edges[j].label);
            assert(text_before(edges[i].label, edges[j].label, 0));
        }
    } else {
        assert forall|i: int, j: int| 0 <= i < j < r.len() implies text_before(
            (#[trigger] r[i]).label,
            (#[trigger] r[j]).label,
            0,
        ) by {
            if j < k {
                assert(r[i] == edges[i] && r[j] == edges[j]);
                assert(text_before(edges[i].label, edges[j].label, 0));
            } else if j == k {
                assert(r[i] == edges[i]);
                assert(text_before(edges[i].label, label, 0));
            } else {
                assert(r[j] == edges[j - 1]);
                lemma_text_before_total(label, edges[k].label, 0);
                assert(text_before(label, edges[k].label, 0));
                if j - 1 > k {
                    assert(text_before(edges[k].label, edges[j - 1].label, 0));
                    lemma_text_before_trans(label, edges[k].label, edges[j - 1].label, 0);
                }
                if i < k {
                    assert(r[i] == edges[i]);
                    assert(text_before(edges[i].label, label, 0));
                    lemma_text_before_trans(edges[i].label, label, edges[j - 1].label, 0);
                } else if i > k {
                    assert(r[i] == edges[i - 1]);
                    assert(text_before(edges[i - 1].label, edges[j - 1].label, 0));
                }
            }
        }
    }
}

/// The characters of `chars` from `lo` up to `hi`.
pub fn slice_chars(chars: &Vec<char>, lo: usize, hi: usize) -> (r: Vec<char>)
    requires
        lo <= hi <= chars.len(),
    ensures
        r@ == chars@.subrange(lo as int, hi as int),
{
    let mut out: Vec<char> = Vec::new();
    let mut i: usize = lo;
    while i < hi
        invariant
            lo <= i <= hi <= chars.len(),
            out@ == chars@.subrange(lo as int, i as int),
        decreases hi - i,
    {
        out.push(chars[i]);
        assert(out@ =~= chars@.subrange(lo as int, i + 1));
        i = i + 1;
    }
    assert(out@ =~= chars@.subrange(lo as int, hi as int));
    out
}

/// The place of the first `=>` at or after `from`.
fn arrow_from(chars: &Vec<char>, from: usize) -> (r: usize)
    requires
        from <= chars.len() + 2,
    ensures
        r == find_arrow(chars@, from as int),
        r <= chars.len(),
{
    let n: usize = chars.len();
    if from >= n {
        return n;
    }
    let mut i: usize = from;
    while i < n && !(i + 1 < n && chars[i] == '=' && chars[i + 1] == '>')
        invariant
            from <= i <= n,
            n == chars.len(),
            find_arrow(chars@, from as int) == find_arrow(chars@, i as int),
        decreases n - i,
    {
        i = i + 1;
    }
    i
}

/// Whether `a` comes before `b` in the order of strings.
pub fn chars_before(a: &Vec<char>, b: &Vec<char>) -> (r: bool)
    ensures
        r == text_before(a@, b@, 0),
{
    let mut i: usize = 0;
    while i < b.len() && i < a.len() && a[i] == b[i]
        invariant
            i <= b.len(),
            i <= a.len(),
            text_before(a@, b@, 0) == text_before(a@, b@, i as int),
        decreases b.len() - i,
    {
        i = i + 1;
    }
    if i >= b.len() {
        assert(!text_before(a@, b@, i as int));
        false
    } else if i >= a.len() {
        assert(text_before(a@, b@, i as int));
        true
    } else {
        assert(a@[i as int] != b@[i as int]);
        let x: char = a[i];
        let y: char = b[i];
        x < y
    }
}

/// Puts the arrow from `label` to `dest` into `edges`.
pub fn put_edge(edges: &mut Vec<RawEdge>, label: String, dest: usize)
    ensures
        raw_edges_view(final(edges)@) == with_edge(
            raw_edges_view(old(edges)@),
            label@,
            dest as nat,
        ),
        labels_ascending(raw_edges_view(old(edges)@)) ==> labels_ascending(
            raw_edges_view(final(edges)@),
        ),
{
    let ghost es = raw_edges_view(edges@);
    proof {
        if labels_ascending(es) {
            lemma_with_edge_ascending(es, label@, dest as nat);
        }
    }
    let chars = to_chars(label.as_str());
    let mut k: usize = 0;
    let mut found: bool = false;
    let mut searching: bool = true;
    while searching && k < edges.len()
        invariant
            k <= edges.len(),
            es == raw_edges_view(edges@),
            chars@ == label@,
            label_rank(es, label@, 0) == label_rank(es, label@, k as int),
            !searching ==> k < edges.len() && !text_before(es[k as int].label, label@, 0),
            !searching ==> found == (es[k as int].label == label@),
            searching ==> !found,
        decreases edges.len() - k, searching as int,
    {
        let here = to_chars(edges[k].label.as_str());
        assert(es[k as int].label == here@);
        if chars_before(&here, &chars) {
            k = k + 1;
        } else {
            found = same_chars(&here, &chars);
            searching = false;
        }
    }
    assert(k == label_rank(es, label@, 0));
    if found {
        edges.set(k, RawEdge { label, dest });
        assert(raw_edges_view(edges@) =~= with_edge(es, label@, dest as nat));
    } else {
        edges.insert(k, RawEdge { label, dest });
        assert(raw_edges_view(edges@) =~= with_edge(es, label@, dest as nat));
    }
}

/// Reads one arrow and adds it to the state. Nothing changes where the text is
/// no arrow.
pub fn parse_transition(state: &mut DFAStateInfo, transition: &str) -> (r: Result<
    (),
    CompilerError,
>)
    ensures
        match parsed_transition(transition@) {
            Ok(e) => r is Ok && final(state)@ == state_with_edge(old(state)@, e),
            Err(message) => parse_failed(r, message) && final(state)@ == old(state)@,
        },
        labels_ascending(old(state)@.edges) ==> labels_ascending(final(state)@.edges),
{
    let chars = to_chars(transition);
    let n: usize = chars.len();
    let i = arrow_from(&chars, 0);
    if i >= n {
        return Err(CompilerError::ParseError(String::from_str("Invalid transition format")));
    }
    proof {
        lemma_find_arrow_bounds(chars@, 0);
    }
    let second = arrow_from(&chars, i + 2);
    if second < n {
        return Err(CompilerError::ParseError(String::from_str("Invalid transition format")));
    }
    let left = slice_chars(&chars, 0, i);
    let right = slice_chars(&chars, i + 2, n);
    assert(left@ =~= transition@.take(i as int));
    assert(right@ =~= transition@.skip(i + 2));
    let (a, b) = trim_bounds(&left);
    let (c, d) = trim_bounds(&right);
    let number = slice_chars(&right, c, d);
    let ghost src = trimmed(left@);
    assert(src =~= transition@.subrange(a as int, b as int));
    let label = if b - a > 2 && chars[a + 2] == '\\' && !(b - a > 3 && chars[a + 3] == 'x') {
        let mut text = String::from_str(transition.substring_char(a, a + 2));
        text.append(transition.substring_char(a + 3, b));
        assert(text@ =~= src.take(2) + src.skip(3));
        text
    } else {
        String::from_str(transition.substring_char(a, b))
    };
    assert(label@ == edge_label(src));
    match parse_usize(&number) {
        Some(dst) => {
            assert(number@ =~= trimmed(right@));
            put_edge(&mut state.edges, label, dst);
            Ok(())
        },
        None => Err(
            CompilerError::ParseError(String::from_str("Failed to parse destination state")),
        ),
    }
}

/// The whole text of a match, where it has one.
pub open spec fn whole_match(groups: Seq<Option<Seq<char>>>) -> Option<Seq<char>> {
    if groups.len() > 0 {
        groups[0]
    } else {
        None
    }
}

/// The arrows that the first `n` matches of the arrow pattern show, added in
/// order, or the message of the first that is no arrow.
pub open spec fn edges_parsed(transitions: Seq<Seq<Option<Seq<char>>>>, n: nat) -> Result<
    Seq<RawEdgeView>,
    Seq<char>,
>
    decreases n,
{
    if n == 0 || n > transitions.len() {
        Ok(Seq::empty())
    } else {
        match edges_parsed(transitions, (n - 1) as nat) {
            Ok(acc) => match whole_match(transitions[n - 1]) {
                Some(text) => match parsed_transition(text) {
                    Ok(e) => Ok(with_edge(acc, e.label, e.dest)),
                    Err(message) => Err(message),
                },
                None => Err("Invalid transition format"@),
            },
            Err(message) => Err(message),
        }
    }
}

/// The state that one match of the state pattern shows, given the matches of
/// the arrow pattern in it: group 1 is its number, a leading `*` marks it as
/// accepting. The error holds the message: the number cannot be read, or an
/// arrow cannot.
pub open spec fn state_parsed(
    groups: Seq<Option<Seq<char>>>,
    transitions: Seq<Seq<Option<Seq<char>>>>,
) -> Result<RawStateView, Seq<char>> {
    if groups.len() > 1 && groups[0] is Some && groups[1] is Some {
        match parsed_usize(groups[1]->Some_0) {
            Some(source) => match edges_parsed(transitions, transitions.len()) {
                Ok(edges) => Ok(
                    RawStateView {
                        source: source as nat,
                        accepting: groups[0]->Some_0.len() > 0 && groups[0]->Some_0[0] == '*',
                        edges,
                    },
                ),
                Err(message) => Err(message),
            },
            None => Err("Failed to parse state ID"@),
        }
    } else {
        Err("Failed to parse state ID"@)
    }
}

/// The state that one match of the state pattern shows.
pub open spec fn match_state(groups: Seq<Option<Seq<char>>>) -> Result<RawStateView, Seq<char>> {
    match whole_match(groups) {
        Some(text) => match regex_captures_iter(TRANSITION_PATTERN@, text) {
            Some(transitions) => state_parsed(groups, transitions),
            None => Err("Failed to compile transition pattern"@),
        },
        None => Err("Failed to parse state ID"@),
    }
}

/// How many of the first `n` matches can be read before one cannot.
pub open spec fn readable_matches(matches: Seq<Seq<Option<Seq<char>>>>, n: nat) -> nat
    decreases n,
{
    if n == 0 || n > matches.len() {
        0
    } else {
        let k = readable_matches(matches, (n - 1) as nat);
        if k == n - 1 && match_state(matches[n - 1]) is Ok {
            n
        } else {
            k
        }
    }
}

/// The states of the first `k` matches.
pub open spec fn states_of_matches(matches: Seq<Seq<Option<Seq<char>>>>, k: nat) -> Seq<
    RawStateView,
> {
    Seq::new(k, |i: int| match_state(matches[i])->Ok_0)
}

/// A state without its arrow on the end of input, and accepting if it had one.
pub open spec fn eoi_folded(s: RawStateView) -> RawStateView {
    RawStateView {
        source: s.source,
        accepting: s.accepting || has_label(s.edges, EOI_LABEL@),
        edges: without_label(s.edges, EOI_LABEL@, s.edges.len()),
    }
}

/// Whether an arrow of `edges` carries `label`.
pub open spec fn has_label(edges: Seq<RawEdgeView>, label: Seq<char>) -> bool {
    exists|i: int| 0 <= i < edges.len() && (#[trigger] edges[i]).label == label
}

/// The first `n` arrows of `edges` but those that carry `label`.
pub open spec fn without_label(edges: Seq<RawEdgeView>, label: Seq<char>, n: nat) -> Seq<
    RawEdgeView,
>
    decreases n,
{
    if n == 0 || n > edges.len() {
        Seq::empty()
    } else if edges[n - 1].label == label {
        without_label(edges, label, (n - 1) as nat)
    } else {
        without_label(edges, label, (n - 1) as nat).push(edges[n - 1])
    }
}

/// The start state that a match of the start pattern shows: its group 1, read
/// as a number.
pub open spec fn start_from_capture(capture: Option<Seq<Option<Seq<char>>>>) -> Result<
    usize,
    Seq<char>,
> {
    match capture {
        Some(groups) => if groups.len() > 1 && groups[1] is Some {
            match parsed_usize(groups[1]->Some_0) {
                Some(v) => Ok(v),
                None => Err("Failed to find start state"@),
            }
        } else {
            Err("Failed to find start state"@)
        },
        None => Err("Failed to find start state"@),
    }
}

/// The arrows that are read stand in the order of their labels.
pub proof fn lemma_edges_parsed_ascending(transitions: Seq<Seq<Option<Seq<char>>>>, n: nat)
    requires
        n <= transitions.len(),
        edges_parsed(transitions, n) is Ok,
    ensures
        labels_ascending(edges_parsed(transitions, n)->Ok_0),
    decreases n,
{
    if n > 0 {
        lemma_edges_parsed_ascending(transitions, (n - 1) as nat);
        let acc = edges_parsed(transitions, (n - 1) as nat)->Ok_0;
        let e = parsed_transition(whole_match(transitions[n - 1])->Some_0)->Ok_0;
        lemma_with_edge_ascending(acc, e.label, e.dest);
    }
}

/// Leaving arrows out keeps the others in the order of their labels.
pub proof fn lemma_without_label_ascending(edges: Seq<RawEdgeView>, label: Seq<char>, n: nat)
    requires
        n <= edges.len(),
        labels_ascending(edges),
    ensures
        labels_ascending(without_label(edges, label, n)),
        forall|x: int|
            #![trigger without_label(edges, label, n)[x]]
            0 <= x < without_label(edges, label, n).len() ==> exists|j: int|
                0 <= j < n && #[trigger] edges[j] == without_label(edges, label, n)[x],
    decreases n,
{
    if n > 0 {
        lemma_without_label_ascending(edges, label, (n - 1) as nat);
        let before = without_label(edges, label, (n - 1) as nat);
        let here = without_label(edges, label, n);
        assert forall|x: int| #![trigger here[x]] 0 <= x < here.len() implies exists|j: int|
            0 <= j < n && #[trigger] edges[j] == here[x] by {
            if x < before.len() {
                let j = choose|j: int| 0 <= j < n - 1 && #[trigger] edges[j] == before[x];
                assert(0 <= j < n && edges[j] == here[x]);
            } else {
                assert(edges[n - 1] == here[x]);
            }
        }
        if edges[n - 1].label != label {
            assert forall|x: int, y: int| 0 <= x < y < here.len() implies text_before(
                (#[trigger] here[x]).label,
                (#[trigger] here[y]).label,
                0,
            ) by {
                if y < before.len() {
                    assert(text_before(before[x].label, before[y].label, 0));
                } else {
                    let j = choose|j: int| 0 <= j < n - 1 && #[trigger] edges[j] == before[x];
                    assert(text_before(edges[j].label, edges[n - 1].label, 0));
                }
            }
        }
    }
}

/// Once a match is no arrow, its message stays, however many more follow.
pub proof fn lemma_edges_parsed_fails(transitions: Seq<Seq<Option<Seq<char>>>>, k: nat, n: nat)
    requires
        k <= n <= transitions.len(),
        edges_parsed(transitions, k) is Err,
    ensures
        edges_parsed(transitions, n) == edges_parsed(transitions, k),
    decreases n - k,
{
    if k < n {
        lemma_edges_parsed_fails(transitions, k, (n - 1) as nat);
    }
}

/// A match that cannot be read stops the count.
pub proof fn lemma_readable_matches_stops(matches: Seq<Seq<Option<Seq<char>>>>, k: nat, n: nat)
    requires
        k < n <= matches.len(),
        readable_matches(matches, k) == k,
        match_state(matches[k as int]) is Err,
    ensures
        readable_matches(matches, n) == k,
    decreases n - k,
{
    if k + 1 < n {
        lemma_readable_matches_stops(matches, k, (n - 1) as nat);
    }
}

/// No more matches can be read than there are.
pub proof fn lemma_readable_matches_bound(matches: Seq<Seq<Option<Seq<char>>>>, n: nat)
    ensures
        readable_matches(matches, n) <= n,
        readable_matches(matches, n) <= matches.len(),
        readable_matches(matches, n) < n && n <= matches.len() ==> match_state(
            matches[readable_matches(matches, n) as int],
        ) is Err,
    decreases n,
{
    if n > 0 && n <= matches.len() {
        lemma_readable_matches_bound(matches, (n - 1) as nat);
    }
}

fn parse_error<T>(message: &str) -> (r: Result<T, CompilerError>)
    ensures
        parse_failed(r, message@),
{
    Err(CompilerError::ParseError(String::from_str(message)))
}

/// The state that one match of the state pattern shows, given the matches of
/// the arrow pattern in its text.
pub fn state_from_match(groups: &Vec<Option<String>>, transitions: &Vec<Vec<Option<String>>>) -> (r:
    Result<DFAStateInfo, CompilerError>)
    ensures
        match state_parsed(groups_view(groups@), matches_view(transitions@)) {
            Ok(s) => r is Ok && r->Ok_0@ == s && labels_ascending(s.edges),
            Err(message) => parse_failed(r, message),
        },
{
    let ghost gs = groups_view(groups@);
    let ghost ts = matches_view(transitions@);
    if groups.len() < 2 {
        return parse_error("Failed to parse state ID");
    }
    assert(gs[0] == match groups@[0] {
        Some(t) => Some(t@),
        None => None,
    });
    assert(gs[1] == match groups@[1] {
        Some(t) => Some(t@),
        None => None,
    });
    let (whole, number) = match (&groups[0], &groups[1]) {
        (Some(whole), Some(number)) => (whole, number),
        _ => {
            return parse_error("Failed to parse state ID");
        },
    };
    let digits = to_chars(number.as_str());
    let src = match parse_usize(&digits) {
        Some(v) => v,
        None => {
            return parse_error("Failed to parse state ID");
        },
    };
    let text = to_chars(whole.as_str());
    let typ = if text.len() > 0 && text[0] == '*' {
        StateType::Accept
    } else {
        StateType::Normal
    };
    let mut state = DFAStateInfo { source: src, typ, edges: Vec::new() };
    assert(state@.edges =~= Seq::<RawEdgeView>::empty());
    let mut i: usize = 0;
    while i < transitions.len()
        invariant
            i <= transitions.len(),
            ts == matches_view(transitions@),
            gs == groups_view(groups@),
            gs.len() > 1 && gs[0] is Some && gs[1] is Some,
            parsed_usize(gs[1]->Some_0) == Some(src),
            typ == StateType::Accept <==> gs[0]->Some_0.len() > 0 && gs[0]->Some_0[0] == '*',
            state.source == src,
            state.typ == typ,
            edges_parsed(ts, i as nat) == Ok::<Seq<RawEdgeView>, Seq<char>>(state@.edges),
        decreases transitions.len() - i,
    {
        let found = &transitions[i];
        assert(ts[i as int] == groups_view(found@));
        if found.len() == 0 {
            proof {
                lemma_edges_parsed_fails(ts, (i + 1) as nat, ts.len());
            }
            return parse_error("Invalid transition format");
        }
        assert(groups_view(found@)[0] == match found@[0] {
            Some(t) => Some(t@),
            None => None,
        });
        match &found[0] {
            Some(t) => {
                match parse_transition(&mut state, t.as_str()) {
                    Ok(()) => {},
                    Err(e) => {
                        proof {
                            lemma_edges_parsed_fails(ts, (i + 1) as nat, ts.len());
                        }
                        return Err(e);
                    },
                }
            },
            None => {
                proof {
                    lemma_edges_parsed_fails(ts, (i + 1) as nat, ts.len());
                }
                return parse_error("Invalid transition format");
            },
        }
        i = i + 1;
    }
    proof {
        lemma_edges_parsed_ascending(ts, ts.len());
    }
    Ok(state)
}

/// The state that one match of the state pattern shows: the arrow pattern is
/// run on the text of the match, and the state is read from both.
pub fn state_of_match(groups: &Vec<Option<String>>) -> (r: Result<DFAStateInfo, CompilerError>)
    ensures
        match match_state(groups_view(groups@)) {
            Ok(s) => r is Ok && r->Ok_0@ == s && labels_ascending(s.edges),
            Err(message) => parse_failed(r, message),
        },
{
    if groups.len() == 0 {
        return parse_error("Failed to parse state ID");
    }
    assert(groups_view(groups@)[0] == match groups@[0] {
        Some(t) => Some(t@),
        None => None,
    });
    match &groups[0] {
        Some(text) => match captures_iter(TRANSITION_PATTERN, text.as_str()) {
            Ok(transitions) => state_from_match(groups, &transitions),
            Err(_) => parse_error("Failed to compile transition pattern"),
        },
        None => parse_error("Failed to parse state ID"),
    }
}

/// Reads the states of a printed automaton and appends them to `dfa_info`, up to
/// the first that cannot be read; the error holds the message of that one.
pub fn parse_states(output: &str, dfa_info: &mut DFAGraphInfo) -> (r: Result<(), CompilerError>)
    ensures
        match regex_captures_iter(STATE_PATTERN@, output@) {
            Some(matches) => {
                let k = readable_matches(matches, matches.len());
                &&& final(dfa_info)@ == old(dfa_info)@ + states_of_matches(matches, k)
                &&& k == matches.len() <==> r is Ok
                &&& r is Err ==> k < matches.len() && parse_failed(
                    r,
                    match_state(matches[k as int])->Err_0,
                )
            },
            None => parse_failed(r, "Failed to compile state pattern"@) && final(dfa_info)@ == old(
                dfa_info,
            )@,
        },
        all_labels_ascending(old(dfa_info)@) ==> all_labels_ascending(final(dfa_info)@),
{
    let found = match captures_iter(STATE_PATTERN, output) {
        Ok(found) => found,
        Err(_) => {
            return parse_error("Failed to compile state pattern");
        },
    };
    let ghost matches = matches_view(found@);
    let ghost before = dfa_info@;
    assert(dfa_info@ =~= before + states_of_matches(matches, 0));
    let mut i: usize = 0;
    while i < found.len()
        invariant
            i <= found.len(),
            matches == matches_view(found@),
            regex_captures_iter(STATE_PATTERN@, output@) == Some(matches),
            before == old(dfa_info)@,
            readable_matches(matches, i as nat) == i,
            dfa_info@ == before + states_of_matches(matches, i as nat),
            all_labels_ascending(before) ==> all_labels_ascending(dfa_info@),
        decreases found.len() - i,
    {
        let groups = &found[i];
        assert(matches[i as int] == groups_view(groups@));
        let outcome = state_of_match(groups);
        match outcome {
            Ok(state) => {
                let ghost prev = dfa_info@;
                dfa_info.states.push(state);
                assert(dfa_info@ =~= prev.push(state@));
                assert(states_of_matches(matches, (i + 1) as nat) =~= states_of_matches(
                    matches,
                    i as nat,
                ).push(state@));
                assert(dfa_info@ =~= before + states_of_matches(matches, (i + 1) as nat));
                assert(all_labels_ascending(prev) ==> all_labels_ascending(dfa_info@)) by {
                    if all_labels_ascending(prev) {
                        assert forall|x: int| 0 <= x < dfa_info@.len() implies labels_ascending(
                            (#[trigger] dfa_info@[x]).edges,
                        ) by {
                            if x < prev.len() {
                                assert(dfa_info@[x] == prev[x]);
                            }
                        }
                    }
                }
            },
            Err(e) => {
                proof {
                    lemma_readable_matches_stops(matches, i as nat, matches.len());
                }
                return Err(e);
            },
        }
        i = i + 1;
    }
    Ok(())
}

/// Folds the arrows on the end of input into the states: a state that has one
/// becomes accepting and loses it.
pub fn handle_eoi_transitions(dfa_info: &mut DFAGraphInfo)
    ensures
        final(dfa_info)@ == Seq::new(old(dfa_info)@.len(), |i: int| eoi_folded(old(dfa_info)@[i])),
        all_labels_ascending(old(dfa_info)@) ==> all_labels_ascending(final(dfa_info)@),
{
    let ghost before = dfa_info@;
    let eoi = to_chars(EOI_LABEL);
    let mut folded: Vec<DFAStateInfo> = Vec::new();
    let mut i: usize = 0;
    while i < dfa_info.states.len()
        invariant
            i <= dfa_info.states.len(),
            before == dfa_info@,
            eoi@ == EOI_LABEL@,
            folded@.len() == i,
            forall|j: int| 0 <= j < i ==> (#[trigger] folded@[j])@ == eoi_folded(before[j]),
        decreases dfa_info.states.len() - i,
    {
        let state = &dfa_info.states[i];
        let ghost es = raw_edges_view(state.edges@);
        assert(before[i as int] == state@);
        let mut kept: Vec<RawEdge> = Vec::new();
        let mut seen: bool = false;
        let mut j: usize = 0;
        assert(raw_edges_view(kept@) =~= without_label(es, eoi@, 0));
        while j < state.edges.len()
            invariant
                j <= state.edges.len(),
                es == raw_edges_view(state.edges@),
                raw_edges_view(kept@) == without_label(es, eoi@, j as nat),
                seen == has_label(es.take(j as int), eoi@),
            decreases state.edges.len() - j,
        {
            let label = to_chars(state.edges[j].label.as_str());
            assert(es[j as int].label == label@);
            let ghost t0 = es.take(j as int);
            let ghost t1 = es.take(j + 1);
            assert(t1 =~= t0.push(es[j as int]));
            if same_chars(&label, &eoi) {
                seen = true;
                assert(t1[j as int].label == eoi@);
            } else {
                kept.push(state.edges[j].clone());
                assert(raw_edges_view(kept@) =~= without_label(es, eoi@, (j + 1) as nat));
                proof {
                    if has_label(t1, eoi@) {
                        let w = choose|w: int| 0 <= w < t1.len() && (#[trigger] t1[w]).label == eoi@;
                        assert(t0[w].label == eoi@);
                    }
                    if has_label(t0, eoi@) {
                        let w = choose|w: int| 0 <= w < t0.len() && (#[trigger] t0[w]).label == eoi@;
                        assert(t1[w].label == eoi@);
                    }
                }
            }
            j = j + 1;
        }
        assert(es.take(j as int) =~= es);
        let typ = if seen {
            StateType::Accept
        } else {
            state.typ
        };
        folded.push(DFAStateInfo { source: state.source, typ, edges: kept });
        i = i + 1;
    }
    dfa_info.states = folded;
    assert(dfa_info@ =~= Seq::new(before.len(), |i: int| eoi_folded(before[i])));
    proof {
        if all_labels_ascending(before) {
            assert forall|x: int| 0 <= x < dfa_info@.len() implies labels_ascending(
                (#[trigger] dfa_info@[x]).edges,
            ) by {
                assert(labels_ascending(before[x].edges));
                lemma_without_label_ascending(before[x].edges, EOI_LABEL@, before[x].edges.len());
            }
        }
    }
}

/// The start state that a match of the start pattern shows.
pub fn start_state_from_capture(capture: &Option<Vec<Option<String>>>) -> (r: Result<
    usize,
    CompilerError,
>)
    ensures
        match start_from_capture(capture_view(*capture)) {
            Ok(v) => r == Ok::<usize, CompilerError>(v),
            Err(message) => parse_failed(r, message),
        },
{
    match capture {
        Some(groups) => {
            if groups.len() > 1 {
                assert(groups_view(groups@)[1] == match groups@[1] {
                    Some(t) => Some(t@),
                    None => None,
                });
                match &groups[1] {
                    Some(number) => {
                        let digits = to_chars(number.as_str());
                        match parse_usize(&digits) {
                            Some(v) => {
                                return Ok(v);
                            },
                            None => {},
                        }
                    },
                    None => {},
                }
            }
            parse_error("Failed to find start state")
        },
        None => parse_error("Failed to find start state"),
    }
}

/// The start state of a printed automaton, or the message that none was found:
/// what the start pattern captured, read as a number.
pub open spec fn start_read(output: Seq<char>) -> Result<usize, Seq<char>> {
    match regex_captures(START_PATTERN@, output) {
        Some(capture) => start_from_capture(capture),
        None => Err("Failed to find start state"@),
    }
}

/// The anchored start state of a printed automaton.
pub fn find_start_state(output: &str) -> (r: Result<usize, CompilerError>)
    ensures
        match start_read(output@) {
            Ok(v) => r == Ok::<usize, CompilerError>(v),
            Err(message) => parse_failed(r, message),
        },
{
    match captures(START_PATTERN, output) {
        Ok(capture) => start_state_from_capture(&capture),
        Err(_) => parse_error("Failed to find start state"),
    }
}

} // verus!
