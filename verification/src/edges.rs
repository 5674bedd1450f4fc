//! From the labels of a printed state to byte sets: one character or escape is
//! one byte, `X-Y` is every byte from `X` to `Y`, and labels that lead to the same
//! state are joined.
use vstd::prelude::*;
use vstd::string::*;
use crate::byte_set::{byte_range, ByteSet};
use crate::engines::{captures, groups_view, regex_captures};
use crate::errors::CompilerError;
use crate::structs::{
    raw_edges_view, transitions_repr, transitions_view, RawEdge, RawEdgeView, Transition,
    TransitionView,
};
use crate::text::{
    failure_message, failure_text, parse_unsigned, parsed_hex_u8, to_chars, unsigned_failure,
};

verus! {

/// The pattern that tells a range label from a single one.
pub open spec fn range_pattern() -> Seq<char> {
    "(.+)-(.+)"@
}

/// The written forms of the escapes, each with its byte.
pub open spec fn special_chars() -> Seq<(Seq<char>, u8)> {
    seq![
        ("\\n"@, 10u8),
        ("\\r"@, 13u8),
        ("\\t"@, 9u8),
        ("\\v"@, 11u8),
        ("\\f"@, 12u8),
        ("\\0"@, 0u8),
        ("\\\""@, 34u8),
        ("\\'"@, 39u8),
        ("\\\\"@, 92u8),
        ("' '"@, 32u8),
    ]
}

/// A table of written forms, each by its characters.
pub open spec fn mappings_view(m: Seq<(&'static str, u8)>) -> Seq<(Seq<char>, u8)> {
    Seq::new(m.len(), |i: int| (m[i].0@, m[i].1))
}

/// The byte of the first entry at or after `i` whose written form is `s`.
pub open spec fn mapped_byte(m: Seq<(Seq<char>, u8)>, s: Seq<char>, i: int) -> Option<u8>
    decreases m.len() - i,
{
    if i < 0 || i >= m.len() {
        None
    } else if m[i].0 == s {
        Some(m[i].1)
    } else {
        mapped_byte(m, s, i + 1)
    }
}

/// Whether `s` starts like a byte written in hexadecimal.
pub open spec fn has_hex_prefix(s: Seq<char>) -> bool {
    s.len() >= 2 && s[0] == '\\' && s[1] == 'x'
}

/// The words that tell why the digits of a hexadecimal escape are no byte.
pub open spec fn hex_failure_message(digits: Seq<char>) -> Seq<char> {
    match unsigned_failure(digits, 16, 255) {
        Some(f) => failure_message(f),
        None => Seq::empty(),
    }
}

/// The byte that a label's character stands for: `\xHH` by its hexadecimal
/// value, an entry of the table by its byte, any other single ASCII character by
/// its code. Nothing else is a character; the error then holds the message.
pub open spec fn parsed_char(s: Seq<char>, m: Seq<(Seq<char>, u8)>) -> Result<u8, Seq<char>> {
    if has_hex_prefix(s) {
        match parsed_hex_u8(s.skip(2)) {
            Some(b) => Ok(b),
            None => Err(hex_failure_message(s.skip(2))),
        }
    } else if mapped_byte(m, s, 0) is Some {
        Ok(mapped_byte(m, s, 0)->Some_0)
    } else if s.len() == 1 && (s[0] as u32) < 0x80 {
        Ok(#[verifier::truncate] (s[0] as u8))
    } else {
        Err("Invalid character: "@ + s)
    }
}

/// Index of the first transition at or after `i` whose destination is at least
/// `dest`, or the length of `ts`.
pub open spec fn dest_rank(ts: Seq<TransitionView>, dest: nat, i: int) -> int
    decreases ts.len() - i,
{
    if 0 <= i < ts.len() && ts[i].dest < dest {
        dest_rank(ts, dest, i + 1)
    } else {
        i
    }
}

/// `ts` with `bytes` joined to the set that leads to `dest`; a transition to
/// `dest` is put in, at its place in the order, where there was none.
pub open spec fn with_bytes(ts: Seq<TransitionView>, dest: nat, bytes: Set<u8>) -> Seq<
    TransitionView,
> {
    let k = dest_rank(ts, dest, 0);
    if 0 <= k < ts.len() && ts[k].dest == dest {
        ts.update(k, TransitionView { dest, bytes: ts[k].bytes.union(bytes) })
    } else {
        ts.insert(k, TransitionView { dest, bytes })
    }
}

/// The bytes of a range label whose two ends were captured as groups 1 and 2.
pub open spec fn range_bytes(groups: Seq<Option<Seq<char>>>, m: Seq<(Seq<char>, u8)>) -> Result<
    Set<u8>,
    Seq<char>,
> {
    if groups.len() > 2 && groups[1] is Some && groups[2] is Some {
        match parsed_char(groups[1]->Some_0, m) {
            Ok(lo) => match parsed_char(groups[2]->Some_0, m) {
                Ok(hi) => Ok(byte_range(lo, hi)),
                Err(message) => Err(message),
            },
            Err(message) => Err(message),
        }
    } else {
        Err("Failed to capture range"@)
    }
}

/// The bytes of a label, given what the range pattern captured in it.
pub open spec fn label_bytes(
    key: Seq<char>,
    capture: Option<Seq<Option<Seq<char>>>>,
    m: Seq<(Seq<char>, u8)>,
) -> Result<Set<u8>, Seq<char>> {
    match capture {
        Some(groups) => range_bytes(groups, m),
        None => match parsed_char(key, m) {
            Ok(b) => Ok(set![b]),
            Err(message) => Err(message),
        },
    }
}

/// The bytes of a label, or the message that tells why it is malformed.
pub open spec fn edge_bytes(key: Seq<char>, m: Seq<(Seq<char>, u8)>) -> Result<
    Set<u8>,
    Seq<char>,
> {
    match regex_captures(range_pattern(), key) {
        Some(capture) => label_bytes(key, capture, m),
        None => Err("Failed to compile range pattern"@),
    }
}

/// A label as it is looked up: the quoted space stands for the space itself.
pub open spec fn edge_key(label: Seq<char>) -> Seq<char> {
    if label == "' '"@ {
        " "@
    } else {
        label
    }
}

/// The transitions that the first `n` arrows of a state give when they are
/// added in order, or the message of the first label that is malformed.
pub open spec fn edges_expanded(raw: Seq<RawEdgeView>, n: nat, m: Seq<(Seq<char>, u8)>) -> Result<
    Seq<TransitionView>,
    Seq<char>,
>
    decreases n,
{
    if n == 0 || n > raw.len() {
        Ok(Seq::empty())
    } else {
        match edges_expanded(raw, (n - 1) as nat, m) {
            Ok(acc) => match edge_bytes(edge_key(raw[n - 1].label), m) {
                Ok(bytes) => Ok(with_bytes(acc, raw[n - 1].dest, bytes)),
                Err(message) => Err(message),
            },
            Err(message) => Err(message),
        }
    }
}

/// Whether `r` is the error for something that could not be read, with the
/// given message.
pub open spec fn parse_failed<T>(r: Result<T, CompilerError>, message: Seq<char>) -> bool {
    r is Err && r->Err_0 is ParseError && r->Err_0->ParseError_0@ == message
}

/// The table of escapes.
pub fn create_special_char_mappings() -> (r: Vec<(&'static str, u8)>)
    ensures
        mappings_view(r@) == special_chars(),
{
    let r: Vec<(&'static str, u8)> = vec![
        ("\\n", 10u8),
        ("\\r", 13u8),
        ("\\t", 9u8),
        ("\\v", 11u8),
        ("\\f", 12u8),
        ("\\0", 0u8),
        ("\\\"", 34u8),
        ("\\'", 39u8),
        ("\\\\", 92u8),
        ("' '", 32u8),
    ];
    assert(mappings_view(r@) =~= special_chars());
    r
}

/// Whether two texts are the same.
pub fn same_chars(a: &Vec<char>, b: &Vec<char>) -> (r: bool)
    ensures
        r == (a@ == b@),
{
    if a.len() != b.len() {
        return false;
    }
    let mut i: usize = 0;
    while i < a.len()
        invariant
            i <= a.len(),
            a.len() == b.len(),
            forall|j: int| 0 <= j < i ==> a@[j] == b@[j],
        decreases a.len() - i,
    {
        if a[i] != b[i] {
            return false;
        }
        i = i + 1;
    }
    assert(a@ =~= b@);
    true
}

/// The byte that `s` stands for.
pub fn parse_char(s: &str, special_char_mappings: &Vec<(&'static str, u8)>) -> (r: Result<
    u8,
    CompilerError,
>)
    ensures
        match parsed_char(s@, mappings_view(special_char_mappings@)) {
            Ok(b) => r == Ok::<u8, CompilerError>(b),
            Err(message) => parse_failed(r, message),
        },
{
    let mut chars = to_chars(s);
    let ghost m = mappings_view(special_char_mappings@);
    if chars.len() >= 2 && chars[0] == '\\' && chars[1] == 'x' {
        let digits = chars.split_off(2);
        assert(digits@ =~= s@.skip(2));
        return match parse_unsigned(&digits, 16, 255) {
            Ok(b) => Ok(b as u8),
            Err(f) => Err(CompilerError::ParseError(failure_text(f))),
        };
    }
    let mut i: usize = 0;
    while i < special_char_mappings.len()
        invariant
            i <= special_char_mappings.len(),
            chars@ == s@,
            !has_hex_prefix(s@),
            m == mappings_view(special_char_mappings@),
            mapped_byte(m, s@, 0) == mapped_byte(m, s@, i as int),
        decreases special_char_mappings.len() - i,
    {
        let entry = to_chars(special_char_mappings[i].0);
        assert(m[i as int].0 == entry@);
        if same_chars(&entry, &chars) {
            assert(mapped_byte(m, s@, i as int) == Some(m[i as int].1));
            return Ok(special_char_mappings[i].1);
        }
        i = i + 1;
    }
    assert(mapped_byte(m, s@, i as int) is None);
    if chars.len() == 1 && (#[verifier::truncate] (chars[0] as u32)) < 0x80 {
        Ok(#[verifier::truncate] (chars[0] as u8))
    } else {
        let mut message = String::from_str("Invalid character: ");
        message.append(s);
        Err(CompilerError::ParseError(message))
    }
}

/// Makes sure that `edges` holds a transition to `dest`, with the empty set
/// where it had none, and says where it is.
fn entry_index(edges: &mut Vec<Transition>, dest: usize) -> (k: usize)
    requires
        transitions_repr(old(edges)@),
    ensures
        transitions_repr(final(edges)@),
        k < final(edges)@.len(),
        k == dest_rank(transitions_view(old(edges)@), dest as nat, 0),
        transitions_view(final(edges)@) == with_bytes(
            transitions_view(old(edges)@),
            dest as nat,
            Set::<u8>::empty(),
        ),
        final(edges)@[k as int].dest == dest,
{
    let ghost ts = transitions_view(edges@);
    let mut k: usize = 0;
    while k < edges.len() && edges[k].dest < dest
        invariant
            k <= edges.len(),
            ts == transitions_view(edges@),
            dest_rank(ts, dest as nat, 0) == dest_rank(ts, dest as nat, k as int),
        decreases edges.len() - k,
    {
        k = k + 1;
    }
    if k < edges.len() && edges[k].dest == dest {
        assert(ts[k as int].bytes.union(Set::<u8>::empty()) =~= ts[k as int].bytes);
        assert(transitions_view(edges@) =~= with_bytes(ts, dest as nat, Set::<u8>::empty()));
    } else {
        edges.insert(k, Transition { dest, bytes: ByteSet::new() });
        assert(transitions_view(edges@) =~= with_bytes(ts, dest as nat, Set::<u8>::empty()));
    }
    k
}

/// The rank lies within the list.
pub proof fn lemma_dest_rank_bounds(ts: Seq<TransitionView>, dest: nat, i: int)
    requires
        0 <= i <= ts.len(),
    ensures
        i <= dest_rank(ts, dest, i) <= ts.len(),
    decreases ts.len() - i,
{
    if i < ts.len() && ts[i].dest < dest {
        lemma_dest_rank_bounds(ts, dest, i + 1);
    }
}

/// Joining bytes to an entry that was made for them is joining them at once.
proof fn lemma_entry_filled(ts: Seq<TransitionView>, dest: nat, extra: Set<u8>)
    ensures
        ({
            let mid = with_bytes(ts, dest, Set::<u8>::empty());
            let k = dest_rank(ts, dest, 0);
            &&& 0 <= k < mid.len()
            &&& mid[k].dest == dest
            &&& mid.update(k, TransitionView { dest, bytes: mid[k].bytes.union(extra) })
                == with_bytes(ts, dest, extra)
        }),
{
    lemma_dest_rank_bounds(ts, dest, 0);
    let mid = with_bytes(ts, dest, Set::<u8>::empty());
    let k = dest_rank(ts, dest, 0);
    if 0 <= k < ts.len() && ts[k].dest == dest {
        assert(ts[k].bytes.union(Set::<u8>::empty()).union(extra) =~= ts[k].bytes.union(extra));
    } else {
        assert(Set::<u8>::empty().union(extra) =~= extra);
    }
    assert(mid.update(k, TransitionView { dest, bytes: mid[k].bytes.union(extra) }) =~= with_bytes(
        ts,
        dest,
        extra,
    ));
}

/// Joins the one byte `b` to the set that leads to `dest`.
fn add_byte(edges: &mut Vec<Transition>, dest: usize, b: u8)
    requires
        transitions_repr(old(edges)@),
    ensures
        transitions_repr(final(edges)@),
        transitions_view(final(edges)@) == with_bytes(
            transitions_view(old(edges)@),
            dest as nat,
            set![b],
        ),
{
    let ghost ts = transitions_view(edges@);
    let k = entry_index(edges, dest);
    let ghost mid = edges@;
    let mut t = edges.remove(k);
    t.bytes.insert(b);
    edges.insert(k, t);
    assert(edges@ =~= mid.update(k as int, t));
    proof {
        lemma_entry_filled(ts, dest as nat, set![b]);
        let v = transitions_view(mid);
        assert(v[k as int] == mid[k as int]@);
        assert(t@.bytes =~= v[k as int].bytes.union(set![b]));
        assert(transitions_view(edges@) =~= v.update(k as int, t@));
    }
}

/// Joins every byte from `lo` to `hi` to the set that leads to `dest`.
fn add_byte_range(edges: &mut Vec<Transition>, dest: usize, lo: u8, hi: u8)
    requires
        transitions_repr(old(edges)@),
    ensures
        transitions_repr(final(edges)@),
        transitions_view(final(edges)@) == with_bytes(
            transitions_view(old(edges)@),
            dest as nat,
            byte_range(lo, hi),
        ),
{
    let ghost ts = transitions_view(edges@);
    let k = entry_index(edges, dest);
    let ghost mid = edges@;
    let mut t = edges.remove(k);
    t.bytes.insert_range(lo, hi);
    edges.insert(k, t);
    assert(edges@ =~= mid.update(k as int, t));
    proof {
        lemma_entry_filled(ts, dest as nat, byte_range(lo, hi));
        let v = transitions_view(mid);
        assert(v[k as int] == mid[k as int]@);
        assert(transitions_view(edges@) =~= v.update(k as int, t@));
    }
}

/// The bytes of a range label, given the match of the range pattern in it, or
/// the message that tells what is wrong: nothing was captured, or an end is no
/// character.
pub open spec fn captured_range(
    capture: Option<Seq<Option<Seq<char>>>>,
    m: Seq<(Seq<char>, u8)>,
) -> Result<Set<u8>, Seq<char>> {
    match capture {
        Some(groups) => range_bytes(groups, m),
        None => Err("Failed to capture range"@),
    }
}

/// What a capture holds, by the text of its groups.
pub open spec fn capture_view(capture: Option<Vec<Option<String>>>) -> Option<
    Seq<Option<Seq<char>>>,
> {
    match capture {
        Some(groups) => Some(groups_view(groups@)),
        None => None,
    }
}

/// Adds the single character `key` to the bytes that lead to `value`. Nothing
/// changes where `key` is no character.
pub fn process_single_edge(
    key: &str,
    value: usize,
    edges: &mut Vec<Transition>,
    special_char_mappings: &Vec<(&'static str, u8)>,
) -> (r: Result<(), CompilerError>)
    requires
        transitions_repr(old(edges)@),
    ensures
        transitions_repr(final(edges)@),
        match parsed_char(key@, mappings_view(special_char_mappings@)) {
            Ok(b) => r is Ok && transitions_view(final(edges)@) == with_bytes(
                transitions_view(old(edges)@),
                value as nat,
                set![b],
            ),
            Err(message) => parse_failed(r, message) && transitions_view(final(edges)@)
                == transitions_view(old(edges)@),
        },
{
    match parse_char(key, special_char_mappings) {
        Ok(index) => {
            add_byte(edges, value, index);
            Ok(())
        },
        Err(e) => Err(e),
    }
}

/// Adds the range whose ends the range pattern captured as groups 1 and 2 to
/// the bytes that lead to `value`. Nothing changes where there is no capture or
/// an end is no character.
pub fn process_range_edge(
    capture: &Option<Vec<Option<String>>>,
    value: usize,
    edges: &mut Vec<Transition>,
    special_char_mappings: &Vec<(&'static str, u8)>,
) -> (r: Result<(), CompilerError>)
    requires
        transitions_repr(old(edges)@),
    ensures
        transitions_repr(final(edges)@),
        match captured_range(capture_view(*capture), mappings_view(special_char_mappings@)) {
            Ok(bytes) => r is Ok && transitions_view(final(edges)@) == with_bytes(
                transitions_view(old(edges)@),
                value as nat,
                bytes,
            ),
            Err(message) => parse_failed(r, message) && transitions_view(final(edges)@)
                == transitions_view(old(edges)@),
        },
{
    match capture {
        Some(groups) => {
            if groups.len() > 2 {
                match (&groups[1], &groups[2]) {
                    (Some(first), Some(last)) => {
                        assert(groups_view(groups@)[1] == Some(first@));
                        assert(groups_view(groups@)[2] == Some(last@));
                        let start_index = match parse_char(first.as_str(), special_char_mappings) {
                            Ok(b) => b,
                            Err(e) => {
                                return Err(e);
                            },
                        };
                        let end_index = match parse_char(last.as_str(), special_char_mappings) {
                            Ok(b) => b,
                            Err(e) => {
                                return Err(e);
                            },
                        };
                        add_byte_range(edges, value, start_index, end_index);
                        return Ok(());
                    },
                    _ => {
                        assert(groups_view(groups@)[1] is None || groups_view(groups@)[2] is None);
                    },
                }
            }
            Err(CompilerError::ParseError(String::from_str("Failed to capture range")))
        },
        None => Err(CompilerError::ParseError(String::from_str("Failed to capture range"))),
    }
}

/// Adds the label `key` to the bytes that lead to `value`: as a range where the
/// range pattern matches in it, as a single character where it does not. Nothing
/// changes where the label is malformed.
pub fn process_edge(
    key: &str,
    value: usize,
    edges: &mut Vec<Transition>,
    special_char_mappings: &Vec<(&'static str, u8)>,
) -> (r: Result<(), CompilerError>)
    requires
        transitions_repr(old(edges)@),
    ensures
        transitions_repr(final(edges)@),
        match edge_bytes(key@, mappings_view(special_char_mappings@)) {
            Ok(bytes) => r is Ok && transitions_view(final(edges)@) == with_bytes(
                transitions_view(old(edges)@),
                value as nat,
                bytes,
            ),
            Err(message) => parse_failed(r, message) && transitions_view(final(edges)@)
                == transitions_view(old(edges)@),
        },
{
    match captures("(.+)-(.+)", key) {
        Ok(capture) => {
            if capture.is_some() {
                process_range_edge(&capture, value, edges, special_char_mappings)
            } else {
                process_single_edge(key, value, edges, special_char_mappings)
            }
        },
        Err(_) => Err(CompilerError::ParseError(String::from_str("Failed to compile range pattern"))),
    }
}

/// The transitions of a state: every arrow's label turned into bytes, and the
/// bytes that lead to the same state joined.
pub fn process_state_edges(state_edges: &Vec<RawEdge>) -> (r: Result<
    Vec<Transition>,
    CompilerError,
>)
    ensures
        match edges_expanded(
            raw_edges_view(state_edges@),
            state_edges@.len(),
            special_chars(),
        ) {
            Ok(ts) => r is Ok && transitions_view(r->Ok_0@) == ts && transitions_repr(r->Ok_0@),
            Err(message) => parse_failed(r, message),
        },
{
    let mut edges: Vec<Transition> = Vec::new();
    let special_char_mappings = create_special_char_mappings();
    let ghost raw = raw_edges_view(state_edges@);
    let ghost m = special_chars();
    let quoted_space = to_chars("' '");
    assert(transitions_view(edges@) =~= Seq::<TransitionView>::empty());
    let mut i: usize = 0;
    while i < state_edges.len()
        invariant
            i <= state_edges.len(),
            raw == raw_edges_view(state_edges@),
            m == special_chars(),
            m == mappings_view(special_char_mappings@),
            quoted_space@ == "' '"@,
            transitions_repr(edges@),
            edges_expanded(raw, i as nat, m) == Ok::<Seq<TransitionView>, Seq<char>>(
                transitions_view(edges@),
            ),
        decreases state_edges.len() - i,
    {
        let label = to_chars(state_edges[i].label.as_str());
        assert(raw[i as int].label == label@);
        let outcome = if same_chars(&label, &quoted_space) {
            process_edge(" ", state_edges[i].dest, &mut edges, &special_char_mappings)
        } else {
            process_edge(
                state_edges[i].label.as_str(),
                state_edges[i].dest,
                &mut edges,
                &special_char_mappings,
            )
        };
        match outcome {
            Ok(()) => {},
            Err(e) => {
                proof {
                    lemma_edges_expanded_fails(raw, (i + 1) as nat, state_edges@.len(), m);
                }
                return Err(e);
            },
        }
        i = i + 1;
    }
    Ok(edges)
}

/// Once a label is malformed, its message stays, however many more arrows are
/// read.
pub proof fn lemma_edges_expanded_fails(
    raw: Seq<RawEdgeView>,
    k: nat,
    n: nat,
    m: Seq<(Seq<char>, u8)>,
)
    requires
        k <= n <= raw.len(),
        edges_expanded(raw, k, m) is Err,
    ensures
        edges_expanded(raw, n, m) == edges_expanded(raw, k, m),
    decreases n - k,
{
    if k < n {
        lemma_edges_expanded_fails(raw, k, (n - 1) as nat, m);
    }
}

} // verus!
