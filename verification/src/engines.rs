//! The two regular-expression engines that this library calls and does not
//! verify: `regex-automata` builds the automaton, `regex` reads its printed form.
//! Every contract in this file is believed, not proved.
use vstd::prelude::*;

verus! {

/// The error with which `regex-automata` refuses to build a dense automaton.
#[verifier::external_type_specification]
#[verifier::external_body]
pub struct ExBuildError(regex_automata::dfa::dense::BuildError);

/// The error with which `regex` refuses a pattern.
#[verifier::external_type_specification]
#[verifier::external_body]
pub struct ExRegexError(regex::Error);

/// Where a search may start, as `regex_automata::dfa::StartKind` has it.
#[derive(Clone, Copy, Debug, PartialEq, Eq, Structural)]
pub enum StartMode {
    Both,
    Unanchored,
    Anchored,
}

/// The printed form of the dense automaton that `regex-automata` builds for a
/// pattern under the given configuration (whether it is minimized, where a
/// search may start, whether bytes are grouped into classes, whether states are
/// accelerated), or `None` where it refuses the pattern.
pub uninterp spec fn dense_dfa_dump(
    pattern: Seq<char>,
    minimize: bool,
    start: StartMode,
    byte_classes: bool,
    accelerate: bool,
) -> Option<Seq<char>>;

/// Every match of `pattern` in `haystack`, from left to right and without
/// overlap, each with its capture groups (group 0 is the whole match, a group
/// that took no part is `None`); `None` where `regex` refuses the pattern.
pub uninterp spec fn regex_captures_iter(pattern: Seq<char>, haystack: Seq<char>) -> Option<
    Seq<Seq<Option<Seq<char>>>>,
>;

/// The capture groups of the leftmost match of `pattern` in `haystack`, `None`
/// inside where there is no match; `None` outside where `regex` refuses the
/// pattern.
pub uninterp spec fn regex_captures(pattern: Seq<char>, haystack: Seq<char>) -> Option<
    Option<Seq<Option<Seq<char>>>>,
>;

/// The text of each group of one match.
pub open spec fn groups_view(groups: Seq<Option<String>>) -> Seq<Option<Seq<char>>> {
    Seq::new(
        groups.len(),
        |i: int|
            match groups[i] {
                Some(s) => Some(s@),
                None => None,
            },
    )
}

/// The text of each group of each match.
pub open spec fn matches_view(matches: Seq<Vec<Option<String>>>) -> Seq<Seq<Option<Seq<char>>>> {
    Seq::new(matches.len(), |i: int| groups_view(matches[i]@))
}

/// Calls `regex_automata::dfa::dense::Builder::build` under the configuration
/// that the arguments give, and prints the automaton with its `Debug` form.
/// Claimed: the call succeeds exactly where `dense_dfa_dump` is `Some`, and the
/// text is then the one that `dense_dfa_dump` names; so the same pattern and
/// configuration always give the same text.
#[verifier::external_body]
pub(crate) fn build_dense_dfa_dump(
    pattern: &str,
    minimize: bool,
    start: StartMode,
    byte_classes: bool,
    accelerate: bool,
) -> (r: Result<String, regex_automata::dfa::dense::BuildError>)
    ensures
        r is Ok <==> dense_dfa_dump(pattern@, minimize, start, byte_classes, accelerate) is Some,
        r is Ok ==> dense_dfa_dump(pattern@, minimize, start, byte_classes, accelerate) == Some(
            r->Ok_0@,
        ),
{
    let kind = match start {
        StartMode::Both => regex_automata::dfa::StartKind::Both,
        StartMode::Unanchored => regex_automata::dfa::StartKind::Unanchored,
        StartMode::Anchored => regex_automata::dfa::StartKind::Anchored,
    };
    let config = regex_automata::dfa::dense::DFA::config()
        .minimize(minimize)
        .start_kind(kind)
        .byte_classes(byte_classes)
        .accelerate(accelerate);
    let dfa = regex_automata::dfa::dense::DFA::builder().configure(config).build(pattern)?;
    Ok(format!("{:?}", dfa))
}

/// Calls `regex::Regex::captures_iter`, after `regex::Regex::new` on the
/// pattern, and copies out the text of every group of every match. Claimed: the
/// call succeeds exactly where `regex_captures_iter` is `Some`, and the groups are
/// then the ones that `regex_captures_iter` names.
#[verifier::external_body]
pub(crate) fn captures_iter(pattern: &str, haystack: &str) -> (r: Result<
    Vec<Vec<Option<String>>>,
    regex::Error,
>)
    ensures
        r is Ok <==> regex_captures_iter(pattern@, haystack@) is Some,
        r is Ok ==> regex_captures_iter(pattern@, haystack@) == Some(matches_view(r->Ok_0@)),
{
    let re = regex::Regex::new(pattern)?;
    Ok(
        re.captures_iter(haystack).map(
            |c| c.iter().map(|g| g.map(|m| m.as_str().to_string())).collect(),
        ).collect(),
    )
}

/// Calls `regex::Regex::captures`, after `regex::Regex::new` on the pattern, and
/// copies out the text of every group of the leftmost match. Claimed: the call
/// succeeds exactly where `regex_captures` is `Some`, and the groups are then the
/// ones that `regex_captures` names.
#[verifier::external_body]
pub(crate) fn captures(pattern: &str, haystack: &str) -> (r: Result<
    Option<Vec<Option<String>>>,
    regex::Error,
>)
    ensures
        r is Ok <==> regex_captures(pattern@, haystack@) is Some,
        r is Ok ==> regex_captures(pattern@, haystack@) == Some(
            match r->Ok_0 {
                Some(groups) => Some(groups_view(groups@)),
                None => None,
            },
        ),
{
    let re = regex::Regex::new(pattern)?;
    Ok(re.captures(haystack).map(|c| c.iter().map(|g| g.map(|m| m.as_str().to_string())).collect()))
}

} // verus!
