use regex_circuit::compile::{
    convert_dfa_to_graph, create_dfa_graph_from_regex, create_regex_and_dfa_from_str_and_defs,
    has_end_anchor, sorted_pairs,
};
use regex_circuit::errors::CompilerError;
use regex_circuit::structs::{DFAGraph, StateType, SubstringDefinitionsJson};

fn dump_of(pattern: &str) -> String {
    let config = regex_automata::dfa::dense::DFA::config()
        .minimize(true)
        .start_kind(regex_automata::dfa::StartKind::Anchored)
        .byte_classes(false)
        .accelerate(true);
    let dfa = regex_automata::dfa::dense::DFA::builder()
        .configure(config)
        .build(pattern)
        .unwrap();
    format!("{:?}", dfa)
}

fn shape(graph: &DFAGraph) -> Vec<(usize, bool, Vec<(usize, Vec<u8>)>)> {
    graph
        .states
        .iter()
        .map(|s| {
            (
                s.state_id,
                s.state_type == StateType::Accept,
                s.transitions.iter().map(|t| (t.dest, t.bytes.to_vec())).collect(),
            )
        })
        .collect()
}

#[test]
fn simple_pattern_gives_four_states() {
    let graph = create_dfa_graph_from_regex("a[bc]+d").unwrap();
    assert_eq!(
        shape(&graph),
        vec![
            (0, false, vec![(1, vec![97])]),
            (1, false, vec![(2, vec![98, 99])]),
            (2, false, vec![(2, vec![98, 99]), (3, vec![100])]),
            (3, true, vec![]),
        ]
    );
}

#[test]
fn build_reads_the_printed_automaton() {
    let from_pattern = create_dfa_graph_from_regex("a[bc]+d").unwrap();
    let from_dump = convert_dfa_to_graph(&dump_of("^a[bc]+d$")).unwrap();
    assert_eq!(shape(&from_pattern), shape(&from_dump));
}

#[test]
fn hand_written_dump_is_read() {
    let dump = "dense::DFA(\nD 000000: \nQ 000001: \n *000002: \n  000003: a => 4\n  000004: b-c => 5\n  000005: b-c => 5, d => 6\n  000006: EOI => 2\n\nSTART-GROUP(anchored)\n  NonWordByte => 000003\n  WordByte => 000003\n  Text => 000003\n  LineLF => 000003\n  LineCR => 000003\n  CustomLineTerminator => 000003\nstate length: 7\npattern length: 1\n)\n";
    let graph = convert_dfa_to_graph(dump).unwrap();
    assert_eq!(
        shape(&graph),
        vec![
            (0, false, vec![(1, vec![97])]),
            (1, false, vec![(2, vec![98, 99])]),
            (2, false, vec![(2, vec![98, 99]), (3, vec![100])]),
            (3, true, vec![]),
        ]
    );
}

#[test]
fn dump_without_a_start_state_is_a_parse_error() {
    let dump = "dense::DFA(\n  000003: a => 4\n  000004: EOI => 2\n)\n";
    assert!(matches!(convert_dfa_to_graph(dump), Err(CompilerError::ParseError(_))));
}

#[test]
fn dump_with_a_dangling_arrow_breaks_the_invariant() {
    let dump = "  000003: a => 4\n  000004: b => 9\n\nSTART-GROUP(anchored)\n  Text => 000003\n";
    assert!(matches!(convert_dfa_to_graph(dump), Err(CompilerError::GraphInvariantError(_))));
}

#[test]
fn dump_without_states_breaks_the_invariant() {
    let dump = "START-GROUP(anchored)\n  Text => 000003\n";
    assert!(matches!(convert_dfa_to_graph(dump), Err(CompilerError::GraphInvariantError(_))));
}

#[test]
fn refused_pattern_is_a_build_error_that_names_it() {
    match create_dfa_graph_from_regex("a(") {
        Err(CompilerError::BuildError { regex, source: _ }) => assert_eq!(regex, "a("),
        other => panic!("expected a build error, got {:?}", other.map(|g| shape(&g))),
    }
}

#[test]
fn build_twice_gives_the_same_graph() {
    for pattern in ["a[bc]+d", "^[a-zA-Z]+[0-9]*@gmail\\.com$", "(ab|cd)*e?", "x{2,4}"] {
        let first = create_dfa_graph_from_regex(pattern).unwrap();
        let second = create_dfa_graph_from_regex(pattern).unwrap();
        assert_eq!(format!("{:?}", first), format!("{:?}", second));
    }
}

#[test]
fn built_graphs_keep_the_invariant() {
    for pattern in ["a[bc]+d", "^[a-zA-Z]+[0-9]*@gmail\\.com$", "(ab|cd)*e?", "[ -~]+", "a\\\\b", "\\x00a"] {
        let graph = create_dfa_graph_from_regex(pattern).unwrap();
        assert!(graph.check().is_ok(), "{}", pattern);
        let n = graph.states.len();
        for (i, state) in graph.states.iter().enumerate() {
            assert_eq!(state.state_id, i);
            let mut seen = [false; 256];
            for t in &state.transitions {
                assert!(t.dest < n);
                for b in t.bytes.to_vec() {
                    assert!(!seen[b as usize]);
                    seen[b as usize] = true;
                }
            }
        }
    }
}

#[test]
fn start_state_is_state_zero() {
    let graph = create_dfa_graph_from_regex("ab").unwrap();
    assert_eq!(graph.states[0].transitions[0].bytes.to_vec(), vec![b'a']);
    assert!(graph.matches(b"ab"));
    assert!(!graph.matches(b"b"));
}

#[test]
fn email_pattern_has_thirteen_states() {
    let graph = create_dfa_graph_from_regex("^[a-zA-Z]+[0-9]*@gmail\\.com$").unwrap();
    assert_eq!(graph.states.len(), 13);
    assert_eq!(graph.states[0].transitions.len(), 1);
    assert_eq!(graph.states[0].transitions[0].dest, 1);
    assert_eq!(graph.states[0].transitions[0].bytes.to_vec().len(), 52);
    assert_eq!(graph.states[1].transitions.len(), 3);
    assert_eq!(graph.states[1].transitions[1].dest, 2);
    assert_eq!(graph.states[1].transitions[1].bytes.to_vec(), (b'0'..=b'9').collect::<Vec<u8>>());
    assert_eq!(graph.states[1].transitions[2].bytes.to_vec(), vec![b'@']);
    assert_eq!(graph.states[12].state_type, StateType::Accept);
}

#[test]
fn escapes_and_space_become_bytes() {
    let graph = create_dfa_graph_from_regex("a b\\tc\\nd\\\\e'f\"g").unwrap();
    assert!(graph.matches(b"a b\tc\nd\\e'f\"g"));
    assert!(!graph.matches(b"a b\tc\nd\\e'f\"h"));
    let ranges = create_dfa_graph_from_regex("[ -/]x").unwrap();
    assert_eq!(ranges.states[0].transitions[0].bytes.to_vec(), (b' '..=b'/').collect::<Vec<u8>>());
}

#[test]
fn compiled_regex_keeps_pattern_anchor_and_substrings() {
    let defs = SubstringDefinitionsJson { transitions: vec![vec![(2, 3), (1, 2), (2, 3), (1, 1)]] };
    let compiled = create_regex_and_dfa_from_str_and_defs("a[bc]+d$", defs).unwrap();
    assert_eq!(compiled.regex_pattern, "a[bc]+d$");
    assert!(compiled.has_end_anchor);
    assert_eq!(compiled.dfa.states.len(), 4);
    assert_eq!(compiled.substrings.substring_ranges, vec![vec![(1, 1), (1, 2), (2, 3)]]);
    assert!(compiled.substrings.substring_boundaries.is_none());
    let plain = create_regex_and_dfa_from_str_and_defs(
        "a[bc]+d",
        SubstringDefinitionsJson { transitions: vec![] },
    )
    .unwrap();
    assert!(!plain.has_end_anchor);
    assert!(plain.substrings.substring_ranges.is_empty());
}

#[test]
fn pairs_are_sorted_and_kept_once() {
    assert_eq!(sorted_pairs(&vec![(3, 1), (1, 9), (3, 0), (1, 9)]), vec![(1, 9), (3, 0), (3, 1)]);
    assert_eq!(sorted_pairs(&vec![]), vec![]);
}

#[test]
fn alternation_at_the_top_leaves_the_anchors_to_one_branch_each() {
    for pattern in ["a|", "abc|d", "a|b"] {
        assert!(
            matches!(
                create_dfa_graph_from_regex(pattern),
                Err(CompilerError::GraphInvariantError(_))
            ),
            "{:?}",
            pattern
        );
    }
    let grouped = create_dfa_graph_from_regex("(a|)").unwrap();
    assert!(grouped.matches(b"a") && grouped.matches(b"") && !grouped.matches(b"aa"));
}

#[test]
fn unusual_labels_are_read() {
    for (pattern, yes, no) in [
        ("=", "=", "=="),
        ("=>", "=>", "="),
        ("[=>]+", "=>>=", "=-"),
        ("a-b", "a-b", "ab"),
        ("[:-=]x", "=x", ">x"),
        ("[+-.]", "-", "/"),
        ("a: b => c", "a: b => c", "a: b = c"),
        ("a,b", "a,b", "a, b"),
        ("é", "é", "e"),
        ("", "", " "),
        ("\\d+", "12", "1a"),
    ] {
        let graph = create_dfa_graph_from_regex(pattern).unwrap();
        assert!(graph.matches(yes.as_bytes()), "{:?} on {:?}", pattern, yes);
        assert!(!graph.matches(no.as_bytes()), "{:?} on {:?}", pattern, no);
    }
}

#[test]
fn escaped_dollar_is_no_end_anchor() {
    let cases = [
        ("a$", true),
        ("a\\$", false),
        ("a\\\\$", true),
        ("a\\\\\\$", false),
        ("$", true),
        ("\\$", false),
        ("", false),
        ("a", false),
        ("$a", false),
        ("a\\", false),
    ];
    for (pattern, expected) in cases {
        assert_eq!(has_end_anchor(pattern), expected, "{:?}", pattern);
    }
    let literal = create_regex_and_dfa_from_str_and_defs(
        "a\\$",
        SubstringDefinitionsJson { transitions: vec![] },
    )
    .unwrap();
    assert_eq!(literal.regex_pattern, "a\\$");
    assert!(!literal.has_end_anchor);
    assert!(literal.dfa.matches(b"a$") && !literal.dfa.matches(b"a"));
    let anchor = create_regex_and_dfa_from_str_and_defs(
        "a\\\\$",
        SubstringDefinitionsJson { transitions: vec![] },
    )
    .unwrap();
    assert!(anchor.has_end_anchor);
    assert!(anchor.dfa.matches(b"a\\") && !anchor.dfa.matches(b"a\\$"));
}

#[test]
fn dangling_arrow_to_a_small_number_breaks_the_invariant() {
    let dump = "  000010: a => 11, b => 1\n  000011: c => 11\n\nSTART-GROUP(anchored)\n  Text => 000010\n";
    match convert_dfa_to_graph(dump) {
        Err(CompilerError::GraphInvariantError(m)) => {
            assert_eq!(m, "an arrow leads to a state that the automaton does not print")
        }
        other => panic!("expected an invariant error, got {:?}", other.map(|g| shape(&g))),
    }
    let unreachable = "  000010: a => 11\n  000011: c => 11, EOI => 0\n  000012: d => 1\n\nSTART-GROUP(anchored)\n  Text => 000010\n";
    let graph = convert_dfa_to_graph(unreachable).unwrap();
    assert_eq!(graph.states.len(), 2);
    assert!(graph.matches(b"acc"));
}

#[test]
fn unreadable_dumps_carry_the_message_of_the_first_failure() {
    let text = |r: Result<DFAGraph, CompilerError>| match r {
        Err(CompilerError::ParseError(m)) => m,
        other => panic!("expected a parse error, got {:?}", other.map(|g| shape(&g))),
    };
    assert_eq!(text(convert_dfa_to_graph("  000003: a => 4\n")), "Failed to find start state");
    assert_eq!(
        text(convert_dfa_to_graph("  99999999999999999999999: a => 4\n")),
        "Failed to parse state ID"
    );
    assert_eq!(
        text(convert_dfa_to_graph(
            "  000003: ab => 3\n\nSTART-GROUP(anchored)\n  Text => 000003\n"
        )),
        "Invalid character: ab"
    );
}
