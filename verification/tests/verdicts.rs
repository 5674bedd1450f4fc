use regex_circuit::arkworks::synthesize;
use regex_circuit::byte_set::ByteSet;
use regex_circuit::circuit::{evaluate, fixed_length_verdict, pad, padded_verdict, uses_byte};
use regex_circuit::compile::create_dfa_graph_from_regex;
use regex_circuit::errors::CompilerError;
use regex_circuit::metrics::min_accept_distance;
use regex_circuit::structs::{DFAGraph, DFAStateNode, StateType, Transition};

fn valid(pattern: &str, input: &[u8], max_len: usize) -> bool {
    let graph = create_dfa_graph_from_regex(pattern).unwrap();
    let witness = pad(input, max_len).unwrap();
    evaluate(&graph, &witness)
}

fn final_state(graph: &DFAGraph, input: &[u8]) -> Option<usize> {
    let mut state = 0;
    for b in input {
        state = graph.next_state(state, *b)?;
    }
    Some(state)
}

#[test]
fn repeated_class_bytes_are_valid() {
    assert!(valid("a[bc]+d", b"abcbcd", 8));
    let graph = create_dfa_graph_from_regex("a[bc]+d").unwrap();
    let last = final_state(&graph, b"abcbcd").unwrap();
    assert_eq!(graph.states[last].state_type, StateType::Accept);
    assert_eq!(last, 3);
}

#[test]
fn single_class_byte_is_valid() {
    assert!(valid("a[bc]+d", b"abd", 8));
}

#[test]
fn missing_class_byte_is_invalid() {
    assert!(!valid("a[bc]+d", b"ad", 8));
    let graph = create_dfa_graph_from_regex("a[bc]+d").unwrap();
    assert_eq!(graph.next_state(1, b'd'), None);
}

#[test]
fn trailing_byte_after_the_match_is_invalid() {
    let pattern = "^[a-zA-Z]+[0-9]*@gmail\\.com$";
    assert!(valid(pattern, b"abc123@gmail.com", 256));
    assert!(!valid(pattern, b"abc123@gmail.comX", 256));
    let graph = create_dfa_graph_from_regex(pattern).unwrap();
    let accept = final_state(&graph, b"abc123@gmail.com").unwrap();
    assert_eq!(graph.states[accept].state_type, StateType::Accept);
    assert_eq!(graph.next_state(accept, b'X'), None);
}

#[test]
fn nul_byte_is_refused_as_input() {
    assert_eq!(pad(b"ab\0d", 8), None);
    assert_eq!(pad(b"\0", 8), None);
    let graph = create_dfa_graph_from_regex("a[bc]+d").unwrap();
    assert_eq!(padded_verdict(&graph, b"ab\0d", 8), None);
    assert_eq!(padded_verdict(&graph, b"abd", 8), Some(true));
}

#[test]
fn pattern_that_needs_the_nul_byte_is_refused_by_synthesis() {
    let graph = create_dfa_graph_from_regex("a\\x00b").unwrap();
    assert!(uses_byte(&graph, 0));
    assert!(!uses_byte(&graph, b'c'));
    assert!(matches!(
        synthesize(&graph, "RegexCircuit", "a\\x00b", false, 16),
        Err(CompilerError::GraphInvariantError(_))
    ));
    let fine = create_dfa_graph_from_regex("ab").unwrap();
    assert!(!uses_byte(&fine, 0));
    assert!(synthesize(&fine, "RegexCircuit", "ab", false, 16).is_ok());
}

#[test]
fn pad_fills_with_zeros_up_to_the_length() {
    assert_eq!(pad(b"ab", 4), Some(vec![97, 98, 0, 0]));
    assert_eq!(pad(b"", 2), Some(vec![0, 0]));
    assert_eq!(pad(b"abc", 3), Some(vec![97, 98, 99]));
    assert_eq!(pad(b"abcd", 3), None);
    assert_eq!(pad(b"", 0), Some(vec![]));
}

#[test]
fn padded_program_agrees_with_the_native_matcher() {
    let cases: [(&str, &[&str]); 5] = [
        ("a[bc]+d", &["abd", "acd", "abcbcd", "ad", "a", "", "abcd", "abdd", "xabd", "abde", "bcd"]),
        (
            "^[a-zA-Z]+[0-9]*@gmail\\.com$",
            &["abc123@gmail.com", "a@gmail.com", "1@gmail.com", "abc@gmailXcom", "abc123@gmail.comX", "@gmail.com", "Zz9@gmail.com"],
        ),
        ("(ab|cd)*e?", &["", "e", "ab", "abcd", "abcde", "abe", "ae", "ee", "cdab", "abc"]),
        ("x{2,4}", &["x", "xx", "xxx", "xxxx", "xxxxx", ""]),
        ("[ -~]*\\\\n", &["\\n", "abc\\n", "\\", "n", " ~\\n", "a\\nb"]),
    ];
    for (pattern, inputs) in cases {
        let graph = create_dfa_graph_from_regex(pattern).unwrap();
        let native = regex::Regex::new(&format!("^(?:{})$", pattern)).unwrap();
        for input in inputs {
            let expected = native.is_match(input);
            assert_eq!(graph.matches(input.as_bytes()), expected, "{} on {:?}", pattern, input);
            assert_eq!(
                padded_verdict(&graph, input.as_bytes(), 32),
                Some(expected),
                "{} on {:?}",
                pattern,
                input
            );
            assert_eq!(evaluate(&graph, &pad(input.as_bytes(), 32).unwrap()), expected);
        }
    }
}

#[test]
fn input_longer_than_the_program_is_no_witness() {
    let graph = create_dfa_graph_from_regex("a[bc]+d").unwrap();
    assert_eq!(padded_verdict(&graph, b"abcbcbcbcd", 8), None);
    assert_eq!(padded_verdict(&graph, b"abcbcbcd", 8), Some(true));
}

#[test]
fn evaluate_takes_any_wire_values() {
    let graph = create_dfa_graph_from_regex("a[bc]+d").unwrap();
    assert!(evaluate(&graph, &[97, 98, 100, 0, 0]));
    assert!(!evaluate(&graph, &[97, 98, 100, 0, 97]));
    assert!(!evaluate(&graph, &[97, 98, 100 + 256, 0, 0]));
    assert!(!evaluate(&graph, &[97, 98, 1 << 40, 100]));
    assert!(!evaluate(&graph, &[]));
    assert!(evaluate(&graph, &[97, 0, 98, 0, 100]));
}

#[test]
fn least_accepting_distance_is_the_shortest_match() {
    let cases = [
        ("a[bc]+d", 3),
        ("^[a-zA-Z]+[0-9]*@gmail\\.com$", 11),
        ("(ab|cd)*e?", 0),
        ("x{2,4}", 2),
        ("(abc|d)", 1),
    ];
    for (pattern, expected) in cases {
        let graph = create_dfa_graph_from_regex(pattern).unwrap();
        assert_eq!(min_accept_distance(&graph), expected, "{}", pattern);
    }
}

fn node(id: usize, accept: bool, edges: &[(usize, &[u8])]) -> DFAStateNode {
    DFAStateNode {
        state_type: if accept { StateType::Accept } else { StateType::Normal },
        state_id: id,
        transitions: edges
            .iter()
            .map(|(dest, bytes)| Transition { dest: *dest, bytes: ByteSet::from_slice(bytes) })
            .collect(),
    }
}

#[test]
fn least_accepting_distance_without_accept_state_is_the_state_count() {
    let graph = DFAGraph {
        states: vec![node(0, false, &[(1, b"a")]), node(1, false, &[(0, b"b")]), node(2, true, &[])],
    };
    assert_eq!(min_accept_distance(&graph), 3);
    assert_eq!(min_accept_distance(&DFAGraph { states: vec![] }), 0);
    let lone = DFAGraph { states: vec![node(0, true, &[])] };
    assert_eq!(min_accept_distance(&lone), 0);
}

#[test]
fn least_accepting_distance_takes_the_shorter_of_two_paths() {
    let graph = DFAGraph {
        states: vec![
            node(0, false, &[(1, b"a"), (3, b"b")]),
            node(1, false, &[(2, b"a")]),
            node(2, false, &[(4, b"a")]),
            node(3, false, &[(4, b"a")]),
            node(4, true, &[]),
        ],
    };
    assert_eq!(min_accept_distance(&graph), 2);
}

#[test]
fn nothing_shorter_than_the_least_distance_matches() {
    for pattern in ["a[bc]+d", "x{2,4}", "(abc|d)", "(ab|cd)*e?"] {
        let graph = create_dfa_graph_from_regex(pattern).unwrap();
        let d = min_accept_distance(&graph);
        for input in ["", "a", "d", "x", "ab", "xx", "abd", "abc", "e", "abcd"] {
            if graph.matches(input.as_bytes()) {
                assert!(input.len() >= d);
            }
            if input.len() < d {
                assert!(!fixed_length_verdict(&graph, input.as_bytes()));
            }
        }
    }
}

#[test]
fn fixed_length_program_bounds_the_length() {
    let graph = create_dfa_graph_from_regex("a[bc]+d").unwrap();
    assert!(fixed_length_verdict(&graph, b"abd"));
    assert!(fixed_length_verdict(&graph, b"abcd"));
    assert!(!fixed_length_verdict(&graph, b"abcbd"));
    assert!(!fixed_length_verdict(&graph, b"ad"));
    assert!(!fixed_length_verdict(&graph, b"abx"));
}

#[test]
fn check_names_each_broken_invariant() {
    let good = DFAGraph { states: vec![node(0, false, &[(1, b"ab")]), node(1, true, &[])] };
    assert!(good.check().is_ok());
    let wrong_id = DFAGraph { states: vec![node(1, false, &[])] };
    let dangling = DFAGraph { states: vec![node(0, false, &[(1, b"a")])] };
    let overlap = DFAGraph {
        states: vec![node(0, false, &[(0, b"ab"), (1, b"bc")]), node(1, true, &[])],
    };
    let empty_set = DFAGraph { states: vec![node(0, false, &[(0, b"")])] };
    let unordered = DFAGraph {
        states: vec![node(0, false, &[(1, b"a"), (0, b"b")]), node(1, true, &[])],
    };
    let twice = DFAGraph {
        states: vec![node(0, false, &[(1, b"a"), (1, b"b")]), node(1, true, &[])],
    };
    let none = DFAGraph { states: vec![] };
    for bad in [wrong_id, dangling, overlap, empty_set, unordered, twice, none] {
        assert!(matches!(bad.check(), Err(CompilerError::GraphInvariantError(_))));
        assert!(matches!(
            synthesize(&bad, "C", "p", false, 4),
            Err(CompilerError::GraphInvariantError(_))
        ));
    }
}

#[test]
fn broken_invariants_say_what_is_wrong_first() {
    let fault = |g: &DFAGraph| match g.check() {
        Err(CompilerError::GraphInvariantError(m)) => m,
        other => panic!("expected an invariant error, got {:?}", other),
    };
    assert_eq!(fault(&DFAGraph { states: vec![] }), "the graph has no start state");
    assert_eq!(
        fault(&DFAGraph { states: vec![node(1, false, &[])] }),
        "a state does not carry its own index"
    );
    assert_eq!(
        fault(&DFAGraph { states: vec![node(0, false, &[(1, b"a")])] }),
        "a transition leads to a state that does not exist"
    );
    assert_eq!(
        fault(&DFAGraph {
            states: vec![node(0, false, &[(1, b"a"), (0, b"b")]), node(1, true, &[])]
        }),
        "the transitions of a state are not ordered by destination"
    );
    assert_eq!(
        fault(&DFAGraph { states: vec![node(0, false, &[(0, b"")])] }),
        "a transition has no byte"
    );
    assert_eq!(
        fault(&DFAGraph {
            states: vec![node(0, false, &[(0, b"ab"), (1, b"bc")]), node(1, true, &[])]
        }),
        "two transitions of a state share a byte"
    );
    assert_eq!(
        fault(&DFAGraph {
            states: vec![node(0, false, &[(0, b"a"), (1, b""), (7, b"a")]), node(1, true, &[])]
        }),
        "a transition has no byte"
    );
    let zero = DFAGraph { states: vec![node(0, true, &[(0, b"\0")])] };
    match synthesize(&zero, "C", "p", false, 4) {
        Err(CompilerError::GraphInvariantError(m)) => {
            assert_eq!(m, "a transition carries the zero byte, which is the padding")
        }
        other => panic!("expected an invariant error, got {:?}", other),
    }
    match synthesize(&DFAGraph { states: vec![] }, "C", "p", false, 4) {
        Err(CompilerError::GraphInvariantError(m)) => assert_eq!(m, "the graph has no start state"),
        other => panic!("expected an invariant error, got {:?}", other),
    }
}
