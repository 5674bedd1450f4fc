use regex_circuit::byte_set::ByteSet;
use regex_circuit::dump::{
    chars_before, find_start_state, handle_eoi_transitions, parse_states, parse_transition,
    put_edge, slice_chars, start_state_from_capture, state_from_match, state_of_match,
};
use regex_circuit::edges::{
    create_special_char_mappings, parse_char, process_edge, process_range_edge,
    process_single_edge, process_state_edges, same_chars,
};
use regex_circuit::errors::CompilerError;
use regex_circuit::renumber::{has_dangling_arrow, sort_and_rename_states};
use regex_circuit::structs::{DFAGraphInfo, DFAStateInfo, RawEdge, StateType, Transition};
use regex_circuit::text::{
    char_is_whitespace, failure_text, parse_hex_u8, parse_unsigned, parse_usize, to_chars,
    trim_bounds, NumberFailure,
};

fn chars(s: &str) -> Vec<char> {
    s.chars().collect()
}

fn raw(source: usize, accept: bool, edges: &[(&str, usize)]) -> DFAStateInfo {
    DFAStateInfo {
        source,
        typ: if accept { StateType::Accept } else { StateType::Normal },
        edges: edges.iter().map(|(l, d)| RawEdge { label: l.to_string(), dest: *d }).collect(),
    }
}

fn edges_of(state: &DFAStateInfo) -> Vec<(String, usize)> {
    state.edges.iter().map(|e| (e.label.clone(), e.dest)).collect()
}

fn pairs(expected: &[(&str, usize)]) -> Vec<(String, usize)> {
    expected.iter().map(|(l, d)| (l.to_string(), *d)).collect()
}

fn sets(ts: &Vec<Transition>) -> Vec<(usize, Vec<u8>)> {
    ts.iter().map(|t| (t.dest, t.bytes.to_vec())).collect()
}

fn groups(texts: &[Option<&str>]) -> Vec<Option<String>> {
    texts.iter().map(|t| t.map(|s| s.to_string())).collect()
}

#[test]
fn numbers_are_read_as_the_standard_library_reads_them() {
    for text in ["0", "7", "000003", "+5", "18446744073709551615", "18446744073709551616", "", "+", "-1", "12a", " 1", "1 ", "++1", "٣", "1_0"] {
        assert_eq!(parse_usize(&chars(text)), text.parse::<usize>().ok(), "{:?}", text);
    }
    for text in ["0", "ff", "FF", "7f", "100", "+a", "g", "", "0x1", "00000ff"] {
        assert_eq!(parse_hex_u8(&chars(text)), u8::from_str_radix(text, 16).ok(), "{:?}", text);
    }
    assert_eq!(parse_unsigned(&chars("zz"), 36, 2000), Ok(35 * 36 + 35));
    assert_eq!(parse_unsigned(&chars("zz"), 36, 1294), Err(NumberFailure::TooLarge));
    assert_eq!(parse_unsigned(&chars("101"), 2, 5), Ok(5));
    assert_eq!(parse_unsigned(&chars("102"), 2, 5), Err(NumberFailure::InvalidDigit));
    assert_eq!(parse_unsigned(&chars(""), 10, 5), Err(NumberFailure::Empty));
    assert_eq!(parse_unsigned(&chars("+"), 10, 5), Err(NumberFailure::InvalidDigit));
    assert_eq!(parse_unsigned(&chars("6x"), 10, 5), Err(NumberFailure::TooLarge));
}

#[test]
fn trimming_follows_unicode_whitespace() {
    for text in ["", " ", "a", "  a b \t\n", "\u{a0}x\u{3000}", "\u{200b}x", "x\u{85}", "\u{2028}\u{2029}"] {
        let v = chars(text);
        let (a, b) = trim_bounds(&v);
        let got: String = v[a..b].iter().collect();
        assert_eq!(got, text.trim(), "{:?}", text);
    }
    for c in ['\t', '\n', '\u{b}', '\u{c}', '\r', ' ', '\u{85}', '\u{a0}', '\u{1680}', '\u{2000}', '\u{200a}', '\u{2028}', '\u{2029}', '\u{202f}', '\u{205f}', '\u{3000}', 'a', '\u{200b}', '\u{8}', '\u{e}', '\u{1681}', '\u{feff}'] {
        assert_eq!(char_is_whitespace(c), c.is_whitespace(), "{:?}", c);
    }
    assert_eq!(to_chars("aé€"), vec!['a', 'é', '€']);
    assert_eq!(slice_chars(&chars("abcdef"), 2, 4), vec!['c', 'd']);
    assert_eq!(slice_chars(&chars("abc"), 3, 3), vec![]);
}

#[test]
fn texts_are_ordered_as_strings_are() {
    let words = ["", "a", "ab", "b", "B", "' '", "0-9", "\\x00", "a-z", "é", "EOI", "ab"];
    for x in words {
        for y in words {
            assert_eq!(chars_before(&chars(x), &chars(y)), x < y, "{:?} {:?}", x, y);
            assert_eq!(same_chars(&chars(x), &chars(y)), x == y);
        }
    }
}

#[test]
fn characters_of_labels_become_bytes() {
    let table = create_special_char_mappings();
    assert_eq!(table.len(), 10);
    let cases: [(&str, u8); 17] = [
        ("a", 97),
        ("~", 126),
        ("-", 45),
        ("\\n", 10),
        ("\\r", 13),
        ("\\t", 9),
        ("\\v", 11),
        ("\\f", 12),
        ("\\0", 0),
        ("\\\"", 34),
        ("\\'", 39),
        ("\\\\", 92),
        ("\\", 92),
        ("' '", 32),
        ("\\x41", 65),
        ("\\xFF", 255),
        ("\\xff", 255),
    ];
    for (text, byte) in cases {
        assert_eq!(parse_char(text, &table).ok(), Some(byte), "{:?}", text);
    }
    for text in ["", "ab", "\\x", "\\x100", "\\xg1", "é", "\\q", "''", "EOI"] {
        assert!(matches!(parse_char(text, &table), Err(CompilerError::ParseError(_))), "{:?}", text);
    }
    assert!(matches!(parse_char("ab", &vec![("ab", 7)]), Ok(7)));
    assert!(matches!(parse_char("a", &vec![("a", 7), ("a", 8)]), Ok(7)));
    assert!(matches!(parse_char("\\x41", &vec![("\\x41", 7)]), Ok(65)));
}

#[test]
fn single_edges_join_the_bytes_of_a_destination() {
    let table = create_special_char_mappings();
    let mut edges: Vec<Transition> = Vec::new();
    process_single_edge("b", 5, &mut edges, &table).unwrap();
    process_single_edge("a", 5, &mut edges, &table).unwrap();
    process_single_edge("z", 2, &mut edges, &table).unwrap();
    process_single_edge("\\n", 9, &mut edges, &table).unwrap();
    assert_eq!(sets(&edges), vec![(2, vec![122]), (5, vec![97, 98]), (9, vec![10])]);
    assert!(process_single_edge("zz", 1, &mut edges, &table).is_err());
    assert_eq!(sets(&edges), vec![(2, vec![122]), (5, vec![97, 98]), (9, vec![10])]);
}

#[test]
fn range_edges_add_every_byte_between_the_ends() {
    let table = create_special_char_mappings();
    let mut edges: Vec<Transition> = vec![Transition { dest: 3, bytes: ByteSet::from_slice(b"x") }];
    let capture = Some(groups(&[Some("a-d"), Some("a"), Some("d")]));
    process_range_edge(&capture, 3, &mut edges, &table).unwrap();
    assert_eq!(sets(&edges), vec![(3, vec![97, 98, 99, 100, 120])]);
    let hex = Some(groups(&[Some("\\x00-\\t"), Some("\\x00"), Some("\\t")]));
    process_range_edge(&hex, 1, &mut edges, &table).unwrap();
    assert_eq!(sets(&edges)[0], (1, (0..=9).collect::<Vec<u8>>()));
    let backwards = Some(groups(&[Some("d-a"), Some("d"), Some("a")]));
    process_range_edge(&backwards, 7, &mut edges, &table).unwrap();
    assert_eq!(sets(&edges)[2], (7, vec![]));
    let before = sets(&edges);
    for bad in [
        None,
        Some(groups(&[Some("a-d")])),
        Some(groups(&[Some("a-d"), None, Some("d")])),
        Some(groups(&[Some("a-d"), Some("a"), None])),
        Some(groups(&[Some("ab-d"), Some("ab"), Some("d")])),
        Some(groups(&[Some("a-dd"), Some("a"), Some("dd")])),
    ] {
        assert!(matches!(
            process_range_edge(&bad, 8, &mut edges, &table),
            Err(CompilerError::ParseError(_))
        ));
        assert_eq!(sets(&edges), before);
    }
}

#[test]
fn edges_are_ranges_where_the_range_pattern_matches() {
    let table = create_special_char_mappings();
    let mut edges: Vec<Transition> = Vec::new();
    process_edge("a-c", 1, &mut edges, &table).unwrap();
    process_edge("-", 2, &mut edges, &table).unwrap();
    process_edge("--0", 3, &mut edges, &table).unwrap();
    process_edge("+--", 4, &mut edges, &table).unwrap();
    process_edge("' '-/", 5, &mut edges, &table).unwrap();
    process_edge("\\x80-\\xFF", 6, &mut edges, &table).unwrap();
    process_edge(" ", 7, &mut edges, &table).unwrap();
    assert_eq!(
        sets(&edges),
        vec![
            (1, vec![97, 98, 99]),
            (2, vec![45]),
            (3, vec![45, 46, 47, 48]),
            (4, vec![43, 44, 45]),
            (5, (32..=47).collect::<Vec<u8>>()),
            (6, (128..=255).collect::<Vec<u8>>()),
            (7, vec![32]),
        ]
    );
    assert!(process_edge("EOI", 8, &mut edges, &table).is_err());
    assert!(process_edge("a-", 8, &mut edges, &table).is_err());
    assert_eq!(edges.len(), 7);
}

#[test]
fn state_edges_are_expanded_in_order() {
    let state = raw(0, false, &[("' '", 1), ("0-9", 2), ("A-Z", 1), ("\\x00", 3), ("_", 2)]);
    let ts = process_state_edges(&state.edges).unwrap();
    let mut one: Vec<u8> = vec![32];
    one.extend(b'A'..=b'Z');
    let mut two: Vec<u8> = (b'0'..=b'9').collect();
    two.push(b'_');
    assert_eq!(sets(&ts), vec![(1, one), (2, two), (3, vec![0])]);
    assert_eq!(process_state_edges(&vec![]).unwrap().len(), 0);
    let bad = raw(0, false, &[("a", 1), ("EOI", 2)]);
    assert!(matches!(process_state_edges(&bad.edges), Err(CompilerError::ParseError(_))));
}

#[test]
fn transitions_are_split_at_the_arrow() {
    let mut state = raw(3, false, &[]);
    parse_transition(&mut state, " b => 5").unwrap();
    parse_transition(&mut state, " a-z => 000004 ").unwrap();
    parse_transition(&mut state, " ' ' => 6").unwrap();
    parse_transition(&mut state, " = => 7").unwrap();
    parse_transition(&mut state, " b => 8").unwrap();
    parse_transition(&mut state, "EOI=>+2").unwrap();
    assert_eq!(
        edges_of(&state),
        pairs(&[("' '", 6), ("=", 7), ("EOI", 2), ("a-z", 4), ("b", 8)])
    );
    for bad in ["", "a 5", "a => b", "a => ", "a => 1 => 2", "a => 1=>", "a => -1", "a => 1.0"] {
        let before = edges_of(&state);
        assert!(
            matches!(parse_transition(&mut state, bad), Err(CompilerError::ParseError(_))),
            "{:?}",
            bad
        );
        assert_eq!(edges_of(&state), before);
    }
    assert_eq!(state.source, 3);
    assert_eq!(state.typ, StateType::Normal);
}

#[test]
fn backslash_in_third_place_is_dropped_unless_hexadecimal() {
    let mut state = raw(0, false, &[]);
    parse_transition(&mut state, " !-\\' => 1").unwrap();
    parse_transition(&mut state, " [-\\\\ => 2").unwrap();
    parse_transition(&mut state, " a-\\xFF => 3").unwrap();
    parse_transition(&mut state, " \\t-\\r => 4").unwrap();
    parse_transition(&mut state, " ab\\ => 5").unwrap();
    assert_eq!(
        edges_of(&state),
        pairs(&[("!-'", 1), ("[-\\", 2), ("\\t-\\r", 4), ("a-\\xFF", 3), ("ab", 5)])
    );
}

#[test]
fn put_edge_keeps_the_labels_in_order_and_once() {
    let mut edges: Vec<RawEdge> = Vec::new();
    for (label, dest) in [("m", 1), ("a", 2), ("z", 3), ("m", 4), ("", 5), ("ma", 6)] {
        put_edge(&mut edges, label.to_string(), dest);
    }
    let got: Vec<(String, usize)> = edges.iter().map(|e| (e.label.clone(), e.dest)).collect();
    assert_eq!(got, pairs(&[("", 5), ("a", 2), ("m", 4), ("ma", 6), ("z", 3)]));
}

#[test]
fn state_is_read_from_its_match() {
    let g = groups(&[Some("*000005: b-c => 5, d => 6"), Some("000005")]);
    let ts = vec![groups(&[Some(" b-c => 5")]), groups(&[Some(" d => 6")])];
    let state = state_from_match(&g, &ts).unwrap();
    assert_eq!(state.source, 5);
    assert_eq!(state.typ, StateType::Accept);
    assert_eq!(edges_of(&state), pairs(&[("b-c", 5), ("d", 6)]));
    let plain = state_from_match(&groups(&[Some("12: a => 1"), Some("12")]), &vec![]).unwrap();
    assert_eq!((plain.source, plain.typ, plain.edges.len()), (12, StateType::Normal, 0));
    for (g, ts) in [
        (groups(&[]), vec![]),
        (groups(&[Some("5: a => 1")]), vec![]),
        (groups(&[None, Some("5")]), vec![]),
        (groups(&[Some("5: a => 1"), None]), vec![]),
        (groups(&[Some("x: a => 1"), Some("x")]), vec![]),
        (groups(&[Some("5: a => 1"), Some("5")]), vec![groups(&[])]),
        (groups(&[Some("5: a => 1"), Some("5")]), vec![groups(&[None])]),
        (groups(&[Some("5: a => 1"), Some("5")]), vec![groups(&[Some(" a = 1")])]),
    ] {
        assert!(matches!(state_from_match(&g, &ts), Err(CompilerError::ParseError(_))));
    }
}

#[test]
fn state_of_match_finds_the_arrows_in_the_text() {
    let g = groups(&[Some("000005: b-c => 5, d => 6, = => 7"), Some("000005")]);
    let state = state_of_match(&g).unwrap();
    assert_eq!(edges_of(&state), pairs(&[("=", 7), ("b-c", 5), ("d", 6)]));
    assert!(state_of_match(&groups(&[])).is_err());
    assert!(state_of_match(&groups(&[None, Some("1")])).is_err());
}

#[test]
fn states_are_read_from_the_printed_automaton() {
    let dump = "D 000000: \nQ 000001: \n *000002: \n  000003: a => 4\n  000004: b-c => 5\n *000005: b-c => 5, d => 6\n  000006: EOI => 2\n";
    let mut info = DFAGraphInfo { states: vec![raw(99, false, &[])] };
    parse_states(dump, &mut info).unwrap();
    let got: Vec<(usize, StateType, Vec<(String, usize)>)> =
        info.states.iter().map(|s| (s.source, s.typ, edges_of(s))).collect();
    assert_eq!(
        got,
        vec![
            (99, StateType::Normal, pairs(&[])),
            (3, StateType::Normal, pairs(&[("a", 4)])),
            (4, StateType::Normal, pairs(&[("b-c", 5)])),
            (5, StateType::Accept, pairs(&[("b-c", 5), ("d", 6)])),
            (6, StateType::Normal, pairs(&[("EOI", 2)])),
        ]
    );
    let mut none = DFAGraphInfo { states: vec![] };
    parse_states("nothing here", &mut none).unwrap();
    assert!(none.states.is_empty());
}

#[test]
fn unreadable_state_stops_the_reading() {
    let dump = "  000003: a => 4\n  99999999999999999999999: b => 5\n  000005: c => 6\n";
    let mut info = DFAGraphInfo { states: vec![] };
    assert!(matches!(parse_states(dump, &mut info), Err(CompilerError::ParseError(_))));
    assert_eq!(info.states.len(), 1);
    assert_eq!(info.states[0].source, 3);
}

#[test]
fn end_of_input_arrows_become_accept_flags() {
    let mut info = DFAGraphInfo {
        states: vec![
            raw(3, false, &[("EOI", 2), ("a", 4)]),
            raw(4, false, &[("a", 4)]),
            raw(5, true, &[("EOI", 2)]),
            raw(6, true, &[]),
            raw(7, false, &[("EOI-x", 1), ("eoi", 2)]),
        ],
    };
    handle_eoi_transitions(&mut info);
    let got: Vec<(usize, StateType, Vec<(String, usize)>)> =
        info.states.iter().map(|s| (s.source, s.typ, edges_of(s))).collect();
    assert_eq!(
        got,
        vec![
            (3, StateType::Accept, pairs(&[("a", 4)])),
            (4, StateType::Normal, pairs(&[("a", 4)])),
            (5, StateType::Accept, pairs(&[])),
            (6, StateType::Accept, pairs(&[])),
            (7, StateType::Normal, pairs(&[("EOI-x", 1), ("eoi", 2)])),
        ]
    );
}

#[test]
fn start_state_is_the_anchored_text_start() {
    let dump = "  000003: a => 4\n\nSTART-GROUP(anchored)\n  NonWordByte => 000007\n  WordByte => 000008\n  Text => 000003\n  LineLF => 000009\nstate length: 7\n";
    assert_eq!(find_start_state(dump).ok(), Some(3));
    assert!(matches!(find_start_state("START-GROUP(unanchored)\n  Text => 3\n"), Err(CompilerError::ParseError(_))));
    assert!(matches!(find_start_state(""), Err(CompilerError::ParseError(_))));
    assert_eq!(start_state_from_capture(&Some(groups(&[Some("whole"), Some("000012")]))).ok(), Some(12));
    for bad in [None, Some(groups(&[])), Some(groups(&[Some("w")])), Some(groups(&[Some("w"), None])), Some(groups(&[Some("w"), Some("x")]))] {
        assert!(matches!(start_state_from_capture(&bad), Err(CompilerError::ParseError(_))));
    }
}

#[test]
fn states_are_numbered_in_breadth_first_order() {
    let info = DFAGraphInfo {
        states: vec![
            raw(10, false, &[("a", 30), ("b", 20)]),
            raw(20, false, &[("x", 40)]),
            raw(30, true, &[("x", 10), ("y", 40), ("z", 77)]),
            raw(40, false, &[("q", 40)]),
            raw(50, false, &[("q", 10)]),
            raw(30, false, &[("never", 50)]),
        ],
    };
    let sorted = sort_and_rename_states(&info, 10);
    let got: Vec<(usize, StateType, Vec<(String, usize)>)> =
        sorted.states.iter().map(|s| (s.source, s.typ, edges_of(s))).collect();
    assert_eq!(
        got,
        vec![
            (0, StateType::Normal, pairs(&[("a", 1), ("b", 2)])),
            (1, StateType::Accept, pairs(&[("x", 0), ("y", 3), ("z", 77)])),
            (2, StateType::Normal, pairs(&[("x", 3)])),
            (3, StateType::Normal, pairs(&[("q", 3)])),
        ]
    );
    assert!(sort_and_rename_states(&info, 5).states.is_empty());
    let from_last = sort_and_rename_states(&info, 50);
    assert_eq!(from_last.states.len(), 5);
    assert_eq!(edges_of(&from_last.states[0]), pairs(&[("q", 1)]));
}

#[test]
fn byte_sets_hold_their_members_in_order() {
    let mut set = ByteSet::new();
    assert!(set.is_empty());
    set.insert(200);
    set.insert(3);
    set.insert(200);
    set.insert_range(10, 12);
    set.insert_range(9, 8);
    assert_eq!(set.to_vec(), vec![3, 10, 11, 12, 200]);
    assert!(set.contains(11) && !set.contains(13) && !set.is_empty());
    let other = ByteSet::from_slice(&[13, 255, 0]);
    assert!(set.is_disjoint(&other));
    assert!(!set.is_disjoint(&ByteSet::from_slice(&[12])));
    let mut all = ByteSet::new();
    all.insert_range(0, 255);
    assert_eq!(all.to_vec().len(), 256);
    assert_eq!(set.clone().to_vec(), set.to_vec());
}

fn message<T>(r: Result<T, CompilerError>) -> String {
    match r {
        Err(CompilerError::ParseError(m)) => m,
        Err(other) => panic!("expected a parse error, got {:?}", other),
        Ok(_) => panic!("expected a parse error, got a value"),
    }
}

#[test]
fn unreadable_characters_say_what_is_wrong() {
    let table = create_special_char_mappings();
    assert_eq!(message(parse_char("ab", &table)), "Invalid character: ab");
    assert_eq!(message(parse_char("", &table)), "Invalid character: ");
    assert_eq!(message(parse_char("é", &table)), "Invalid character: é");
    for digits in ["", "g1", "100", "+", "1g", "fff"] {
        let expected = u8::from_str_radix(digits, 16).unwrap_err().to_string();
        assert_eq!(message(parse_char(&format!("\\x{}", digits), &table)), expected, "{:?}", digits);
    }
    assert_eq!(failure_text(NumberFailure::Empty), "cannot parse integer from empty string");
    assert_eq!(failure_text(NumberFailure::InvalidDigit), "invalid digit found in string");
    assert_eq!(failure_text(NumberFailure::TooLarge), "number too large to fit in target type");
}

#[test]
fn unreadable_edges_say_what_is_wrong() {
    let table = create_special_char_mappings();
    let mut edges: Vec<Transition> = Vec::new();
    assert_eq!(message(process_single_edge("zz", 1, &mut edges, &table)), "Invalid character: zz");
    assert_eq!(message(process_range_edge(&None, 1, &mut edges, &table)), "Failed to capture range");
    assert_eq!(
        message(process_range_edge(&Some(groups(&[Some("a-d")])), 1, &mut edges, &table)),
        "Failed to capture range"
    );
    assert_eq!(
        message(process_range_edge(
            &Some(groups(&[Some("ab-cd"), Some("ab"), Some("cd")])),
            1,
            &mut edges,
            &table
        )),
        "Invalid character: ab"
    );
    assert_eq!(
        message(process_range_edge(
            &Some(groups(&[Some("a-cd"), Some("a"), Some("cd")])),
            1,
            &mut edges,
            &table
        )),
        "Invalid character: cd"
    );
    assert_eq!(message(process_edge("EOI", 1, &mut edges, &table)), "Invalid character: EOI");
    assert_eq!(message(process_edge("a-\\x", 1, &mut edges, &table)), "cannot parse integer from empty string");
    let state = raw(0, false, &[("a", 1), ("bad", 2), ("worse", 3)]);
    assert_eq!(message(process_state_edges(&state.edges)), "Invalid character: bad");
    assert!(edges.is_empty());
}

#[test]
fn unreadable_transitions_say_what_is_wrong() {
    let mut state = raw(0, false, &[("b", 1)]);
    for text in [" a 3", " a => 1 => 2", "", "=>=>"] {
        assert_eq!(message(parse_transition(&mut state, text)), "Invalid transition format", "{:?}", text);
    }
    for text in [" a => x", " a => ", "a=>-1", " a => 99999999999999999999999"] {
        assert_eq!(
            message(parse_transition(&mut state, text)),
            "Failed to parse destination state",
            "{:?}",
            text
        );
    }
    assert_eq!(edges_of(&state), pairs(&[("b", 1)]));
}

#[test]
fn unreadable_states_say_what_is_wrong() {
    let ok = groups(&[Some("5: a => 1"), Some("5")]);
    assert_eq!(message(state_from_match(&groups(&[]), &vec![])), "Failed to parse state ID");
    assert_eq!(message(state_from_match(&groups(&[Some("x: a => 1"), Some("x")]), &vec![])), "Failed to parse state ID");
    assert_eq!(message(state_from_match(&ok, &vec![groups(&[])])), "Invalid transition format");
    assert_eq!(message(state_from_match(&ok, &vec![groups(&[Some(" a = 1")])])), "Invalid transition format");
    assert_eq!(
        message(state_from_match(&ok, &vec![groups(&[Some(" a => 1")]), groups(&[Some(" a => z")])])),
        "Failed to parse destination state"
    );
    assert_eq!(message(state_of_match(&groups(&[]))), "Failed to parse state ID");
    let mut info = DFAGraphInfo { states: vec![] };
    assert_eq!(
        message(parse_states("  3: a => 4\n  99999999999999999999999: b => 5\n", &mut info)),
        "Failed to parse state ID"
    );
}

#[test]
fn missing_start_state_says_so() {
    assert_eq!(message(find_start_state("")), "Failed to find start state");
    assert_eq!(
        message(find_start_state("START-GROUP(anchored)\n  NonWordByte => 5\n")),
        "Failed to find start state"
    );
    assert_eq!(
        find_start_state("START-GROUP(anchored)\n  NonWordByte => 5\n  Text => 7\n").ok(),
        Some(7)
    );
    assert_eq!(message(start_state_from_capture(&None)), "Failed to find start state");
    assert_eq!(
        message(start_state_from_capture(&Some(groups(&[Some("w"), Some("x")])))),
        "Failed to find start state"
    );
}

#[test]
fn arrows_stay_in_the_order_of_their_labels() {
    let dump = "  000003: z => 4, a => 4, m-n => 3, ' ' => 4, EOI => 2\n  000004: b => 3, a => 4\n";
    let mut info = DFAGraphInfo { states: vec![] };
    parse_states(dump, &mut info).unwrap();
    handle_eoi_transitions(&mut info);
    let sorted = sort_and_rename_states(&info, 3);
    for state in info.states.iter().chain(sorted.states.iter()) {
        let labels: Vec<&String> = state.edges.iter().map(|e| &e.label).collect();
        for pair in labels.windows(2) {
            assert!(pair[0] < pair[1], "{:?}", labels);
        }
    }
    assert_eq!(edges_of(&sorted.states[0]), pairs(&[("' '", 1), ("a", 1), ("m-n", 0), ("z", 1)]));
}

#[test]
fn dangling_arrows_are_found_where_the_walk_comes() {
    let info = DFAGraphInfo {
        states: vec![
            raw(10, false, &[("a", 11), ("b", 1)]),
            raw(11, false, &[("c", 11)]),
            raw(12, false, &[("d", 99)]),
        ],
    };
    assert!(has_dangling_arrow(&info, 10));
    assert!(!has_dangling_arrow(&info, 11));
    assert!(has_dangling_arrow(&info, 12));
    assert!(!has_dangling_arrow(&info, 5));
}
