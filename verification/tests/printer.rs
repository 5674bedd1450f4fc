use regex_circuit::arkworks::{
    gen_arkworks_allstr, generate_accept_logic_arkworks, generate_declarations_arkworks,
    generate_init_code_arkworks, generate_state_transition_logic_arkworks, synthesize,
};
use regex_circuit::byte_set::ByteSet;
use regex_circuit::compile::create_dfa_graph_from_regex;
use regex_circuit::handlers::{
    handle_char_class_rule, handle_plus_rule, handle_question_mark_rule, handle_star_rule,
};
use regex_circuit::structs::{DFAGraph, StateType};
use regex_circuit::text::{join_lines, indented, push_decimal, put_space};

fn expected_transition_logic(graph: &DFAGraph) -> Vec<String> {
    let mut lines = vec![
        "    // 현재 상태 초기화".to_string(),
        "    let mut current_state = FpVar::constant(F::from(0u64));".to_string(),
        "    // 각 입력 인덱스에 대한 전이 로직".to_string(),
        "    for (index, current_input) in input_vars.iter().enumerate() {".to_string(),
        "      let is_padded = current_input.is_eq(&FpVar::constant(F::from(0u64)))?;".to_string(),
        "      let cond_padded = is_padded.not();".to_string(),
        "      let mut next_state = current_state.clone();".to_string(),
        "      let mut has_transitioned = Boolean::constant(false);".to_string(),
    ];
    let mut counter = 0;
    for state in &graph.states {
        let from = state.state_id;
        lines.push(format!(
            "      let is_state_{} = current_state.is_eq(&FpVar::constant(F::from({}u64)))?;",
            from, from
        ));
        for t in &state.transitions {
            counter += 1;
            let conditions: Vec<String> = t
                .bytes
                .to_vec()
                .iter()
                .map(|c| format!("current_input.is_eq(&FpVar::constant(F::from({}u64)))?", c))
                .collect();
            let mut combined = conditions[0].clone();
            for condition in &conditions[1..] {
                combined = format!("{}.or(&{})?", combined, condition);
            }
            lines.push(format!("      let cond_{} = is_state_{}.and(&({}))?;", counter, from, combined));
            lines.push(format!(
                "      next_state = cond_{}.select(&FpVar::constant(F::from({}u64)), &next_state)?;",
                counter, t.dest
            ));
            lines.push(format!("      has_transitioned = has_transitioned.or(&cond_{})?;", counter));
        }
    }
    lines.push("      let invalid_transition = cond_padded.and(&has_transitioned.not())?;".to_string());
    lines.push("      valid = valid.and(&invalid_transition.not())?;".to_string());
    lines.push("      current_state = next_state;".to_string());
    lines.push("    }".to_string());
    lines
}

fn expected_accept_logic(graph: &DFAGraph) -> Vec<String> {
    let mut lines = vec![
        "    // Acceptance logic".to_string(),
        "    let mut is_accepting = Boolean::constant(false);".to_string(),
    ];
    for state in &graph.states {
        if state.state_type == StateType::Accept {
            lines.push(format!(
                "    is_accepting = is_accepting.or(&current_state.is_eq(&FpVar::constant(F::from({}u64)))?)?;",
                state.state_id
            ));
        }
    }
    lines.push("    valid = valid.and(&is_accepting)?;".to_string());
    lines.push("    valid.enforce_equal(&Boolean::constant(true))?;".to_string());
    lines.push("    Ok(())".to_string());
    lines.push("  }}".to_string());
    lines
}

fn expected_declarations(name: &str, pattern: &str) -> Vec<String> {
    vec![
        "use ark_ff::PrimeField;".to_string(),
        "use ark_relations::r1cs::{ConstraintSynthesizer, ConstraintSystemRef, SynthesisError};".to_string(),
        "use ark_r1cs_std::fields::FieldVar;".to_string(),
        "use ark_r1cs_std::alloc::AllocVar;".to_string(),
        "use ark_r1cs_std::boolean::Boolean;".to_string(),
        "use ark_r1cs_std::fields::fp::FpVar;".to_string(),
        "use ark_r1cs_std::eq::EqGadget;".to_string(),
        "".to_string(),
        format!("/// Regex: {}", pattern.replace('\n', "\\n").replace('\r', "\\r")),
        format!("#[derive(Clone)]\npub struct {}<F: PrimeField> {{", name),
        "  pub input: Vec<F>,".to_string(),
        "  pub max_len: usize,".to_string(),
        "}\n".to_string(),
        format!("impl<F: PrimeField> ConstraintSynthesizer<F> for {}<F> {{", name),
        "  fn generate_constraints(self, cs: ConstraintSystemRef<F>) -> Result<(), SynthesisError> {".to_string(),
        "    // Add state initialization logic here".to_string(),
    ]
}

fn expected_init(state_len: usize, max_len: usize) -> Vec<String> {
    vec![
        "    // Initialize and pad input variables".to_string(),
        "    let mut padded_input = self.input.clone();".to_string(),
        format!("    padded_input.resize({}, F::from(0u64));", max_len),
        "    let input_vars = padded_input".to_string(),
        "      .into_iter()".to_string(),
        "      .map(|v| FpVar::new_input(cs.clone(), || Ok(v)))".to_string(),
        "      .collect::<Result<Vec<_>, _>>()?;".to_string(),
        "    let mut valid = Boolean::constant(true);".to_string(),
        "".to_string(),
        format!("    // Initialize state variables ({} states)", state_len),
    ]
}

fn expected_program(graph: &DFAGraph, name: &str, pattern: &str, max_len: usize) -> String {
    [
        expected_declarations(name, pattern),
        expected_init(graph.states.len(), max_len),
        expected_transition_logic(graph),
        expected_accept_logic(graph),
    ]
    .concat()
    .join("\n")
}

#[test]
fn declarations_name_the_circuit_and_escape_the_pattern() {
    assert_eq!(
        generate_declarations_arkworks("RegexCircuit", "a[bc]+d", 4, false),
        expected_declarations("RegexCircuit", "a[bc]+d")
    );
    let lines = generate_declarations_arkworks("Mail", "a\nb\rc", 0, true);
    assert_eq!(lines, expected_declarations("Mail", "a\nb\rc"));
    assert_eq!(lines[8], "/// Regex: a\\nb\\rc");
    assert_eq!(lines[9], "#[derive(Clone)]\npub struct Mail<F: PrimeField> {");
}

#[test]
fn init_code_pads_to_the_length() {
    assert_eq!(generate_init_code_arkworks(13, 256), expected_init(13, 256));
    let lines = generate_init_code_arkworks(4, 8);
    assert_eq!(lines[2], "    padded_input.resize(8, F::from(0u64));");
    assert_eq!(lines[9], "    // Initialize state variables (4 states)");
    assert_eq!(lines.len(), 10);
}

#[test]
fn transition_logic_of_the_simple_pattern() {
    let graph = create_dfa_graph_from_regex("a[bc]+d").unwrap();
    let lines = generate_state_transition_logic_arkworks(&graph, 4, false);
    assert_eq!(lines, expected_transition_logic(&graph));
    assert_eq!(lines[8], "      let is_state_0 = current_state.is_eq(&FpVar::constant(F::from(0u64)))?;");
    assert_eq!(
        lines[9],
        "      let cond_1 = is_state_0.and(&(current_input.is_eq(&FpVar::constant(F::from(97u64)))?))?;"
    );
    assert_eq!(
        lines[10],
        "      next_state = cond_1.select(&FpVar::constant(F::from(1u64)), &next_state)?;"
    );
    assert_eq!(lines[11], "      has_transitioned = has_transitioned.or(&cond_1)?;");
    assert_eq!(
        lines[13],
        "      let cond_2 = is_state_1.and(&(current_input.is_eq(&FpVar::constant(F::from(98u64)))?.or(&current_input.is_eq(&FpVar::constant(F::from(99u64)))?)?))?;"
    );
    assert_eq!(
        lines[20],
        "      let cond_4 = is_state_2.and(&(current_input.is_eq(&FpVar::constant(F::from(100u64)))?))?;"
    );
    assert_eq!(lines.len(), 8 + 4 + 4 * 3 + 4);
}

#[test]
fn accept_logic_tests_every_accepting_state() {
    let graph = create_dfa_graph_from_regex("a[bc]+d").unwrap();
    let lines = generate_accept_logic_arkworks(&graph, false);
    assert_eq!(
        lines,
        vec![
            "    // Acceptance logic",
            "    let mut is_accepting = Boolean::constant(false);",
            "    is_accepting = is_accepting.or(&current_state.is_eq(&FpVar::constant(F::from(3u64)))?)?;",
            "    valid = valid.and(&is_accepting)?;",
            "    valid.enforce_equal(&Boolean::constant(true))?;",
            "    Ok(())",
            "  }}",
        ]
    );
    let two = create_dfa_graph_from_regex("ab?").unwrap();
    assert_eq!(generate_accept_logic_arkworks(&two, true), expected_accept_logic(&two));
    assert_eq!(generate_accept_logic_arkworks(&two, true).len(), 8);
}

#[test]
fn whole_program_is_the_four_parts_joined() {
    for pattern in ["a[bc]+d", "^[a-zA-Z]+[0-9]*@gmail\\.com$", "(ab|cd)*e?"] {
        let graph = create_dfa_graph_from_regex(pattern).unwrap();
        assert_eq!(
            gen_arkworks_allstr(&graph, "RegexCircuit", pattern, pattern.ends_with('$')),
            expected_program(&graph, "RegexCircuit", pattern, 256)
        );
        assert_eq!(
            synthesize(&graph, "Other", pattern, false, 8).unwrap(),
            expected_program(&graph, "Other", pattern, 8)
        );
    }
}

#[test]
fn synthesis_twice_gives_the_same_text() {
    let graph = create_dfa_graph_from_regex("^[a-zA-Z]+[0-9]*@gmail\\.com$").unwrap();
    let first = synthesize(&graph, "RegexCircuit", "p", true, 64).unwrap();
    let second = synthesize(&graph, "RegexCircuit", "p", true, 64).unwrap();
    assert_eq!(first, second);
    assert_eq!(
        gen_arkworks_allstr(&graph, "RegexCircuit", "p", true),
        gen_arkworks_allstr(&graph, "RegexCircuit", "p", true)
    );
}

#[test]
fn end_anchor_flag_does_not_change_the_text() {
    let graph = create_dfa_graph_from_regex("a[bc]+d").unwrap();
    assert_eq!(
        gen_arkworks_allstr(&graph, "RegexCircuit", "a[bc]+d", true),
        gen_arkworks_allstr(&graph, "RegexCircuit", "a[bc]+d", false)
    );
}

#[test]
fn plus_and_class_rules_branch_on_each_byte() {
    let set = ByteSet::from_slice(&[99, 98]);
    let expected = vec![
        "\t\t\t\tif current_state.is_eq(&FpVar::constant(F::from(1u64)))? {",
        "\t\t\t\t\tif current_input.is_eq(&FpVar::constant(F::from(98u64)))? {",
        "\t\t\t\t\t\tnext_state = Some(FpVar::constant(F::from(2u64)));",
        "\t\t\t\t\t}",
        "\t\t\t\t\tif current_input.is_eq(&FpVar::constant(F::from(99u64)))? {",
        "\t\t\t\t\t\tnext_state = Some(FpVar::constant(F::from(2u64)));",
        "\t\t\t\t\t}",
        "\t\t\t\t}",
    ];
    assert_eq!(handle_plus_rule(1, 2, &set), expected);
    assert_eq!(handle_char_class_rule(1, 2, &set), expected);
    assert_eq!(
        handle_char_class_rule(10, 0, &ByteSet::new()),
        vec!["\t\t\t\tif current_state.is_eq(&FpVar::constant(F::from(10u64)))? {", "\t\t\t\t}"]
    );
}

#[test]
fn star_rule_stays_by_default() {
    let set = ByteSet::from_slice(&[255]);
    assert_eq!(
        handle_star_rule(4, 5, &set),
        vec![
            "\t\t\t\tif current_state.is_eq(&FpVar::constant(F::from(4u64)))? {",
            "\t\t\t\t\tnext_state = Some(FpVar::constant(F::from(4u64)));",
            "\t\t\t\t\tif current_input.is_eq(&FpVar::constant(F::from(255u64)))? {",
            "\t\t\t\t\t\tnext_state = Some(FpVar::constant(F::from(5u64)));",
            "\t\t\t\t\t}",
            "\t\t\t\t}",
        ]
    );
}

#[test]
fn question_mark_rule_skips_by_default() {
    let set = ByteSet::from_slice(&[0]);
    assert_eq!(
        handle_question_mark_rule(4, 5, &set),
        vec![
            "\t\t\t\tif current_state.is_eq(&FpVar::constant(F::from(4u64)))? {",
            "\t\t\t\t\tnext_state = Some(FpVar::constant(F::from(5u64)));",
            "\t\t\t\t\tif current_input.is_eq(&FpVar::constant(F::from(0u64)))? {",
            "\t\t\t\t\t\tnext_state = Some(FpVar::constant(F::from(5u64)));",
            "\t\t\t\t\t}",
            "\t\t\t\t}",
        ]
    );
}

#[test]
fn text_helpers_indent_number_and_join() {
    assert_eq!(put_space(0), "");
    assert_eq!(put_space(3), "      ");
    assert_eq!(indented(1, "x"), "  x");
    let mut s = String::from("n=");
    push_decimal(&mut s, 0);
    push_decimal(&mut s, 7);
    push_decimal(&mut s, 1203);
    push_decimal(&mut s, u128::MAX);
    assert_eq!(s, "n=071203340282366920938463463374607431768211455");
    assert_eq!(join_lines(&vec![]), "");
    assert_eq!(join_lines(&vec!["a".to_string()]), "a");
    assert_eq!(join_lines(&vec!["a".to_string(), "".to_string(), "b".to_string()]), "a\n\nb");
}
