use ark_bn254::Fr;
use ark_r1cs_std::alloc::AllocVar;
use ark_r1cs_std::boolean::Boolean;
use ark_r1cs_std::eq::EqGadget;
use ark_r1cs_std::fields::fp::FpVar;
use ark_r1cs_std::fields::FieldVar;
use ark_relations::r1cs::{ConstraintSystem, ConstraintSystemRef, SynthesisError};
use regex_circuit::circuit::evaluate;
use regex_circuit::compile::create_dfa_graph_from_regex;
use regex_circuit::structs::{DFAGraph, StateType};

/// The statements of the printed program, run on arkworks' gadgets for one graph.
fn constrain(
    graph: &DFAGraph,
    witness: &[u64],
    cs: ConstraintSystemRef<Fr>,
) -> Result<(), SynthesisError> {
    let input_vars = witness
        .iter()
        .map(|v| FpVar::new_input(cs.clone(), || Ok(Fr::from(*v))))
        .collect::<Result<Vec<_>, _>>()?;
    let mut valid = Boolean::constant(true);
    let mut current_state = FpVar::constant(Fr::from(0u64));
    for current_input in input_vars.iter() {
        let is_padded = current_input.is_eq(&FpVar::constant(Fr::from(0u64)))?;
        let cond_padded = is_padded.not();
        let mut next_state = current_state.clone();
        let mut has_transitioned = Boolean::constant(false);
        for state in &graph.states {
            let is_state =
                current_state.is_eq(&FpVar::constant(Fr::from(state.state_id as u64)))?;
            for t in &state.transitions {
                let mut any = Boolean::constant(false);
                for b in t.bytes.to_vec() {
                    any = any.or(&current_input.is_eq(&FpVar::constant(Fr::from(b as u64)))?)?;
                }
                let cond = is_state.and(&any)?;
                next_state = cond.select(&FpVar::constant(Fr::from(t.dest as u64)), &next_state)?;
                has_transitioned = has_transitioned.or(&cond)?;
            }
        }
        let invalid_transition = cond_padded.and(&has_transitioned.not())?;
        valid = valid.and(&invalid_transition.not())?;
        current_state = next_state;
    }
    let mut is_accepting = Boolean::constant(false);
    for state in &graph.states {
        if state.state_type == StateType::Accept {
            is_accepting = is_accepting
                .or(&current_state.is_eq(&FpVar::constant(Fr::from(state.state_id as u64)))?)?;
        }
    }
    valid = valid.and(&is_accepting)?;
    valid.enforce_equal(&Boolean::constant(true))?;
    Ok(())
}

fn satisfied(graph: &DFAGraph, witness: &[u64]) -> bool {
    let cs = ConstraintSystem::<Fr>::new_ref();
    // Where both sides of the enforced equality are constants that differ, synthesis itself fails.
    constrain(graph, witness, cs.clone()).is_ok() && cs.is_satisfied().unwrap()
}

#[test]
fn gates_on_field_elements_agree_with_the_evaluator() {
    let graph = create_dfa_graph_from_regex("a[bc]+d").unwrap();
    let witnesses: [&[u64]; 9] = [
        &[97, 98, 99, 98, 99, 100, 0, 0],
        &[97, 98, 100, 0, 0, 0, 0, 0],
        &[97, 100, 0, 0, 0, 0, 0, 0],
        &[97, 98, 100, 120, 0, 0, 0, 0],
        &[0, 0, 0, 0],
        &[97, 0, 98, 0, 100],
        &[97, 98, 100, 0, 97],
        &[97, 98, 356],
        &[],
    ];
    for witness in witnesses {
        assert_eq!(satisfied(&graph, witness), evaluate(&graph, witness), "{:?}", witness);
    }
    assert!(satisfied(&graph, witnesses[0]));
    assert!(!satisfied(&graph, witnesses[2]));
}

#[test]
fn gates_of_the_mail_pattern_agree_with_the_evaluator() {
    let graph = create_dfa_graph_from_regex("^[a-z]+@x\\.y$").unwrap();
    for text in ["ab@x.y", "a@x.y", "@x.y", "ab@x.yz", "ab@xy"] {
        let mut witness: Vec<u64> = text.bytes().map(|b| b as u64).collect();
        witness.resize(10, 0);
        assert_eq!(satisfied(&graph, &witness), evaluate(&graph, &witness), "{}", text);
        assert_eq!(satisfied(&graph, &witness), graph.matches(text.as_bytes()), "{}", text);
    }
}
