//! The program printer: from a canonical graph to the source text of a
//! constraint program that walks the automaton over a padded input, one
//! statically unrolled step for each input position.
use vstd::prelude::*;
use vstd::string::*;
use crate::automaton::{graph_fault, invariant_failed};
use crate::byte_set::members;
use crate::circuit::uses_byte;
use crate::errors::CompilerError;
use crate::structs::{
    byte_unused, graph_ok, nonempty_sets, state_ok, DFAGraph, StateType, StateView,
};
use crate::text::{
    decimal, indent, join_lines, joined, indented, lines_view, push_decimal, push_line, to_chars,
};

verus! {

/// The length to which the printed program pads its input unless another is asked for.
pub const DEFAULT_MAX_LEN: usize = 256;

/// The first `n` characters of a pattern as they are shown in a one-line
/// comment: a line feed and a carriage return are written as escapes.
pub open spec fn escaped(s: Seq<char>, n: nat) -> Seq<char>
    decreases n,
{
    if n == 0 || n > s.len() {
        Seq::empty()
    } else if s[n - 1] == '\n' {
        escaped(s, (n - 1) as nat) + "\\n"@
    } else if s[n - 1] == '\r' {
        escaped(s, (n - 1) as nat) + "\\r"@
    } else {
        escaped(s, (n - 1) as nat).push(s[n - 1])
    }
}

/// The imports, the circuit's type and the head of its constraint generator.
pub open spec fn declarations(struct_name: Seq<char>, regex_str: Seq<char>) -> Seq<Seq<char>> {
    seq![
        "use ark_ff::PrimeField;"@,
        "use ark_relations::r1cs::{ConstraintSynthesizer, ConstraintSystemRef, SynthesisError};"@,
        "use ark_r1cs_std::fields::FieldVar;"@,
        "use ark_r1cs_std::alloc::AllocVar;"@,
        "use ark_r1cs_std::boolean::Boolean;"@,
        "use ark_r1cs_std::fields::fp::FpVar;"@,
        "use ark_r1cs_std::eq::EqGadget;"@,
        ""@,
        "/// Regex: "@ + escaped(regex_str, regex_str.len()),
        "#[derive(Clone)]\npub struct "@ + struct_name + "<F: PrimeField> {"@,
        indent(1) + "pub input: Vec<F>,"@,
        indent(1) + "pub max_len: usize,"@,
        "}\n"@,
        "impl<F: PrimeField> ConstraintSynthesizer<F> for "@ + struct_name + "<F> {"@,
        indent(1)
            + "fn generate_constraints(self, cs: ConstraintSystemRef<F>) -> Result<(), SynthesisError> {"@,
        indent(2) + "// Add state initialization logic here"@,
    ]
}

/// The statements that pad the input to `max_len` wires and start the `valid` flag.
pub open spec fn init_code(state_len: nat, max_len: nat) -> Seq<Seq<char>> {
    seq![
        indent(2) + "// Initialize and pad input variables"@,
        indent(2) + "let mut padded_input = self.input.clone();"@,
        indent(2) + "padded_input.resize("@ + decimal(max_len) + ", F::from(0u64));"@,
        indent(2) + "let input_vars = padded_input"@,
        indent(2) + "  .into_iter()"@,
        indent(2) + "  .map(|v| FpVar::new_input(cs.clone(), || Ok(v)))"@,
        indent(2) + "  .collect::<Result<Vec<_>, _>>()?;"@,
        indent(2) + "let mut valid = Boolean::constant(true);"@,
        ""@,
        indent(2) + "// Initialize state variables ("@ + decimal(state_len) + " states)"@,
    ]
}

/// The head of a step: the padding test and the wires that the edges fill.
pub open spec fn step_header() -> Seq<Seq<char>> {
    seq![
        indent(2) + "// 현재 상태 초기화"@,
        indent(2) + "let mut current_state = FpVar::constant(F::from(0u64));"@,
        indent(2) + "// 각 입력 인덱스에 대한 전이 로직"@,
        indent(2) + "for (index, current_input) in input_vars.iter().enumerate() {"@,
        indent(3) + "let is_padded = current_input.is_eq(&FpVar::constant(F::from(0u64)))?;"@,
        indent(3) + "let cond_padded = is_padded.not();"@,
        indent(3) + "let mut next_state = current_state.clone();"@,
        indent(3) + "let mut has_transitioned = Boolean::constant(false);"@,
    ]
}

/// The end of a step: a byte that is no padding and fired no edge clears `valid`.
pub open spec fn step_footer() -> Seq<Seq<char>> {
    seq![
        indent(3) + "let invalid_transition = cond_padded.and(&has_transitioned.not())?;"@,
        indent(3) + "valid = valid.and(&invalid_transition.not())?;"@,
        indent(3) + "current_state = next_state;"@,
        indent(2) + "}"@,
    ]
}

/// The test "the automaton is in state `id`".
pub open spec fn state_test(id: nat) -> Seq<char> {
    indent(3) + "let is_state_"@ + decimal(id)
        + " = current_state.is_eq(&FpVar::constant(F::from("@ + decimal(id) + "u64)))?;"@
}

/// The test "the input is byte `b`".
pub open spec fn byte_test(b: u8) -> Seq<char> {
    "current_input.is_eq(&FpVar::constant(F::from("@ + decimal(b as nat) + "u64)))?"@
}

/// The test "the input is one of the first `n` bytes of `bytes`".
pub open spec fn any_of(bytes: Seq<u8>, n: nat) -> Seq<char>
    decreases n,
{
    if n == 0 || n > bytes.len() {
        Seq::empty()
    } else if n == 1 {
        byte_test(bytes[0])
    } else {
        any_of(bytes, (n - 1) as nat) + ".or(&"@ + byte_test(bytes[n - 1]) + ")?"@
    }
}

/// The flag of edge number `c`: the automaton is in state `id` and the input
/// is one of `bytes`.
pub open spec fn edge_test(id: nat, bytes: Set<u8>, c: nat) -> Seq<char> {
    indent(3) + "let cond_"@ + decimal(c) + " = is_state_"@ + decimal(id) + ".and(&("@ + any_of(
        members(bytes),
        members(bytes).len(),
    ) + "))?;"@
}

/// The selection of `dest` as the next state where edge number `c` fired.
pub open spec fn edge_select(dest: nat, c: nat) -> Seq<char> {
    indent(3) + "next_state = cond_"@ + decimal(c) + ".select(&FpVar::constant(F::from("@
        + decimal(dest) + "u64)), &next_state)?;"@
}

/// The note that edge number `c` may have fired.
pub open spec fn edge_mark(c: nat) -> Seq<char> {
    indent(3) + "has_transitioned = has_transitioned.or(&cond_"@ + decimal(c) + ")?;"@
}

/// The three statements of the `n` first edges of a state, numbered from `first`.
pub open spec fn state_edge_lines(s: StateView, first: nat, n: nat) -> Seq<Seq<char>>
    decreases n,
{
    if n == 0 || n > s.transitions.len() {
        Seq::empty()
    } else {
        let t = s.transitions[n - 1];
        let c = (first + n - 1) as nat;
        state_edge_lines(s, first, (n - 1) as nat).push(edge_test(s.state_id, t.bytes, c)).push(
            edge_select(t.dest, c),
        ).push(edge_mark(c))
    }
}

/// How many edges the first `i` states have.
pub open spec fn edges_before(g: Seq<StateView>, i: nat) -> nat
    decreases i,
{
    if i == 0 || i > g.len() {
        0
    } else {
        edges_before(g, (i - 1) as nat) + g[i - 1].transitions.len()
    }
}

/// The statements of the first `n` states: for each its test, then its edges.
/// The edges of the whole graph are numbered from 1 in the order of the text.
pub open spec fn states_lines(g: Seq<StateView>, n: nat) -> Seq<Seq<char>>
    decreases n,
{
    if n == 0 || n > g.len() {
        Seq::empty()
    } else {
        states_lines(g, (n - 1) as nat).push(state_test(g[n - 1].state_id)) + state_edge_lines(
            g[n - 1],
            edges_before(g, (n - 1) as nat) + 1,
            g[n - 1].transitions.len(),
        )
    }
}

/// The walk over the input: one step for each wire.
pub open spec fn transition_logic(g: Seq<StateView>) -> Seq<Seq<char>> {
    step_header() + states_lines(g, g.len()) + step_footer()
}

/// The test "the automaton is in the accepting state `id`", joined to the others.
pub open spec fn accept_test(id: nat) -> Seq<char> {
    indent(2)
        + "is_accepting = is_accepting.or(&current_state.is_eq(&FpVar::constant(F::from("@
        + decimal(id) + "u64)))?)?;"@
}

/// The tests for the accepting states among the first `n`.
pub open spec fn accept_tests(g: Seq<StateView>, n: nat) -> Seq<Seq<char>>
    decreases n,
{
    if n == 0 || n > g.len() {
        Seq::empty()
    } else if g[n - 1].accepting {
        accept_tests(g, (n - 1) as nat).push(accept_test(g[n - 1].state_id))
    } else {
        accept_tests(g, (n - 1) as nat)
    }
}

/// The end of the program: the last state must be one of the accepting states,
/// and `valid` is enforced.
pub open spec fn accept_logic(g: Seq<StateView>) -> Seq<Seq<char>> {
    seq![
        indent(2) + "// Acceptance logic"@,
        indent(2) + "let mut is_accepting = Boolean::constant(false);"@,
    ] + accept_tests(g, g.len()) + seq![
        indent(2) + "valid = valid.and(&is_accepting)?;"@,
        indent(2) + "valid.enforce_equal(&Boolean::constant(true))?;"@,
        indent(2) + "Ok(())"@,
        indent(1) + "}}"@,
    ]
}

/// The lines of the whole program.
pub open spec fn program_lines(
    g: Seq<StateView>,
    struct_name: Seq<char>,
    regex_str: Seq<char>,
    max_len: nat,
) -> Seq<Seq<char>> {
    declarations(struct_name, regex_str) + init_code(g.len(), max_len) + transition_logic(g)
        + accept_logic(g)
}

/// The text of the whole program.
pub open spec fn program_text(
    g: Seq<StateView>,
    struct_name: Seq<char>,
    regex_str: Seq<char>,
    max_len: nat,
) -> Seq<char> {
    let lines = program_lines(g, struct_name, regex_str, max_len);
    joined(lines, lines.len())
}

/// No transition of the graph has an empty byte set.
pub open spec fn all_nonempty(g: Seq<StateView>) -> bool {
    forall|i: int| 0 <= i < g.len() ==> nonempty_sets((#[trigger] g[i]).transitions)
}

/// The line `before`, `n`, `after` at the given level of indentation.
fn numbered(indent_level: usize, before: &str, n: u128, after: &str) -> (r: String)
    ensures
        r@ == indent(indent_level as nat) + before@ + decimal(n as nat) + after@,
{
    let mut out = indented(indent_level, before);
    push_decimal(&mut out, n);
    out.append(after);
    out
}

/// The line `a`, `n1`, `b`, `n2`, `c` at the given level of indentation.
fn numbered_twice(indent_level: usize, a: &str, n1: u128, b: &str, n2: u128, c: &str) -> (r: String)
    ensures
        r@ == indent(indent_level as nat) + a@ + decimal(n1 as nat) + b@ + decimal(n2 as nat)
            + c@,
{
    let mut out = numbered(indent_level, a, n1, b);
    push_decimal(&mut out, n2);
    out.append(c);
    out
}

fn byte_test_text(b: u8) -> (r: String)
    ensures
        r@ == byte_test(b),
{
    let mut out = String::from_str("current_input.is_eq(&FpVar::constant(F::from(");
    push_decimal(&mut out, b as u128);
    out.append("u64)))?");
    out
}

fn any_of_text(bytes: &Vec<u8>) -> (r: String)
    ensures
        r@ == any_of(bytes@, bytes@.len()),
{
    let mut out = String::new();
    let mut i: usize = 0;
    while i < bytes.len()
        invariant
            i <= bytes.len(),
            out@ == any_of(bytes@, i as nat),
        decreases bytes.len() - i,
    {
        let test = byte_test_text(bytes[i]);
        if i == 0 {
            out.append(test.as_str());
            assert(out@ =~= any_of(bytes@, 1));
        } else {
            out.append(".or(&");
            out.append(test.as_str());
            out.append(")?");
        }
        i = i + 1;
    }
    out
}

fn escaped_text(s: &str) -> (r: String)
    ensures
        r@ == escaped(s@, s@.len()),
{
    let chars = to_chars(s);
    let mut out = String::new();
    let mut i: usize = 0;
    while i < chars.len()
        invariant
            i <= chars.len(),
            chars@ == s@,
            out@ == escaped(s@, i as nat),
        decreases chars.len() - i,
    {
        if chars[i] == '\n' {
            out.append("\\n");
        } else if chars[i] == '\r' {
            out.append("\\r");
        } else {
            let one = s.substring_char(i, i + 1);
            assert(one@ =~= seq![s@[i as int]]);
            out.append(one);
            assert(out@ =~= escaped(s@, i as nat).push(s@[i as int]));
        }
        i = i + 1;
    }
    out
}

/// The imports, the circuit's type under the name `struct_name`, and the head
/// of its constraint generator.
pub fn generate_declarations_arkworks(
    struct_name: &str,
    regex_str: &str,
    state_len: usize,
    _end_anchor: bool,
) -> (r: Vec<String>)
    ensures
        lines_view(r@) == declarations(struct_name@, regex_str@),
{
    let mut lines: Vec<String> = Vec::new();
    push_line(&mut lines, String::from_str("use ark_ff::PrimeField;"));
    push_line(
        &mut lines,
        String::from_str(
            "use ark_relations::r1cs::{ConstraintSynthesizer, ConstraintSystemRef, SynthesisError};",
        ),
    );
    push_line(&mut lines, String::from_str("use ark_r1cs_std::fields::FieldVar;"));
    push_line(&mut lines, String::from_str("use ark_r1cs_std::alloc::AllocVar;"));
    push_line(&mut lines, String::from_str("use ark_r1cs_std::boolean::Boolean;"));
    push_line(&mut lines, String::from_str("use ark_r1cs_std::fields::fp::FpVar;"));
    push_line(&mut lines, String::from_str("use ark_r1cs_std::eq::EqGadget;"));
    push_line(&mut lines, String::from_str(""));
    let mut comment = String::from_str("/// Regex: ");
    comment.append(escaped_text(regex_str).as_str());
    push_line(&mut lines, comment);
    let mut head = String::from_str("#[derive(Clone)]\npub struct ");
    head.append(struct_name);
    head.append("<F: PrimeField> {");
    push_line(&mut lines, head);
    push_line(&mut lines, indented(1, "pub input: Vec<F>,"));
    push_line(&mut lines, indented(1, "pub max_len: usize,"));
    push_line(&mut lines, String::from_str("}\n"));
    let mut imp = String::from_str("impl<F: PrimeField> ConstraintSynthesizer<F> for ");
    imp.append(struct_name);
    imp.append("<F> {");
    push_line(&mut lines, imp);
    push_line(
        &mut lines,
        indented(
            1,
            "fn generate_constraints(self, cs: ConstraintSystemRef<F>) -> Result<(), SynthesisError> {",
        ),
    );
    push_line(&mut lines, indented(2, "// Add state initialization logic here"));
    assert(lines_view(lines@) =~= declarations(struct_name@, regex_str@));
    lines
}

/// The statements that pad the input to `max_len` wires and start the `valid` flag.
pub fn generate_init_code_arkworks(state_len: usize, max_len: usize) -> (r: Vec<String>)
    ensures
        lines_view(r@) == init_code(state_len as nat, max_len as nat),
{
    let mut lines: Vec<String> = Vec::new();
    push_line(&mut lines, indented(2, "// Initialize and pad input variables"));
    push_line(&mut lines, indented(2, "let mut padded_input = self.input.clone();"));
    push_line(
        &mut lines,
        numbered(2, "padded_input.resize(", max_len as u128, ", F::from(0u64));"),
    );
    push_line(&mut lines, indented(2, "let input_vars = padded_input"));
    push_line(&mut lines, indented(2, "  .into_iter()"));
    push_line(&mut lines, indented(2, "  .map(|v| FpVar::new_input(cs.clone(), || Ok(v)))"));
    push_line(&mut lines, indented(2, "  .collect::<Result<Vec<_>, _>>()?;"));
    push_line(&mut lines, indented(2, "let mut valid = Boolean::constant(true);"));
    push_line(&mut lines, String::from_str(""));
    push_line(
        &mut lines,
        numbered(2, "// Initialize state variables (", state_len as u128, " states)"),
    );
    assert(lines_view(lines@) =~= init_code(state_len as nat, max_len as nat));
    lines
}

/// The walk over the input: for each wire the padding test, the test of each
/// state, the flag of each edge with its selection of the next state, and the
/// trap for a byte that fired no edge.
pub fn generate_state_transition_logic_arkworks(
    dfa_graph: &DFAGraph,
    _state_len: usize,
    _end_anchor: bool,
) -> (r: Vec<String>)
    requires
        dfa_graph.repr(),
        all_nonempty(dfa_graph@),
    ensures
        lines_view(r@) == transition_logic(dfa_graph@),
{
    let ghost g = dfa_graph@;
    let mut lines: Vec<String> = Vec::new();
    push_line(&mut lines, indented(2, "// 현재 상태 초기화"));
    push_line(&mut lines, indented(2, "let mut current_state = FpVar::constant(F::from(0u64));"));
    push_line(&mut lines, indented(2, "// 각 입력 인덱스에 대한 전이 로직"));
    push_line(
        &mut lines,
        indented(2, "for (index, current_input) in input_vars.iter().enumerate() {"),
    );
    push_line(
        &mut lines,
        indented(3, "let is_padded = current_input.is_eq(&FpVar::constant(F::from(0u64)))?;"),
    );
    push_line(&mut lines, indented(3, "let cond_padded = is_padded.not();"));
    push_line(&mut lines, indented(3, "let mut next_state = current_state.clone();"));
    push_line(&mut lines, indented(3, "let mut has_transitioned = Boolean::constant(false);"));
    assert(lines_view(lines@) =~= step_header() + states_lines(g, 0));
    assert(0 * usize::MAX == 0) by (nonlinear_arith);
    let mut condition_counter: u128 = 0;
    let n: usize = dfa_graph.states.len();
    let mut i: usize = 0;
    while i < n
        invariant
            i <= n,
            n == dfa_graph.states@.len(),
            g == dfa_graph@,
            dfa_graph.repr(),
            lines_view(lines@) == step_header() + states_lines(g, i as nat),
            condition_counter as nat == edges_before(g, i as nat),
            edges_before(g, i as nat) <= i * usize::MAX,
        decreases n - i,
    {
        let state = &dfa_graph.states[i];
        assert(g[i as int] == state@);
        let from_state = state.state_id;
        push_line(
            &mut lines,
            numbered_twice(
                3,
                "let is_state_",
                from_state as u128,
                " = current_state.is_eq(&FpVar::constant(F::from(",
                from_state as u128,
                "u64)))?;",
            ),
        );
        let ghost base = lines_view(lines@);
        let ghost first = edges_before(g, i as nat) + 1;
        let len: usize = state.transitions.len();
        proof {
            assert(i * usize::MAX + usize::MAX == (i + 1) * usize::MAX) by (nonlinear_arith);
            assert(i * usize::MAX <= (usize::MAX - 1) * usize::MAX) by (nonlinear_arith)
                requires
                    i <= usize::MAX - 1,
            ;
            assert((usize::MAX - 1) * usize::MAX + usize::MAX < u128::MAX) by (nonlinear_arith)
                requires
                    usize::MAX <= 0xFFFF_FFFF_FFFF_FFFF,
                    u128::MAX == 0xFFFF_FFFF_FFFF_FFFF_FFFF_FFFF_FFFF_FFFF,
            ;
        }
        let mut j: usize = 0;
        while j < len
            invariant
                j <= len,
                len == state.transitions@.len(),
                state.repr(),
                g[i as int] == state@,
                from_state == state.state_id,
                first == edges_before(g, i as nat) + 1,
                first + len < u128::MAX,
                condition_counter as nat == first - 1 + j,
                lines_view(lines@) == base + state_edge_lines(g[i as int], first, j as nat),
            decreases len - j,
        {
            let t = &state.transitions[j];
            assert(g[i as int].transitions[j as int] == t@);
            condition_counter = condition_counter + 1;
            let char_set = t.bytes.to_vec();
            let or_conditions = any_of_text(&char_set);
            let mut test = numbered_twice(
                3,
                "let cond_",
                condition_counter,
                " = is_state_",
                from_state as u128,
                ".and(&(",
            );
            test.append(or_conditions.as_str());
            test.append("))?;");
            push_line(&mut lines, test);
            push_line(
                &mut lines,
                numbered_twice(
                    3,
                    "next_state = cond_",
                    condition_counter,
                    ".select(&FpVar::constant(F::from(",
                    t.dest as u128,
                    "u64)), &next_state)?;",
                ),
            );
            push_line(
                &mut lines,
                numbered(3, "has_transitioned = has_transitioned.or(&cond_", condition_counter, ")?;"),
            );
            assert(lines_view(lines@) =~= base + state_edge_lines(
                g[i as int],
                first,
                (j + 1) as nat,
            ));
            j = j + 1;
        }
        assert(lines_view(lines@) =~= step_header() + states_lines(g, (i + 1) as nat));
        i = i + 1;
    }
    push_line(
        &mut lines,
        indented(3, "let invalid_transition = cond_padded.and(&has_transitioned.not())?;"),
    );
    push_line(&mut lines, indented(3, "valid = valid.and(&invalid_transition.not())?;"));
    push_line(&mut lines, indented(3, "current_state = next_state;"));
    push_line(&mut lines, indented(2, "}"));
    assert(lines_view(lines@) =~= transition_logic(g));
    lines
}

/// The end of the program: the state after the last step must be one of the
/// accepting states, and `valid` is enforced.
pub fn generate_accept_logic_arkworks(dfa_graph: &DFAGraph, _end_anchor: bool) -> (r: Vec<String>)
    ensures
        lines_view(r@) == accept_logic(dfa_graph@),
{
    let ghost g = dfa_graph@;
    let mut lines: Vec<String> = Vec::new();
    push_line(&mut lines, indented(2, "// Acceptance logic"));
    push_line(&mut lines, indented(2, "let mut is_accepting = Boolean::constant(false);"));
    let ghost head = lines_view(lines@);
    assert(lines_view(lines@) =~= head + accept_tests(g, 0));
    let mut i: usize = 0;
    while i < dfa_graph.states.len()
        invariant
            i <= dfa_graph.states@.len(),
            g == dfa_graph@,
            lines_view(lines@) == head + accept_tests(g, i as nat),
        decreases dfa_graph.states.len() - i,
    {
        let state = &dfa_graph.states[i];
        assert(g[i as int] == state@);
        if state.state_type == StateType::Accept {
            push_line(
                &mut lines,
                numbered(
                    2,
                    "is_accepting = is_accepting.or(&current_state.is_eq(&FpVar::constant(F::from(",
                    state.state_id as u128,
                    "u64)))?)?;",
                ),
            );
            assert(lines_view(lines@) =~= head + accept_tests(g, (i + 1) as nat));
        }
        i = i + 1;
    }
    push_line(&mut lines, indented(2, "valid = valid.and(&is_accepting)?;"));
    push_line(&mut lines, indented(2, "valid.enforce_equal(&Boolean::constant(true))?;"));
    push_line(&mut lines, indented(2, "Ok(())"));
    push_line(&mut lines, indented(1, "}}"));
    assert(lines_view(lines@) =~= accept_logic(g));
    lines
}

/// Appends the lines of `more` to `lines`.
fn append_lines(lines: &mut Vec<String>, more: Vec<String>)
    ensures
        lines_view(final(lines)@) == lines_view(old(lines)@) + lines_view(more@),
{
    let ghost added = more@;
    let mut more = more;
    lines.append(&mut more);
    assert(lines_view(lines@) =~= lines_view(old(lines)@) + lines_view(added));
}

/// The text of the program for inputs of up to `max_len` bytes.
fn program(dfa_graph: &DFAGraph, struct_name: &str, regex_str: &str, end_anchor: bool, max_len: usize) -> (r:
    String)
    requires
        dfa_graph.repr(),
        all_nonempty(dfa_graph@),
    ensures
        r@ == program_text(dfa_graph@, struct_name@, regex_str@, max_len as nat),
{
    let state_len = dfa_graph.states.len();
    let mut final_code = generate_declarations_arkworks(struct_name, regex_str, state_len, end_anchor);
    append_lines(&mut final_code, generate_init_code_arkworks(state_len, max_len));
    append_lines(
        &mut final_code,
        generate_state_transition_logic_arkworks(dfa_graph, state_len, end_anchor),
    );
    append_lines(&mut final_code, generate_accept_logic_arkworks(dfa_graph, end_anchor));
    join_lines(&final_code)
}

/// The source text of the constraint program of a graph, for inputs of up to
/// 256 bytes: the declarations, the padding of the input, the walk of the
/// automaton over the wires, and the acceptance test, one line after the other.
/// The program pads with the zero byte, so the graph must leave that byte to
/// the padding: with a transition on it, the padding would move the automaton.
/// `synthesize` tests both demands instead of asking for them.
pub fn gen_arkworks_allstr(
    dfa_graph: &DFAGraph,
    struct_name: &str,
    regex_str: &str,
    end_anchor: bool,
) -> (r: String)
    requires
        dfa_graph.wf(),
        byte_unused(dfa_graph@, 0),
    ensures
        r@ == program_text(dfa_graph@, struct_name@, regex_str@, DEFAULT_MAX_LEN as nat),
{
    proof {
        lemma_valid_graph_nonempty(dfa_graph@);
    }
    program(dfa_graph, struct_name, regex_str, end_anchor, DEFAULT_MAX_LEN)
}

/// A graph that keeps its invariant has no empty byte set.
pub proof fn lemma_valid_graph_nonempty(g: Seq<StateView>)
    requires
        graph_ok(g),
    ensures
        all_nonempty(g),
{
    assert forall|i: int| 0 <= i < g.len() implies nonempty_sets((#[trigger] g[i]).transitions) by {
        assert(state_ok(g[i], i as nat, g.len()));
    }
}

/// How a synthesis ends: with the program's text where the graph keeps its
/// invariant and leaves the zero byte to the padding; else with a
/// `GraphInvariantError` that tells the first fault of the graph, or that a
/// transition carries the zero byte.
pub open spec fn synthesized(
    g: Seq<StateView>,
    program_name: Seq<char>,
    pattern_text: Seq<char>,
    max_len: nat,
    r: Result<String, CompilerError>,
) -> bool {
    if !graph_ok(g) {
        graph_fault(g) is Some && invariant_failed(r, graph_fault(g)->Some_0)
    } else if !byte_unused(g, 0) {
        invariant_failed(r, "a transition carries the zero byte, which is the padding"@)
    } else {
        r is Ok && r->Ok_0@ == program_text(g, program_name, pattern_text, max_len)
    }
}

/// The source text of the constraint program of a graph, for inputs of up to
/// `max_len` bytes. The graph is checked first: one that breaks its invariant,
/// or that has a transition on the zero byte, which the program reserves for
/// padding, is refused.
pub fn synthesize(
    graph: &DFAGraph,
    program_name: &str,
    pattern_text: &str,
    has_end_anchor: bool,
    max_len: usize,
) -> (r: Result<String, CompilerError>)
    requires
        graph.repr(),
    ensures
        synthesized(graph@, program_name@, pattern_text@, max_len as nat, r),
{
    match graph.check() {
        Ok(()) => {},
        Err(e) => {
            return Err(e);
        },
    }
    if uses_byte(graph, 0) {
        return Err(
            CompilerError::GraphInvariantError(
                String::from_str("a transition carries the zero byte, which is the padding"),
            ),
        );
    }
    proof {
        lemma_valid_graph_nonempty(graph@);
    }
    Ok(program(graph, program_name, pattern_text, has_end_anchor, max_len))
}

/// Synthesis is a function of the graph, the names and the length: two runs on
/// the same of these end alike, and where they succeed their texts are the same.
pub proof fn lemma_synthesis_is_reproducible(
    g: Seq<StateView>,
    program_name: Seq<char>,
    pattern_text: Seq<char>,
    max_len: nat,
    first: Result<String, CompilerError>,
    second: Result<String, CompilerError>,
)
    requires
        synthesized(g, program_name, pattern_text, max_len, first),
        synthesized(g, program_name, pattern_text, max_len, second),
    ensures
        first is Ok <==> second is Ok,
        first is Ok ==> first->Ok_0@ == second->Ok_0@,
{
}

} // verus!
