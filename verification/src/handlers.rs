//! Templates for the transitions that the quantifiers and the character class
//! give, in the form that the program for inputs of one fixed length uses: a
//! branch on the current state with one branch for each byte inside.
use vstd::prelude::*;
use vstd::string::*;
use crate::byte_set::{members, ByteSet};
use crate::text::{decimal, lines_view, push_decimal, push_line};

verus! {

/// The branch "the automaton is in state `from`".
pub open spec fn state_guard(from: nat) -> Seq<char> {
    "\t\t\t\tif current_state.is_eq(&FpVar::constant(F::from("@ + decimal(from) + "u64)))? {"@
}

/// The statement that makes `state` the next state whatever the input is.
pub open spec fn default_target(state: nat) -> Seq<char> {
    "\t\t\t\t\tnext_state = Some(FpVar::constant(F::from("@ + decimal(state) + "u64)));"@
}

/// The branch "the input is byte `b`".
pub open spec fn byte_guard(b: u8) -> Seq<char> {
    "\t\t\t\t\tif current_input.is_eq(&FpVar::constant(F::from("@ + decimal(b as nat)
        + "u64)))? {"@
}

/// The statement that makes `to` the next state inside a byte's branch.
pub open spec fn byte_target(to: nat) -> Seq<char> {
    "\t\t\t\t\t\tnext_state = Some(FpVar::constant(F::from("@ + decimal(to) + "u64)));"@
}

/// The branches of the first `n` bytes, each leading to `to`.
pub open spec fn byte_arms(bytes: Seq<u8>, to: nat, n: nat) -> Seq<Seq<char>>
    decreases n,
{
    if n == 0 || n > bytes.len() {
        Seq::empty()
    } else {
        byte_arms(bytes, to, (n - 1) as nat).push(byte_guard(bytes[n - 1])).push(
            byte_target(to),
        ).push("\t\t\t\t\t}"@)
    }
}

/// Advance from `from` to `to` on a byte of the class, and on nothing else.
pub open spec fn class_rule(from: nat, to: nat, bytes: Set<u8>) -> Seq<Seq<char>> {
    seq![state_guard(from)] + byte_arms(members(bytes), to, members(bytes).len()) + seq![
        "\t\t\t\t}"@,
    ]
}

/// Stay in `from` by default, advance to `to` on a byte of the class.
pub open spec fn star_rule(from: nat, to: nat, bytes: Set<u8>) -> Seq<Seq<char>> {
    seq![state_guard(from), default_target(from)] + byte_arms(
        members(bytes),
        to,
        members(bytes).len(),
    ) + seq!["\t\t\t\t}"@]
}

/// Skip to `to` by default, and advance to `to` on a byte of the class.
pub open spec fn question_mark_rule(from: nat, to: nat, bytes: Set<u8>) -> Seq<Seq<char>> {
    seq![state_guard(from), default_target(to)] + byte_arms(
        members(bytes),
        to,
        members(bytes).len(),
    ) + seq!["\t\t\t\t}"@]
}

fn with_number(before: &str, n: u128, after: &str) -> (r: String)
    ensures
        r@ == before@ + decimal(n as nat) + after@,
{
    let mut out = String::from_str(before);
    push_decimal(&mut out, n);
    out.append(after);
    out
}

/// Appends the branches of the bytes of `char_set` and the end of the state's branch.
fn push_arms(lines: &mut Vec<String>, to_state: usize, char_set: &ByteSet)
    requires
        char_set.wf(),
    ensures
        lines_view(final(lines)@) == lines_view(old(lines)@) + byte_arms(
            members(char_set@),
            to_state as nat,
            members(char_set@).len(),
        ) + seq!["\t\t\t\t}"@],
{
    let bytes = char_set.to_vec();
    let ghost base = lines_view(lines@);
    assert(lines_view(lines@) =~= base + byte_arms(bytes@, to_state as nat, 0));
    let mut i: usize = 0;
    while i < bytes.len()
        invariant
            i <= bytes.len(),
            lines_view(lines@) == base + byte_arms(bytes@, to_state as nat, i as nat),
        decreases bytes.len() - i,
    {
        push_line(
            lines,
            with_number(
                "\t\t\t\t\tif current_input.is_eq(&FpVar::constant(F::from(",
                bytes[i] as u128,
                "u64)))? {",
            ),
        );
        push_line(
            lines,
            with_number(
                "\t\t\t\t\t\tnext_state = Some(FpVar::constant(F::from(",
                to_state as u128,
                "u64)));",
            ),
        );
        push_line(lines, String::from_str("\t\t\t\t\t}"));
        assert(lines_view(lines@) =~= base + byte_arms(bytes@, to_state as nat, (i + 1) as nat));
        i = i + 1;
    }
    push_line(lines, String::from_str("\t\t\t\t}"));
    assert(lines_view(lines@) =~= base + byte_arms(bytes@, to_state as nat, bytes@.len())
        + seq!["\t\t\t\t}"@]);
}

fn state_guard_line(from_state: usize) -> (r: String)
    ensures
        r@ == state_guard(from_state as nat),
{
    with_number(
        "\t\t\t\tif current_state.is_eq(&FpVar::constant(F::from(",
        from_state as u128,
        "u64)))? {",
    )
}

fn default_target_line(state: usize) -> (r: String)
    ensures
        r@ == default_target(state as nat),
{
    with_number(
        "\t\t\t\t\tnext_state = Some(FpVar::constant(F::from(",
        state as u128,
        "u64)));",
    )
}

/// The transition of `+`: from `from_state`, each byte of the class leads to
/// `to_state`.
pub fn handle_plus_rule(from_state: usize, to_state: usize, char_set: &ByteSet) -> (r: Vec<String>)
    requires
        char_set.wf(),
    ensures
        lines_view(r@) == class_rule(from_state as nat, to_state as nat, char_set@),
{
    let mut lines: Vec<String> = Vec::new();
    push_line(&mut lines, state_guard_line(from_state));
    push_arms(&mut lines, to_state, char_set);
    assert(lines_view(lines@) =~= class_rule(from_state as nat, to_state as nat, char_set@));
    lines
}

/// The transition of `*`: the automaton stays in `from_state` unless a byte of
/// the class leads it to `to_state`.
pub fn handle_star_rule(from_state: usize, to_state: usize, char_set: &ByteSet) -> (r: Vec<String>)
    requires
        char_set.wf(),
    ensures
        lines_view(r@) == star_rule(from_state as nat, to_state as nat, char_set@),
{
    let mut lines: Vec<String> = Vec::new();
    push_line(&mut lines, state_guard_line(from_state));
    push_line(&mut lines, default_target_line(from_state));
    push_arms(&mut lines, to_state, char_set);
    assert(lines_view(lines@) =~= star_rule(from_state as nat, to_state as nat, char_set@));
    lines
}

/// The transition of `?`: the automaton moves on to `to_state` at once, and a
/// byte of the class leads there too.
pub fn handle_question_mark_rule(from_state: usize, to_state: usize, char_set: &ByteSet) -> (r:
    Vec<String>)
    requires
        char_set.wf(),
    ensures
        lines_view(r@) == question_mark_rule(from_state as nat, to_state as nat, char_set@),
{
    let mut lines: Vec<String> = Vec::new();
    push_line(&mut lines, state_guard_line(from_state));
    push_line(&mut lines, default_target_line(to_state));
    push_arms(&mut lines, to_state, char_set);
    assert(lines_view(lines@) =~= question_mark_rule(
        from_state as nat,
        to_state as nat,
        char_set@,
    ));
    lines
}

/// The transition of a character class: from `from_state`, exactly the bytes of
/// the class lead to `to_state`.
pub fn handle_char_class_rule(from_state: usize, to_state: usize, char_set: &ByteSet) -> (r: Vec<
    String,
>)
    requires
        char_set.wf(),
    ensures
        lines_view(r@) == class_rule(from_state as nat, to_state as nat, char_set@),
{
    let mut lines: Vec<String> = Vec::new();
    push_line(&mut lines, state_guard_line(from_state));
    push_arms(&mut lines, to_state, char_set);
    assert(lines_view(lines@) =~= class_rule(from_state as nat, to_state as nat, char_set@));
    lines
}

} // verus!
