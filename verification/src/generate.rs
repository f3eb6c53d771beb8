//! The specializer: it writes the text of a scanner from a registry and the
//! automata of its groups.
//!
//! The text holds a driver, named after the lexer, that enters the routine of
//! the initial group, and one routine per group, named after the group. A
//! routine lists the states of the group's automaton; a state lists its
//! transitions and, where it is marked with a rule, the action of that rule,
//! letter for letter. The text is a function of what the specializer is
//! given, and [`scanner_text`] is that function.

use crate::dfa;
use crate::dfa::marks_valid;
use crate::dfa::Dfa;
use crate::dfa::Transition;
use crate::group::compiled;
use crate::group::effective_rules;
use crate::group::first_empty;
use crate::group::CompileError;
use crate::group::Group;
use crate::group::Registry;
use crate::group::Rule;
use crate::text::decimal;
use crate::text::write_decimal;
use vstd::prelude::*;
use vstd::string::*;

verus! {

/// Why no text was written.
#[derive(Copy, Clone, Debug, PartialEq, Eq)]
pub enum GenError {
    /// The initial group does not exist.
    UnknownInitialGroup { id: usize },
    /// The automata are not one per group.
    Mismatch { groups: usize, automata: usize },
    /// The group has no rules, neither of its own nor inherited.
    EmptyGroup { id: usize },
    /// The automaton of the group is marked with a rule that the group does
    /// not have.
    Inconsistent { id: usize },
}

// ================
// === The text ===
// ================

/// The line of a transition.
pub open spec fn transition_text(transition: Transition) -> Seq<char> {
    "        on "@ + decimal(transition.low as nat) + "..="@ + decimal(transition.high as nat)
        + " goto "@ + decimal(transition.target as nat) + "\n"@
}

/// The lines of the first `n` transitions.
pub open spec fn transitions_text(row: Seq<Transition>, n: int) -> Seq<char>
    decreases n,
{
    if n <= 0 {
        Seq::empty()
    } else {
        transitions_text(row, n - 1) + transition_text(row[n - 1])
    }
}

/// The line of the rule that a state is marked with, which holds the action
/// of the rule.
pub open spec fn final_text(rule: usize, action: Seq<char>) -> Seq<char> {
    "        final rule "@ + decimal(rule as nat) + " { "@ + action + " }\n"@
}

/// The block of state `k`.
pub open spec fn state_text(k: nat, state: dfa::State, rules: Seq<Rule>) -> Seq<char> {
    "    state "@ + decimal(k) + " {\n"@ + transitions_text(
        state.transitions@,
        state.transitions@.len() as int,
    ) + match state.finalize {
        Some(rule) => final_text(rule, rules[rule as int].action@),
        None => Seq::empty(),
    } + "    }\n"@
}

/// The blocks of the first `n` states.
pub open spec fn states_text(states: Seq<dfa::State>, rules: Seq<Rule>, n: int) -> Seq<char>
    decreases n,
{
    if n <= 0 {
        Seq::empty()
    } else {
        states_text(states, rules, n - 1) + state_text((n - 1) as nat, states[n - 1], rules)
    }
}

/// The name of the routine of a group: made of the group's name and its
/// identifier.
pub open spec fn routine_name(group: Group) -> Seq<char> {
    "dispatch_"@ + group.name@ + "_"@ + decimal(group.id as nat)
}

/// The routine of a group.
pub open spec fn routine_text(group: Group, automaton: Dfa, rules: Seq<Rule>, output: Seq<char>) -> Seq<
    char,
> {
    "\nfn "@ + routine_name(group) + "(reader: &mut Reader, output: &mut "@ + output + ") {\n"@
        + states_text(automaton.states@, rules, automaton.states@.len() as int) + "}\n"@
}

/// The routines of the first `n` groups.
pub open spec fn routines_text(
    groups: Seq<Group>,
    automata: Seq<Dfa>,
    output: Seq<char>,
    n: int,
) -> Seq<char>
    decreases n,
{
    if n <= 0 {
        Seq::empty()
    } else {
        routines_text(groups, automata, output, n - 1) + routine_text(
            groups[n - 1],
            automata[n - 1],
            effective_rules(groups, n - 1),
            output,
        )
    }
}

/// The driver: the routine named after the lexer, which enters the routine
/// of the initial group.
pub open spec fn driver_text(name: Seq<char>, output: Seq<char>, initial: Group) -> Seq<char> {
    "// Scanner "@ + name + ", which fills "@ + output + ".\npub fn "@ + name
        + "_run(reader: &mut Reader, output: &mut "@ + output + ") {\n    "@ + routine_name(initial)
        + "(reader, output)\n}\n"@
}

/// The text of the scanner.
pub open spec fn scanner_text(
    groups: Seq<Group>,
    automata: Seq<Dfa>,
    initial: int,
    name: Seq<char>,
    output: Seq<char>,
) -> Seq<char> {
    driver_text(name, output, groups[initial]) + routines_text(
        groups,
        automata,
        output,
        groups.len() as int,
    )
}

// ==================
// === The checks ===
// ==================

/// What is wrong with the group at place `i`, if anything.
pub open spec fn group_fault(groups: Seq<Group>, automata: Seq<Dfa>, i: int) -> Option<GenError> {
    if effective_rules(groups, i).len() == 0 {
        Some(GenError::EmptyGroup { id: i as usize })
    } else if !marks_valid(automata[i], effective_rules(groups, i).len()) {
        Some(GenError::Inconsistent { id: i as usize })
    } else {
        None
    }
}

/// The fault of the first group from place `from` on that has one.
pub open spec fn first_fault(groups: Seq<Group>, automata: Seq<Dfa>, from: int) -> Option<GenError>
    decreases groups.len() - from,
{
    if from < 0 || from >= groups.len() {
        None
    } else {
        match group_fault(groups, automata, from) {
            Some(fault) => Some(fault),
            None => first_fault(groups, automata, from + 1),
        }
    }
}

/// Why no text can be written, if that is so: the initial group does not
/// exist, the automata are not one per group, or a group has a fault.
pub open spec fn generation_error(groups: Seq<Group>, automata: Seq<Dfa>, initial: usize) -> Option<
    GenError,
> {
    if initial >= groups.len() {
        Some(GenError::UnknownInitialGroup { id: initial })
    } else if automata.len() != groups.len() {
        Some(GenError::Mismatch { groups: groups.len() as usize, automata: automata.len() as usize })
    } else {
        first_fault(groups, automata, 0)
    }
}

/// What the specializer returns: the error, if there is one, and else the
/// text of the scanner.
pub open spec fn specialized(
    groups: Seq<Group>,
    automata: Seq<Dfa>,
    initial: usize,
    name: Seq<char>,
    output: Seq<char>,
    result: Result<String, GenError>,
) -> bool {
    match generation_error(groups, automata, initial) {
        Some(fault) => result == Err::<String, GenError>(fault),
        None => result matches Ok(text) && text@ == scanner_text(
            groups,
            automata,
            initial as int,
            name,
            output,
        ),
    }
}

/// The specializer writes the same text whenever it is given the same: two
/// results for the same registry, automata and names both fail, with the
/// same error, or both hold the same text.
pub proof fn lemma_deterministic(
    groups: Seq<Group>,
    automata: Seq<Dfa>,
    initial: usize,
    name: Seq<char>,
    output: Seq<char>,
    first: Result<String, GenError>,
    second: Result<String, GenError>,
)
    requires
        specialized(groups, automata, initial, name, output, first),
        specialized(groups, automata, initial, name, output, second),
    ensures
        first is Ok <==> second is Ok,
        first matches Ok(a) ==> second matches Ok(b) && a@ == b@,
        first matches Err(a) ==> second matches Err(b) && a == b,
{
}

/// A group without rules is refused: where a group has no rules, neither of
/// its own nor inherited, no text is written.
pub proof fn lemma_empty_group_refused(
    groups: Seq<Group>,
    automata: Seq<Dfa>,
    initial: usize,
    id: int,
)
    requires
        0 <= id < groups.len(),
        effective_rules(groups, id).len() == 0,
    ensures
        generation_error(groups, automata, initial) is Some,
{
    if initial < groups.len() && automata.len() == groups.len() {
        lemma_fault_found(groups, automata, 0, id);
    }
}

/// A fault at or behind place `from` is found from there.
proof fn lemma_fault_found(groups: Seq<Group>, automata: Seq<Dfa>, from: int, id: int)
    requires
        0 <= from <= id < groups.len(),
        group_fault(groups, automata, id) is Some,
    ensures
        first_fault(groups, automata, from) is Some,
    decreases id - from,
{
    if from < id && group_fault(groups, automata, from) is None {
        lemma_fault_found(groups, automata, from + 1, id);
    }
}

/// The automata are those of the groups, one each and in their order.
pub open spec fn all_compiled(groups: Seq<Group>, automata: Seq<Dfa>) -> bool {
    &&& automata.len() == groups.len()
    &&& forall|i: int| 0 <= i < groups.len() ==> compiled(groups, i, #[trigger] automata[i])
}

/// What `generate` returns: an error where the initial group does not exist
/// or where a group has no rules, and else the text of the scanner for
/// automata that are those of the groups.
pub open spec fn generated(
    groups: Seq<Group>,
    initial: usize,
    name: Seq<char>,
    output: Seq<char>,
    result: Result<String, GenError>,
) -> bool {
    if initial >= groups.len() {
        result == Err::<String, GenError>(GenError::UnknownInitialGroup { id: initial })
    } else {
        match first_empty(groups, 0) {
            Some(id) => result == Err::<String, GenError>(
                GenError::EmptyGroup { id: id as usize },
            ),
            None => result matches Ok(text) && exists|automata: Seq<Dfa>|
                all_compiled(groups, automata) && text@ == #[trigger] scanner_text(
                    groups,
                    automata,
                    initial as int,
                    name,
                    output,
                ),
        }
    }
}

/// Where no group from `from` on is without rules, a rule holds in each.
proof fn lemma_none_empty(groups: Seq<Group>, from: int, i: int)
    requires
        0 <= from <= i < groups.len(),
        first_empty(groups, from) is None,
    ensures
        effective_rules(groups, i).len() > 0,
    decreases i - from,
{
    if from < i {
        lemma_none_empty(groups, from + 1, i);
    }
}

/// Where no group from `from` on has a fault, none is found.
proof fn lemma_no_fault(groups: Seq<Group>, automata: Seq<Dfa>, from: int)
    requires
        0 <= from,
        forall|i: int| from <= i < groups.len() ==> group_fault(groups, automata, i) is None,
    ensures
        first_fault(groups, automata, from) is None,
    decreases groups.len() - from,
{
    if from < groups.len() {
        lemma_no_fault(groups, automata, from + 1);
    }
}

impl GenError {
    /// What the error says, in words.
    pub open spec fn message_text(self) -> Seq<char> {
        match self {
            GenError::UnknownInitialGroup { id } => "the initial group "@ + decimal(id as nat)
                + " does not exist"@,
            GenError::Mismatch { groups, automata } => "there are "@ + decimal(groups as nat)
                + " groups but "@ + decimal(automata as nat) + " automata"@,
            GenError::EmptyGroup { id } => "the group "@ + decimal(id as nat) + " has no rules"@,
            GenError::Inconsistent { id } => "the automaton of the group "@ + decimal(id as nat)
                + " is marked with a rule that the group does not have"@,
        }
    }

    /// Say in words what went wrong.
    pub fn message(&self) -> (text: String)
        ensures
            text@ == self.message_text(),
    {
        match self {
            GenError::UnknownInitialGroup { id } => {
                let mut text = "the initial group ".to_owned();
                text.append(write_decimal(*id as u64).as_str());
                text.append(" does not exist");
                text
            },
            GenError::Mismatch { groups, automata } => {
                let mut text = "there are ".to_owned();
                text.append(write_decimal(*groups as u64).as_str());
                text.append(" groups but ");
                text.append(write_decimal(*automata as u64).as_str());
                text.append(" automata");
                text
            },
            GenError::EmptyGroup { id } => {
                let mut text = "the group ".to_owned();
                text.append(write_decimal(*id as u64).as_str());
                text.append(" has no rules");
                text
            },
            GenError::Inconsistent { id } => {
                let mut text = "the automaton of the group ".to_owned();
                text.append(write_decimal(*id as u64).as_str());
                text.append(" is marked with a rule that the group does not have");
                text
            },
        }
    }
}

// ===================
// === The writing ===
// ===================

/// Write the line of a transition.
fn write_transition(transition: &Transition) -> (text: String)
    ensures
        text@ == transition_text(*transition),
{
    let mut text = "        on ".to_owned();
    text.append(write_decimal(transition.low as u64).as_str());
    text.append("..=");
    text.append(write_decimal(transition.high as u64).as_str());
    text.append(" goto ");
    text.append(write_decimal(transition.target as u64).as_str());
    text.append("\n");
    text
}

/// Write the lines of the transitions of a state.
fn write_transitions(row: &Vec<Transition>) -> (text: String)
    ensures
        text@ == transitions_text(row@, row@.len() as int),
{
    let mut text = String::new();
    let mut j: usize = 0;
    while j < row.len()
        invariant
            j <= row@.len(),
            text@ == transitions_text(row@, j as int),
        decreases row@.len() - j,
    {
        text.append(write_transition(&row[j]).as_str());
        j = j + 1;
    }
    text
}

/// Write the block of state `k`.
fn write_state(k: usize, state: &dfa::State, rules: &Vec<Rule>) -> (text: String)
    requires
        state.finalize matches Some(rule) ==> rule < rules@.len(),
    ensures
        text@ == state_text(k as nat, *state, rules@),
{
    let mut text = "    state ".to_owned();
    text.append(write_decimal(k as u64).as_str());
    text.append(" {\n");
    text.append(write_transitions(&state.transitions).as_str());
    match state.finalize {
        Some(rule) => {
            text.append("        final rule ");
            text.append(write_decimal(rule as u64).as_str());
            text.append(" { ");
            text.append(rules[rule].action.as_str());
            text.append(" }\n");
        },
        None => {},
    }
    text.append("    }\n");
    text
}

/// Write the blocks of the states of an automaton.
fn write_states(automaton: &Dfa, rules: &Vec<Rule>) -> (text: String)
    requires
        marks_valid(*automaton, rules@.len()),
    ensures
        text@ == states_text(automaton.states@, rules@, automaton.states@.len() as int),
{
    let mut text = String::new();
    let mut k: usize = 0;
    while k < automaton.states.len()
        invariant
            k <= automaton.states@.len(),
            marks_valid(*automaton, rules@.len()),
            text@ == states_text(automaton.states@, rules@, k as int),
        decreases automaton.states@.len() - k,
    {
        text.append(write_state(k, &automaton.states[k], rules).as_str());
        k = k + 1;
    }
    text
}

/// Write the name of the routine of a group.
fn write_routine_name(group: &Group) -> (text: String)
    ensures
        text@ == routine_name(*group),
{
    let mut text = "dispatch_".to_owned();
    text.append(group.name.as_str());
    text.append("_");
    text.append(write_decimal(group.id as u64).as_str());
    text
}

/// Write the routine of a group.
fn write_routine(group: &Group, automaton: &Dfa, rules: &Vec<Rule>, output: &str) -> (text: String)
    requires
        marks_valid(*automaton, rules@.len()),
    ensures
        text@ == routine_text(*group, *automaton, rules@, output@),
{
    let mut text = "\nfn ".to_owned();
    text.append(write_routine_name(group).as_str());
    text.append("(reader: &mut Reader, output: &mut ");
    text.append(output);
    text.append(") {\n");
    text.append(write_states(automaton, rules).as_str());
    text.append("}\n");
    text
}

/// Write the driver.
fn write_driver(name: &str, output: &str, initial: &Group) -> (text: String)
    ensures
        text@ == driver_text(name@, output@, *initial),
{
    let mut text = "// Scanner ".to_owned();
    text.append(name);
    text.append(", which fills ");
    text.append(output);
    text.append(".\npub fn ");
    text.append(name);
    text.append("_run(reader: &mut Reader, output: &mut ");
    text.append(output);
    text.append(") {\n    ");
    text.append(write_routine_name(initial).as_str());
    text.append("(reader, output)\n}\n");
    text
}

/// Whether every rule that a state of the automaton is marked with is one of
/// the first `count` rules.
fn check_marks(automaton: &Dfa, count: usize) -> (valid: bool)
    ensures
        valid == marks_valid(*automaton, count as nat),
{
    let mut q: usize = 0;
    while q < automaton.states.len()
        invariant
            q <= automaton.states@.len(),
            forall|p: int|
                0 <= p < q ==> ((#[trigger] automaton.states@[p]).finalize matches Some(rule)
                    ==> rule < count),
        decreases automaton.states@.len() - q,
    {
        match automaton.states[q].finalize {
            Some(rule) => {
                if rule >= count {
                    return false;
                }
            },
            None => {},
        }
        q = q + 1;
    }
    true
}

/// Write the text of the scanner of `registry`, whose groups have the
/// automata `automata`, one each and in the order of the groups. The driver
/// is named after `name`, fills a value of the type named `output`, and
/// begins in the group `initial`.
///
/// No text is written where the initial group does not exist, where the
/// automata are not one per group, where a group has no rules, or where an
/// automaton is marked with a rule that its group does not have.
pub fn specialize(
    registry: &Registry,
    automata: &Vec<Dfa>,
    initial: usize,
    name: &str,
    output: &str,
) -> (result: Result<String, GenError>)
    requires
        registry.wf(),
    ensures
        specialized(registry@, automata@, initial, name@, output@, result),
{
    let count = registry.len();
    if initial >= count {
        return Err(GenError::UnknownInitialGroup { id: initial });
    }
    if automata.len() != count {
        return Err(GenError::Mismatch { groups: count, automata: automata.len() });
    }
    let mut routines = String::new();
    let mut i: usize = 0;
    while i < count
        invariant
            i <= count,
            initial < count,
            count == registry@.len(),
            automata@.len() == count,
            registry.wf(),
            first_fault(registry@, automata@, 0) == first_fault(registry@, automata@, i as int),
            routines@ == routines_text(registry@, automata@, output@, i as int),
        decreases count - i,
    {
        let rules = match registry.rules_for(i) {
            Ok(rules) => rules,
            Err(_) => {
                return Err(GenError::Inconsistent { id: i });
            },
        };
        if rules.len() == 0 {
            return Err(GenError::EmptyGroup { id: i });
        }
        if !check_marks(&automata[i], rules.len()) {
            return Err(GenError::Inconsistent { id: i });
        }
        let group = match registry.group(i) {
            Ok(group) => group,
            Err(_) => {
                return Err(GenError::Inconsistent { id: i });
            },
        };
        routines.append(write_routine(group, &automata[i], &rules, output).as_str());
        i = i + 1;
    }
    let first = match registry.group(initial) {
        Ok(group) => group,
        Err(_) => {
            return Err(GenError::UnknownInitialGroup { id: initial });
        },
    };
    let mut text = write_driver(name, output, first);
    text.append(routines.as_str());
    Ok(text)
}

/// Compile the groups of `registry` and write the text of its scanner. The
/// driver is named after `name`, fills a value of the type named `output`,
/// and begins in the group `initial`.
///
/// No text is written where the initial group does not exist, or where a
/// group has no rules, neither of its own nor inherited.
pub fn generate(registry: &Registry, initial: usize, name: &str, output: &str) -> (result: Result<
    String,
    GenError,
>)
    requires
        registry.wf(),
    ensures
        generated(registry@, initial, name@, output@, result),
{
    if initial >= registry.len() {
        return Err(GenError::UnknownInitialGroup { id: initial });
    }
    match registry.compile_all() {
        Err(CompileError::EmptyGroup { id }) => Err(GenError::EmptyGroup { id }),
        Err(CompileError::UnknownGroup { id }) => Err(GenError::Inconsistent { id }),
        Ok(automata) => {
            proof {
                assert forall|i: int| 0 <= i < registry@.len() implies group_fault(
                    registry@,
                    automata@,
                    i,
                ) is None by {
                    lemma_none_empty(registry@, 0, i);
                }
                lemma_no_fault(registry@, automata@, 0);
            }
            specialize(registry, &automata, initial, name, output)
        },
    }
}

} // verus!
