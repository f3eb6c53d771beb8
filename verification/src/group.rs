//! The registry of groups and rules.
//!
//! A group is a named state of the scanner. It owns its rules, in the order
//! in which they were declared, and may name a parent group whose rules it
//! inherits. The registry owns the groups, gives each the next free
//! identifier, and takes no change once it is frozen.

use crate::dfa::marks_valid;
use crate::dfa::recognizes;
use crate::dfa::Dfa;
use crate::pattern::Pattern;
use crate::text::decimal;
use crate::text::write_decimal;
use vstd::prelude::*;
use vstd::string::*;

verus! {

/// A rule: a pattern, and the action to take where the pattern matches.
#[derive(Debug, PartialEq, Eq)]
pub struct Rule {
    /// The pattern.
    pub pattern: Pattern,
    /// The text of the action. The registry does not look into it.
    pub action: String,
    /// The place of the rule among the rules of its group.
    pub index: usize,
}

impl Rule {
    /// Build a copy of the rule.
    pub fn duplicate(&self) -> (copy: Rule)
        ensures
            copy == *self,
    {
        Rule { pattern: self.pattern.duplicate(), action: self.action.clone(), index: self.index }
    }
}

impl Clone for Rule {
    fn clone(&self) -> (copy: Self)
        ensures
            copy == *self,
    {
        self.duplicate()
    }
}

/// A group: a named state of the scanner.
#[derive(Debug, PartialEq, Eq)]
pub struct Group {
    /// The identifier of the group, which is its place in the registry.
    pub id: usize,
    /// The name of the group.
    pub name: String,
    /// The group whose rules this group inherits, if any.
    pub parent: Option<usize>,
    /// The rules of the group, in the order in which they were declared.
    pub rules: Vec<Rule>,
}

/// Why the registry refused a call.
#[derive(Debug, PartialEq, Eq)]
pub enum RegistryError {
    /// The registry is frozen and takes no change.
    Frozen,
    /// No group has that identifier.
    UnknownGroup { id: usize },
    /// No group has that name.
    UnknownName { name: String },
    /// The parent named for a new group does not exist.
    UnknownParent { id: usize },
    /// The pattern of a new rule holds a range that admits no character.
    InvalidPattern,
}

/// Why a group could not be compiled.
#[derive(Copy, Clone, Debug, PartialEq, Eq)]
pub enum CompileError {
    /// No group has that identifier.
    UnknownGroup { id: usize },
    /// The group has no rules, neither of its own nor inherited.
    EmptyGroup { id: usize },
}

impl RegistryError {
    /// What the error says, in words.
    pub open spec fn message_text(self) -> Seq<char> {
        match self {
            RegistryError::Frozen => "the registry is frozen and takes no change"@,
            RegistryError::UnknownGroup { id } => "no group has the identifier "@ + decimal(
                id as nat,
            ),
            RegistryError::UnknownName { name } => "no group has the name "@ + name@,
            RegistryError::UnknownParent { id } => "the parent group "@ + decimal(id as nat)
                + " does not exist"@,
            RegistryError::InvalidPattern => "the pattern holds a range that admits no character"@,
        }
    }

    /// Say in words what went wrong.
    pub fn message(&self) -> (text: String)
        ensures
            text@ == self.message_text(),
    {
        match self {
            RegistryError::Frozen => "the registry is frozen and takes no change".to_owned(),
            RegistryError::UnknownGroup { id } => {
                let mut text = "no group has the identifier ".to_owned();
                text.append(write_decimal(*id as u64).as_str());
                text
            },
            RegistryError::UnknownName { name } => {
                let mut text = "no group has the name ".to_owned();
                text.append(name.as_str());
                text
            },
            RegistryError::UnknownParent { id } => {
                let mut text = "the parent group ".to_owned();
                text.append(write_decimal(*id as u64).as_str());
                text.append(" does not exist");
                text
            },
            RegistryError::InvalidPattern => {
                "the pattern holds a range that admits no character".to_owned()
            },
        }
    }
}

impl CompileError {
    /// What the error says, in words.
    pub open spec fn message_text(self) -> Seq<char> {
        match self {
            CompileError::UnknownGroup { id } => "no group has the identifier "@ + decimal(
                id as nat,
            ),
            CompileError::EmptyGroup { id } => "the group "@ + decimal(id as nat)
                + " has no rules"@,
        }
    }

    /// Say in words what went wrong.
    pub fn message(&self) -> (text: String)
        ensures
            text@ == self.message_text(),
    {
        match self {
            CompileError::UnknownGroup { id } => {
                let mut text = "no group has the identifier ".to_owned();
                text.append(write_decimal(*id as u64).as_str());
                text
            },
            CompileError::EmptyGroup { id } => {
                let mut text = "the group ".to_owned();
                text.append(write_decimal(*id as u64).as_str());
                text.append(" has no rules");
                text
            },
        }
    }
}

/// The groups are in order: each is known by its place, its parent stands
/// before it, and each of its rules by its place among them, with a pattern
/// that is well formed.
pub open spec fn groups_ok(groups: Seq<Group>) -> bool {
    forall|i: int|
        0 <= i < groups.len() ==> {
            let group = #[trigger] groups[i];
            &&& group.id == i
            &&& (group.parent matches Some(p) ==> p < i)
            &&& forall|k: int|
                0 <= k < group.rules@.len() ==> (#[trigger] group.rules@[k]).index == k
                    && group.rules@[k].pattern.well_formed()
        }
}

/// The rules that hold in the group `id`: its own, and after them those that
/// hold in its parent. A rule that stands earlier takes precedence, so the
/// rules of a group come before the rules it inherits.
pub open spec fn effective_rules(groups: Seq<Group>, id: int) -> Seq<Rule>
    decreases id,
{
    if 0 <= id < groups.len() {
        groups[id].rules@ + match groups[id].parent {
            Some(p) => if p < id {
                effective_rules(groups, p as int)
            } else {
                Seq::empty()
            },
            None => Seq::empty(),
        }
    } else {
        Seq::empty()
    }
}

/// The patterns of the rules, in order.
pub open spec fn patterns_of(rules: Seq<Rule>) -> Seq<Pattern> {
    Seq::new(rules.len(), |i: int| rules[i].pattern)
}

/// The automaton is that of the rules that hold in the group `id`: it yields
/// on every string the first of those rules whose pattern describes the
/// string, and is marked with no other rules.
pub open spec fn compiled(groups: Seq<Group>, id: int, dfa: Dfa) -> bool {
    &&& dfa.well_formed()
    &&& recognizes(dfa, patterns_of(effective_rules(groups, id)))
    &&& marks_valid(dfa, effective_rules(groups, id).len())
}

/// The place of the first group from `from` on in which no rule holds.
pub open spec fn first_empty(groups: Seq<Group>, from: int) -> Option<int>
    decreases groups.len() - from,
{
    if from < 0 || from >= groups.len() {
        None
    } else if effective_rules(groups, from).len() == 0 {
        Some(from)
    } else {
        first_empty(groups, from + 1)
    }
}

/// The first group with the name `name` stands at place `i`.
pub open spec fn first_named(groups: Seq<Group>, name: Seq<char>, i: int) -> bool {
    &&& 0 <= i < groups.len()
    &&& groups[i].name@ == name
    &&& forall|j: int| 0 <= j < i ==> (#[trigger] groups[j]).name@ != name
}

/// No group has the name `name`.
pub open spec fn unnamed(groups: Seq<Group>, name: Seq<char>) -> bool {
    forall|j: int| 0 <= j < groups.len() ==> (#[trigger] groups[j]).name@ != name
}

/// The group `a` is the group `b` or one of those it inherits from.
pub open spec fn inherits(groups: Seq<Group>, b: int, a: int) -> bool
    decreases b,
{
    0 <= b < groups.len() && (a == b || match groups[b].parent {
        Some(p) => p < b && inherits(groups, p as int, a),
        None => false,
    })
}

/// No group is its own ancestor: what a group inherits from stands before
/// it, so that the parent of a group never inherits from the group.
pub proof fn lemma_no_cycles(groups: Seq<Group>, b: int, a: int)
    requires
        groups_ok(groups),
        inherits(groups, b, a),
    ensures
        0 <= a <= b < groups.len(),
        groups[b].parent matches Some(p) ==> !inherits(groups, p as int, b),
    decreases b,
{
    match groups[b].parent {
        Some(p) => {
            if a != b {
                lemma_no_cycles(groups, p as int, a);
            }
            if inherits(groups, p as int, b) {
                lemma_no_cycles(groups, p as int, b);
            }
        },
        None => {},
    }
}

/// The registry of the groups of one lexer.
#[derive(Debug)]
pub struct Registry {
    groups: Vec<Group>,
    frozen: bool,
}

impl View for Registry {
    type V = Seq<Group>;

    closed spec fn view(&self) -> Seq<Group> {
        self.groups@
    }
}

impl Registry {
    /// The registry takes no change.
    pub closed spec fn is_frozen(&self) -> bool {
        self.frozen
    }

    /// The groups of the registry are in order.
    pub open spec fn wf(&self) -> bool {
        groups_ok(self@)
    }

    /// A registry without groups, open to change.
    pub fn new() -> (registry: Registry)
        ensures
            registry.wf(),
            registry@.len() == 0,
            !registry.is_frozen(),
    {
        Registry { groups: Vec::new(), frozen: false }
    }

    /// The number of groups.
    pub fn len(&self) -> (n: usize)
        ensures
            n == self@.len(),
    {
        self.groups.len()
    }

    /// Whether the registry is frozen.
    pub fn frozen(&self) -> (frozen: bool)
        ensures
            frozen == self.is_frozen(),
    {
        self.frozen
    }

    /// Close the registry to change.
    pub fn freeze(&mut self)
        ensures
            final(self)@ == old(self)@,
            final(self).is_frozen(),
    {
        self.frozen = true;
    }

    /// Register a group with the name `name` that inherits from `parent`,
    /// and return its identifier, which is the next free one.
    ///
    /// A frozen registry refuses the call, and so does one that has no group
    /// `parent`; it then stays as it is.
    pub fn create_group(&mut self, name: &str, parent: Option<usize>) -> (result: Result<
        usize,
        RegistryError,
    >)
        requires
            old(self).wf(),
        ensures
            final(self).wf(),
            final(self).is_frozen() == old(self).is_frozen(),
            old(self).is_frozen() ==> result == Err::<usize, RegistryError>(RegistryError::Frozen),
            !old(self).is_frozen() && (parent matches Some(p) && p >= old(self)@.len()) ==> result
                == Err::<usize, RegistryError>(RegistryError::UnknownParent { id: parent->0 }),
            !old(self).is_frozen() && !(parent matches Some(p) && p >= old(self)@.len())
                ==> result == Ok::<usize, RegistryError>(old(self)@.len() as usize),
            result is Err ==> final(self)@ == old(self)@,
            result is Ok ==> {
                &&& final(self)@.len() == old(self)@.len() + 1
                &&& final(self)@.drop_last() == old(self)@
                &&& final(self)@.last().id == old(self)@.len()
                &&& final(self)@.last().name@ == name@
                &&& final(self)@.last().parent == parent
                &&& final(self)@.last().rules@.len() == 0
            },
    {
        if self.frozen {
            return Err(RegistryError::Frozen);
        }
        let id = self.groups.len();
        match parent {
            Some(p) => {
                if p >= id {
                    return Err(RegistryError::UnknownParent { id: p });
                }
            },
            None => {},
        }
        self.groups.push(Group { id, name: name.to_owned(), parent, rules: Vec::new() });
        Ok(id)
    }

    /// Add a rule to the group `group`, behind the rules that it has.
    ///
    /// A frozen registry refuses the call, and so does one that has no group
    /// `group`; a pattern that is not well formed is refused. The registry
    /// then stays as it is.
    pub fn create_rule(&mut self, group: usize, pattern: Pattern, action: &str) -> (result: Result<
        (),
        RegistryError,
    >)
        requires
            old(self).wf(),
        ensures
            final(self).wf(),
            final(self).is_frozen() == old(self).is_frozen(),
            old(self).is_frozen() ==> result == Err::<(), RegistryError>(RegistryError::Frozen),
            !old(self).is_frozen() && group >= old(self)@.len() ==> result == Err::<
                (),
                RegistryError,
            >(RegistryError::UnknownGroup { id: group }),
            !old(self).is_frozen() && group < old(self)@.len() && !pattern.well_formed() ==> result
                == Err::<(), RegistryError>(RegistryError::InvalidPattern),
            !old(self).is_frozen() && group < old(self)@.len() && pattern.well_formed()
                ==> result is Ok,
            result is Err ==> final(self)@ == old(self)@,
            result is Ok ==> {
                &&& final(self)@.len() == old(self)@.len()
                &&& forall|i: int|
                    0 <= i < old(self)@.len() && i != group ==> #[trigger] final(self)@[i] == old(
                        self,
                    )@[i]
                &&& final(self)@[group as int].id == old(self)@[group as int].id
                &&& final(self)@[group as int].name == old(self)@[group as int].name
                &&& final(self)@[group as int].parent == old(self)@[group as int].parent
                &&& final(self)@[group as int].rules@.len() == old(self)@[group as int].rules@.len()
                    + 1
                &&& final(self)@[group as int].rules@.drop_last() == old(
                    self,
                )@[group as int].rules@
                &&& final(self)@[group as int].rules@.last().pattern == pattern
                &&& final(self)@[group as int].rules@.last().action@ == action@
                &&& final(self)@[group as int].rules@.last().index == old(
                    self,
                )@[group as int].rules@.len()
            },
    {
        if self.frozen {
            return Err(RegistryError::Frozen);
        }
        if group >= self.groups.len() {
            return Err(RegistryError::UnknownGroup { id: group });
        }
        if !pattern.is_well_formed() {
            return Err(RegistryError::InvalidPattern);
        }
        let mut changed = self.groups.remove(group);
        let index = changed.rules.len();
        changed.rules.push(Rule { pattern, action: action.to_owned(), index });
        self.groups.insert(group, changed);
        proof {
            let after = self@;
            assert forall|i: int| 0 <= i < after.len() implies {
                let g = #[trigger] after[i];
                &&& g.id == i
                &&& (g.parent matches Some(p) ==> p < i)
                &&& forall|k: int|
                    0 <= k < g.rules@.len() ==> (#[trigger] g.rules@[k]).index == k
                        && g.rules@[k].pattern.well_formed()
            } by {}
        }
        Ok(())
    }

    /// The group with the identifier `id`.
    pub fn group(&self, id: usize) -> (result: Result<&Group, RegistryError>)
        ensures
            id < self@.len() ==> result == Ok::<&Group, RegistryError>(&self@[id as int]),
            id >= self@.len() ==> result == Err::<&Group, RegistryError>(
                RegistryError::UnknownGroup { id },
            ),
    {
        if id < self.groups.len() {
            Ok(&self.groups[id])
        } else {
            Err(RegistryError::UnknownGroup { id })
        }
    }

    /// The first group with the name `name`.
    pub fn group_by_name(&self, name: &str) -> (result: Result<&Group, RegistryError>)
        ensures
            match result {
                Ok(group) => exists|i: int|
                    first_named(self@, name@, i) && *group == #[trigger] self@[i],
                Err(RegistryError::UnknownName { name: unknown }) => unknown@ == name@ && unnamed(
                    self@,
                    name@,
                ),
                Err(_) => false,
            },
    {
        let key = name.to_owned();
        let mut i: usize = 0;
        while i < self.groups.len()
            invariant
                i <= self@.len(),
                key@ == name@,
                forall|j: int| 0 <= j < i ==> (#[trigger] self@[j]).name@ != name@,
            decreases self@.len() - i,
        {
            if self.groups[i].name == key {
                return Ok(&self.groups[i]);
            }
            i = i + 1;
        }
        Err(RegistryError::UnknownName { name: key })
    }

    /// The rules that hold in the group `id`: its own, and after them those
    /// that it inherits.
    pub fn rules_for(&self, id: usize) -> (result: Result<Vec<Rule>, RegistryError>)
        requires
            self.wf(),
        ensures
            id >= self@.len() ==> result == Err::<Vec<Rule>, RegistryError>(
                RegistryError::UnknownGroup { id },
            ),
            id < self@.len() ==> (result matches Ok(rules) && rules@ == effective_rules(
                self@,
                id as int,
            )),
    {
        if id >= self.groups.len() {
            return Err(RegistryError::UnknownGroup { id });
        }
        let mut rules: Vec<Rule> = Vec::new();
        let mut current: Option<usize> = Some(id);
        loop
            invariant
                self.wf(),
                id < self@.len(),
                match current {
                    Some(g) => g < self@.len() && rules@ + effective_rules(self@, g as int)
                        == effective_rules(self@, id as int),
                    None => rules@ == effective_rules(self@, id as int),
                },
            decreases
                    match current {
                        Some(g) => g + 1,
                        None => 0,
                    },
        {
            match current {
                None => {
                    return Ok(rules);
                },
                Some(g) => {
                    let group = &self.groups[g];
                    let ghost before = rules@;
                    let mut k: usize = 0;
                    while k < group.rules.len()
                        invariant
                            k <= group.rules@.len(),
                            rules@ == before + group.rules@.take(k as int),
                        decreases group.rules@.len() - k,
                    {
                        rules.push(group.rules[k].duplicate());
                        k = k + 1;
                    }
                    current = group.parent;
                },
            }
        }
    }

    /// Compile the rules that hold in the group `id` into a deterministic
    /// automaton.
    ///
    /// The automaton yields on every string the first of those rules whose
    /// pattern describes the string. A group in which no rule holds is
    /// refused.
    pub fn compile(&self, id: usize) -> (result: Result<Dfa, CompileError>)
        requires
            self.wf(),
        ensures
            id >= self@.len() ==> result == Err::<Dfa, CompileError>(
                CompileError::UnknownGroup { id },
            ),
            id < self@.len() && effective_rules(self@, id as int).len() == 0 ==> result == Err::<
                Dfa,
                CompileError,
            >(CompileError::EmptyGroup { id }),
            id < self@.len() && effective_rules(self@, id as int).len() > 0 ==> (result matches Ok(
                dfa,
            ) && compiled(self@, id as int, dfa)),
    {
        let rules = match self.rules_for(id) {
            Ok(rules) => rules,
            Err(_) => {
                return Err(CompileError::UnknownGroup { id });
            },
        };
        if rules.len() == 0 {
            return Err(CompileError::EmptyGroup { id });
        }
        let mut patterns: Vec<Pattern> = Vec::new();
        let mut k: usize = 0;
        while k < rules.len()
            invariant
                k <= rules@.len(),
                patterns@ == patterns_of(rules@.take(k as int)),
            decreases rules@.len() - k,
        {
            patterns.push(rules[k].pattern.duplicate());
            k = k + 1;
        }
        proof {
            assert(rules@.take(k as int) =~= rules@);
        }
        Ok(Dfa::for_patterns(&patterns))
    }

    /// Compile every group, in the order of the groups.
    ///
    /// The first group in which no rule holds is refused, and no automaton
    /// is returned.
    pub fn compile_all(&self) -> (result: Result<Vec<Dfa>, CompileError>)
        requires
            self.wf(),
        ensures
            match first_empty(self@, 0) {
                Some(id) => result == Err::<Vec<Dfa>, CompileError>(
                    CompileError::EmptyGroup { id: id as usize },
                ),
                None => result matches Ok(automata) && automata@.len() == self@.len() && forall|
                    i: int,
                |
                    0 <= i < self@.len() ==> compiled(self@, i, #[trigger] automata@[i]),
            },
    {
        let mut automata: Vec<Dfa> = Vec::new();
        let mut i: usize = 0;
        while i < self.groups.len()
            invariant
                i <= self@.len(),
                self.wf(),
                automata@.len() == i,
                first_empty(self@, 0) == first_empty(self@, i as int),
                forall|k: int| 0 <= k < i ==> compiled(self@, k, #[trigger] automata@[k]),
            decreases self@.len() - i,
        {
            match self.compile(i) {
                Ok(dfa) => {
                    automata.push(dfa);
                },
                Err(fault) => {
                    return Err(fault);
                },
            }
            i = i + 1;
        }
        Ok(automata)
    }
}

} // verus!
