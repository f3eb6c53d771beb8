//! What a lexer definition offers to the engine, and a definition that is
//! built by registering groups and rules.

use crate::dfa::Dfa;
use crate::generate::generate;
use crate::generate::generated;
use crate::generate::GenError;
use crate::group::compiled;
use crate::group::effective_rules;
use crate::group::CompileError;
use crate::group::Group;
use crate::group::Registry;
use crate::group::RegistryError;
use crate::pattern::Pattern;
use crate::reader::Reader;
use crate::reader::Source;
use crate::scan::scan;
use crate::scan::tokenize;
use crate::scan::views;
use crate::scan::Match;
use vstd::prelude::*;

verus! {

/// The capabilities of a lexer definition: it holds a registry of groups,
/// names the group in which scanning begins, has hooks that the engine calls
/// before and after a scanning session, and can write the text of its
/// scanner.
pub trait Definition {
    /// The definition is in order. What a definition does not say of itself
    /// is left open, here and below.
    open spec fn valid(&self) -> bool {
        arbitrary()
    }

    /// The groups of the definition.
    open spec fn groups_view(&self) -> Seq<Group> {
        arbitrary()
    }

    /// The group in which scanning begins.
    open spec fn initial_view(&self) -> usize {
        arbitrary()
    }

    /// The name of the lexer.
    open spec fn name_view(&self) -> Seq<char> {
        arbitrary()
    }

    /// The name of the type that the scanner fills.
    open spec fn output_view(&self) -> Seq<char> {
        arbitrary()
    }

    /// The registry of the definition.
    fn groups(&self) -> (registry: &Registry)
        requires
            self.valid(),
        ensures
            registry.wf(),
            registry@ == self.groups_view(),
    ;

    /// The group in which scanning begins.
    fn initial_group(&self) -> (id: usize)
        requires
            self.valid(),
        ensures
            id == self.initial_view(),
    ;

    /// Called before a scanning session. It leaves the definition as it is.
    fn set_up(&mut self)
        requires
            old(self).valid(),
        ensures
            final(self).valid(),
            final(self).groups_view() == old(self).groups_view(),
            final(self).initial_view() == old(self).initial_view(),
            final(self).name_view() == old(self).name_view(),
            final(self).output_view() == old(self).output_view(),
    ;

    /// Called after a scanning session. It leaves the definition as it is.
    fn tear_down(&mut self)
        requires
            old(self).valid(),
        ensures
            final(self).valid(),
            final(self).groups_view() == old(self).groups_view(),
            final(self).initial_view() == old(self).initial_view(),
            final(self).name_view() == old(self).name_view(),
            final(self).output_view() == old(self).output_view(),
    ;

    /// Write the text of the scanner, or say why it cannot be written.
    fn specialize(&self) -> (result: Result<String, GenError>)
        requires
            self.valid(),
        ensures
            generated(
                self.groups_view(),
                self.initial_view(),
                self.name_view(),
                self.output_view(),
                result,
            ),
    ;
}

/// What a scanning session returns: an error where the initial group does
/// not exist or no rule holds in it, and else the matches that the automaton
/// of the initial group finds in what is ahead of the reader.
pub open spec fn session_result(
    groups: Seq<Group>,
    initial: usize,
    ahead: Seq<char>,
    result: Result<Vec<Match>, CompileError>,
) -> bool {
    if initial >= groups.len() {
        result == Err::<Vec<Match>, CompileError>(CompileError::UnknownGroup { id: initial })
    } else if effective_rules(groups, initial as int).len() == 0 {
        result == Err::<Vec<Match>, CompileError>(CompileError::EmptyGroup { id: initial })
    } else {
        result matches Ok(matches) && exists|dfa: Dfa|
            compiled(groups, initial as int, dfa) && views(matches@) == #[trigger] scan(
                dfa,
                ahead,
            )
    }
}

/// Run a scanning session of `definition` over what is ahead of `reader`:
/// call the hook before, compile the initial group, find the matches one
/// after another, and call the hook after.
///
/// The session fails, before the reader moves, where the initial group does
/// not exist or no rule holds in it.
pub fn run_session<D: Definition, S: Source>(
    definition: &mut D,
    reader: &mut Reader<S>,
    mark: &str,
) -> (result: Result<Vec<Match>, CompileError>)
    requires
        old(definition).valid(),
        old(reader).wf(),
    ensures
        final(definition).valid(),
        final(reader).wf(),
        final(definition).groups_view() == old(definition).groups_view(),
        final(definition).initial_view() == old(definition).initial_view(),
        final(reader)@.stream == old(reader)@.stream,
        session_result(
            old(definition).groups_view(),
            old(definition).initial_view(),
            old(reader)@.rest(),
            result,
        ),
        result is Err ==> final(reader)@ == old(reader)@,
        result is Ok ==> final(reader)@.bookmarks == old(reader)@.bookmarks.remove(mark@),
{
    definition.set_up();
    let compile = definition.groups().compile(definition.initial_group());
    let result = match compile {
        Ok(dfa) => Ok(tokenize(&dfa, reader, mark)),
        Err(fault) => Err(fault),
    };
    definition.tear_down();
    result
}

/// A lexer definition that is built by registering groups and rules. It
/// begins with one group, `ROOT`, in which scanning begins.
#[derive(Debug)]
pub struct Lexer {
    name: String,
    output: String,
    registry: Registry,
    initial: usize,
}

impl Lexer {
    /// The definition is in order: its registry is, and its initial group
    /// exists.
    pub closed spec fn wf(&self) -> bool {
        self.registry.wf() && self.initial < self.registry@.len()
    }

    /// Whether the definition is closed to change.
    pub closed spec fn is_frozen(&self) -> bool {
        self.registry.is_frozen()
    }

    /// A definition of the lexer `name`, whose scanner fills a value of the
    /// type named `output`. It has the one group `ROOT`, without rules.
    pub fn new(name: &str, output: &str) -> (lexer: Lexer)
        ensures
            lexer.wf(),
            !lexer.is_frozen(),
            lexer.name_view() == name@,
            lexer.output_view() == output@,
            lexer.initial_view() == 0,
            lexer.groups_view().len() == 1,
            lexer.groups_view()[0].name@ == "ROOT"@,
            lexer.groups_view()[0].rules@.len() == 0,
            lexer.groups_view()[0].parent is None,
    {
        let mut registry = Registry::new();
        let _ = registry.create_group("ROOT", None);
        Lexer { name: name.to_owned(), output: output.to_owned(), registry, initial: 0 }
    }

    /// Register a group, as `Registry::create_group` does.
    pub fn define_group(&mut self, name: &str, parent: Option<usize>) -> (result: Result<
        usize,
        RegistryError,
    >)
        requires
            old(self).wf(),
        ensures
            final(self).wf(),
            final(self).is_frozen() == old(self).is_frozen(),
            final(self).initial_view() == old(self).initial_view(),
            final(self).name_view() == old(self).name_view(),
            final(self).output_view() == old(self).output_view(),
            old(self).is_frozen() ==> result == Err::<usize, RegistryError>(RegistryError::Frozen),
            !old(self).is_frozen() && (parent matches Some(p) && p >= old(self).groups_view().len())
                ==> result == Err::<usize, RegistryError>(
                RegistryError::UnknownParent { id: parent->0 },
            ),
            !old(self).is_frozen() && !(parent matches Some(p) && p >= old(
                self,
            ).groups_view().len()) ==> result == Ok::<usize, RegistryError>(
                old(self).groups_view().len() as usize,
            ),
            result is Err ==> final(self).groups_view() == old(self).groups_view(),
            result is Ok ==> {
                &&& final(self).groups_view().drop_last() == old(self).groups_view()
                &&& final(self).groups_view().last().name@ == name@
                &&& final(self).groups_view().last().parent == parent
                &&& final(self).groups_view().last().rules@.len() == 0
            },
    {
        self.registry.create_group(name, parent)
    }

    /// Add a rule to a group, as `Registry::create_rule` does.
    pub fn define_rule(&mut self, group: usize, pattern: Pattern, action: &str) -> (result: Result<
        (),
        RegistryError,
    >)
        requires
            old(self).wf(),
        ensures
            final(self).wf(),
            final(self).is_frozen() == old(self).is_frozen(),
            final(self).initial_view() == old(self).initial_view(),
            final(self).name_view() == old(self).name_view(),
            final(self).output_view() == old(self).output_view(),
            old(self).is_frozen() ==> result == Err::<(), RegistryError>(RegistryError::Frozen),
            !old(self).is_frozen() && group >= old(self).groups_view().len() ==> result == Err::<
                (),
                RegistryError,
            >(RegistryError::UnknownGroup { id: group }),
            !old(self).is_frozen() && group < old(self).groups_view().len()
                && !pattern.well_formed() ==> result == Err::<(), RegistryError>(
                RegistryError::InvalidPattern,
            ),
            !old(self).is_frozen() && group < old(self).groups_view().len()
                && pattern.well_formed() ==> result is Ok,
            result is Err ==> final(self).groups_view() == old(self).groups_view(),
            result is Ok ==> {
                &&& final(self).groups_view().len() == old(self).groups_view().len()
                &&& forall|i: int|
                    0 <= i < old(self).groups_view().len() && i != group
                        ==> #[trigger] final(self).groups_view()[i] == old(self).groups_view()[i]
                &&& final(self).groups_view()[group as int].rules@.drop_last() == old(
                    self,
                ).groups_view()[group as int].rules@
                &&& final(self).groups_view()[group as int].rules@.last().pattern == pattern
                &&& final(self).groups_view()[group as int].rules@.last().action@ == action@
            },
    {
        self.registry.create_rule(group, pattern, action)
    }

    /// Close the definition to change.
    pub fn freeze(&mut self)
        requires
            old(self).wf(),
        ensures
            final(self).wf(),
            final(self).is_frozen(),
            final(self).groups_view() == old(self).groups_view(),
            final(self).initial_view() == old(self).initial_view(),
            final(self).name_view() == old(self).name_view(),
            final(self).output_view() == old(self).output_view(),
    {
        self.registry.freeze();
    }
}

impl Definition for Lexer {
    open spec fn valid(&self) -> bool {
        self.wf()
    }

    closed spec fn groups_view(&self) -> Seq<Group> {
        self.registry@
    }

    closed spec fn initial_view(&self) -> usize {
        self.initial
    }

    closed spec fn name_view(&self) -> Seq<char> {
        self.name@
    }

    closed spec fn output_view(&self) -> Seq<char> {
        self.output@
    }

    fn groups(&self) -> (registry: &Registry) {
        &self.registry
    }

    fn initial_group(&self) -> (id: usize) {
        self.initial
    }

    fn set_up(&mut self) {
    }

    fn tear_down(&mut self) {
    }

    fn specialize(&self) -> (result: Result<String, GenError>) {
        generate(&self.registry, self.initial, self.name.as_str(), self.output.as_str())
    }
}

} // verus!
