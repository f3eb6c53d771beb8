//! A toolkit for building lexers.
//!
//! A lexer is declared as groups of rules. A rule binds a pattern to an
//! action; a group is a named state of the scanner and may inherit the rules
//! of a parent group. The rules that hold in a group are compiled into a
//! deterministic automaton, which finds at each place of the input the
//! longest match, and among the rules that match it the one declared first.
//! From the groups and their automata the text of a scanner is written.
//!
//! - [`pattern`]: the algebra of patterns, and what a pattern describes.
//! - [`nfa`], [`subset`], [`alphabet`], [`dfa`]: the automata of patterns.
//! - [`group`]: the registry of groups and rules.
//! - [`reader`], [`bookmark`]: a lazy reader that can go back to bookmarks.
//! - [`scan`]: the walk of an automaton over a reader.
//! - [`generate`], [`text`]: the text of a scanner.
//! - [`lexer`]: what a lexer definition offers, and a definition to build on.
//! - [`token`]: the tokens that a lexer hands out, and their stream.

pub mod alphabet;
pub mod bookmark;
pub mod dfa;
pub mod generate;
pub mod group;
pub mod lexer;
pub mod nfa;
pub mod pattern;
pub mod reader;
pub mod scan;
pub mod subset;
pub mod text;
pub mod token;
