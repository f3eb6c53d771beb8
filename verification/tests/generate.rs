use flexer::dfa;
use flexer::dfa::Dfa;
use flexer::dfa::Transition;
use flexer::generate::generate as generate_text;
use flexer::generate::specialize;
use flexer::generate::GenError;
use flexer::group::CompileError;
use flexer::group::Registry;
use flexer::group::RegistryError;
use flexer::lexer::run_session;
use flexer::lexer::Definition;
use flexer::lexer::Lexer;
use flexer::pattern::Pattern;
use flexer::reader::Reader;
use flexer::reader::Text;
use flexer::scan::Match;
use flexer::text::write_decimal;

fn ch(c: char) -> Pattern {
    Pattern::character(c)
}

/// The definition of a lexer for words of `a` and of `a` then `b`.
fn define() -> Lexer {
    let mut lexer = Lexer::new("TestLexer", "TokenStream");
    let a = ch('a');
    let b = ch('b');
    let ab = a.clone() >> b;
    let root = lexer.initial_group();
    lexer.define_rule(root, a, "self.on_first_word(reader)").unwrap();
    lexer.define_rule(root, ab, "self.on_first_word(reader)").unwrap();
    lexer
}

#[test]
fn generate() {
    let lexer = define();
    let result = lexer.specialize();
    assert!(result.is_ok());
}

#[test]
fn operators_build_sequences_and_alternatives() {
    let pattern = (ch('a') >> ch('b')) | ch('c');
    assert_eq!(pattern, ch('a').and_then(ch('b')).or(ch('c')));
}

#[test]
fn numbers_are_written_in_decimal() {
    assert_eq!(write_decimal(0), "0");
    assert_eq!(write_decimal(7), "7");
    assert_eq!(write_decimal(10), "10");
    assert_eq!(write_decimal(99), "99");
    assert_eq!(write_decimal(1234567890), "1234567890");
    assert_eq!(write_decimal(u64::MAX), "18446744073709551615");
}

#[test]
fn text_of_a_lexer_with_one_rule() {
    let mut registry = Registry::new();
    let root = registry.create_group("ROOT", None).unwrap();
    registry.create_rule(root, ch('a'), "emit a").unwrap();
    let expected = "// Scanner Lexer, which fills Tokens.\n\
                    pub fn Lexer_run(reader: &mut Reader, output: &mut Tokens) {\n    \
                    dispatch_ROOT_0(reader, output)\n\
                    }\n\
                    \n\
                    fn dispatch_ROOT_0(reader: &mut Reader, output: &mut Tokens) {\n    \
                    state 0 {\n        \
                    on 97..=97 goto 1\n    \
                    }\n    \
                    state 1 {\n        \
                    final rule 0 { emit a }\n    \
                    }\n\
                    }\n";
    assert_eq!(generate_text(&registry, root, "Lexer", "Tokens"), Ok(expected.to_string()));
}

#[test]
fn text_names_each_group_and_begins_in_the_initial_one() {
    let mut registry = Registry::new();
    let root = registry.create_group("ROOT", None).unwrap();
    let text = registry.create_group("TEXT", Some(root)).unwrap();
    registry.create_rule(root, ch('a'), "root action").unwrap();
    registry.create_rule(text, ch('b'), "text { action }").unwrap();
    let out = generate_text(&registry, text, "L", "Out").unwrap();
    assert!(out.starts_with(
        "// Scanner L, which fills Out.\npub fn L_run(reader: &mut Reader, output: &mut Out) {\n    dispatch_TEXT_1(reader, output)\n}\n"
    ));
    assert!(out.contains("\nfn dispatch_ROOT_0(reader: &mut Reader, output: &mut Out) {\n"));
    assert!(out.contains("\nfn dispatch_TEXT_1(reader: &mut Reader, output: &mut Out) {\n"));
    // The child holds its own rule first and the inherited one behind it.
    assert!(out.contains("        final rule 0 { text { action } }\n"));
    assert!(out.contains("        final rule 1 { root action }\n"));
    assert_eq!(out.matches("root action").count(), 2);
    assert_eq!(out.matches("text { action }").count(), 1);
    let root_at = out.find("fn dispatch_ROOT_0").unwrap();
    let text_at = out.find("fn dispatch_TEXT_1").unwrap();
    assert!(root_at < text_at);
}

#[test]
fn generation_is_deterministic() {
    let lexer = define();
    let first = lexer.specialize();
    let second = lexer.specialize();
    assert!(first.is_ok());
    assert_eq!(first, second);
    let again = define().specialize();
    assert_eq!(first, again);
}

#[test]
fn a_group_without_rules_is_refused() {
    let mut registry = Registry::new();
    let root = registry.create_group("ROOT", None).unwrap();
    assert_eq!(
        generate_text(&registry, root, "L", "T"),
        Err(GenError::EmptyGroup { id: 0 })
    );
    registry.create_rule(root, ch('a'), "x").unwrap();
    let _ = registry.create_group("EMPTY", None).unwrap();
    let _ = registry.create_group("ALSO_EMPTY", None).unwrap();
    assert_eq!(
        generate_text(&registry, root, "L", "T"),
        Err(GenError::EmptyGroup { id: 1 })
    );
    let fresh = Lexer::new("L", "T");
    assert_eq!(fresh.specialize(), Err(GenError::EmptyGroup { id: 0 }));
}

#[test]
fn an_unknown_initial_group_is_refused() {
    let mut registry = Registry::new();
    assert_eq!(
        generate_text(&registry, 0, "L", "T"),
        Err(GenError::UnknownInitialGroup { id: 0 })
    );
    let root = registry.create_group("ROOT", None).unwrap();
    registry.create_rule(root, ch('a'), "x").unwrap();
    assert_eq!(
        generate_text(&registry, 4, "L", "T"),
        Err(GenError::UnknownInitialGroup { id: 4 })
    );
}

#[test]
fn automata_that_do_not_fit_the_registry_are_refused() {
    let mut registry = Registry::new();
    let root = registry.create_group("ROOT", None).unwrap();
    registry.create_rule(root, ch('a'), "x").unwrap();
    assert_eq!(
        specialize(&registry, &vec![], root, "L", "T"),
        Err(GenError::Mismatch { groups: 1, automata: 0 })
    );
    let marked = |rule: usize| Dfa {
        states: vec![dfa::State {
            transitions: vec![Transition { low: 1, high: 20, target: 0 }],
            finalize: Some(rule),
        }],
    };
    assert_eq!(
        specialize(&registry, &vec![marked(1)], root, "L", "T"),
        Err(GenError::Inconsistent { id: 0 })
    );
    assert_eq!(
        specialize(&registry, &vec![marked(0)], 3, "L", "T"),
        Err(GenError::UnknownInitialGroup { id: 3 })
    );
    let text = specialize(&registry, &vec![marked(0)], root, "L", "T").unwrap();
    assert!(text.ends_with(
        "    state 0 {\n        on 1..=20 goto 0\n        final rule 0 { x }\n    }\n}\n"
    ));
}

#[test]
fn specialize_writes_what_generate_writes() {
    let mut registry = Registry::new();
    let root = registry.create_group("ROOT", None).unwrap();
    registry.create_rule(root, ch('a').many1(), "x").unwrap();
    registry.create_rule(root, Pattern::range('0', '9').unwrap(), "y").unwrap();
    let automata = registry.compile_all().unwrap();
    assert_eq!(
        specialize(&registry, &automata, root, "L", "T"),
        generate_text(&registry, root, "L", "T")
    );
}

#[test]
fn errors_say_what_went_wrong() {
    assert_eq!(
        GenError::UnknownInitialGroup { id: 12 }.message(),
        "the initial group 12 does not exist"
    );
    assert_eq!(
        GenError::Mismatch { groups: 3, automata: 0 }.message(),
        "there are 3 groups but 0 automata"
    );
    assert_eq!(GenError::EmptyGroup { id: 2 }.message(), "the group 2 has no rules");
    assert_eq!(
        GenError::Inconsistent { id: 40 }.message(),
        "the automaton of the group 40 is marked with a rule that the group does not have"
    );
}

#[test]
fn a_lexer_begins_with_its_root_group() {
    let mut lexer = Lexer::new("L", "T");
    assert_eq!(lexer.initial_group(), 0);
    assert_eq!(lexer.groups().len(), 1);
    assert_eq!(lexer.groups().group(0).unwrap().name, "ROOT");
    assert_eq!(lexer.define_group("MORE", Some(0)), Ok(1));
    assert_eq!(lexer.define_group("BAD", Some(5)), Err(RegistryError::UnknownParent { id: 5 }));
    assert_eq!(lexer.define_rule(1, ch('x'), "act"), Ok(()));
    assert_eq!(lexer.define_rule(2, ch('x'), "act"), Err(RegistryError::UnknownGroup { id: 2 }));
    lexer.freeze();
    assert_eq!(lexer.define_group("LATE", None), Err(RegistryError::Frozen));
    assert_eq!(lexer.define_rule(0, ch('x'), "act"), Err(RegistryError::Frozen));
    assert_eq!(lexer.groups().len(), 2);
    assert!(lexer.groups().frozen());
}

#[test]
fn a_session_scans_with_the_initial_group() {
    let mut lexer = define();
    let mut reader = Reader::new(Text::of("abaab"));
    let matches = run_session(&mut lexer, &mut reader, "match");
    let found = |rule: usize, text: &str| Match { rule, lexeme: text.chars().collect() };
    assert_eq!(matches, Ok(vec![found(1, "ab"), found(0, "a"), found(1, "ab")]));
    assert!(reader.is_at_end());
}

#[test]
fn a_session_without_rules_fails_before_it_reads() {
    let mut lexer = Lexer::new("L", "T");
    let mut reader = Reader::new(Text::of("abc"));
    assert_eq!(
        run_session(&mut lexer, &mut reader, "match"),
        Err(CompileError::EmptyGroup { id: 0 })
    );
    assert_eq!(reader.peek(), Some('a'));
}
