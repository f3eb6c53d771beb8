use flexer::group::CompileError;
use flexer::group::Registry;
use flexer::group::RegistryError;
use flexer::group::Rule;
use flexer::pattern::Pattern;

fn ch(c: char) -> Pattern {
    Pattern::character(c)
}

fn rule(pattern: Pattern, action: &str, index: usize) -> Rule {
    Rule { pattern, action: action.to_string(), index }
}

#[test]
fn groups_get_the_next_free_identifier() {
    let mut registry = Registry::new();
    assert_eq!(registry.len(), 0);
    assert_eq!(registry.create_group("ROOT", None), Ok(0));
    assert_eq!(registry.create_group("TEXT", Some(0)), Ok(1));
    assert_eq!(registry.create_group("TEXT", Some(1)), Ok(2));
    assert_eq!(registry.len(), 3);
    let group = registry.group(1).unwrap();
    assert_eq!(group.id, 1);
    assert_eq!(group.name, "TEXT");
    assert_eq!(group.parent, Some(0));
    assert!(group.rules.is_empty());
    assert_eq!(registry.group(0).unwrap().parent, None);
}

#[test]
fn unknown_parent_is_refused() {
    let mut registry = Registry::new();
    assert_eq!(registry.create_group("A", Some(0)), Err(RegistryError::UnknownParent { id: 0 }));
    assert_eq!(registry.len(), 0);
    assert_eq!(registry.create_group("A", None), Ok(0));
    // A group cannot be its own parent: its identifier is not yet taken.
    assert_eq!(registry.create_group("B", Some(1)), Err(RegistryError::UnknownParent { id: 1 }));
    assert_eq!(registry.create_group("B", Some(7)), Err(RegistryError::UnknownParent { id: 7 }));
    assert_eq!(registry.len(), 1);
}

#[test]
fn rules_keep_their_order() {
    let mut registry = Registry::new();
    let root = registry.create_group("ROOT", None).unwrap();
    assert_eq!(registry.create_rule(root, ch('a'), "first"), Ok(()));
    assert_eq!(registry.create_rule(root, ch('b').many(), "second"), Ok(()));
    let group = registry.group(root).unwrap();
    assert_eq!(group.rules, vec![rule(ch('a'), "first", 0), rule(ch('b').many(), "second", 1)]);
    assert_eq!(group.name, "ROOT");
    assert_eq!(group.id, 0);
}

#[test]
fn rule_for_unknown_group_is_refused() {
    let mut registry = Registry::new();
    assert_eq!(
        registry.create_rule(0, ch('a'), "x"),
        Err(RegistryError::UnknownGroup { id: 0 })
    );
    let _ = registry.create_group("ROOT", None);
    assert_eq!(
        registry.create_rule(3, ch('a'), "x"),
        Err(RegistryError::UnknownGroup { id: 3 })
    );
    assert!(registry.group(0).unwrap().rules.is_empty());
}

#[test]
fn rule_with_an_empty_range_never_reaches_the_registry() {
    let mut registry = Registry::new();
    let root = registry.create_group("ROOT", None).unwrap();
    let broken = ch('a').and_then(Pattern::Range { low: 'z', high: 'a' });
    assert_eq!(registry.create_rule(root, broken, "x"), Err(RegistryError::InvalidPattern));
    assert!(registry.group(root).unwrap().rules.is_empty());
}

#[test]
fn frozen_registry_takes_no_change() {
    let mut registry = Registry::new();
    let root = registry.create_group("ROOT", None).unwrap();
    assert_eq!(registry.create_rule(root, ch('a'), "x"), Ok(()));
    assert!(!registry.frozen());
    registry.freeze();
    assert!(registry.frozen());
    assert_eq!(registry.create_group("MORE", None), Err(RegistryError::Frozen));
    assert_eq!(registry.create_group("MORE", Some(9)), Err(RegistryError::Frozen));
    assert_eq!(registry.create_rule(root, ch('b'), "y"), Err(RegistryError::Frozen));
    assert_eq!(registry.create_rule(9, ch('b'), "y"), Err(RegistryError::Frozen));
    assert_eq!(registry.len(), 1);
    assert_eq!(registry.group(root).unwrap().rules.len(), 1);
}

#[test]
fn lookup_by_identifier_and_by_name() {
    let mut registry = Registry::new();
    let _ = registry.create_group("ROOT", None);
    let _ = registry.create_group("TEXT", Some(0));
    let _ = registry.create_group("TEXT", None);
    assert_eq!(registry.group_by_name("ROOT").unwrap().id, 0);
    assert_eq!(registry.group_by_name("TEXT").unwrap().id, 1);
    assert_eq!(
        registry.group_by_name("NONE"),
        Err(RegistryError::UnknownName { name: "NONE".to_string() })
    );
    assert_eq!(registry.group(2).unwrap().name, "TEXT");
    assert_eq!(registry.group(3), Err(RegistryError::UnknownGroup { id: 3 }));
}

#[test]
fn a_group_inherits_the_rules_of_its_ancestors_behind_its_own() {
    let mut registry = Registry::new();
    let root = registry.create_group("ROOT", None).unwrap();
    let middle = registry.create_group("MIDDLE", Some(root)).unwrap();
    let leaf = registry.create_group("LEAF", Some(middle)).unwrap();
    let _ = registry.create_rule(root, ch('r'), "root 0");
    let _ = registry.create_rule(leaf, ch('l'), "leaf 0");
    let _ = registry.create_rule(root, ch('s'), "root 1");
    let _ = registry.create_rule(middle, ch('m'), "middle 0");
    let _ = registry.create_rule(leaf, ch('k'), "leaf 1");
    assert_eq!(
        registry.rules_for(root),
        Ok(vec![rule(ch('r'), "root 0", 0), rule(ch('s'), "root 1", 1)])
    );
    assert_eq!(
        registry.rules_for(leaf),
        Ok(vec![
            rule(ch('l'), "leaf 0", 0),
            rule(ch('k'), "leaf 1", 1),
            rule(ch('m'), "middle 0", 0),
            rule(ch('r'), "root 0", 0),
            rule(ch('s'), "root 1", 1),
        ])
    );
    assert_eq!(registry.rules_for(3), Err(RegistryError::UnknownGroup { id: 3 }));
}

#[test]
fn own_rules_win_over_inherited_ones() {
    let mut registry = Registry::new();
    let root = registry.create_group("ROOT", None).unwrap();
    let child = registry.create_group("CHILD", Some(root)).unwrap();
    let _ = registry.create_rule(root, ch('a').many1(), "root");
    let _ = registry.create_rule(child, ch('a').many1(), "child");
    let dfa = registry.compile(child).unwrap();
    let next = dfa.next_state(0, 'a').unwrap();
    let rules = registry.rules_for(child).unwrap();
    assert_eq!(rules[dfa.states[next].finalize.unwrap()].action, "child");
    let dfa = registry.compile(root).unwrap();
    let next = dfa.next_state(0, 'a').unwrap();
    let rules = registry.rules_for(root).unwrap();
    assert_eq!(rules[dfa.states[next].finalize.unwrap()].action, "root");
}

#[test]
fn compile_refuses_empty_and_unknown_groups() {
    let mut registry = Registry::new();
    let root = registry.create_group("ROOT", None).unwrap();
    let other = registry.create_group("OTHER", None).unwrap();
    let child = registry.create_group("CHILD", Some(root)).unwrap();
    assert_eq!(registry.compile(root).err(), Some(CompileError::EmptyGroup { id: 0 }));
    assert_eq!(registry.compile(5).err(), Some(CompileError::UnknownGroup { id: 5 }));
    let _ = registry.create_rule(root, ch('a'), "x");
    assert!(registry.compile(root).is_ok());
    // The child has no rules of its own, but inherits one.
    assert!(registry.compile(child).is_ok());
    assert_eq!(registry.compile(other).err(), Some(CompileError::EmptyGroup { id: 1 }));
    assert_eq!(registry.compile_all().err(), Some(CompileError::EmptyGroup { id: 1 }));
    let _ = registry.create_rule(other, ch('b'), "y");
    assert_eq!(registry.compile_all().unwrap().len(), 3);
}

#[test]
fn rule_copies_are_equal() {
    let first = rule(ch('a').or(ch('b')), "act", 4);
    assert_eq!(first.duplicate(), first);
    assert_eq!(first.clone(), first);
}

#[test]
fn registry_errors_say_what_went_wrong() {
    assert_eq!(RegistryError::Frozen.message(), "the registry is frozen and takes no change");
    assert_eq!(
        RegistryError::UnknownGroup { id: 3 }.message(),
        "no group has the identifier 3"
    );
    assert_eq!(
        RegistryError::UnknownName { name: "TEXT".to_string() }.message(),
        "no group has the name TEXT"
    );
    assert_eq!(
        RegistryError::UnknownParent { id: 11 }.message(),
        "the parent group 11 does not exist"
    );
    assert_eq!(
        RegistryError::InvalidPattern.message(),
        "the pattern holds a range that admits no character"
    );
    assert_eq!(CompileError::UnknownGroup { id: 5 }.message(), "no group has the identifier 5");
    assert_eq!(CompileError::EmptyGroup { id: 0 }.message(), "the group 0 has no rules");
}
