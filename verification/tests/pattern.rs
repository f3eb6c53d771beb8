use flexer::pattern::Pattern;
use flexer::pattern::PatternError;

fn ch(c: char) -> Pattern {
    Pattern::character(c)
}

fn boxed(pattern: Pattern) -> Box<Pattern> {
    Box::new(pattern)
}

#[test]
fn character_is_a_single_char() {
    assert_eq!(Pattern::character('x'), Pattern::Char('x'));
}

#[test]
fn range_keeps_its_bounds() {
    assert_eq!(Pattern::range('a', 'z'), Ok(Pattern::Range { low: 'a', high: 'z' }));
    assert_eq!(Pattern::range('q', 'q'), Ok(Pattern::Range { low: 'q', high: 'q' }));
}

#[test]
fn range_with_high_below_low_is_refused() {
    assert_eq!(
        Pattern::range('z', 'a'),
        Err(PatternError::InvalidRange { low: 'z', high: 'a' })
    );
    assert_eq!(
        Pattern::range('b', 'a'),
        Err(PatternError::InvalidRange { low: 'b', high: 'a' })
    );
}

#[test]
fn sequence_and_alternative() {
    assert_eq!(ch('a').and_then(ch('b')), Pattern::Sequence(boxed(ch('a')), boxed(ch('b'))));
    assert_eq!(ch('a').or(ch('b')), Pattern::Either(boxed(ch('a')), boxed(ch('b'))));
    assert_eq!(Pattern::always(), Pattern::Always);
    assert_eq!(Pattern::never(), Pattern::Never);
}

#[test]
fn many_wraps_the_pattern() {
    assert_eq!(ch('a').many(), Pattern::Many(boxed(ch('a'))));
}

#[test]
fn many1_is_the_pattern_then_any_number_of_it() {
    assert_eq!(
        ch('a').many1(),
        Pattern::Sequence(boxed(ch('a')), boxed(Pattern::Many(boxed(ch('a')))))
    );
}

#[test]
fn optional_is_the_pattern_or_nothing() {
    assert_eq!(ch('a').optional(), Pattern::Either(boxed(ch('a')), boxed(Pattern::Always)));
}

#[test]
fn repeat_expands_to_mandatory_then_optional() {
    let optional = || Pattern::Either(boxed(ch('a')), boxed(Pattern::Always));
    assert_eq!(ch('a').repeat(0, 0), Ok(Pattern::Always));
    assert_eq!(
        ch('a').repeat(2, 2),
        Ok(Pattern::Sequence(
            boxed(ch('a')),
            boxed(Pattern::Sequence(boxed(ch('a')), boxed(Pattern::Always)))
        ))
    );
    assert_eq!(
        ch('a').repeat(1, 3),
        Ok(Pattern::Sequence(
            boxed(ch('a')),
            boxed(Pattern::Sequence(
                boxed(optional()),
                boxed(Pattern::Sequence(boxed(optional()), boxed(Pattern::Always)))
            ))
        ))
    );
}

#[test]
fn repeat_with_max_below_min_is_refused() {
    assert_eq!(ch('a').repeat(3, 2), Err(PatternError::InvalidRepeat { min: 3, max: 2 }));
    assert_eq!(ch('a').repeat(1, 0), Err(PatternError::InvalidRepeat { min: 1, max: 0 }));
}

#[test]
fn well_formedness_looks_into_the_pattern() {
    assert!(ch('a').is_well_formed());
    assert!(Pattern::Range { low: 'a', high: 'a' }.is_well_formed());
    assert!(!Pattern::Range { low: 'b', high: 'a' }.is_well_formed());
    let hidden = ch('x').and_then(Pattern::Range { low: 'z', high: 'y' }.many().or(ch('y')));
    assert!(!hidden.is_well_formed());
    let sound = ch('x').and_then(Pattern::Range { low: 'y', high: 'z' }.many().or(ch('y')));
    assert!(sound.is_well_formed());
}

#[test]
fn copies_are_equal() {
    let pattern = ch('a').many1().or(Pattern::range('0', '9').unwrap().optional());
    assert_eq!(pattern.duplicate(), pattern);
    assert_eq!(pattern.clone(), pattern);
}

#[test]
fn pattern_errors_say_what_went_wrong() {
    assert_eq!(
        Pattern::range('b', 'a').unwrap_err().message(),
        "the range from the code 98 to the code 97 admits no character"
    );
    assert_eq!(
        ch('a').repeat(3, 1).unwrap_err().message(),
        "a repetition cannot be at least 3 and at most 1 times"
    );
}
