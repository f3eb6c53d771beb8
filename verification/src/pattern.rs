//! The algebra of lexical patterns.
//!
//! A pattern describes a set of character strings. Patterns are immutable
//! values: every combinator builds a new pattern from the ones it is given.
//! What a pattern stands for is given by [`Pattern::matches`], and every
//! combinator states its result in full.
//!
//! One or more, optional and bounded repetition are no variants of their own:
//! `many1`, `optional` and `repeat` build them from the variants that are
//! there. A pattern followed by another can also be written with `>>`, and
//! one or another with `|`.

use crate::text::decimal;
use crate::text::write_decimal;
use vstd::prelude::*;
use vstd::string::*;

verus! {

/// A lexical pattern.
#[derive(Debug, PartialEq, Eq)]
pub enum Pattern {
    /// The one character.
    Char(char),
    /// Any one character from `low` to `high`, both included.
    Range { low: char, high: char },
    /// The first pattern, then the second.
    Sequence(Box<Pattern>, Box<Pattern>),
    /// The first pattern or the second.
    Either(Box<Pattern>, Box<Pattern>),
    /// The pattern, any number of times, none included.
    Many(Box<Pattern>),
    /// The empty string, and nothing else.
    Always,
    /// Nothing at all.
    Never,
}

/// Why a pattern could not be built.
#[derive(Copy, Clone, Debug, PartialEq, Eq)]
pub enum PatternError {
    /// A range whose upper bound lies below its lower bound.
    InvalidRange { low: char, high: char },
    /// A bounded repetition whose maximum lies below its minimum.
    InvalidRepeat { min: usize, max: usize },
}

impl PatternError {
    /// What the error says, in words. Characters are given by their codes.
    pub open spec fn message_text(self) -> Seq<char> {
        match self {
            PatternError::InvalidRange { low, high } => "the range from the code "@ + decimal(
                low as nat,
            ) + " to the code "@ + decimal(high as nat) + " admits no character"@,
            PatternError::InvalidRepeat { min, max } => "a repetition cannot be at least "@
                + decimal(min as nat) + " and at most "@ + decimal(max as nat) + " times"@,
        }
    }

    /// Say in words what went wrong.
    pub fn message(&self) -> (text: String)
        ensures
            text@ == self.message_text(),
    {
        match self {
            PatternError::InvalidRange { low, high } => {
                let mut text = "the range from the code ".to_owned();
                text.append(write_decimal(*low as u64).as_str());
                text.append(" to the code ");
                text.append(write_decimal(*high as u64).as_str());
                text.append(" admits no character");
                text
            },
            PatternError::InvalidRepeat { min, max } => {
                let mut text = "a repetition cannot be at least ".to_owned();
                text.append(write_decimal(*min as u64).as_str());
                text.append(" and at most ");
                text.append(write_decimal(*max as u64).as_str());
                text.append(" times");
                text
            },
        }
    }
}

/// `count` mandatory occurrences of `pattern`, followed by `extra` optional
/// ones.
pub open spec fn repeated(pattern: Pattern, count: nat, extra: nat) -> Pattern
    decreases count + extra,
{
    if count > 0 {
        Pattern::Sequence(
            Box::new(pattern),
            Box::new(repeated(pattern, (count - 1) as nat, extra)),
        )
    } else if extra > 0 {
        Pattern::Sequence(
            Box::new(Pattern::Either(Box::new(pattern), Box::new(Pattern::Always))),
            Box::new(repeated(pattern, 0, (extra - 1) as nat)),
        )
    } else {
        Pattern::Always
    }
}

impl Pattern {
    /// Whether the pattern describes the string `s`.
    pub open spec fn matches(self, s: Seq<char>) -> bool
        decreases self, s.len(),
    {
        match self {
            Pattern::Char(c) => s.len() == 1 && s[0] == c,
            Pattern::Range { low, high } => s.len() == 1 && low <= s[0] <= high,
            Pattern::Sequence(first, second) => exists|k: int|
                0 <= k <= s.len() && (*first).matches(#[trigger] s.take(k)) && (*second).matches(
                    s.skip(k),
                ),
            Pattern::Either(first, second) => (*first).matches(s) || (*second).matches(s),
            Pattern::Many(body) => s.len() == 0 || exists|k: int|
                1 <= k <= s.len() && (*body).matches(#[trigger] s.take(k)) && self.matches(
                    s.skip(k),
                ),
            Pattern::Always => s.len() == 0,
            Pattern::Never => false,
        }
    }

    /// No range inside the pattern has its upper bound below its lower bound.
    pub open spec fn well_formed(self) -> bool
        decreases self,
    {
        match self {
            Pattern::Char(_) => true,
            Pattern::Range { low, high } => low <= high,
            Pattern::Sequence(first, second) => (*first).well_formed() && (*second).well_formed(),
            Pattern::Either(first, second) => (*first).well_formed() && (*second).well_formed(),
            Pattern::Many(body) => (*body).well_formed(),
            Pattern::Always => true,
            Pattern::Never => true,
        }
    }

    /// The pattern is made of characters and ranges alone, one after
    /// another.
    pub open spec fn plain(self) -> bool
        decreases self,
    {
        match self {
            Pattern::Char(_) => true,
            Pattern::Range { .. } => true,
            Pattern::Sequence(first, second) => (*first).plain() && (*second).plain(),
            _ => false,
        }
    }

    /// The number of characters and ranges that a plain pattern is made of.
    pub open spec fn plain_length(self) -> nat
        decreases self,
    {
        match self {
            Pattern::Char(_) => 1,
            Pattern::Range { .. } => 1,
            Pattern::Sequence(first, second) => (*first).plain_length() + (*second).plain_length(),
            _ => 0,
        }
    }

    /// Test whether the pattern is well formed.
    pub fn is_well_formed(&self) -> (ok: bool)
        ensures
            ok == self.well_formed(),
        decreases self,
    {
        match self {
            Pattern::Char(_) => true,
            Pattern::Range { low, high } => *low <= *high,
            Pattern::Sequence(first, second) => first.is_well_formed() && second.is_well_formed(),
            Pattern::Either(first, second) => first.is_well_formed() && second.is_well_formed(),
            Pattern::Many(body) => body.is_well_formed(),
            Pattern::Always => true,
            Pattern::Never => true,
        }
    }

    /// Build a copy of the pattern.
    pub fn duplicate(&self) -> (copy: Pattern)
        ensures
            copy == *self,
        decreases self,
    {
        match self {
            Pattern::Char(c) => Pattern::Char(*c),
            Pattern::Range { low, high } => Pattern::Range { low: *low, high: *high },
            Pattern::Sequence(first, second) => Pattern::Sequence(
                Box::new(first.duplicate()),
                Box::new(second.duplicate()),
            ),
            Pattern::Either(first, second) => Pattern::Either(
                Box::new(first.duplicate()),
                Box::new(second.duplicate()),
            ),
            Pattern::Many(body) => Pattern::Many(Box::new(body.duplicate())),
            Pattern::Always => Pattern::Always,
            Pattern::Never => Pattern::Never,
        }
    }

    /// The pattern of the one character `c`.
    pub fn character(c: char) -> (pattern: Pattern)
        ensures
            pattern == Pattern::Char(c),
    {
        Pattern::Char(c)
    }

    /// The pattern of any one character from `low` to `high`, both included.
    ///
    /// A range whose upper bound lies below its lower bound is refused.
    pub fn range(low: char, high: char) -> (result: Result<Pattern, PatternError>)
        ensures
            low <= high ==> result == Ok::<Pattern, PatternError>(Pattern::Range { low, high }),
            high < low ==> result == Err::<Pattern, PatternError>(
                PatternError::InvalidRange { low, high },
            ),
    {
        if high < low {
            Err(PatternError::InvalidRange { low, high })
        } else {
            Ok(Pattern::Range { low, high })
        }
    }

    /// The pattern of the empty string.
    pub fn always() -> (pattern: Pattern)
        ensures
            pattern == Pattern::Always,
    {
        Pattern::Always
    }

    /// The pattern that nothing matches.
    pub fn never() -> (pattern: Pattern)
        ensures
            pattern == Pattern::Never,
    {
        Pattern::Never
    }

    /// This pattern, then `next`.
    pub fn and_then(self, next: Pattern) -> (pattern: Pattern)
        ensures
            pattern == Pattern::Sequence(Box::new(self), Box::new(next)),
    {
        Pattern::Sequence(Box::new(self), Box::new(next))
    }

    /// This pattern or `other`.
    pub fn or(self, other: Pattern) -> (pattern: Pattern)
        ensures
            pattern == Pattern::Either(Box::new(self), Box::new(other)),
    {
        Pattern::Either(Box::new(self), Box::new(other))
    }

    /// This pattern, any number of times, none included.
    pub fn many(self) -> (pattern: Pattern)
        ensures
            pattern == Pattern::Many(Box::new(self)),
    {
        Pattern::Many(Box::new(self))
    }

    /// This pattern, once or more: the pattern, then any number of it.
    pub fn many1(self) -> (pattern: Pattern)
        ensures
            pattern == Pattern::Sequence(
                Box::new(self),
                Box::new(Pattern::Many(Box::new(self))),
            ),
    {
        let body = self.duplicate();
        Pattern::Sequence(Box::new(self), Box::new(Pattern::Many(Box::new(body))))
    }

    /// This pattern or the empty string.
    pub fn optional(self) -> (pattern: Pattern)
        ensures
            pattern == Pattern::Either(Box::new(self), Box::new(Pattern::Always)),
    {
        Pattern::Either(Box::new(self), Box::new(Pattern::Always))
    }

    /// This pattern, at least `min` and at most `max` times: `min` mandatory
    /// occurrences followed by `max - min` optional ones.
    ///
    /// A maximum below the minimum is refused.
    pub fn repeat(self, min: usize, max: usize) -> (result: Result<Pattern, PatternError>)
        ensures
            min <= max ==> result == Ok::<Pattern, PatternError>(
                repeated(self, min as nat, (max - min) as nat),
            ),
            max < min ==> result == Err::<Pattern, PatternError>(
                PatternError::InvalidRepeat { min, max },
            ),
    {
        if max < min {
            return Err(PatternError::InvalidRepeat { min, max });
        }
        let mut result = Pattern::Always;
        let mut extra: usize = 0;
        while extra < max - min
            invariant
                min <= max,
                extra <= max - min,
                result == repeated(self, 0, extra as nat),
            decreases max - min - extra,
        {
            let body = self.duplicate();
            result = Pattern::Sequence(
                Box::new(Pattern::Either(Box::new(body), Box::new(Pattern::Always))),
                Box::new(result),
            );
            extra = extra + 1;
        }
        let mut count: usize = 0;
        while count < min
            invariant
                count <= min,
                result == repeated(self, count as nat, (max - min) as nat),
            decreases min - count,
        {
            let body = self.duplicate();
            result = Pattern::Sequence(Box::new(body), Box::new(result));
            count = count + 1;
        }
        Ok(result)
    }
}

impl core::ops::Shr<Pattern> for Pattern {
    type Output = Pattern;

    /// This pattern, then `next`.
    fn shr(self, next: Pattern) -> (pattern: Pattern) {
        Pattern::Sequence(Box::new(self), Box::new(next))
    }
}

impl vstd::std_specs::ops::ShrSpecImpl<Pattern> for Pattern {
    open spec fn obeys_shr_spec() -> bool {
        true
    }

    open spec fn shr_req(self, next: Pattern) -> bool {
        true
    }

    open spec fn shr_spec(self, next: Pattern) -> Pattern {
        Pattern::Sequence(Box::new(self), Box::new(next))
    }
}

impl core::ops::BitOr<Pattern> for Pattern {
    type Output = Pattern;

    /// This pattern or `other`.
    fn bitor(self, other: Pattern) -> (pattern: Pattern) {
        Pattern::Either(Box::new(self), Box::new(other))
    }
}

impl vstd::std_specs::ops::BitOrSpecImpl<Pattern> for Pattern {
    open spec fn obeys_bitor_spec() -> bool {
        true
    }

    open spec fn bitor_req(self, other: Pattern) -> bool {
        true
    }

    open spec fn bitor_spec(self, other: Pattern) -> Pattern {
        Pattern::Either(Box::new(self), Box::new(other))
    }
}

impl Clone for Pattern {
    fn clone(&self) -> (copy: Self)
        ensures
            copy == *self,
    {
        self.duplicate()
    }
}

/// A plain pattern describes strings of one length only: as many characters
/// as the pattern is made of.
pub proof fn lemma_plain_length(pattern: Pattern, s: Seq<char>)
    requires
        pattern.plain(),
        pattern.matches(s),
    ensures
        s.len() == pattern.plain_length(),
    decreases pattern,
{
    match pattern {
        Pattern::Sequence(first, second) => {
            let k = choose|k: int|
                0 <= k <= s.len() && (*first).matches(#[trigger] s.take(k)) && (*second).matches(
                    s.skip(k),
                );
            lemma_plain_length(*first, s.take(k));
            lemma_plain_length(*second, s.skip(k));
        },
        _ => {},
    }
}

/// One or more of a pattern describe what the pattern describes, followed by
/// any number of it.
pub proof fn lemma_many1_matches(body: Pattern, s: Seq<char>)
    ensures
        Pattern::Sequence(Box::new(body), Box::new(Pattern::Many(Box::new(body)))).matches(s)
            <==> exists|k: int|
            0 <= k <= s.len() && body.matches(#[trigger] s.take(k)) && Pattern::Many(
                Box::new(body),
            ).matches(s.skip(k)),
{
}

/// An optional pattern describes the empty string and what the pattern
/// describes.
pub proof fn lemma_optional_matches(body: Pattern, s: Seq<char>)
    ensures
        Pattern::Either(Box::new(body), Box::new(Pattern::Always)).matches(s) <==> (body.matches(s)
            || s.len() == 0),
{
    reveal_with_fuel(Pattern::matches, 2);
}

} // verus!
