//! Guards of transitions: a predicate over one character, or epsilon.
use vstd::prelude::*;
use vstd::std_specs::cmp::PartialEqSpecImpl;

verus! {

/// Whether `c` is alphanumeric in the sense of the standard library's
/// `char::is_alphanumeric`: the Unicode properties Alphabetic and Numeric,
/// which are far too long to spell out here.
pub uninterp spec fn unicode_alphanumeric(c: char) -> bool;

/// Calls `char::is_alphanumeric`. Trusted: the result is by definition the
/// value that [`unicode_alphanumeric`] names; nothing more is claimed of it.
#[verifier::external_body]
fn char_is_alphanumeric(c: char) -> (b: bool)
    ensures
        b == unicode_alphanumeric(c),
{
    c.is_alphanumeric()
}

/// Whether `c` is one of the ten ASCII digits.
pub open spec fn ascii_digit(c: char) -> bool {
    '0' <= c && c <= '9'
}

/// A predicate over a single character, drawn from a fixed set so that it can
/// be copied freely, compared, and reasoned about.
#[derive(Clone, Copy, Debug)]
pub enum CharPredicate {
    /// Holds of exactly this character.
    Literal(char),
    /// Holds of the ASCII digits `0` to `9`.
    Digit,
    /// Holds of the alphanumeric characters of Unicode.
    AlphaNumeric,
}

impl CharPredicate {
    /// The set of characters of which the predicate holds.
    pub open spec fn holds(self, c: char) -> bool {
        match self {
            CharPredicate::Literal(expected) => c == expected,
            CharPredicate::Digit => ascii_digit(c),
            CharPredicate::AlphaNumeric => unicode_alphanumeric(c),
        }
    }

    /// Evaluates the predicate on `c`.
    pub fn test(&self, c: char) -> (b: bool)
        ensures
            b == self.holds(c),
    {
        match self {
            CharPredicate::Literal(expected) => c == *expected,
            CharPredicate::Digit => c >= '0' && c <= '9',
            CharPredicate::AlphaNumeric => char_is_alphanumeric(c),
        }
    }
}

/// The guard of a transition.
///
/// A `Character` matcher consumes one character of the input, which must
/// satisfy its predicate. `Epsilon` always matches and consumes nothing.
#[derive(Clone, Copy, Debug)]
pub enum Matchers {
    Character(CharPredicate),
    Epsilon,
}

impl Matchers {
    /// Whether the matcher is satisfied by `input` at offset `pos`.
    pub open spec fn matches_at(self, input: Seq<char>, pos: int) -> bool {
        match self {
            Matchers::Epsilon => true,
            Matchers::Character(p) => 0 <= pos < input.len() && p.holds(input[pos]),
        }
    }

    /// Where the search stands in the input after the matcher has been
    /// satisfied at `pos`.
    pub open spec fn advance(self, pos: int) -> int {
        match self {
            Matchers::Epsilon => pos,
            Matchers::Character(_) => pos + 1,
        }
    }

    /// The tag under which the matcher is known: `"Character"` or `"Epsilon"`.
    pub open spec fn tag(self) -> Seq<char> {
        match self {
            Matchers::Character(_) => "Character"@,
            Matchers::Epsilon => "Epsilon"@,
        }
    }

    /// A matcher for the literal character `c`.
    pub fn new_char(c: char) -> (m: Matchers)
        ensures
            m == Matchers::Character(CharPredicate::Literal(c)),
    {
        Matchers::Character(CharPredicate::Literal(c))
    }

    /// The matcher that consumes nothing.
    pub fn new_epsilon() -> (m: Matchers)
        ensures
            m == Matchers::Epsilon,
    {
        Matchers::Epsilon
    }

    /// Decides whether the matcher is satisfied by `input` at character
    /// offset `pos`. An offset at or past the end of the input satisfies
    /// epsilon only.
    pub fn matches(&self, input: &str, pos: usize) -> (b: bool)
        ensures
            b == self.matches_at(input@, pos as int),
            b && self is Character ==> pos < usize::MAX,
    {
        match self {
            Matchers::Epsilon => true,
            Matchers::Character(p) => {
                if pos < input.unicode_len() {
                    p.test(input.get_char(pos))
                } else {
                    false
                }
            },
        }
    }

    pub fn is_epsilon(&self) -> (b: bool)
        ensures
            b == (*self is Epsilon),
    {
        match self {
            Matchers::Epsilon => true,
            Matchers::Character(_) => false,
        }
    }

    /// The matcher's tag, for logs and bookkeeping.
    pub fn name(&self) -> (tag: &str)
        ensures
            tag@ == self.tag(),
    {
        match self {
            Matchers::Character(_) => "Character",
            Matchers::Epsilon => "Epsilon",
        }
    }
}

/// Matchers are compared by their tag alone: any two character matchers
/// are equal, whatever their predicates.
impl PartialEq for Matchers {
    fn eq(&self, other: &Matchers) -> (same: bool) {
        match (self, other) {
            (Matchers::Epsilon, Matchers::Epsilon) => true,
            (Matchers::Character(_), Matchers::Character(_)) => true,
            _ => false,
        }
    }
}

impl PartialEqSpecImpl for Matchers {
    open spec fn obeys_eq_spec() -> bool {
        true
    }

    open spec fn eq_spec(&self, other: &Matchers) -> bool {
        (*self is Epsilon) == (*other is Epsilon)
    }
}

impl Eq for Matchers {

}

} // verus!
