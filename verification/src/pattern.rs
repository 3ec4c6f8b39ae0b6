//! One-token patterns, matched against a line of text.
use vstd::prelude::*;
use vstd::string::StringExecFns;
use crate::matcher::CharPredicate;

verus! {

/// Whether `predicate` holds of some character of `line`.
pub open spec fn some_char(line: Seq<char>, predicate: CharPredicate) -> bool {
    exists|i: int| 0 <= i < line.len() && predicate.holds(#[trigger] line[i])
}

/// Decides whether `predicate` holds of some character of `line`.
pub fn any_char(line: &str, predicate: CharPredicate) -> (found: bool)
    ensures
        found == some_char(line@, predicate),
{
    for c in it: line.chars()
        invariant
            it.seq() == line@,
            forall|i: int| 0 <= i < it.index() ==> !predicate.holds(line@[i]),
    {
        if predicate.test(c) {
            return true;
        }
    }
    false
}

/// Whether the line holds an ASCII digit. The pattern plays no part.
pub fn handle_digit(input_line: &str, _pattern: &str) -> (found: bool)
    ensures
        found == some_char(input_line@, CharPredicate::Digit),
{
    any_char(input_line, CharPredicate::Digit)
}

/// Whether the line holds an alphanumeric character. The pattern plays no
/// part.
pub fn handle_alpha_numeric(input_line: &str, _pattern: &str) -> (found: bool)
    ensures
        found == some_char(input_line@, CharPredicate::AlphaNumeric),
{
    any_char(input_line, CharPredicate::AlphaNumeric)
}

/// A pattern of one token, with the text it was made from.
pub enum Pattern {
    /// `\d`: a digit.
    Digit(String),
    /// Any other text. Only a literal of one character can be matched.
    Literal(String),
    /// `\w`: an alphanumeric character.
    AlphaNumeric(String),
}

/// What a pattern says of a line, or why it says nothing.
pub ghost enum Verdict {
    Found(bool),
    Unknown(Seq<char>),
}

impl Pattern {
    /// The text that the pattern was made from.
    pub open spec fn source(self) -> Seq<char> {
        match self {
            Pattern::Digit(text) => text@,
            Pattern::Literal(text) => text@,
            Pattern::AlphaNumeric(text) => text@,
        }
    }

    /// What the pattern says of `line`. `\d` and `\w` look for a character of
    /// their class; a literal of one character looks for that character; any
    /// other literal is an error, whose message names it.
    pub open spec fn verdict(self, line: Seq<char>) -> Verdict {
        match self {
            Pattern::Digit(_) => Verdict::Found(some_char(line, CharPredicate::Digit)),
            Pattern::AlphaNumeric(_) => Verdict::Found(
                some_char(line, CharPredicate::AlphaNumeric),
            ),
            Pattern::Literal(text) => if text@.len() == 1 {
                Verdict::Found(line.contains(text@[0]))
            } else {
                Verdict::Unknown("unknown literal pattern: "@ + text@)
            },
        }
    }

    /// Whether a pattern made from `text` can be matched at all.
    pub open spec fn supported(text: Seq<char>) -> bool {
        text == "\\d"@ || text == "\\w"@ || text.len() == 1
    }

    /// Reads a pattern: `\d` is the digit class, `\w` the alphanumeric class,
    /// and everything else a literal.
    pub fn from(pattern: &str) -> (p: Pattern)
        ensures
            p.source() == pattern@,
            p is Digit <==> pattern@ == "\\d"@,
            p is AlphaNumeric <==> pattern@ == "\\w"@,
    {
        proof {
            reveal_strlit("\\d");
            reveal_strlit("\\w");
            assert("\\d"@ != "\\w"@) by {
                assert("\\d"@[1] != "\\w"@[1]);
            }
        }
        let text = pattern.to_owned();
        if text == "\\d".to_owned() {
            Pattern::Digit(text)
        } else if text == "\\w".to_owned() {
            Pattern::AlphaNumeric(text)
        } else {
            Pattern::Literal(text)
        }
    }

    /// Matches the pattern against `line`.
    pub fn match_on(&self, line: &str) -> (r: Result<bool, String>)
        ensures
            match r {
                Ok(found) => self.verdict(line@) == Verdict::Found(found),
                Err(message) => self.verdict(line@) == Verdict::Unknown(message@),
            },
    {
        match self {
            Pattern::Digit(pattern) => Ok(handle_digit(line, pattern.as_str())),
            Pattern::AlphaNumeric(pattern) => Ok(handle_alpha_numeric(line, pattern.as_str())),
            Pattern::Literal(pattern) => {
                if pattern.as_str().unicode_len() == 1 {
                    let wanted = pattern.as_str().get_char(0);
                    let found = any_char(line, CharPredicate::Literal(wanted));
                    proof {
                        if found {
                            let i = choose|i: int|
                                0 <= i < line@.len() && CharPredicate::Literal(wanted).holds(
                                    #[trigger] line@[i],
                                );
                            assert(line@[i] == wanted);
                        }
                        if line@.contains(wanted) {
                            let i = choose|i: int| 0 <= i < line@.len() && line@[i] == wanted;
                            assert(CharPredicate::Literal(wanted).holds(line@[i]));
                        }
                    }
                    Ok(found)
                } else {
                    Err("unknown literal pattern: ".to_owned().concat(pattern.as_str()))
                }
            },
        }
    }
}

/// What the pattern that `pattern` reads as says of `line`.
pub open spec fn text_verdict(pattern: Seq<char>, line: Seq<char>) -> Verdict {
    if pattern == "\\d"@ {
        Verdict::Found(some_char(line, CharPredicate::Digit))
    } else if pattern == "\\w"@ {
        Verdict::Found(some_char(line, CharPredicate::AlphaNumeric))
    } else if pattern.len() == 1 {
        Verdict::Found(line.contains(pattern[0]))
    } else {
        Verdict::Unknown("unknown literal pattern: "@ + pattern)
    }
}

/// Whether `input_line` matches the pattern that `pattern` reads as.
///
/// The pattern has to be one that can be matched: `\d`, `\w`, or one
/// character.
pub fn match_pattern(input_line: &str, pattern: &str) -> (found: bool)
    requires
        Pattern::supported(pattern@),
    ensures
        text_verdict(pattern@, input_line@) == Verdict::Found(found),
{
    proof {
        reveal_strlit("\\d");
        reveal_strlit("\\w");
    }
    let p = Pattern::from(pattern);
    match p.match_on(input_line) {
        Ok(found) => found,
        Err(_) => false,
    }
}

} // verus!
