//! Parser combinators over string slices.
//!
//! A parser is a function from an input to either what is left of the input
//! together with what was parsed, or the input at which it failed. Parsers
//! are ordinary closures, so their contracts are stated over what a call of
//! them can return.
use vstd::prelude::*;
use vstd::string::StringExecFns;
use crate::matcher::ascii_digit;

verus! {

/// What a parser returns: the rest of the input and the parsed value, or the
/// input that it could not parse.
pub type ParseResult<'a, Output> = Result<(&'a str, Output), &'a str>;

/// What [`char_parser`] returns on `input`: the first character and the rest,
/// or, on the empty input, the input.
pub open spec fn char_parsed(input: &str, r: ParseResult<char>) -> bool {
    if input@.len() == 0 {
        r == Err::<(&str, char), &str>(input)
    } else {
        r matches Ok((rest, c)) && c == input@[0] && rest@ == input@.skip(1)
    }
}

/// A parser that takes the first character off the input.
pub fn char_parser() -> (parse: impl Fn(&str) -> ParseResult<char>)
    ensures
        forall|input: &str| call_requires(parse, (input,)),
        forall|input: &str, r: ParseResult<char>|
            call_ensures(parse, (input,), r) ==> char_parsed(input, r),
{
    move |input: &str| -> (r: ParseResult<char>)
        ensures
            char_parsed(input, r),
        {
            let n: usize = input.unicode_len();
            if n == 0 {
                return Err(input);
            }
            let c = input.get_char(0);
            Ok((input.substring_char(1, n), c))
        }
}

/// What `filter(parser, pred)` returns on `input`, given what `parser` and
/// `pred` return: the result of `parser`, but that a value which `pred`
/// turns down becomes a failure at `input`.
pub open spec fn filtered<P, F, O>(
    parser: P,
    pred: F,
    input: &str,
    r: Result<(&str, O), &str>,
) -> bool where P: Fn(&str) -> Result<(&str, O), &str>, F: Fn(&O) -> bool {
    exists|inner: Result<(&str, O), &str>| #[trigger]
        call_ensures(parser, (input,), inner) && match inner {
            Ok((next, value)) => exists|keep: bool| #[trigger]
                call_ensures(pred, (&value,), keep) && r == if keep {
                    Ok::<(&str, O), &str>((next, value))
                } else {
                    Err::<(&str, O), &str>(input)
                },
            Err(e) => r == Err::<(&str, O), &str>(e),
        }
}

/// Whether `filter(parser, pred)` may be called on `input`: `parser` may, and
/// so may `pred` on whatever `parser` parses.
pub open spec fn filter_callable<P, F, O>(parser: P, pred: F, input: &str) -> bool where
    P: Fn(&str) -> Result<(&str, O), &str>,
    F: Fn(&O) -> bool,
 {
    &&& call_requires(parser, (input,))
    &&& forall|next: &str, value: O| #[trigger]
        call_ensures(parser, (input,), Ok::<(&str, O), &str>((next, value))) ==> call_requires(
            pred,
            (&value,),
        )
}

/// A parser that succeeds where `parser` does and `pred` holds of what it
/// parsed. Where `pred` does not hold, it fails at its own input.
pub fn filter<P, F, O>(parser: P, pred: F) -> (parse: impl Fn(&str) -> Result<(&str, O), &str>) where
    P: Fn(&str) -> Result<(&str, O), &str>,
    F: Fn(&O) -> bool,

    ensures
        forall|input: &str|
            filter_callable(parser, pred, input) ==> #[trigger] call_requires(parse, (input,)),
        forall|input: &str, r: Result<(&str, O), &str>| #[trigger]
            call_ensures(parse, (input,), r) ==> filtered(parser, pred, input, r),
{
    move |input: &str| -> (r: Result<(&str, O), &str>)
        requires
            filter_callable(parser, pred, input),
        ensures
            filtered(parser, pred, input, r),
        {
            let result = (parser)(input);
            match result {
                Ok((next, c)) => {
                    if pred(&c) {
                        Ok((next, c))
                    } else {
                        Err(input)
                    }
                },
                Err(e) => Err(e),
            }
        }
}

/// What `map(parser, map_fn)` returns on `input`, given what `parser` and
/// `map_fn` return: the result of `parser`, with `map_fn` applied to the
/// parsed value.
pub open spec fn mapped<P, F, A, B>(
    parser: P,
    map_fn: F,
    input: &str,
    r: Result<(&str, B), &str>,
) -> bool where P: Fn(&str) -> Result<(&str, A), &str>, F: Fn(A) -> B {
    exists|inner: Result<(&str, A), &str>| #[trigger]
        call_ensures(parser, (input,), inner) && match inner {
            Ok((next, value)) => exists|image: B| #[trigger]
                call_ensures(map_fn, (value,), image) && r == Ok::<(&str, B), &str>(
                    (next, image),
                ),
            Err(e) => r == Err::<(&str, B), &str>(e),
        }
}

/// Whether `map(parser, map_fn)` may be called on `input`: `parser` may, and
/// so may `map_fn` on whatever `parser` parses.
pub open spec fn map_callable<P, F, A, B>(parser: P, map_fn: F, input: &str) -> bool where
    P: Fn(&str) -> Result<(&str, A), &str>,
    F: Fn(A) -> B,
 {
    &&& call_requires(parser, (input,))
    &&& forall|next: &str, value: A| #[trigger]
        call_ensures(parser, (input,), Ok::<(&str, A), &str>((next, value))) ==> call_requires(
            map_fn,
            (value,),
        )
}

/// A parser that parses as `parser` does and hands what it parsed through
/// `map_fn`.
pub fn map<P, F, A, B>(parser: P, map_fn: F) -> (parse: impl Fn(&str) -> Result<(&str, B), &str>) where
    P: Fn(&str) -> Result<(&str, A), &str>,
    F: Fn(A) -> B,

    ensures
        forall|input: &str|
            map_callable(parser, map_fn, input) ==> #[trigger] call_requires(parse, (input,)),
        forall|input: &str, r: Result<(&str, B), &str>| #[trigger]
            call_ensures(parse, (input,), r) ==> mapped(parser, map_fn, input, r),
{
    move |input: &str| -> (r: Result<(&str, B), &str>)
        requires
            map_callable(parser, map_fn, input),
        ensures
            mapped(parser, map_fn, input, r),
        {
            match parser(input) {
                Ok((next, value)) => Ok((next, map_fn(value))),
                Err(err) => Err(err),
            }
        }
}

/// A parser that can be called on every input and that, where it succeeds,
/// leaves less than it was given. Repeating such a parser comes to an end.
pub open spec fn consuming<P, O>(parser: P) -> bool where P: Fn(&str) -> ParseResult<O> {
    &&& forall|input: &str| #[trigger] call_requires(parser, (input,))
    &&& forall|input: &str, next: &str, value: O| #[trigger]
        call_ensures(parser, (input,), Ok::<(&str, O), &str>((next, value))) ==> next@.len()
            < input@.len()
}

/// Whether `parser` can fail on `input`.
pub open spec fn fails_on<P, O>(parser: P, input: &str) -> bool where
    P: Fn(&str) -> ParseResult<O>,
 {
    exists|inner: ParseResult<O>| #[trigger] call_ensures(parser, (input,), inner) && inner is Err
}

/// `values` is what `parser` parsed in a row: applied at `cuts[0]` it left
/// `cuts[1]`, applied there it left `cuts[2]`, and so on.
pub open spec fn chained<P, O>(parser: P, cuts: Seq<&str>, values: Seq<O>) -> bool where
    P: Fn(&str) -> ParseResult<O>,
 {
    &&& cuts.len() == values.len() + 1
    &&& forall|i: int|
        0 <= i < values.len() ==> call_ensures(
            parser,
            (#[trigger] cuts[i],),
            Ok::<(&str, O), &str>((cuts[i + 1], values[i])),
        )
}

/// What repeating `parser` returns on `input`: the values that `parser`
/// parsed in a row, up to the point where the input was used up or `parser`
/// failed, and what was left there. Where one value at least is asked for and
/// `parser` fails at once, the result is a failure at `input`.
pub open spec fn repeated<P, O>(
    parser: P,
    input: &str,
    r: ParseResult<Vec<O>>,
    at_least_one: bool,
) -> bool where P: Fn(&str) -> ParseResult<O> {
    match r {
        Ok((rest, values)) => exists|cuts: Seq<&str>|
            {
                &&& #[trigger] chained(parser, cuts, values@)
                &&& cuts[0] == input
                &&& cuts.last() == rest
                &&& at_least_one ==> values@.len() >= 1
                &&& rest@.len() == 0 || fails_on(parser, rest)
            },
        Err(e) => at_least_one && e == input && fails_on(parser, input),
    }
}

/// A parser that applies `parser` as often as it succeeds, once at least,
/// and collects what it parsed. It fails, at its input, where `parser` fails
/// the first time.
///
/// `parser` must consume input where it succeeds: repeating a parser that
/// succeeds on nothing would never end.
pub fn one_or_more<P, O>(parser: P) -> (parse: impl Fn(&str) -> ParseResult<Vec<O>>) where
    P: Fn(&str) -> ParseResult<O>,

    requires
        consuming(parser),
    ensures
        forall|input: &str| call_requires(parse, (input,)),
        forall|input: &str, r: ParseResult<Vec<O>>| #[trigger]
            call_ensures(parse, (input,), r) ==> repeated(parser, input, r, true),
{
    move |input: &str| -> (r: ParseResult<Vec<O>>)
        ensures
            repeated(parser, input, r, true),
        {
            let mut s = input;
            let mut matches: Vec<O> = Vec::new();
            let ghost mut cuts: Seq<&str> = seq![input];
            let first = parser(input);
            match first {
                Ok((next, value)) => {
                    matches.push(value);
                    s = next;
                    proof {
                        cuts = cuts.push(next);
                    }
                },
                Err(_) => {
                    assert(call_ensures(parser, (input,), first) && first is Err);
                    return Err(s);
                },
            }
            loop
                invariant
                    consuming(parser),
                    chained(parser, cuts, matches@),
                    cuts[0] == input,
                    cuts.last() == s,
                    matches@.len() >= 1,
                ensures
                    chained(parser, cuts, matches@),
                    cuts[0] == input,
                    cuts.last() == s,
                    matches@.len() >= 1,
                    s@.len() == 0 || fails_on(parser, s),
                decreases s@.len(),
            {
                if s.is_empty() {
                    break ;
                }
                let attempt = parser(s);
                match attempt {
                    Ok((next, value)) => {
                        matches.push(value);
                        s = next;
                        proof {
                            cuts = cuts.push(next);
                        }
                    },
                    Err(_) => {
                        assert(call_ensures(parser, (s,), attempt) && attempt is Err);
                        break ;
                    },
                }
            }
            let r: ParseResult<Vec<_>> = Ok((s, matches));
            assert(r matches Ok((rest, values)) && chained(parser, cuts, values@));
            r
        }
}

/// A parser that applies `parser` as often as it succeeds and collects what
/// it parsed. It never fails: where `parser` fails at once, nothing is
/// collected and the input is left whole.
///
/// `parser` must consume input where it succeeds.
pub fn zero_or_more<P>(parser: P) -> (parse: impl Fn(&str) -> ParseResult<Vec<&str>>) where
    P: Fn(&str) -> ParseResult<&str>,

    requires
        consuming(parser),
    ensures
        forall|input: &str| call_requires(parse, (input,)),
        forall|input: &str, r: ParseResult<Vec<&str>>| #[trigger]
            call_ensures(parse, (input,), r) ==> repeated(parser, input, r, false),
{
    move |input: &str| -> (r: ParseResult<Vec<&str>>)
        ensures
            repeated(parser, input, r, false),
        {
            let mut s = input;
            let mut matches: Vec<&str> = Vec::new();
            let ghost mut cuts: Seq<&str> = seq![input];
            loop
                invariant
                    consuming(parser),
                    chained(parser, cuts, matches@),
                    cuts[0] == input,
                    cuts.last() == s,
                ensures
                    chained(parser, cuts, matches@),
                    cuts[0] == input,
                    cuts.last() == s,
                    s@.len() == 0 || fails_on(parser, s),
                decreases s@.len(),
            {
                if s.is_empty() {
                    break ;
                }
                let attempt = parser(s);
                match attempt {
                    Ok((next, value)) => {
                        matches.push(value);
                        s = next;
                        proof {
                            cuts = cuts.push(next);
                        }
                    },
                    Err(_) => {
                        assert(call_ensures(parser, (s,), attempt) && attempt is Err);
                        break ;
                    },
                }
            }
            let r: ParseResult<Vec<_>> = Ok((s, matches));
            assert(r matches Ok((rest, values)) && chained(parser, cuts, values@));
            r
        }
}

/// Calls `char::to_string`. Trusted: the string holds the character and
/// nothing else.
#[verifier::external_body]
fn char_to_string(c: char) -> (s: String)
    ensures
        s@ == seq![c],
{
    c.to_string()
}

/// What [`digit_parser`] returns on `input`: the first character as a
/// string, and the rest, where the first character is an ASCII digit; a
/// failure at `input` where it is not, or where there is none.
pub open spec fn digit_parsed(input: &str, r: ParseResult<String>) -> bool {
    if input@.len() > 0 && ascii_digit(input@[0]) {
        r matches Ok((rest, digit)) && digit@ == seq![input@[0]] && rest@ == input@.skip(1)
    } else {
        r == Err::<(&str, String), &str>(input)
    }
}

/// A parser that takes one ASCII digit off the input.
pub fn digit_parser() -> (parse: impl Fn(&str) -> ParseResult<String>)
    ensures
        forall|input: &str| call_requires(parse, (input,)),
        forall|input: &str, r: ParseResult<String>|
            call_ensures(parse, (input,), r) ==> digit_parsed(input, r),
{
    let any = char_parser();
    let is_digit = |c: &char| -> (b: bool)
        ensures
            b == ascii_digit(*c),
        { *c >= '0' && *c <= '9' };
    let digit = filter(any, is_digit);
    let to_string = |c: char| -> (s: String)
        ensures
            s@ == seq![c],
        { char_to_string(c) };
    let parse = map(digit, to_string);
    proof {
        assert forall|input: &str| call_requires(parse, (input,)) by {
            assert(filter_callable(any, is_digit, input));
            assert(map_callable(digit, to_string, input));
        }
        assert forall|input: &str, r: ParseResult<String>|
            call_ensures(parse, (input,), r) implies digit_parsed(input, r) by {
            assert(mapped(digit, to_string, input, r));
            let inner = choose|inner: ParseResult<char>| #[trigger]
                call_ensures(digit, (input,), inner) && match inner {
                    Ok((next, value)) => exists|image: String| #[trigger]
                        call_ensures(to_string, (value,), image) && r == Ok::<
                            (&str, String),
                            &str,
                        >((next, image)),
                    Err(e) => r == Err::<(&str, String), &str>(e),
                };
            assert(filtered(any, is_digit, input, inner));
            let first = choose|first: ParseResult<char>| #[trigger]
                call_ensures(any, (input,), first) && match first {
                    Ok((next, value)) => exists|keep: bool| #[trigger]
                        call_ensures(is_digit, (&value,), keep) && inner == if keep {
                            Ok::<(&str, char), &str>((next, value))
                        } else {
                            Err::<(&str, char), &str>(input)
                        },
                    Err(e) => inner == Err::<(&str, char), &str>(e),
                };
            assert(char_parsed(input, first));
            match first {
                Ok((next, value)) => {
                    let keep = choose|keep: bool| #[trigger]
                        call_ensures(is_digit, (&value,), keep) && inner == if keep {
                            Ok::<(&str, char), &str>((next, value))
                        } else {
                            Err::<(&str, char), &str>(input)
                        };
                    assert(keep == ascii_digit(value));
                },
                Err(e) => {},
            }
            match inner {
                Ok((next, value)) => {
                    let image = choose|image: String| #[trigger]
                        call_ensures(to_string, (value,), image) && r == Ok::<
                            (&str, String),
                            &str,
                        >((next, image));
                    assert(image@ == seq![value]);
                },
                Err(e) => {},
            }
        }
    }
    parse
}

/// The strings of `parts`, one after the other.
pub open spec fn joined(parts: Seq<String>) -> Seq<char>
    decreases parts.len(),
{
    if parts.len() == 0 {
        Seq::empty()
    } else {
        joined(parts.drop_last()) + parts.last()@
    }
}

/// Joins the strings into one.
pub fn join_strings(parts: Vec<String>) -> (whole: String)
    ensures
        whole@ == joined(parts@),
{
    let mut whole = String::new();
    let mut i: usize = 0;
    while i < parts.len()
        invariant
            i <= parts@.len(),
            whole@ == joined(parts@.take(i as int)),
        decreases parts@.len() - i,
    {
        whole.append(parts[i].as_str());
        proof {
            assert(parts@.take(i + 1).drop_last() =~= parts@.take(i as int));
        }
        i += 1;
    }
    proof {
        assert(parts@.take(i as int) =~= parts@);
    }
    whole
}

/// How many ASCII digits `s` begins with.
pub open spec fn leading_digits(s: Seq<char>) -> nat
    decreases s.len(),
{
    if s.len() > 0 && ascii_digit(s[0]) {
        1 + leading_digits(s.skip(1))
    } else {
        0
    }
}

/// What [`number_parser`] returns on `input`: the digits that the input
/// begins with, as one string, and what follows them; a failure at `input`
/// where it begins with no digit.
pub open spec fn number_parsed(input: &str, r: ParseResult<String>) -> bool {
    let n = leading_digits(input@) as int;
    if n > 0 {
        r matches Ok((rest, number)) && number@ == input@.take(n) && rest@ == input@.skip(n)
    } else {
        r == Err::<(&str, String), &str>(input)
    }
}

/// Digits parsed in a row are the first characters of the input, in order,
/// and what is left after them is the input without them.
proof fn lemma_digits_chained<P>(parser: P, cuts: Seq<&str>, values: Seq<String>, i: int) where
    P: Fn(&str) -> ParseResult<String>,

    requires
        forall|input: &str, r: ParseResult<String>|
            call_ensures(parser, (input,), r) ==> digit_parsed(input, r),
        chained(parser, cuts, values),
        0 <= i <= values.len(),
    ensures
        i <= cuts[0]@.len(),
        cuts[i]@ == cuts[0]@.skip(i),
        leading_digits(cuts[0]@) == i + leading_digits(cuts[i]@),
        joined(values.take(i)) == cuts[0]@.take(i),
    decreases i,
{
    let whole = cuts[0]@;
    if i == 0 {
        assert(whole.skip(0) =~= whole);
        assert(values.take(0) =~= Seq::<String>::empty());
        assert(whole.take(0) =~= Seq::<char>::empty());
    } else {
        lemma_digits_chained(parser, cuts, values, i - 1);
        let before = cuts[i - 1];
        let r = Ok::<(&str, String), &str>((cuts[i - 1 + 1], values[i - 1]));
        assert(call_ensures(parser, (before,), r));
        assert(digit_parsed(before, r));
        assert(before@[0] == whole[i - 1]);
        assert(before@.skip(1) =~= whole.skip(i));
        assert(values.take(i).drop_last() =~= values.take(i - 1));
        assert(whole.take(i) =~= whole.take(i - 1) + seq![whole[i - 1]]);
    }
}

/// A parser that takes the digits that the input begins with, one at least,
/// and returns them as one string.
pub fn number_parser() -> (parse: impl Fn(&str) -> ParseResult<String>)
    ensures
        forall|input: &str| call_requires(parse, (input,)),
        forall|input: &str, r: ParseResult<String>|
            call_ensures(parse, (input,), r) ==> number_parsed(input, r),
{
    let digit = digit_parser();
    proof {
        assert forall|input: &str, next: &str, value: String| #[trigger]
            call_ensures(
                digit,
                (input,),
                Ok::<(&str, String), &str>((next, value)),
            ) implies next@.len() < input@.len() by {
            assert(digit_parsed(input, Ok::<(&str, String), &str>((next, value))));
        }
    }
    let digits = one_or_more(digit);
    let join = |parts: Vec<String>| -> (whole: String)
        ensures
            whole@ == joined(parts@),
        { join_strings(parts) };
    let parse = map(digits, join);
    proof {
        assert forall|input: &str| call_requires(parse, (input,)) by {
            assert(map_callable(digits, join, input));
        }
        assert forall|input: &str, r: ParseResult<String>|
            call_ensures(parse, (input,), r) implies number_parsed(input, r) by {
            assert(mapped(digits, join, input, r));
            let inner = choose|inner: ParseResult<Vec<String>>| #[trigger]
                call_ensures(digits, (input,), inner) && match inner {
                    Ok((next, value)) => exists|image: String| #[trigger]
                        call_ensures(join, (value,), image) && r == Ok::<(&str, String), &str>(
                            (next, image),
                        ),
                    Err(e) => r == Err::<(&str, String), &str>(e),
                };
            assert(repeated(digit, input, inner, true));
            match inner {
                Ok((rest, values)) => {
                    let cuts = choose|cuts: Seq<&str>|
                        {
                            &&& #[trigger] chained(digit, cuts, values@)
                            &&& cuts[0] == input
                            &&& cuts.last() == rest
                            &&& values@.len() >= 1
                            &&& rest@.len() == 0 || fails_on(digit, rest)
                        };
                    let n = values@.len() as int;
                    lemma_digits_chained(digit, cuts, values@, n);
                    assert(values@.take(n) =~= values@);
                    if rest@.len() > 0 {
                        let failed = choose|failed: ParseResult<String>| #[trigger]
                            call_ensures(digit, (rest,), failed) && failed is Err;
                        assert(digit_parsed(rest, failed));
                    }
                    assert(leading_digits(rest@) == 0);
                },
                Err(e) => {
                    let failed = choose|failed: ParseResult<String>| #[trigger]
                        call_ensures(digit, (input,), failed) && failed is Err;
                    assert(digit_parsed(input, failed));
                },
            }
        }
    }
    parse
}

/// Why a text could not be read.
#[derive(Debug)]
pub enum ParseError {
    NoMatchFound,
    InvalidNumber,
}

impl ParseError {
    /// The message that describes the error.
    pub open spec fn text(self) -> Seq<char> {
        match self {
            ParseError::InvalidNumber => "Failed to parse number"@,
            ParseError::NoMatchFound => "No match found"@,
        }
    }

    /// The message that describes the error.
    pub fn message(&self) -> (message: String)
        ensures
            message@ == self.text(),
    {
        match self {
            ParseError::InvalidNumber => "Failed to parse number".to_owned(),
            ParseError::NoMatchFound => "No match found".to_owned(),
        }
    }
}

} // verus!
