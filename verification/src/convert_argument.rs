//! Typed command-argument conversion.
//!
//! A command declares an ordered list of [`ArgDecl`]s. [`convert`] runs them
//! left to right, with no backtracking, over the raw command text: each spec
//! consumes a prefix of the remaining text (for a greedy spec, all of it)
//! and yields a typed [`ArgValue`], and the pipeline stops at the first spec
//! that fails, naming the offending argument. A
//! [`ArgKind::StringGreedyOrReply`] spec falls back to the text of the
//! message being replied to when the direct input is empty, and fails with a
//! missing-argument error when there is no such fallback either.

use vstd::prelude::*;

verus! {

use crate::CommandError;

/// The kinds of argument spec the pipeline knows.
#[derive(Debug, Clone, Copy, PartialEq, Eq, Structural)]
pub enum ArgKind {
    /// The next whitespace-delimited token, as text.
    Word,
    /// The next whitespace-delimited token, parsed as an unsigned integer.
    UnsignedInt,
    /// All remaining text; when there is none, the replied-to message's
    /// text; when there is neither, a missing-argument failure.
    StringGreedyOrReply,
}

/// One declared argument: its user-facing name and its kind.
pub struct ArgDecl {
    pub name: String,
    pub kind: ArgKind,
}

/// A converted, typed argument value.
#[derive(Debug, PartialEq, Eq)]
pub enum ArgValue {
    Word(String),
    UnsignedInt(u64),
    Text(String),
}

/// The mathematical shape of an [`ArgValue`].
pub enum ArgValueModel {
    Word(Seq<char>),
    UnsignedInt(int),
    Text(Seq<char>),
}

impl View for ArgValue {
    type V = ArgValueModel;

    open spec fn view(&self) -> ArgValueModel {
        match self {
            ArgValue::Word(s) => ArgValueModel::Word(s@),
            ArgValue::UnsignedInt(v) => ArgValueModel::UnsignedInt(*v as int),
            ArgValue::Text(s) => ArgValueModel::Text(s@),
        }
    }
}

/// How a single argument spec failed.
#[derive(Debug, Clone, Copy, PartialEq, Eq, Structural)]
pub enum ArgFailure {
    /// The argument was absent (and had no fallback).
    Missing,
    /// The argument was present but did not parse.
    Invalid,
}

/// The whitespace that separates tokens.
pub open spec fn is_space(c: char) -> bool {
    c == ' ' || c == '\t' || c == '\n' || c == '\r'
}

/// The first index at or after `i` holding a non-space character, or the
/// length when there is none.
pub open spec fn scan_non_space(s: Seq<char>, i: int) -> int
    decreases s.len() - i,
{
    if 0 <= i < s.len() {
        if is_space(s[i]) {
            scan_non_space(s, i + 1)
        } else {
            i
        }
    } else {
        s.len() as int
    }
}

/// The first index at or after `i` holding a space, or the length when
/// there is none.
pub open spec fn scan_space(s: Seq<char>, i: int) -> int
    decreases s.len() - i,
{
    if 0 <= i < s.len() {
        if is_space(s[i]) {
            i
        } else {
            scan_space(s, i + 1)
        }
    } else {
        s.len() as int
    }
}

/// Where the next token starts.
pub open spec fn token_start(s: Seq<char>) -> int {
    scan_non_space(s, 0)
}

/// Where the next token ends (exclusive); also how much taking the token
/// consumes.
pub open spec fn token_end(s: Seq<char>) -> int {
    scan_space(s, token_start(s))
}

/// The next whitespace-delimited token.
pub open spec fn token_of(s: Seq<char>) -> Seq<char> {
    s.subrange(token_start(s), token_end(s))
}

/// A decimal digit.
pub open spec fn is_digit(c: char) -> bool {
    '0' as u32 <= c as u32 && c as u32 <= '9' as u32
}

/// The numeric value of a digit character.
pub open spec fn digit_val(c: char) -> int {
    c as u32 - '0' as u32
}

/// Whether `s` consists of digits only.
pub open spec fn all_digits(s: Seq<char>) -> bool {
    forall|i: int| 0 <= i < s.len() ==> is_digit(s[i])
}

/// The number the digit string `s` denotes, most significant digit first.
pub open spec fn digits_value(s: Seq<char>) -> int
    decreases s.len(),
{
    if s.len() == 0 {
        0
    } else {
        digits_value(s.drop_last()) * 10 + digit_val(s.last())
    }
}

/// The outcome of one argument spec on the remaining `text`, given the
/// optional reply-context text: the typed value and the number of
/// characters consumed, or the failure kind.
pub open spec fn step_spec(kind: ArgKind, text: Seq<char>, reply: Option<Seq<char>>) -> Result<
    (ArgValueModel, int),
    ArgFailure,
> {
    match kind {
        ArgKind::Word => {
            if token_start(text) == text.len() {
                Err(ArgFailure::Missing)
            } else {
                Ok((ArgValueModel::Word(token_of(text)), token_end(text)))
            }
        },
        ArgKind::UnsignedInt => {
            if token_start(text) == text.len() {
                Err(ArgFailure::Missing)
            } else if all_digits(token_of(text)) && digits_value(token_of(text)) <= u64::MAX {
                Ok((ArgValueModel::UnsignedInt(digits_value(token_of(text))), token_end(text)))
            } else {
                Err(ArgFailure::Invalid)
            }
        },
        ArgKind::StringGreedyOrReply => {
            if text.len() > 0 {
                Ok((ArgValueModel::Text(text), text.len() as int))
            } else {
                match reply {
                    Some(fallback) => {
                        if fallback.len() > 0 {
                            Ok((ArgValueModel::Text(fallback), 0))
                        } else {
                            Err(ArgFailure::Missing)
                        }
                    },
                    None => Err(ArgFailure::Missing),
                }
            }
        },
    }
}

/// The reply context as text, when there is one.
pub open spec fn reply_view(reply: Option<&str>) -> Option<Seq<char>> {
    match reply {
        Some(text) => Some(text@),
        None => None,
    }
}

/// The outcome of the whole ordered pipeline: the converted values, or the
/// index of the first failing spec with its failure kind.
pub open spec fn pipeline_spec(
    kinds: Seq<ArgKind>,
    text: Seq<char>,
    reply: Option<Seq<char>>,
) -> Result<Seq<ArgValueModel>, (int, ArgFailure)>
    decreases kinds.len(),
{
    if kinds.len() == 0 {
        Ok(Seq::empty())
    } else {
        match step_spec(kinds[0], text, reply) {
            Err(failure) => Err((0, failure)),
            Ok(step) => match pipeline_spec(
                kinds.drop_first(),
                text.subrange(step.1, text.len() as int),
                reply,
            ) {
                Ok(rest) => Ok(Seq::empty().push(step.0) + rest),
                Err(err) => Err((err.0 + 1, err.1)),
            },
        }
    }
}

proof fn lemma_scan_non_space_bounds(s: Seq<char>, i: int)
    requires
        0 <= i <= s.len(),
    ensures
        i <= scan_non_space(s, i) <= s.len(),
    decreases s.len() - i,
{
    if i < s.len() && is_space(s[i]) {
        lemma_scan_non_space_bounds(s, i + 1);
    }
}

proof fn lemma_scan_space_bounds(s: Seq<char>, i: int)
    requires
        0 <= i <= s.len(),
    ensures
        i <= scan_space(s, i) <= s.len(),
    decreases s.len() - i,
{
    if i < s.len() && !is_space(s[i]) {
        lemma_scan_space_bounds(s, i + 1);
    }
}

/// Law: a spec that succeeds consumed some prefix of what it was given and
/// no more: consumption never exceeds the remaining input's length.
pub proof fn lemma_step_consumption_bounded(
    kind: ArgKind,
    text: Seq<char>,
    reply: Option<Seq<char>>,
)
    ensures
        step_spec(kind, text, reply) is Ok ==> 0 <= step_spec(kind, text, reply)->Ok_0.1
            <= text.len(),
{
    lemma_scan_non_space_bounds(text, 0);
    lemma_scan_space_bounds(text, token_start(text));
}

/// How a full pipeline outcome decomposes: `done` values already produced,
/// `offset` specs already run, and the outcome of the rest.
spec fn pipeline_joins(
    full: Result<Seq<ArgValueModel>, (int, ArgFailure)>,
    done: Seq<ArgValueModel>,
    offset: int,
    rest: Result<Seq<ArgValueModel>, (int, ArgFailure)>,
) -> bool {
    match rest {
        Ok(values) => full == Ok::<Seq<ArgValueModel>, (int, ArgFailure)>(done + values),
        Err(err) => full == Err::<Seq<ArgValueModel>, (int, ArgFailure)>(
            (offset + err.0, err.1),
        ),
    }
}

/// Finds where the next token starts in `text`.
fn find_token_start(text: &str) -> (start: usize)
    ensures
        start as int == token_start(text@),
        start <= text@.len(),
{
    let total = text.unicode_len();
    let mut i: usize = 0;
    let mut done: bool = false;
    while !done && i < total
        invariant
            i <= total,
            total == text@.len(),
            scan_non_space(text@, 0) == scan_non_space(text@, i as int),
            done ==> i < total && !is_space(text@[i as int]),
        decreases total - i + (if done { 0int } else { 1int }),
    {
        let c = text.get_char(i);
        if c == ' ' || c == '\t' || c == '\n' || c == '\r' {
            i += 1;
        } else {
            done = true;
        }
    }
    i
}

/// Finds where the token starting at `start` ends in `text`.
fn find_token_end(text: &str, start: usize) -> (end: usize)
    requires
        start as int <= text@.len(),
    ensures
        end as int == scan_space(text@, start as int),
        start <= end <= text@.len(),
{
    let total = text.unicode_len();
    let mut i: usize = start;
    let mut done: bool = false;
    while !done && i < total
        invariant
            start <= i <= total,
            total == text@.len(),
            scan_space(text@, start as int) == scan_space(text@, i as int),
            done ==> i < total && is_space(text@[i as int]),
        decreases total - i + (if done { 0int } else { 1int }),
    {
        let c = text.get_char(i);
        if c == ' ' || c == '\t' || c == '\n' || c == '\r' {
            done = true;
        } else {
            i += 1;
        }
    }
    i
}

/// Parses the digit token `text[start..end]` as a `u64`.
fn parse_uint(text: &str, start: usize, end: usize) -> (parsed: Option<u64>)
    requires
        start <= end <= text@.len(),
    ensures
        ({
            let token = text@.subrange(start as int, end as int);
            match parsed {
                Some(value) => all_digits(token) && value as int == digits_value(token),
                None => !(all_digits(token) && digits_value(token) <= u64::MAX),
            }
        }),
{
    let ghost token = text@.subrange(start as int, end as int);
    let mut value: u64 = 0;
    let mut overflow: bool = false;
    let mut bad: bool = false;
    let mut j: usize = start;
    while j < end
        invariant
            start <= j <= end <= text@.len(),
            token == text@.subrange(start as int, end as int),
            bad ==> !all_digits(token),
            !bad ==> all_digits(token.take(j - start)),
            !bad && !overflow ==> value as int == digits_value(token.take(j - start)),
            !bad && overflow ==> digits_value(token.take(j - start)) > u64::MAX,
        decreases end - j,
    {
        let c = text.get_char(j);
        let code = c as u32;
        proof {
            assert(token[j - start] == text@[j as int]);
            assert(token.take(j - start + 1).drop_last() =~= token.take(j - start));
            assert(token.take(j - start + 1).last() == token[j - start]);
        }
        if code < 48 || code > 57 {
            bad = true;
        } else {
            let digit = (code - 48) as u64;
            if !bad && !overflow {
                if value <= (u64::MAX - digit) / 10 {
                    proof {
                        assert(value * 10 + digit <= u64::MAX) by (nonlinear_arith)
                            requires
                                value <= (u64::MAX - digit) / 10,
                                digit <= 9,
                        ;
                    }
                    value = value * 10 + digit;
                } else {
                    proof {
                        assert(value * 10 + digit > u64::MAX) by (nonlinear_arith)
                            requires
                                value > (u64::MAX - digit) / 10,
                                digit <= 9,
                        ;
                    }
                    overflow = true;
                }
            } else if !bad && overflow {
                proof {
                    assert(digits_value(token.take(j - start)) * 10 + digit_val(
                        token[j - start],
                    ) > u64::MAX) by (nonlinear_arith)
                        requires
                            digits_value(token.take(j - start)) > u64::MAX,
                            digit_val(token[j - start]) >= 0,
                    ;
                }
            }
        }
        j += 1;
    }
    proof {
        assert(token.take(end - start) =~= token);
    }
    if bad || overflow {
        None
    } else {
        Some(value)
    }
}

/// Runs one argument spec against the remaining `text` and the reply
/// context. On success: the typed value and how many characters of `text`
/// were consumed. On failure: the error names the declared argument.
pub fn convert_one(decl: &ArgDecl, text: &str, reply: Option<&str>) -> (converted: Result<
    (ArgValue, usize),
    CommandError,
>)
    ensures
        ({
            let outcome = step_spec(decl.kind, text@, reply_view(reply));
            match converted {
                Ok(pair) => outcome == Ok::<(ArgValueModel, int), ArgFailure>(
                    (pair.0@, pair.1 as int),
                ),
                Err(error) => {
                    &&& outcome is Err
                    &&& match error {
                        CommandError::ArgumentMissing(named) => outcome->Err_0
                            == ArgFailure::Missing && named@ == decl.name@,
                        CommandError::ArgumentInvalid(named) => outcome->Err_0
                            == ArgFailure::Invalid && named@ == decl.name@,
                        _ => false,
                    }
                },
            }
        }),
{
    match decl.kind {
        ArgKind::Word => {
            let total = text.unicode_len();
            let start = find_token_start(text);
            if start == total {
                Err(CommandError::ArgumentMissing(decl.name.clone()))
            } else {
                let end = find_token_end(text, start);
                let token = text.substring_char(start, end);
                Ok((ArgValue::Word(token.to_owned()), end))
            }
        },
        ArgKind::UnsignedInt => {
            let total = text.unicode_len();
            let start = find_token_start(text);
            if start == total {
                Err(CommandError::ArgumentMissing(decl.name.clone()))
            } else {
                let end = find_token_end(text, start);
                match parse_uint(text, start, end) {
                    Some(value) => Ok((ArgValue::UnsignedInt(value), end)),
                    None => Err(CommandError::ArgumentInvalid(decl.name.clone())),
                }
            }
        },
        ArgKind::StringGreedyOrReply => {
            if !text.is_empty() {
                let total = text.unicode_len();
                Ok((ArgValue::Text(text.to_owned()), total))
            } else {
                match reply {
                    Some(fallback) => {
                        if !fallback.is_empty() {
                            Ok((ArgValue::Text(fallback.to_owned()), 0))
                        } else {
                            Err(CommandError::ArgumentMissing(decl.name.clone()))
                        }
                    },
                    None => Err(CommandError::ArgumentMissing(decl.name.clone())),
                }
            }
        },
    }
}

/// Runs the whole declared pipeline over the raw command text, strictly
/// left to right with no backtracking. Succeeds with one typed value per
/// declaration, or stops at the first failing spec and names its argument.
pub fn convert(decls: &Vec<ArgDecl>, text: &str, reply: Option<&str>) -> (converted: Result<
    Vec<ArgValue>,
    CommandError,
>)
    ensures
        ({
            let kinds = decls@.map_values(|d: ArgDecl| d.kind);
            let outcome = pipeline_spec(kinds, text@, reply_view(reply));
            match converted {
                Ok(values) => {
                    &&& outcome is Ok
                    &&& values@.map_values(|v: ArgValue| v@) == outcome->Ok_0
                },
                Err(error) => {
                    &&& outcome is Err
                    &&& 0 <= outcome->Err_0.0 < decls@.len()
                    &&& match error {
                        CommandError::ArgumentMissing(named) => outcome->Err_0.1
                            == ArgFailure::Missing && named@ == decls@[outcome->Err_0.0].name@,
                        CommandError::ArgumentInvalid(named) => outcome->Err_0.1
                            == ArgFailure::Invalid && named@ == decls@[outcome->Err_0.0].name@,
                        _ => false,
                    }
                },
            }
        }),
{
    let ghost kinds = decls@.map_values(|d: ArgDecl| d.kind);
    let ghost full = pipeline_spec(kinds, text@, reply_view(reply));
    let mut values: Vec<ArgValue> = Vec::new();
    let mut rem: &str = text;
    let mut i: usize = 0;
    let total = decls.len();
    proof {
        assert(kinds.skip(0) =~= kinds);
        assert(values@.map_values(|v: ArgValue| v@) =~= Seq::<ArgValueModel>::empty());
    }
    while i < total
        invariant
            total == decls@.len(),
            kinds == decls@.map_values(|d: ArgDecl| d.kind),
            full == pipeline_spec(kinds, text@, reply_view(reply)),
            i <= total,
            values@.len() == i,
            pipeline_joins(
                full,
                values@.map_values(|v: ArgValue| v@),
                i as int,
                pipeline_spec(kinds.skip(i as int), rem@, reply_view(reply)),
            ),
        decreases total - i,
    {
        let ghost done0 = values@.map_values(|v: ArgValue| v@);
        let ghost rest0 = pipeline_spec(kinds.skip(i as int), rem@, reply_view(reply));
        proof {
            assert(kinds[i as int] == decls@[i as int].kind);
            assert(kinds.skip(i as int)[0] == kinds[i as int]);
            assert(kinds.skip(i as int).drop_first() =~= kinds.skip(i + 1));
        }
        match convert_one(&decls[i], rem, reply) {
            Ok(pair) => {
                let (value, used) = pair;
                proof {
                    lemma_step_consumption_bounded(
                        decls@[i as int].kind,
                        rem@,
                        reply_view(reply),
                    );
                }
                let rem_len = rem.unicode_len();
                let next = rem.substring_char(used, rem_len);
                let ghost value_model = value@;
                values.push(value);
                proof {
                    assert(values@.map_values(|v: ArgValue| v@) =~= done0.push(value_model));
                    assert(next@ == rem@.subrange(used as int, rem@.len() as int));
                    match pipeline_spec(kinds.skip(i + 1), next@, reply_view(reply)) {
                        Ok(rest_values) => {
                            assert(rest0 == Ok::<Seq<ArgValueModel>, (int, ArgFailure)>(
                                Seq::empty().push(value_model) + rest_values,
                            ));
                            assert(done0 + (Seq::empty().push(value_model) + rest_values)
                                =~= done0.push(value_model) + rest_values);
                        },
                        Err(err) => {
                            assert(rest0 == Err::<Seq<ArgValueModel>, (int, ArgFailure)>(
                                (err.0 + 1, err.1),
                            ));
                        },
                    }
                }
                rem = next;
            },
            Err(error) => {
                proof {
                    assert(rest0 == Err::<Seq<ArgValueModel>, (int, ArgFailure)>(
                        (0, step_spec(decls@[i as int].kind, rem@, reply_view(reply))->Err_0),
                    ));
                }
                return Err(error);
            },
        }
        i += 1;
    }
    proof {
        assert(kinds.skip(total as int) =~= Seq::<ArgKind>::empty());
        assert(values@.map_values(|v: ArgValue| v@) + Seq::<ArgValueModel>::empty()
            =~= values@.map_values(|v: ArgValue| v@));
    }
    Ok(values)
}

} // verus!
