//! The condition language and its parser.
//!
//! ```text
//! conditions := condition (';' condition)*
//! condition  := state_ref op compare_to
//! op         := '==' | '>=' | '<=' | '!=' | '>' | '<'
//! compare_to := state_ref | integer
//! state_ref  := '$' (alnum | '_')+
//! integer    := digit+
//! ```
//!
//! White space may stand around `;` and around an operator. The parser reads
//! from left to right and takes at each step the longest piece that fits:
//! the spec functions of this file say what it reads, position by position.
//! A condition list is read as a whole: a text with anything before or
//! behind its conditions is refused. The parsers of the pieces read a piece
//! at the start of their input and hand back the rest.

use vstd::prelude::*;
use crate::condition::{CompareTo, CompareToView, Condition, ConditionView, Op, conditions_view};
use crate::text::Source;

verus! {

/// Whether a character is alphabetic or numeric, as Unicode classes it.
pub uninterp spec fn unicode_alphanumeric(c: char) -> bool;

/// `char::is_alphanumeric` of the standard library: its answer depends on the
/// character alone, and `unicode_alphanumeric` is the name of that answer.
pub assume_specification[ char::is_alphanumeric ](c: char) -> (yes: bool)
    ensures
        yes == unicode_alphanumeric(c),
;

/// A class of characters of which the language has runs.
#[derive(Clone, Copy, Debug, PartialEq, Eq, Structural)]
pub enum CharClass {
    /// Space, tab, line feed and carriage return.
    Space,
    /// The ten decimal digits.
    Digit,
    /// Letters and digits of any script, and the underscore.
    Name,
}

/// Why a text is no condition list.
#[derive(Clone, Copy, Debug, PartialEq, Eq, Structural)]
pub enum ParseErrorKind {
    /// A state reference was expected, and the `$` is missing.
    MissingDollar,
    /// No name follows the `$`.
    MissingName,
    /// None of the six operators stands here.
    UnknownOperator,
    /// Neither a state reference nor a number stands here.
    MissingOperand,
    /// The number is larger than a count can be.
    NumberTooLarge,
    /// The conditions end here, and the text does not.
    TrailingInput,
}

/// A failed parse: what was missed, at which character, and the text from
/// that character on.
#[derive(Debug, PartialEq)]
pub struct ParseError {
    pub kind: ParseErrorKind,
    pub position: usize,
    pub found: String,
}

/// What a `ParseError` holds.
pub ghost struct ParseErrorView {
    pub kind: ParseErrorKind,
    pub position: int,
    pub found: Seq<char>,
}

impl View for ParseError {
    type V = ParseErrorView;

    open spec fn view(&self) -> ParseErrorView {
        ParseErrorView { kind: self.kind, position: self.position as int, found: self.found@ }
    }
}

/// The place at which a text stops being a condition list.
pub ghost struct Mismatch {
    pub kind: ParseErrorKind,
    pub position: int,
}

impl Mismatch {
    /// The error that reports the mismatch in `input`.
    pub open spec fn report(self, input: Seq<char>) -> ParseErrorView {
        ParseErrorView {
            kind: self.kind,
            position: self.position,
            found: input.subrange(self.position, input.len() as int),
        }
    }
}

/// The code point of a character.
pub open spec fn code(c: char) -> int {
    c as u32 as int
}

/// White space: space, tab, line feed or carriage return.
pub open spec fn is_space(c: char) -> bool {
    c == ' ' || c == '\t' || c == '\n' || c == '\r'
}

/// One of the ten decimal digits.
pub open spec fn is_digit(c: char) -> bool {
    0x30 <= code(c) <= 0x39
}

/// One of the letters `A` to `Z` and `a` to `z`.
pub open spec fn is_ascii_letter(c: char) -> bool {
    0x41 <= code(c) <= 0x5a || 0x61 <= code(c) <= 0x7a
}

/// A character of a state name: a letter or a digit of any script, or `_`.
pub open spec fn is_name_char(c: char) -> bool {
    c == '_' || is_digit(c) || is_ascii_letter(c) || (code(c) >= 0x80 && unicode_alphanumeric(c))
}

impl CharClass {
    /// The class holds the character.
    pub open spec fn has(self, c: char) -> bool {
        match self {
            CharClass::Space => is_space(c),
            CharClass::Digit => is_digit(c),
            CharClass::Name => is_name_char(c),
        }
    }

    /// Whether the class holds the character.
    pub fn holds(self, c: char) -> (yes: bool)
        ensures
            yes == self.has(c),
    {
        let u: u32 = c as u32;
        match self {
            CharClass::Space => c == ' ' || c == '\t' || c == '\n' || c == '\r',
            CharClass::Digit => 0x30 <= u && u <= 0x39,
            CharClass::Name => c == '_' || (0x30 <= u && u <= 0x39) || (0x41 <= u && u <= 0x5a) || (
            0x61 <= u && u <= 0x7a) || (u >= 0x80 && c.is_alphanumeric()),
        }
    }
}

/// The end of the longest run of characters of `class` that starts at `start`.
pub open spec fn run_end(s: Seq<char>, start: int, class: CharClass) -> int
    decreases s.len() - start,
{
    if 0 <= start < s.len() && class.has(s[start]) {
        run_end(s, start + 1, class)
    } else {
        start
    }
}

/// The value of a decimal digit.
pub open spec fn digit_value(c: char) -> nat {
    if is_digit(c) {
        (code(c) - 0x30) as nat
    } else {
        0
    }
}

/// The number that a text of decimal digits writes.
pub open spec fn decimal(digits: Seq<char>) -> nat
    decreases digits.len(),
{
    if digits.len() == 0 {
        0
    } else {
        decimal(digits.drop_last()) * 10 + digit_value(digits.last())
    }
}

/// The character at position `i` is `c`.
pub open spec fn has_char(s: Seq<char>, i: int, c: char) -> bool {
    0 <= i < s.len() && s[i] == c
}

/// The state reference that starts at position `i`: where it ends, and the name.
pub open spec fn state_name_at(s: Seq<char>, i: int) -> Result<(int, Seq<char>), Mismatch> {
    if !has_char(s, i, '$') {
        Err(Mismatch { kind: ParseErrorKind::MissingDollar, position: i })
    } else if run_end(s, i + 1, CharClass::Name) == i + 1 {
        Err(Mismatch { kind: ParseErrorKind::MissingName, position: i + 1 })
    } else {
        Ok((run_end(s, i + 1, CharClass::Name), s.subrange(i + 1, run_end(s, i + 1, CharClass::Name))))
    }
}

/// The operator that starts at position `i`: where it ends, and which it is.
/// An operator of two characters goes before one of one.
pub open spec fn operator_at(s: Seq<char>, i: int) -> Result<(int, Op), Mismatch> {
    if has_char(s, i, '=') && has_char(s, i + 1, '=') {
        Ok((i + 2, Op::Eq))
    } else if has_char(s, i, '>') && has_char(s, i + 1, '=') {
        Ok((i + 2, Op::Ge))
    } else if has_char(s, i, '<') && has_char(s, i + 1, '=') {
        Ok((i + 2, Op::Le))
    } else if has_char(s, i, '!') && has_char(s, i + 1, '=') {
        Ok((i + 2, Op::Ne))
    } else if has_char(s, i, '>') {
        Ok((i + 1, Op::Gt))
    } else if has_char(s, i, '<') {
        Ok((i + 1, Op::Lt))
    } else {
        Err(Mismatch { kind: ParseErrorKind::UnknownOperator, position: i })
    }
}

/// The right-hand side that starts at position `i`: a state reference where
/// a `$` stands there, else a number.
pub open spec fn compare_to_at(s: Seq<char>, i: int) -> Result<(int, CompareToView), Mismatch> {
    if has_char(s, i, '$') {
        match state_name_at(s, i) {
            Ok((end, name)) => Ok((end, CompareToView::State(name))),
            Err(mismatch) => Err(mismatch),
        }
    } else {
        let end = run_end(s, i, CharClass::Digit);
        if end == i {
            Err(Mismatch { kind: ParseErrorKind::MissingOperand, position: i })
        } else if decimal(s.subrange(i, end)) > usize::MAX {
            Err(Mismatch { kind: ParseErrorKind::NumberTooLarge, position: i })
        } else {
            Ok((end, CompareToView::Value(decimal(s.subrange(i, end)) as usize)))
        }
    }
}

/// The condition that starts at position `i`.
pub open spec fn condition_at(s: Seq<char>, i: int) -> Result<(int, ConditionView), Mismatch> {
    match state_name_at(s, i) {
        Err(mismatch) => Err(mismatch),
        Ok((name_end, state)) => match operator_at(s, run_end(s, name_end, CharClass::Space)) {
            Err(mismatch) => Err(mismatch),
            Ok((op_end, op)) => match compare_to_at(s, run_end(s, op_end, CharClass::Space)) {
                Err(mismatch) => Err(mismatch),
                Ok((end, compare_to)) => Ok((end, ConditionView { state, op, compare_to })),
            },
        },
    }
}

/// The separator that starts at position `i`: white space, `;`, white space.
/// The result is the position behind it.
pub open spec fn separator_at(s: Seq<char>, i: int) -> Option<int> {
    let semicolon = run_end(s, i, CharClass::Space);
    if has_char(s, semicolon, ';') {
        Some(run_end(s, semicolon + 1, CharClass::Space))
    } else {
        None
    }
}

/// The conditions that follow a condition that ended at position `i`, each
/// behind a separator, and where the last of them ends. A separator that no
/// condition follows is not read.
pub open spec fn more_conditions_at(s: Seq<char>, i: int) -> (int, Seq<ConditionView>)
    decreases s.len() - i,
{
    match separator_at(s, i) {
        None => (i, Seq::empty()),
        Some(start) => match condition_at(s, start) {
            Err(_) => (i, Seq::empty()),
            Ok((end, condition)) => if i < end <= s.len() {
                let (last, more) = more_conditions_at(s, end);
                (last, seq![condition] + more)
            } else {
                (i, Seq::empty())
            },
        },
    }
}

/// The condition list that starts at position `i`: one condition, and as
/// many more as follow it.
pub open spec fn conditions_at(s: Seq<char>, i: int) -> Result<(int, Seq<ConditionView>), Mismatch> {
    match condition_at(s, i) {
        Err(mismatch) => Err(mismatch),
        Ok((end, condition)) => {
            let (last, more) = more_conditions_at(s, end);
            Ok((last, seq![condition] + more))
        },
    }
}

/// Why the text does not end where its condition list ends, at position `end`:
/// the condition behind a separator is broken, or something else follows.
pub open spec fn trailing_mismatch(s: Seq<char>, end: int) -> Mismatch {
    match separator_at(s, end) {
        Some(start) => match condition_at(s, start) {
            Err(mismatch) => mismatch,
            Ok(_) => Mismatch { kind: ParseErrorKind::TrailingInput, position: end },
        },
        None => Mismatch { kind: ParseErrorKind::TrailingInput, position: end },
    }
}

/// The conditions that the whole of a rule's text writes.
pub open spec fn rule_conditions(s: Seq<char>) -> Result<Seq<ConditionView>, Mismatch> {
    match conditions_at(s, 0) {
        Err(mismatch) => Err(mismatch),
        Ok((end, conditions)) => if end == s.len() {
            Ok(conditions)
        } else {
            Err(trailing_mismatch(s, end))
        },
    }
}

/// The text from position `end` on.
pub open spec fn rest_of(s: Seq<char>, end: int) -> Seq<char> {
    s.subrange(end, s.len() as int)
}

/// A run ends between its start and the end of the text.
pub proof fn lemma_run_end_bounds(s: Seq<char>, start: int, class: CharClass)
    requires
        0 <= start <= s.len(),
    ensures
        start <= run_end(s, start, class) <= s.len(),
    decreases s.len() - start,
{
    if start < s.len() && class.has(s[start]) {
        lemma_run_end_bounds(s, start + 1, class);
    }
}

/// A longer text of digits writes no smaller number.
proof fn lemma_decimal_grows(s: Seq<char>, start: int, middle: int, end: int)
    requires
        0 <= start <= middle <= end <= s.len(),
    ensures
        decimal(s.subrange(start, middle)) <= decimal(s.subrange(start, end)),
    decreases end - middle,
{
    if middle < end {
        lemma_decimal_grows(s, start, middle, end - 1);
        assert(s.subrange(start, end).drop_last() =~= s.subrange(start, end - 1));
    }
}

/// The error that reports a mismatch at `position`.
fn mismatch_at(source: &Source, kind: ParseErrorKind, position: usize) -> (error: ParseError)
    requires
        position <= source@.len(),
    ensures
        error@ == (Mismatch { kind, position: position as int }).report(source@),
{
    let end = source.len();
    ParseError { kind, position, found: source.copy(position, end) }
}

/// Whether the character `c` stands at position `i`.
fn char_at(source: &Source, i: usize, c: char) -> (yes: bool)
    ensures
        yes == has_char(source@, i as int, c),
        source@.len() <= usize::MAX,
{
    i < source.len() && source.at(i) == c
}

/// Finds the end of the run of `class` that starts at `start`.
fn scan(source: &Source, start: usize, class: CharClass) -> (end: usize)
    requires
        start <= source@.len(),
    ensures
        end == run_end(source@, start as int, class),
        start <= end <= source@.len() <= usize::MAX,
{
    let n = source.len();
    let mut i: usize = start;
    loop
        invariant
            n == source@.len(),
            start <= i <= n,
            run_end(source@, start as int, class) == run_end(source@, i as int, class),
        ensures
            start <= i <= n,
            i == run_end(source@, start as int, class),
        decreases n - i,
    {
        if i >= n {
            break ;
        }
        if !class.holds(source.at(i)) {
            break ;
        }
        i = i + 1;
    }
    i
}

/// Reads the number that the digits from `start` up to `end` write.
fn read_decimal(source: &Source, start: usize, end: usize) -> (value: Option<usize>)
    requires
        start <= end <= source@.len(),
        forall|k: int| start <= k < end ==> is_digit(#[trigger] source@[k]),
    ensures
        match value {
            Some(v) => decimal(source@.subrange(start as int, end as int)) == v,
            None => decimal(source@.subrange(start as int, end as int)) > usize::MAX,
        },
{
    let mut value: usize = 0;
    let mut i: usize = start;
    while i < end
        invariant
            start <= i <= end <= source@.len(),
            forall|k: int| start <= k < end ==> is_digit(#[trigger] source@[k]),
            value == decimal(source@.subrange(start as int, i as int)),
        decreases end - i,
    {
        let c = source.at(i);
        let digit: usize = (c as u32 - 0x30) as usize;
        proof {
            assert(is_digit(source@[i as int]));
            assert(source@.subrange(start as int, i + 1).drop_last() =~= source@.subrange(
                start as int,
                i as int,
            ));
            assert(decimal(source@.subrange(start as int, i + 1)) == value * 10 + digit);
            lemma_decimal_grows(source@, start as int, i + 1, end as int);
        }
        let next = match value.checked_mul(10) {
            Some(tens) => tens.checked_add(digit),
            None => None,
        };
        match next {
            Some(v) => {
                value = v;
            },
            None => {
                return None;
            },
        }
        i = i + 1;
    }
    Some(value)
}

/// Reads the state reference that starts at `start`.
fn read_state_name(source: &Source, start: usize) -> (r: Result<(usize, String), ParseError>)
    requires
        start <= source@.len(),
    ensures
        match state_name_at(source@, start as int) {
            Ok((end, name)) => r matches Ok(read) && read.0 == end && read.1@ == name && start
                < end <= source@.len(),
            Err(mismatch) => r matches Err(error) && error@ == mismatch.report(source@),
        },
{
    if !char_at(source, start, '$') {
        return Err(mismatch_at(source, ParseErrorKind::MissingDollar, start));
    }
    let end = scan(source, start + 1, CharClass::Name);
    if end == start + 1 {
        return Err(mismatch_at(source, ParseErrorKind::MissingName, start + 1));
    }
    Ok((end, source.copy(start + 1, end)))
}

/// Reads the operator that starts at `start`.
fn read_operator(source: &Source, start: usize) -> (r: Result<(usize, Op), ParseError>)
    requires
        start <= source@.len(),
    ensures
        match operator_at(source@, start as int) {
            Ok((end, op)) => r == Ok::<(usize, Op), ParseError>((end as usize, op)) && start < end
                <= source@.len(),
            Err(mismatch) => r matches Err(error) && error@ == mismatch.report(source@),
        },
{
    let n = source.len();
    let first: char = if start < n {
        source.at(start)
    } else {
        ' '
    };
    let equals: bool = start < n && start + 1 < n && source.at(start + 1) == '=';
    if first == '=' && equals {
        Ok((start + 2, Op::Eq))
    } else if first == '>' && equals {
        Ok((start + 2, Op::Ge))
    } else if first == '<' && equals {
        Ok((start + 2, Op::Le))
    } else if first == '!' && equals {
        Ok((start + 2, Op::Ne))
    } else if first == '>' {
        Ok((start + 1, Op::Gt))
    } else if first == '<' {
        Ok((start + 1, Op::Lt))
    } else {
        Err(mismatch_at(source, ParseErrorKind::UnknownOperator, start))
    }
}

/// Reads the right-hand side that starts at `start`.
fn read_compare_to(source: &Source, start: usize) -> (r: Result<(usize, CompareTo), ParseError>)
    requires
        start <= source@.len(),
    ensures
        match compare_to_at(source@, start as int) {
            Ok((end, compare_to)) => r matches Ok(read) && read.0 == end && read.1@ == compare_to
                && start < end <= source@.len(),
            Err(mismatch) => r matches Err(error) && error@ == mismatch.report(source@),
        },
{
    if char_at(source, start, '$') {
        match read_state_name(source, start) {
            Ok((end, name)) => Ok((end, CompareTo::State(name))),
            Err(error) => Err(error),
        }
    } else {
        let end = scan(source, start, CharClass::Digit);
        if end == start {
            return Err(mismatch_at(source, ParseErrorKind::MissingOperand, start));
        }
        proof {
            lemma_run_holds(source@, start as int, CharClass::Digit);
        }
        match read_decimal(source, start, end) {
            Some(value) => Ok((end, CompareTo::Value(value))),
            None => Err(mismatch_at(source, ParseErrorKind::NumberTooLarge, start)),
        }
    }
}

/// Every character of a run is of its class.
pub proof fn lemma_run_holds(s: Seq<char>, start: int, class: CharClass)
    requires
        0 <= start <= s.len(),
    ensures
        forall|k: int| start <= k < run_end(s, start, class) ==> class.has(#[trigger] s[k]),
    decreases s.len() - start,
{
    if start < s.len() && class.has(s[start]) {
        lemma_run_holds(s, start + 1, class);
    }
}

/// Reads the condition that starts at `start`.
fn read_condition(source: &Source, start: usize) -> (r: Result<(usize, Condition), ParseError>)
    requires
        start <= source@.len(),
    ensures
        match condition_at(source@, start as int) {
            Ok((end, condition)) => r matches Ok(read) && read.0 == end && read.1@ == condition
                && start < end <= source@.len(),
            Err(mismatch) => r matches Err(error) && error@ == mismatch.report(source@),
        },
{
    let (name_end, state) = match read_state_name(source, start) {
        Ok(read) => read,
        Err(error) => {
            return Err(error);
        },
    };
    let op_start = scan(source, name_end, CharClass::Space);
    let (op_end, op) = match read_operator(source, op_start) {
        Ok(read) => read,
        Err(error) => {
            return Err(error);
        },
    };
    let operand_start = scan(source, op_end, CharClass::Space);
    let (end, compare_to) = match read_compare_to(source, operand_start) {
        Ok(read) => read,
        Err(error) => {
            return Err(error);
        },
    };
    Ok((end, Condition { state, op, compare_to }))
}

/// Reads the separator that starts at `start`.
fn read_separator(source: &Source, start: usize) -> (next: Option<usize>)
    requires
        start <= source@.len(),
    ensures
        match separator_at(source@, start as int) {
            Some(end) => next == Some(end as usize) && start < end <= source@.len() <= usize::MAX,
            None => next is None,
        },
{
    let semicolon = scan(source, start, CharClass::Space);
    if char_at(source, semicolon, ';') {
        Some(scan(source, semicolon + 1, CharClass::Space))
    } else {
        None
    }
}

/// Reads the condition list that starts at `start`.
fn read_conditions(source: &Source, start: usize) -> (r: Result<(usize, Vec<Condition>), ParseError>)
    requires
        start <= source@.len(),
    ensures
        match conditions_at(source@, start as int) {
            Ok((end, conditions)) => r matches Ok(read) && read.0 == end && conditions_view(
                read.1@,
            ) == conditions && start < end <= source@.len(),
            Err(mismatch) => r matches Err(error) && error@ == mismatch.report(source@),
        },
{
    let (first_end, first) = match read_condition(source, start) {
        Ok(read) => read,
        Err(error) => {
            return Err(error);
        },
    };
    let ghost target = conditions_at(source@, start as int)->Ok_0;
    let mut end: usize = first_end;
    let mut conditions: Vec<Condition> = Vec::new();
    conditions.push(first);
    assert(conditions_view(conditions@) =~= seq![conditions@[0]@]);
    loop
        invariant
            start < end <= source@.len(),
            target.0 == more_conditions_at(source@, end as int).0,
            target.1 == conditions_view(conditions@) + more_conditions_at(source@, end as int).1,
        ensures
            start < end <= source@.len(),
            target.0 == end,
            target.1 == conditions_view(conditions@),
        decreases source@.len() - end,
    {
        let next = match read_separator(source, end) {
            Some(next) => next,
            None => {
                assert(conditions_view(conditions@) + Seq::<ConditionView>::empty()
                    =~= conditions_view(conditions@));
                break ;
            },
        };
        let (condition_end, condition) = match read_condition(source, next) {
            Ok(read) => read,
            Err(_) => {
                assert(conditions_view(conditions@) + Seq::<ConditionView>::empty()
                    =~= conditions_view(conditions@));
                break ;
            },
        };
        let ghost before = conditions_view(conditions@);
        conditions.push(condition);
        proof {
            let more = more_conditions_at(source@, condition_end as int).1;
            assert(conditions_view(conditions@) =~= before + seq![condition@]);
            assert(before + (seq![condition@] + more) =~= conditions_view(conditions@) + more);
        }
        end = condition_end;
    }
    Ok((end, conditions))
}

/// Parses a state reference at the start of `input`. The result holds the
/// rest of the input and the name.
pub fn parse_state_name<'a>(input: &'a str) -> (r: Result<(&'a str, String), ParseError>)
    ensures
        match state_name_at(input@, 0) {
            Ok((end, name)) => r matches Ok(read) && read.0@ == rest_of(input@, end) && read.1@
                == name,
            Err(mismatch) => r matches Err(error) && error@ == mismatch.report(input@),
        },
{
    let source = Source::new(input);
    match read_state_name(&source, 0) {
        Ok((end, name)) => Ok((source.slice(end, source.len()), name)),
        Err(error) => Err(error),
    }
}

/// Parses an operator at the start of `input`. The result holds the rest of
/// the input and the operator.
pub fn parse_operator<'a>(input: &'a str) -> (r: Result<(&'a str, Op), ParseError>)
    ensures
        match operator_at(input@, 0) {
            Ok((end, op)) => r matches Ok(read) && read.0@ == rest_of(input@, end) && read.1 == op,
            Err(mismatch) => r matches Err(error) && error@ == mismatch.report(input@),
        },
{
    let source = Source::new(input);
    match read_operator(&source, 0) {
        Ok((end, op)) => Ok((source.slice(end, source.len()), op)),
        Err(error) => Err(error),
    }
}

/// Parses a right-hand side at the start of `input`. The result holds the
/// rest of the input and the right-hand side.
pub fn parse_compare_to<'a>(input: &'a str) -> (r: Result<(&'a str, CompareTo), ParseError>)
    ensures
        match compare_to_at(input@, 0) {
            Ok((end, compare_to)) => r matches Ok(read) && read.0@ == rest_of(input@, end)
                && read.1@ == compare_to,
            Err(mismatch) => r matches Err(error) && error@ == mismatch.report(input@),
        },
{
    let source = Source::new(input);
    match read_compare_to(&source, 0) {
        Ok((end, compare_to)) => Ok((source.slice(end, source.len()), compare_to)),
        Err(error) => Err(error),
    }
}

/// Parses a condition at the start of `input`. The result holds the rest of
/// the input and the condition.
pub fn parse_condition<'a>(input: &'a str) -> (r: Result<(&'a str, Condition), ParseError>)
    ensures
        match condition_at(input@, 0) {
            Ok((end, condition)) => r matches Ok(read) && read.0@ == rest_of(input@, end)
                && read.1@ == condition,
            Err(mismatch) => r matches Err(error) && error@ == mismatch.report(input@),
        },
{
    let source = Source::new(input);
    match read_condition(&source, 0) {
        Ok((end, condition)) => Ok((source.slice(end, source.len()), condition)),
        Err(error) => Err(error),
    }
}

/// Parses a condition list, which is the whole of `input`: the conditions in
/// the order in which they stand, or the first place at which `input` is no
/// condition list. Nothing of the input is left over, so the rest that
/// stands beside the conditions is empty.
pub fn parse_conditions<'a>(input: &'a str) -> (r: Result<(&'a str, Vec<Condition>), ParseError>)
    ensures
        match rule_conditions(input@) {
            Ok(conditions) => r matches Ok(read) && read.0@.len() == 0 && conditions_view(read.1@)
                == conditions,
            Err(mismatch) => r matches Err(error) && error@ == mismatch.report(input@),
        },
{
    let source = Source::new(input);
    let (end, conditions) = match read_conditions(&source, 0) {
        Ok(read) => read,
        Err(error) => {
            return Err(error);
        },
    };
    if end == source.len() {
        return Ok((source.slice(end, end), conditions));
    }
    match read_separator(&source, end) {
        Some(next) => match read_condition(&source, next) {
            Err(error) => Err(error),
            Ok(_) => Err(mismatch_at(&source, ParseErrorKind::TrailingInput, end)),
        },
        None => Err(mismatch_at(&source, ParseErrorKind::TrailingInput, end)),
    }
}

/// Parses the text of a rule, all of it: the conditions that it writes, or
/// the first place at which it is no condition list.
pub fn parse_rule(input: &str) -> (r: Result<Vec<Condition>, ParseError>)
    ensures
        match rule_conditions(input@) {
            Ok(conditions) => r matches Ok(read) && conditions_view(read@) == conditions,
            Err(mismatch) => r matches Err(error) && error@ == mismatch.report(input@),
        },
{
    match parse_conditions(input) {
        Ok((_, conditions)) => Ok(conditions),
        Err(error) => Err(error),
    }
}

} // verus!
