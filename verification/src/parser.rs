//! The text format of the jobs and of the constraints of a problem.
//!
//! Both are comma-separated values, one job or one constraint on each line. Blank lines are
//! skipped, and so is the first line that is not blank if it is a header.

use crate::problem::{Constraint, ConstraintType, Job, Problem, Time};
use std::collections::HashMap;
use vstd::prelude::*;

verus! {

/// Whether `char::is_alphabetic` of the standard library holds of `c`
pub uninterp spec fn is_alphabetic_char(c: char) -> bool;

/// Whether `c` is white space: one of the 25 characters that have the property
/// `White_Space` of the Unicode standard
pub open spec fn is_whitespace_char(c: char) -> bool {
    let code = c as u32;
    ||| 0x09 <= code <= 0x0d
    ||| code == 0x20 || code == 0x85 || code == 0xa0 || code == 0x1680
    ||| 0x2000 <= code <= 0x200a
    ||| code == 0x2028 || code == 0x2029 || code == 0x202f || code == 0x205f || code == 0x3000
}

/// Asks `char::is_alphabetic` of the standard library whether `c` is a letter: the
/// answer depends on `c` alone.
#[verifier::external_body]
fn char_is_alphabetic(c: char) -> (alphabetic: bool)
    ensures
        alphabetic == is_alphabetic_char(c),
{
    c.is_alphabetic()
}

/// Asks `char::is_whitespace` of the standard library whether `c` is white space, which is
/// whether `c` has the property `White_Space` of the Unicode standard.
#[verifier::external_body]
fn char_is_whitespace(c: char) -> (whitespace: bool)
    ensures
        whitespace == is_whitespace_char(c),
{
    c.is_whitespace()
}

/// A character of a text together with what the text formats look at besides the character
/// itself: the character, whether it is a letter, and whether it is white space
pub type Glyph = (char, bool, bool);

/// The characters of `text`, each marked as a letter where `char::is_alphabetic` holds of
/// it and as white space where `char::is_whitespace` holds of it
pub open spec fn marked(text: Seq<char>) -> Seq<Glyph> {
    Seq::new(
        text.len(),
        |i: int| (text[i], is_alphabetic_char(text[i]), is_whitespace_char(text[i])),
    )
}

/// Why a text is not accepted
#[derive(Debug, Copy, Clone, Eq, PartialEq, Structural)]
pub enum ParseErrorKind {
    /// A line has a number of fields that no shape of line has.
    UnexpectedFieldCount,
    /// A field that has to hold a number does not hold one that is in range.
    InvalidNumber,
    /// The execution time of a job is not positive, or lies too far before its deadline.
    InvalidJob,
    /// The type of a constraint is neither `f-s` nor `s-s`.
    UnknownConstraintType,
    /// A constraint names a job by a task and a job number that no line of the jobs holds.
    UnknownJob,
}

/// The reason why a text is not accepted, and the number of the line that is not accepted,
/// where the first line has number 0
#[derive(Debug, Copy, Clone, Eq, PartialEq, Structural)]
pub struct ParseError {
    pub kind: ParseErrorKind,
    pub line: usize,
}

/// The first position from `from` on and before `to` at which `text` holds `c`, or `to`
pub open spec fn first_index(text: Seq<Glyph>, from: int, to: int, c: char) -> int
    decreases to - from,
{
    if from >= to {
        to
    } else if text[from].0 == c {
        from
    } else {
        first_index(text, from + 1, to, c)
    }
}

/// Whether `text` holds nothing but white space from `from` up to `to`
pub open spec fn blank(text: Seq<Glyph>, from: int, to: int) -> bool {
    forall|i: int| from <= i < to ==> (#[trigger] text[i]).2
}

/// Whether `text` holds a letter from `from` up to `to`; with `besides_s_and_f`, the letters
/// `s` and `f` do not count
pub open spec fn has_letter(text: Seq<Glyph>, from: int, to: int, besides_s_and_f: bool) -> bool {
    exists|i: int|
        from <= i < to && (#[trigger] text[i]).1 && !(besides_s_and_f && (text[i].0
            == 's' || text[i].0 == 'f'))
}

/// The first position from `from` on and before `to` at which `text` holds no white space,
/// or `to`
pub open spec fn trimmed_start(text: Seq<Glyph>, from: int, to: int) -> int
    decreases to - from,
{
    if from >= to {
        to
    } else if !text[from].2 {
        from
    } else {
        trimmed_start(text, from + 1, to)
    }
}

/// The position behind the last position from `from` on and before `to` at which `text`
/// holds no white space, or `from`
pub open spec fn trimmed_end(text: Seq<Glyph>, from: int, to: int) -> int
    decreases to - from,
{
    if from >= to {
        from
    } else if !text[to - 1].2 {
        to
    } else {
        trimmed_end(text, from, to - 1)
    }
}

/// The part of `text` from `from` up to `to` without the white space around it, as the
/// position of its start and the position behind its end
pub open spec fn trimmed(text: Seq<Glyph>, from: int, to: int) -> (int, int) {
    let start = trimmed_start(text, from, to);
    (start, trimmed_end(text, start, to))
}

/// The fields of the line of `text` from `from` up to `to`: the parts between the commas,
/// each without the white space around it
pub open spec fn fields(text: Seq<Glyph>, from: int, to: int) -> Seq<(int, int)>
    decreases to - from,
{
    let end = first_index(text, from, to, ',');
    if end >= to || end < from {
        seq![trimmed(text, from, to)]
    } else {
        seq![trimmed(text, from, end)] + fields(text, end + 1, to)
    }
}

/// Whether `c` is one of the digits `0` to `9`
pub open spec fn is_digit(c: char) -> bool {
    '0' <= c <= '9'
}

/// Whether `text` holds nothing but digits from `from` up to `to`
pub open spec fn all_digits(text: Seq<Glyph>, from: int, to: int) -> bool {
    forall|i: int| from <= i < to ==> is_digit((#[trigger] text[i]).0)
}

/// The number that the digits of `text` from `from` up to `to` denote
pub open spec fn digits_value(text: Seq<Glyph>, from: int, to: int) -> int
    decreases to - from,
{
    if from >= to {
        0
    } else {
        digits_value(text, from, to - 1) * 10 + (text[to - 1].0 as int - '0' as int)
    }
}

/// The number that `text` denotes from `from` up to `to`, if it denotes one: an optional
/// sign, which is `+` or, if `signed`, `-`, and at least one digit
pub open spec fn number(text: Seq<Glyph>, from: int, to: int, signed: bool) -> Option<int> {
    if from < to && text[from].0 == '+' {
        if from + 1 < to && all_digits(text, from + 1, to) {
            Some(digits_value(text, from + 1, to))
        } else {
            None
        }
    } else if signed && from < to && text[from].0 == '-' {
        if from + 1 < to && all_digits(text, from + 1, to) {
            Some(-digits_value(text, from + 1, to))
        } else {
            None
        }
    } else if from < to && all_digits(text, from, to) {
        Some(digits_value(text, from, to))
    } else {
        None
    }
}

/// The number that `text` denotes from `from` up to `to`, if it denotes one from `least` to
/// `most`
pub open spec fn number_within(
    text: Seq<Glyph>,
    from: int,
    to: int,
    least: int,
    most: int,
) -> Option<int> {
    match number(text, from, to, least < 0) {
        Some(value) => if least <= value <= most {
            Some(value)
        } else {
            None
        },
        None => None,
    }
}

/// The characters of `text`, each marked as a letter or as white space where it is one
pub fn mark_characters(text: &str) -> (glyphs: Vec<Glyph>)
    ensures
        glyphs@ == marked(text@),
{
    let mut chars: Vec<char> = Vec::new();
    for c in iterator: text.chars()
        invariant
            chars@ == iterator.seq().take(iterator.index() as int),
            iterator.seq() == text@,
    {
        chars.push(c);
    }
    let mut glyphs: Vec<Glyph> = Vec::new();
    let mut index: usize = 0;
    while index < chars.len()
        invariant
            chars@ == text@,
            index <= chars@.len(),
            glyphs@.len() == index,
            forall|i: int| 0 <= i < index ==> glyphs@[i] == marked(text@)[i],
        decreases chars@.len() - index,
    {
        let c = chars[index];
        let letter = char_is_alphabetic(c);
        let space = char_is_whitespace(c);
        glyphs.push((c, letter, space));
        index += 1;
    }
    assert(glyphs@ =~= marked(text@));
    glyphs
}

/// The position of the first `c` from `from` up to `to`, or `to` if there is none
fn find_char(text: &Vec<Glyph>, from: usize, to: usize, c: char) -> (index: usize)
    requires
        from <= to <= text@.len(),
    ensures
        index == first_index(text@, from as int, to as int, c),
        from <= index <= to,
{
    let mut index = from;
    while index < to && text[index].0 != c
        invariant
            from <= index <= to <= text@.len(),
            first_index(text@, from as int, to as int, c) == first_index(
                text@,
                index as int,
                to as int,
                c,
            ),
        decreases to - index,
    {
        index += 1;
    }
    index
}

/// Whether the text from `from` up to `to` holds nothing but white space
fn is_blank(text: &Vec<Glyph>, from: usize, to: usize) -> (result: bool)
    requires
        from <= to <= text@.len(),
    ensures
        result == blank(text@, from as int, to as int),
{
    let mut index = from;
    while index < to
        invariant
            from <= index <= to <= text@.len(),
            blank(text@, from as int, index as int),
        decreases to - index,
    {
        if !text[index].2 {
            return false;
        }
        index += 1;
    }
    true
}

/// Whether the text from `from` up to `to` holds a letter, where `s` and `f` may be left out of
/// the letters
fn contains_letter(text: &Vec<Glyph>, from: usize, to: usize, besides_s_and_f: bool) -> (result:
    bool)
    requires
        from <= to <= text@.len(),
    ensures
        result == has_letter(text@, from as int, to as int, besides_s_and_f),
{
    let mut index = from;
    while index < to
        invariant
            from <= index <= to <= text@.len(),
            !has_letter(text@, from as int, index as int, besides_s_and_f),
        decreases to - index,
    {
        let c = text[index].0;
        if text[index].1 && !(besides_s_and_f && (c == 's' || c == 'f')) {
            return true;
        }
        index += 1;
    }
    false
}

/// The text from `from` up to `to` without the white space at both ends
fn trim(text: &Vec<Glyph>, from: usize, to: usize) -> (result: (usize, usize))
    requires
        from <= to <= text@.len(),
    ensures
        (result.0 as int, result.1 as int) == trimmed(text@, from as int, to as int),
        from <= result.0 <= result.1 <= to,
{
    let mut start = from;
    while start < to && text[start].2
        invariant
            from <= start <= to <= text@.len(),
            trimmed_start(text@, from as int, to as int) == trimmed_start(
                text@,
                start as int,
                to as int,
            ),
        decreases to - start,
    {
        start += 1;
    }
    let mut end = to;
    while start < end && text[end - 1].2
        invariant
            start <= end <= to <= text@.len(),
            trimmed_end(text@, start as int, to as int) == trimmed_end(
                text@,
                start as int,
                end as int,
            ),
        decreases end - start,
    {
        end -= 1;
    }
    (start, end)
}

/// Whether each field lies within the line, and within `text`
pub open spec fn fields_within(parts: Seq<(int, int)>, from: int, to: int) -> bool {
    forall|i: int| 0 <= i < parts.len() ==> from <= (#[trigger] parts[i]).0 <= parts[i].1 <= to
}

/// The fields of a line as pairs of integers
pub open spec fn as_ranges(parts: Seq<(usize, usize)>) -> Seq<(int, int)> {
    Seq::new(parts.len(), |i: int| (parts[i].0 as int, parts[i].1 as int))
}

/// The fields of the line from `from` up to `to`: the text between the commas, each without
/// the white space at its ends
fn split_fields(text: &Vec<Glyph>, from: usize, to: usize) -> (parts: Vec<(usize, usize)>)
    requires
        from <= to <= text@.len(),
    ensures
        as_ranges(parts@) == fields(text@, from as int, to as int),
        fields_within(as_ranges(parts@), from as int, to as int),
        parts@.len() >= 1,
{
    let mut parts: Vec<(usize, usize)> = Vec::new();
    let mut start = from;
    loop
        invariant_except_break
            fields(text@, from as int, to as int) == as_ranges(parts@) + fields(
                text@,
                start as int,
                to as int,
            ),
        invariant
            from <= start <= to <= text@.len(),
            fields_within(as_ranges(parts@), from as int, to as int),
        ensures
            as_ranges(parts@) == fields(text@, from as int, to as int),
            fields_within(as_ranges(parts@), from as int, to as int),
            parts@.len() >= 1,
        decreases to - start,
    {
        let end = find_char(text, start, to, ',');
        let ghost before = as_ranges(parts@);
        parts.push(trim(text, start, end));
        proof {
            assert(as_ranges(parts@) == before + seq![trimmed(text@, start as int, end as int)]);
        }
        if end >= to {
            break ;
        }
        start = end + 1;
    }
    parts
}

/// More digits do not denote a smaller number.
proof fn lemma_digits_grow(text: Seq<Glyph>, from: int, middle: int, to: int)
    requires
        from <= middle <= to,
        all_digits(text, from, to),
    ensures
        0 <= digits_value(text, from, middle) <= digits_value(text, from, to),
    decreases to - middle,
{
    lemma_digits_not_negative(text, from, middle);
    if middle < to {
        lemma_digits_grow(text, from, middle, to - 1);
        assert(is_digit(text[to - 1].0));
    }
}

/// The value of digits is not negative.
proof fn lemma_digits_not_negative(text: Seq<Glyph>, from: int, to: int)
    requires
        all_digits(text, from, to),
    ensures
        0 <= digits_value(text, from, to),
    decreases to - from,
{
    if from < to {
        lemma_digits_not_negative(text, from, to - 1);
        assert(is_digit(text[to - 1].0));
    }
}

/// The largest distance from 0 of a number that a field can hold
pub const NUMBER_LIMIT: i128 = 0x1_0000_0000_0000_0000;

/// Reads the number that `text` denotes from `from` up to `to`, if it denotes one from
/// `least` to `most`.
fn parse_number(text: &Vec<Glyph>, from: usize, to: usize, least: i128, most: i128) -> (value:
    Option<i128>)
    requires
        from <= to <= text@.len(),
        -NUMBER_LIMIT <= least <= 0 <= most <= NUMBER_LIMIT,
    ensures
        match value {
            Some(value) => number_within(
                text@,
                from as int,
                to as int,
                least as int,
                most as int,
            ) == Some(value as int),
            None => number_within(text@, from as int, to as int, least as int, most as int)
                is None,
        },
{
    let mut index = from;
    let mut negative = false;
    if from < to && text[from].0 == '+' {
        index = from + 1;
    } else if least < 0 && from < to && text[from].0 == '-' {
        negative = true;
        index = from + 1;
    }
    if index >= to {
        return None;
    }
    let start = index;
    let ghost denoted = number(text@, from as int, to as int, least < 0);
    assert(denoted == if all_digits(text@, start as int, to as int) {
        Some(
            if negative {
                -digits_value(text@, start as int, to as int)
            } else {
                digits_value(text@, start as int, to as int)
            },
        )
    } else {
        None
    });
    let mut magnitude: i128 = 0;
    while index < to
        invariant
            from <= start <= index <= to <= text@.len(),
            all_digits(text@, start as int, index as int),
            magnitude == digits_value(text@, start as int, index as int),
            0 <= magnitude <= NUMBER_LIMIT,
            denoted == number(text@, from as int, to as int, least < 0),
            denoted == if all_digits(text@, start as int, to as int) {
                Some(
                    if negative {
                        -digits_value(text@, start as int, to as int)
                    } else {
                        digits_value(text@, start as int, to as int)
                    },
                )
            } else {
                None
            },
            -NUMBER_LIMIT <= least <= 0 <= most <= NUMBER_LIMIT,
        decreases to - index,
    {
        let c = text[index].0;
        if !('0' <= c && c <= '9') {
            assert(!is_digit(text@[index as int].0));
            return None;
        }
        let digit = (c as u32 - '0' as u32) as i128;
        magnitude = magnitude * 10 + digit;
        index += 1;
        if magnitude > NUMBER_LIMIT {
            proof {
                if all_digits(text@, start as int, to as int) {
                    lemma_digits_grow(text@, start as int, index as int, to as int);
                }
            }
            return None;
        }
    }
    let value = if negative {
        -magnitude
    } else {
        magnitude
    };
    if least <= value && value <= most {
        Some(value)
    } else {
        None
    }
}

/// Whether `text` holds, from `from` up to `to`, the type that starts with `first`: `f-s` or
/// `s-s`
pub open spec fn holds_type(text: Seq<Glyph>, from: int, to: int, first: char) -> bool {
    to - from == 3 && text[from].0 == first && text[from + 1].0 == '-' && text[from + 2].0 == 's'
}

/// Whether `text` holds an `s` or an `f` from `from` up to `to`
pub open spec fn mentions_type(text: Seq<Glyph>, from: int, to: int) -> bool {
    exists|i: int| from <= i < to && ((#[trigger] text[i]).0 == 's' || text[i].0 == 'f')
}

/// Whether the text from `from` up to `to` names the constraint type that starts with `first`
fn has_type(text: &Vec<Glyph>, from: usize, to: usize, first: char) -> (result: bool)
    requires
        from <= to <= text@.len(),
    ensures
        result == holds_type(text@, from as int, to as int, first),
{
    to - from == 3 && text[from].0 == first && text[from + 1].0 == '-' && text[from + 2].0 == 's'
}

/// Whether the text from `from` up to `to` holds an `s` or an `f`
fn has_s_or_f(text: &Vec<Glyph>, from: usize, to: usize) -> (result: bool)
    requires
        from <= to <= text@.len(),
    ensures
        result == mentions_type(text@, from as int, to as int),
{
    let mut index = from;
    while index < to
        invariant
            from <= index <= to <= text@.len(),
            !mentions_type(text@, from as int, index as int),
        decreases to - index,
    {
        if text[index].0 == 's' || text[index].0 == 'f' {
            return true;
        }
        index += 1;
    }
    false
}

/// The key under which a job is found by the number of its task and its own number
pub open spec fn job_key(task: int, job: int) -> u64 {
    (task * 0x1_0000_0000 + job) as u64
}

/// The number that the field at `position` holds, if it holds one from `least` to `most`
pub open spec fn field_number(
    text: Seq<Glyph>,
    parts: Seq<(int, int)>,
    position: int,
    least: int,
    most: int,
) -> Option<int> {
    number_within(text, parts[position].0, parts[position].1, least, most)
}

/// The job that a line with the fields `parts` describes, which becomes the job at `index`,
/// and the key under which it is found, if the line holds the number of its task and its own
/// number.
///
/// A line has 8 fields, of which the fourth is the release time, the sixth the execution
/// time and the seventh the deadline, while the first two are the number of the task and of
/// the job; or it has 3 fields: the release time, the execution time and the deadline.
pub open spec fn job_of_line(text: Seq<Glyph>, parts: Seq<(int, int)>, index: usize) -> Result<
    (Job, Option<u64>),
    ParseErrorKind,
> {
    if parts.len() != 8 && parts.len() != 3 {
        Err(ParseErrorKind::UnexpectedFieldCount)
    } else {
        let long = parts.len() == 8;
        let task = field_number(text, parts, 0, 0, u32::MAX as int);
        let job = field_number(text, parts, 1, 0, u32::MAX as int);
        let release = field_number(
            text,
            parts,
            if long {
                3
            } else {
                0
            },
            Time::MIN as int,
            Time::MAX as int,
        );
        let execution = field_number(
            text,
            parts,
            if long {
                5
            } else {
                1
            },
            Time::MIN as int,
            Time::MAX as int,
        );
        let deadline = field_number(
            text,
            parts,
            if long {
                6
            } else {
                2
            },
            Time::MIN as int,
            Time::MAX as int,
        );
        if (long && (task is None || job is None)) || release is None || execution is None
            || deadline is None {
            Err(ParseErrorKind::InvalidNumber)
        } else if execution->0 <= 0 || deadline->0 - execution->0 < Time::MIN {
            Err(ParseErrorKind::InvalidJob)
        } else {
            Ok(
                (
                    Job {
                        index,
                        execution_time: execution->0 as Time,
                        earliest_start: release->0 as Time,
                        latest_start: (deadline->0 - execution->0) as Time,
                    },
                    if long {
                        Some(job_key(task->0, job->0))
                    } else {
                        None
                    },
                ),
            )
        }
    }
}

/// Reads the job of the line with the fields `parts`.
fn parse_job_line(text: &Vec<Glyph>, parts: &Vec<(usize, usize)>, index: usize) -> (result: Result<
    (Job, Option<u64>),
    ParseErrorKind,
>)
    requires
        fields_within(as_ranges(parts@), 0, text@.len() as int),
    ensures
        result == job_of_line(text@, as_ranges(parts@), index),
{
    let count = parts.len();
    if count != 8 && count != 3 {
        return Err(ParseErrorKind::UnexpectedFieldCount);
    }
    let long = count == 8;
    let ghost ranges = as_ranges(parts@);
    proof {
        assert forall|i: int| 0 <= i < count implies 0 <= (#[trigger] parts@[i]).0 <= parts@[i].1
            <= text@.len() by {
            assert(ranges[i] == (parts@[i].0 as int, parts@[i].1 as int));
        }
    }
    let mut key: Option<u64> = None;
    if long {
        let task = parse_number(text, parts[0].0, parts[0].1, 0, 0xffff_ffff);
        let job = parse_number(text, parts[1].0, parts[1].1, 0, 0xffff_ffff);
        match (task, job) {
            (Some(task), Some(job)) => {
                key = Some((task * 0x1_0000_0000 + job) as u64);
            },
            _ => {
                return Err(ParseErrorKind::InvalidNumber);
            },
        }
    }
    let first = if long {
        3
    } else {
        0
    };
    let second = if long {
        5
    } else {
        1
    };
    let third = if long {
        6
    } else {
        2
    };
    let release = parse_number(
        text,
        parts[first].0,
        parts[first].1,
        -0x8000_0000_0000_0000,
        0x7fff_ffff_ffff_ffff,
    );
    let execution = parse_number(
        text,
        parts[second].0,
        parts[second].1,
        -0x8000_0000_0000_0000,
        0x7fff_ffff_ffff_ffff,
    );
    let deadline = parse_number(
        text,
        parts[third].0,
        parts[third].1,
        -0x8000_0000_0000_0000,
        0x7fff_ffff_ffff_ffff,
    );
    match (release, execution, deadline) {
        (Some(release), Some(execution), Some(deadline)) => {
            if execution <= 0 || deadline - execution < -0x8000_0000_0000_0000 {
                Err(ParseErrorKind::InvalidJob)
            } else {
                Ok(
                    (
                        Job::release_to_deadline(
                            index,
                            release as Time,
                            execution as Time,
                            deadline as Time,
                        ),
                        key,
                    ),
                )
            }
        },
        _ => Err(ParseErrorKind::InvalidNumber),
    }
}

/// The positions of the jobs that were read with the number of their task and their own
/// number
pub struct JobIds {
    map: HashMap<u64, usize>,
}

impl JobIds {
    /// The position of each job that has a key
    pub closed spec fn positions(&self) -> Map<u64, usize> {
        self.map@
    }

    /// The number of jobs that have a key
    pub fn len(&self) -> (count: usize)
        ensures
            count == self.positions().len(),
    {
        broadcast use vstd::std_specs::hash::group_hash_axioms;

        self.map.len()
    }

    /// The position of the job with the given numbers
    pub fn get(&self, task_id: u32, job_id: u32) -> (position: Option<usize>)
        ensures
            position == if self.positions().contains_key(job_key(task_id as int, job_id as int)) {
                Some(self.positions()[job_key(task_id as int, job_id as int)])
            } else {
                None
            },
    {
        broadcast use vstd::std_specs::hash::group_hash_axioms;

        let key: u64 = task_id as u64 * 0x1_0000_0000 + job_id as u64;
        match self.map.get(&key) {
            Some(position) => Some(*position),
            None => None,
        }
    }
}

/// What is known after some lines of jobs were read: whether the next line can be a header,
/// the jobs, and their positions by key
pub struct JobsRead {
    pub allow_header: bool,
    pub jobs: Seq<Job>,
    pub positions: Map<u64, usize>,
}

/// What is known after the line of `text` from `from` up to `to` was read as well
pub open spec fn jobs_after_line(text: Seq<Glyph>, from: int, to: int, read: JobsRead) -> Result<
    JobsRead,
    ParseErrorKind,
> {
    if blank(text, from, to) {
        Ok(read)
    } else if read.allow_header && has_letter(text, from, to, false) {
        Ok(JobsRead { allow_header: false, ..read })
    } else {
        match job_of_line(text, fields(text, from, to), read.jobs.len() as usize) {
            Ok((job, key)) => Ok(
                JobsRead {
                    allow_header: false,
                    jobs: read.jobs.push(job),
                    positions: match key {
                        Some(key) => read.positions.insert(key, read.jobs.len() as usize),
                        None => read.positions,
                    },
                },
            ),
            Err(kind) => Err(kind),
        }
    }
}

/// What is known after the lines of `text` from position `from` on were read as well,
/// where the line at `from` has number `line`
pub open spec fn jobs_from(text: Seq<Glyph>, from: int, line: int, read: JobsRead) -> Result<
    JobsRead,
    ParseError,
>
    decreases text.len() - from,
{
    let end = first_index(text, from, text.len() as int, '\n');
    match jobs_after_line(text, from, end, read) {
        Err(kind) => Err(ParseError { kind, line: line as usize }),
        Ok(next) => if from <= end < text.len() {
            jobs_from(text, end + 1, line + 1, next)
        } else {
            Ok(next)
        },
    }
}

/// The jobs that `text` describes, and their positions by key
pub open spec fn jobs_of_text(text: Seq<Glyph>) -> Result<JobsRead, ParseError> {
    jobs_from(
        text,
        0,
        0,
        JobsRead { allow_header: true, jobs: Seq::empty(), positions: Map::empty() },
    )
}

/// Reads the jobs that `text` describes.
///
/// Each line that is not blank describes a job, but for the first such line if it holds a
/// letter: that line is a header. A line of 8 fields holds the number of the task, the number
/// of the job, a field that is not used, the release time, a field that is not used, the
/// execution time, the deadline, and a field that is not used. A line of 3 fields holds the
/// release time, the execution time and the deadline.
pub fn parse_jobs(text: &str) -> (result: Result<(Vec<Job>, JobIds), ParseError>)
    ensures
        match result {
            Ok((jobs, ids)) => jobs_of_text(marked(text@)) matches Ok(read) && read.jobs == jobs@
                && read.positions == ids.positions(),
            Err(error) => jobs_of_text(marked(text@)) == Err::<JobsRead, ParseError>(error),
        },
{
    let glyphs = mark_characters(text);
    parse_marked_jobs(&glyphs)
}

/// Reads the jobs that a text describes, as `parse_jobs` does, from the marked characters of
/// the text.
pub fn parse_marked_jobs(text: &Vec<Glyph>) -> (result: Result<(Vec<Job>, JobIds), ParseError>)
    ensures
        match result {
            Ok((jobs, ids)) => jobs_of_text(text@) matches Ok(read) && read.jobs == jobs@
                && read.positions == ids.positions(),
            Err(error) => jobs_of_text(text@) == Err::<JobsRead, ParseError>(error),
        },
{
    broadcast use vstd::std_specs::hash::group_hash_axioms;

    let chars = text;
    let length = chars.len();
    let mut jobs: Vec<Job> = Vec::new();
    let mut map: HashMap<u64, usize> = HashMap::new();
    let mut allow_header = true;
    let mut from: usize = 0;
    let mut line: usize = 0;
    loop
        invariant
            chars@ == text@,
            length == chars@.len(),
            line <= from <= length,
            jobs_of_text(text@) == jobs_from(
                text@,
                from as int,
                line as int,
                JobsRead { allow_header, jobs: jobs@, positions: map@ },
            ),
            jobs@.len() <= line,
        decreases length - from,
    {
        let end = find_char(chars, from, length, '\n');
        if !is_blank(chars, from, end) {
            if allow_header && contains_letter(chars, from, end, false) {
                allow_header = false;
            } else {
                allow_header = false;
                let parts = split_fields(chars, from, end);
                match parse_job_line(chars, &parts, jobs.len()) {
                    Ok((job, key)) => {
                        match key {
                            Some(key) => {
                                map.insert(key, jobs.len());
                            },
                            None => {},
                        }
                        jobs.push(job);
                    },
                    Err(kind) => {
                        return Err(ParseError { kind, line });
                    },
                }
            }
        }
        if end >= length {
            return Ok((jobs, JobIds { map }));
        }
        from = end + 1;
        line += 1;
    }
}

/// The type of constraint that the field at `position` names, where a line without that
/// field means a finish-to-start constraint
pub open spec fn type_of_field(text: Seq<Glyph>, parts: Seq<(int, int)>, position: int) -> Option<
    ConstraintType,
> {
    if position >= parts.len() {
        Some(ConstraintType::FinishToStart)
    } else if holds_type(text, parts[position].0, parts[position].1, 'f') {
        Some(ConstraintType::FinishToStart)
    } else if holds_type(text, parts[position].0, parts[position].1, 's') {
        Some(ConstraintType::StartToStart)
    } else {
        None
    }
}

/// The delay that the field at `position` holds, where a line without that field means no
/// delay
pub open spec fn delay_of_field(text: Seq<Glyph>, parts: Seq<(int, int)>, position: int) -> Option<
    int,
> {
    if position >= parts.len() {
        Some(0)
    } else {
        field_number(text, parts, position, Time::MIN as int, Time::MAX as int)
    }
}

/// The position of the job that the fields at `position` and behind it name by the number
/// of its task and its own number
pub open spec fn job_of_fields(
    text: Seq<Glyph>,
    parts: Seq<(int, int)>,
    position: int,
    positions: Map<u64, usize>,
) -> Result<usize, ParseErrorKind> {
    let task = field_number(text, parts, position, 0, u32::MAX as int);
    let job = field_number(text, parts, position + 1, 0, u32::MAX as int);
    if task is None || job is None {
        Err(ParseErrorKind::InvalidNumber)
    } else if !positions.contains_key(job_key(task->0, job->0)) {
        Err(ParseErrorKind::UnknownJob)
    } else {
        Ok(positions[job_key(task->0, job->0)])
    }
}

/// Whether a line with the fields `parts` names its jobs by their positions, and not by
/// the number of their task and their own number
pub open spec fn names_positions(text: Seq<Glyph>, parts: Seq<(int, int)>) -> bool {
    parts.len() < 4 || (parts.len() == 4 && mentions_type(text, parts[3].0, parts[3].1))
}

/// The constraint that a line with the fields `parts` describes.
///
/// A line of 2 to 4 fields holds the position of the predecessor, the position of the
/// successor, the delay and the type; a line of 4 fields is of this shape if its last field
/// holds an `s` or an `f`. A line of 4, 6 or 7 fields holds the number of the task and of
/// the job of the predecessor, the same of the successor, a field that is not used, the
/// delay and the type.
pub open spec fn constraint_of_line(
    text: Seq<Glyph>,
    parts: Seq<(int, int)>,
    positions: Map<u64, usize>,
) -> Result<Constraint, ParseErrorKind> {
    if parts.len() < 2 || parts.len() == 5 || parts.len() > 7 {
        Err(ParseErrorKind::UnexpectedFieldCount)
    } else if names_positions(text, parts) {
        let before = field_number(text, parts, 0, 0, usize::MAX as int);
        let after = field_number(text, parts, 1, 0, usize::MAX as int);
        let delay = delay_of_field(text, parts, 2);
        let constraint_type = type_of_field(text, parts, 3);
        if before is None || after is None || delay is None {
            Err(ParseErrorKind::InvalidNumber)
        } else if constraint_type is None {
            Err(ParseErrorKind::UnknownConstraintType)
        } else {
            Ok(
                Constraint {
                    before: before->0 as usize,
                    after: after->0 as usize,
                    constraint_type: constraint_type->0,
                    delay: delay->0 as Time,
                },
            )
        }
    } else {
        match job_of_fields(text, parts, 0, positions) {
            Err(kind) => Err(kind),
            Ok(before) => match job_of_fields(text, parts, 2, positions) {
                Err(kind) => Err(kind),
                Ok(after) => {
                    let delay = delay_of_field(text, parts, 5);
                    let constraint_type = type_of_field(text, parts, 6);
                    if delay is None {
                        Err(ParseErrorKind::InvalidNumber)
                    } else if constraint_type is None {
                        Err(ParseErrorKind::UnknownConstraintType)
                    } else {
                        Ok(
                            Constraint {
                                before,
                                after,
                                constraint_type: constraint_type->0,
                                delay: delay->0 as Time,
                            },
                        )
                    }
                },
            },
        }
    }
}

/// Whether each field lies within the text
pub open spec fn parts_within(parts: Seq<(usize, usize)>, length: int) -> bool {
    forall|i: int| 0 <= i < parts.len() ==> (#[trigger] parts[i]).0 <= parts[i].1 <= length
}

/// The constraint type that the field at `position` names, if it names one
fn parse_type(text: &Vec<Glyph>, parts: &Vec<(usize, usize)>, position: usize) -> (result: Option<
    ConstraintType,
>)
    requires
        parts_within(parts@, text@.len() as int),
    ensures
        result == type_of_field(text@, as_ranges(parts@), position as int),
{
    if position >= parts.len() {
        return Some(ConstraintType::FinishToStart);
    }
    assert(as_ranges(parts@)[position as int] == (
        parts@[position as int].0 as int,
        parts@[position as int].1 as int,
    ));
    if has_type(text, parts[position].0, parts[position].1, 'f') {
        Some(ConstraintType::FinishToStart)
    } else if has_type(text, parts[position].0, parts[position].1, 's') {
        Some(ConstraintType::StartToStart)
    } else {
        None
    }
}

/// The delay that the field at `position` holds, if it holds one
fn parse_delay(text: &Vec<Glyph>, parts: &Vec<(usize, usize)>, position: usize) -> (result: Option<
    Time,
>)
    requires
        parts_within(parts@, text@.len() as int),
    ensures
        match result {
            Some(delay) => delay_of_field(text@, as_ranges(parts@), position as int) == Some(
                delay as int,
            ),
            None => delay_of_field(text@, as_ranges(parts@), position as int) is None,
        },
{
    if position >= parts.len() {
        return Some(0);
    }
    assert(as_ranges(parts@)[position as int] == (
        parts@[position as int].0 as int,
        parts@[position as int].1 as int,
    ));
    match parse_number(
        text,
        parts[position].0,
        parts[position].1,
        -0x8000_0000_0000_0000,
        0x7fff_ffff_ffff_ffff,
    ) {
        Some(delay) => Some(delay as Time),
        None => None,
    }
}

/// The position of a job that the field at `position` holds, if it holds one
fn parse_position(text: &Vec<Glyph>, parts: &Vec<(usize, usize)>, position: usize) -> (result:
    Option<usize>)
    requires
        parts_within(parts@, text@.len() as int),
        position < parts@.len(),
    ensures
        match result {
            Some(value) => field_number(
                text@,
                as_ranges(parts@),
                position as int,
                0,
                usize::MAX as int,
            ) == Some(value as int),
            None => field_number(text@, as_ranges(parts@), position as int, 0, usize::MAX as int)
                is None,
        },
{
    assert(as_ranges(parts@)[position as int] == (
        parts@[position as int].0 as int,
        parts@[position as int].1 as int,
    ));
    match parse_number(text, parts[position].0, parts[position].1, 0, usize::MAX as i128) {
        Some(value) => Some(value as usize),
        None => None,
    }
}

/// The position of the job whose task and job identifiers the fields at `position` and behind
/// it hold
fn parse_job_reference(
    text: &Vec<Glyph>,
    parts: &Vec<(usize, usize)>,
    position: usize,
    ids: &JobIds,
) -> (result: Result<usize, ParseErrorKind>)
    requires
        parts_within(parts@, text@.len() as int),
        position + 1 < parts@.len(),
    ensures
        result == job_of_fields(text@, as_ranges(parts@), position as int, ids.positions()),
{
    let count = parts.len();
    assert(position + 1 < count);
    assert(as_ranges(parts@)[position as int] == (
        parts@[position as int].0 as int,
        parts@[position as int].1 as int,
    ));
    assert(as_ranges(parts@)[position + 1] == (
        parts@[position + 1].0 as int,
        parts@[position + 1].1 as int,
    ));
    let task = parse_number(text, parts[position].0, parts[position].1, 0, 0xffff_ffff);
    let job = parse_number(text, parts[position + 1].0, parts[position + 1].1, 0, 0xffff_ffff);
    match (task, job) {
        (Some(task), Some(job)) => match ids.get(task as u32, job as u32) {
            Some(found) => Ok(found),
            None => Err(ParseErrorKind::UnknownJob),
        },
        _ => Err(ParseErrorKind::InvalidNumber),
    }
}

/// Reads the constraint of the line with the fields `parts`.
fn parse_constraint_line(text: &Vec<Glyph>, parts: &Vec<(usize, usize)>, ids: &JobIds) -> (result:
    Result<Constraint, ParseErrorKind>)
    requires
        parts_within(parts@, text@.len() as int),
    ensures
        result == constraint_of_line(text@, as_ranges(parts@), ids.positions()),
{
    let count = parts.len();
    if count < 2 || count == 5 || count > 7 {
        return Err(ParseErrorKind::UnexpectedFieldCount);
    }
    let by_position = if count < 4 {
        true
    } else if count == 4 {
        assert(as_ranges(parts@)[3] == (parts@[3].0 as int, parts@[3].1 as int));
        has_s_or_f(text, parts[3].0, parts[3].1)
    } else {
        false
    };
    if by_position {
        let before = parse_position(text, parts, 0);
        let after = parse_position(text, parts, 1);
        let delay = parse_delay(text, parts, 2);
        match (before, after, delay) {
            (Some(before), Some(after), Some(delay)) => match parse_type(text, parts, 3) {
                Some(constraint_type) => Ok(Constraint::new(before, after, delay, constraint_type)),
                None => Err(ParseErrorKind::UnknownConstraintType),
            },
            _ => Err(ParseErrorKind::InvalidNumber),
        }
    } else {
        let before = match parse_job_reference(text, parts, 0, ids) {
            Ok(before) => before,
            Err(kind) => {
                return Err(kind);
            },
        };
        let after = match parse_job_reference(text, parts, 2, ids) {
            Ok(after) => after,
            Err(kind) => {
                return Err(kind);
            },
        };
        match parse_delay(text, parts, 5) {
            Some(delay) => match parse_type(text, parts, 6) {
                Some(constraint_type) => Ok(Constraint::new(before, after, delay, constraint_type)),
                None => Err(ParseErrorKind::UnknownConstraintType),
            },
            None => Err(ParseErrorKind::InvalidNumber),
        }
    }
}

/// What is known after some lines of constraints were read: whether the next line can be a
/// header, and the constraints
pub struct ConstraintsRead {
    pub allow_header: bool,
    pub constraints: Seq<Constraint>,
}

/// What is known after the line of `text` from `from` up to `to` was read as well
pub open spec fn constraints_after_line(
    text: Seq<Glyph>,
    from: int,
    to: int,
    positions: Map<u64, usize>,
    read: ConstraintsRead,
) -> Result<ConstraintsRead, ParseErrorKind> {
    if blank(text, from, to) {
        Ok(read)
    } else if read.allow_header && has_letter(text, from, to, true) {
        Ok(ConstraintsRead { allow_header: false, ..read })
    } else {
        match constraint_of_line(text, fields(text, from, to), positions) {
            Ok(constraint) => Ok(
                ConstraintsRead {
                    allow_header: false,
                    constraints: read.constraints.push(constraint),
                },
            ),
            Err(kind) => Err(kind),
        }
    }
}

/// What is known after the lines of `text` from position `from` on were read as well,
/// where the line at `from` has number `line`
pub open spec fn constraints_from(
    text: Seq<Glyph>,
    from: int,
    line: int,
    positions: Map<u64, usize>,
    read: ConstraintsRead,
) -> Result<ConstraintsRead, ParseError>
    decreases text.len() - from,
{
    let end = first_index(text, from, text.len() as int, '\n');
    match constraints_after_line(text, from, end, positions, read) {
        Err(kind) => Err(ParseError { kind, line: line as usize }),
        Ok(next) => if from <= end < text.len() {
            constraints_from(text, end + 1, line + 1, positions, next)
        } else {
            Ok(next)
        },
    }
}

/// The constraints that `text` describes, where `positions` holds the positions of the jobs
/// by key
pub open spec fn constraints_of_text(text: Seq<Glyph>, positions: Map<u64, usize>) -> Result<
    ConstraintsRead,
    ParseError,
> {
    constraints_from(
        text,
        0,
        0,
        positions,
        ConstraintsRead { allow_header: true, constraints: Seq::empty() },
    )
}

/// Reads the constraints that `text` describes.
///
/// Each line that is not blank describes a constraint, but for the first such line if it
/// holds a letter other than `s` and `f`: that line is a header. Where a line holds no delay,
/// the delay is 0; where it holds no type, the type is `f-s`, finish to start; the type
/// `s-s` is start to start.
pub fn parse_constraints(text: &str, ids: &JobIds) -> (result: Result<Vec<Constraint>, ParseError>)
    ensures
        match result {
            Ok(constraints) => constraints_of_text(marked(text@), ids.positions()) matches Ok(
                read,
            ) && read.constraints == constraints@,
            Err(error) => constraints_of_text(marked(text@), ids.positions()) == Err::<
                ConstraintsRead,
                ParseError,
            >(error),
        },
{
    let glyphs = mark_characters(text);
    parse_marked_constraints(&glyphs, ids)
}

/// Reads the constraints that a text describes, as `parse_constraints` does, from the marked
/// characters of the text.
pub fn parse_marked_constraints(text: &Vec<Glyph>, ids: &JobIds) -> (result: Result<
    Vec<Constraint>,
    ParseError,
>)
    ensures
        match result {
            Ok(constraints) => constraints_of_text(text@, ids.positions()) matches Ok(read)
                && read.constraints == constraints@,
            Err(error) => constraints_of_text(text@, ids.positions()) == Err::<
                ConstraintsRead,
                ParseError,
            >(error),
        },
{
    let chars = text;
    let length = chars.len();
    let mut constraints: Vec<Constraint> = Vec::new();
    let mut allow_header = true;
    let mut from: usize = 0;
    let mut line: usize = 0;
    loop
        invariant
            chars@ == text@,
            length == chars@.len(),
            line <= from <= length,
            constraints_of_text(text@, ids.positions()) == constraints_from(
                text@,
                from as int,
                line as int,
                ids.positions(),
                ConstraintsRead { allow_header, constraints: constraints@ },
            ),
        decreases length - from,
    {
        let end = find_char(chars, from, length, '\n');
        if !is_blank(chars, from, end) {
            if allow_header && contains_letter(chars, from, end, true) {
                allow_header = false;
            } else {
                allow_header = false;
                let parts = split_fields(chars, from, end);
                proof {
                    assert forall|i: int| 0 <= i < parts@.len() implies (#[trigger] parts@[i]).0
                        <= parts@[i].1 <= length by {
                        assert(as_ranges(parts@)[i] == (parts@[i].0 as int, parts@[i].1 as int));
                    }
                }
                match parse_constraint_line(chars, &parts, ids) {
                    Ok(constraint) => {
                        constraints.push(constraint);
                    },
                    Err(kind) => {
                        return Err(ParseError { kind, line });
                    },
                }
            }
        }
        if end >= length {
            return Ok(constraints);
        }
        from = end + 1;
        line += 1;
    }
}

/// The problem that the two texts describe
pub open spec fn problem_of_texts(
    jobs_text: Seq<Glyph>,
    constraints_text: Option<Seq<Glyph>>,
) -> Result<(Seq<Job>, Seq<Constraint>), ParseError> {
    match jobs_of_text(jobs_text) {
        Err(error) => Err(error),
        Ok(read) => match constraints_text {
            None => Ok((read.jobs, Seq::empty())),
            Some(text) => match constraints_of_text(text, read.positions) {
                Err(error) => Err(error),
                Ok(constraints) => Ok((read.jobs, constraints.constraints)),
            },
        },
    }
}

/// Reads the problem with `num_cores` cores whose jobs `jobs_text` describes, and whose
/// constraints `constraints_text` describes if there is one.
pub fn parse_problem(jobs_text: &str, constraints_text: Option<&str>, num_cores: u32) -> (result:
    Result<Problem, ParseError>)
    ensures
        match result {
            Ok(problem) => {
                &&& problem_of_texts(
                    marked(jobs_text@),
                    match constraints_text {
                        Some(text) => Some(marked(text@)),
                        None => None,
                    },
                ) == Ok::<(Seq<Job>, Seq<Constraint>), ParseError>(
                    (problem.jobs@, problem.constraints@),
                )
                &&& problem.num_cores == num_cores
            },
            Err(error) => problem_of_texts(
                marked(jobs_text@),
                match constraints_text {
                    Some(text) => Some(marked(text@)),
                    None => None,
                },
            ) == Err::<(Seq<Job>, Seq<Constraint>), ParseError>(error),
        },
{
    let (jobs, ids) = match parse_jobs(jobs_text) {
        Ok(read) => read,
        Err(error) => {
            return Err(error);
        },
    };
    match constraints_text {
        Some(text) => match parse_constraints(text, &ids) {
            Ok(constraints) => Ok(Problem { jobs, constraints, num_cores }),
            Err(error) => Err(error),
        },
        None => Ok(Problem { jobs, constraints: Vec::new(), num_cores }),
    }
}

} // verus!
