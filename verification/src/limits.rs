//! The patterns that the engine can take.
//!
//! The engine keeps a set of the groups that a pattern refers back to, with one bit for
//! each number up to the largest, and adds up how many characters each part of a pattern
//! matches at least. It checks neither the numbers nor the sums. A search stops the program
//! where a group refers back to itself, and where a reference without regard to case meets
//! a long capture; it stands still for as many rounds as a count asks for, where what the
//! count repeats matches nothing. A pattern of which none of this can come is read here
//! token by token, with a frame for each group that is open. Where the engine is sure to
//! refuse a pattern with an error, reading it ends: such a pattern can be taken.
use vstd::prelude::*;

verus! {

/// The largest number by which a pattern may refer back to a group.
pub const MAX_GROUP_NUMBER: usize = 0x7fff_ffff;

/// The most characters that a pattern may have, so that the brackets of a class can be
/// counted.
pub const MAX_PATTERN_LENGTH: usize = 0x7fff_ffff;

/// The most rounds that a count may ask for without a character being matched: as many as
/// the engine goes back by itself.
pub const MAX_ROUNDS: usize = 1_000_000;

/// The greatest count, with the counts in it, of what is looked for behind a position: it
/// is laid out in full, and nothing else limits it.
pub const MAX_BEHIND: usize = 10_000;

/// A character that stands for itself in a pattern only behind a backslash.
pub open spec fn is_special(c: char) -> bool {
    ||| c == '\\'
    ||| c == '.'
    ||| c == '+'
    ||| c == '*'
    ||| c == '?'
    ||| c == '('
    ||| c == ')'
    ||| c == '|'
    ||| c == '['
    ||| c == ']'
    ||| c == '{'
    ||| c == '}'
    ||| c == '^'
    ||| c == '$'
    ||| c == '#'
}

/// A pattern without groups, counts, classes or references: no bracket or brace opens in
/// it, and behind each backslash stands a special character.
pub open spec fn is_plain(pattern: Seq<char>) -> bool
    decreases pattern.len(),
{
    if pattern.len() == 0 {
        true
    } else if pattern[0] == '\\' {
        pattern.len() >= 2 && is_special(pattern[1]) && is_plain(pattern.skip(2))
    } else {
        pattern[0] != '(' && pattern[0] != '{' && pattern[0] != '[' && is_plain(pattern.skip(1))
    }
}

/// A decimal digit.
pub open spec fn is_decimal_digit(c: char) -> bool {
    '0' <= c <= '9'
}

/// The position behind the digits that stand from `at` on.
pub open spec fn numeral_end(pattern: Seq<char>, at: int) -> int
    decreases pattern.len() - at,
{
    if 0 <= at < pattern.len() && is_decimal_digit(pattern[at]) {
        numeral_end(pattern, at + 1)
    } else {
        at
    }
}

/// The number that the digits at `start..end` write.
pub open spec fn numeral(pattern: Seq<char>, start: int, end: int) -> nat
    decreases end - start,
{
    if start >= end {
        0
    } else {
        numeral(pattern, start, end - 1) * 10 + (pattern[end - 1] as u32 - '0' as u32) as nat
    }
}

/// White space that a pattern may hold for the reader.
pub open spec fn is_blank(c: char) -> bool {
    c == ' ' || c == '\t' || c == '\r' || c == '\n'
}

/// The character stands at a position.
pub open spec fn stands(pattern: Seq<char>, at: int, c: char) -> bool {
    at < pattern.len() && pattern[at] == c
}

/// The first place of a character at or behind a position, or the end.
pub open spec fn place_of(pattern: Seq<char>, at: int, c: char) -> int
    decreases pattern.len() - at,
{
    if at >= pattern.len() || pattern[at] == c {
        at
    } else {
        place_of(pattern, at + 1, c)
    }
}

/// The position behind a comment whose text starts at `at`: behind its bracket, or the end.
pub open spec fn comment_end(pattern: Seq<char>, at: int) -> int
    decreases pattern.len() - at,
{
    if at >= pattern.len() {
        pattern.len() as int
    } else if pattern[at] == ')' {
        at + 1
    } else if pattern[at] != '\\' {
        comment_end(pattern, at + 1)
    } else if at + 2 <= pattern.len() {
        comment_end(pattern, at + 2)
    } else {
        pattern.len() as int
    }
}

/// A comment in brackets starts at a position.
pub open spec fn comment_starts(pattern: Seq<char>, at: int) -> bool {
    stands(pattern, at, '(') && stands(pattern, at + 1, '?') && stands(pattern, at + 2, '#')
}

/// The position behind what the engine ignores: comments in brackets and, where white space
/// is for the reader, that and comments up to the end of a line.
pub open spec fn behind_ignored(pattern: Seq<char>, at: int, ignore_space: bool) -> int
    decreases pattern.len() - at,
{
    if at < 0 || at >= pattern.len() {
        at
    } else if ignore_space && pattern[at] == '#' {
        proof {
            lemma_place_of(pattern, at, '\n');
        }
        let end = place_of(pattern, at, '\n');
        if end < pattern.len() {
            behind_ignored(pattern, end + 1, ignore_space)
        } else {
            end
        }
    } else if ignore_space && is_blank(pattern[at]) {
        behind_ignored(pattern, at + 1, ignore_space)
    } else if comment_starts(pattern, at) {
        proof {
            lemma_comment_end(pattern, at + 3);
        }
        behind_ignored(pattern, comment_end(pattern, at + 3), ignore_space)
    } else {
        at
    }
}

/// The greatest count that the digits from `at` on write, with the position behind them;
/// the position itself, where there is none or no `usize` holds it.
pub open spec fn upper_count(pattern: Seq<char>, at: int) -> (int, nat) {
    let end = numeral_end(pattern, at);
    if end > at && numeral(pattern, at, end) <= usize::MAX {
        (end, numeral(pattern, at, end))
    } else {
        (at, 0)
    }
}

/// The count in braces at `at`: the position behind it, the least and the greatest number
/// of rounds, which is 0 where there is none. `None` where the brace stands for itself.
pub open spec fn count_at(pattern: Seq<char>, at: int, ignore_space: bool) -> Option<
    (int, nat, nat),
> {
    let start = behind_ignored(pattern, at + 1, ignore_space);
    let lower = upper_count(pattern, start);
    let comma = behind_ignored(pattern, lower.0, ignore_space);
    if !(start < lower.0 || stands(pattern, start, ',')) {
        None
    } else if stands(pattern, comma, '}') {
        Some((comma + 1, lower.1, lower.1))
    } else if stands(pattern, comma, ',') {
        let upper = upper_count(pattern, behind_ignored(pattern, comma + 1, ignore_space));
        let end = behind_ignored(pattern, upper.0, ignore_space);
        if stands(pattern, end, '}') {
            Some((end + 1, lower.1, upper.1))
        } else {
            None
        }
    } else {
        None
    }
}

/// The first place of a character that ends or may end what stands in braces, or the end.
pub open spec fn brace_end(pattern: Seq<char>, at: int) -> int
    decreases pattern.len() - at,
{
    if at >= pattern.len() || pattern[at] == '}' || pattern[at] == '(' || pattern[at] == '#' {
        at
    } else {
        brace_end(pattern, at + 1)
    }
}

/// The position behind the escape sequence at the backslash `at` that names a property or a
/// code point, or that of any other character. `None` where a comment stands in it.
pub open spec fn escape_end(pattern: Seq<char>, at: int) -> Option<int> {
    let name = pattern[at + 1];
    let close = brace_end(pattern, at + 3);
    if at + 2 >= pattern.len() {
        Some(pattern.len() as int)
    } else if name == 'p' || name == 'P' {
        if pattern[at + 2] == '{' {
            let close = place_of(pattern, at + 3, '}');
            Some(
                if close < pattern.len() {
                    close + 1
                } else {
                    pattern.len() as int
                },
            )
        } else {
            Some(at + 3)
        }
    } else if name == 'x' || name == 'u' || name == 'U' {
        if is_blank(pattern[at + 2]) || pattern[at + 2] == '(' || pattern[at + 2] == '#' {
            None
        } else if pattern[at + 2] != '{' {
            Some(at + 2)
        } else if close >= pattern.len() {
            Some(pattern.len() as int)
        } else if pattern[close] == '}' {
            Some(close + 1)
        } else {
            None
        }
    } else {
        Some(at + 2)
    }
}

/// The position behind a class of which `nest` brackets are open, or the end. `None` where
/// an escape sequence in it cannot be read.
pub open spec fn class_from(pattern: Seq<char>, at: int, nest: nat) -> Option<int>
    decreases pattern.len() - at,
{
    if at < 0 || at >= pattern.len() {
        Some(pattern.len() as int)
    } else if pattern[at] == '\\' {
        proof {
            lemma_escape_end(pattern, at);
        }
        match escape_end(pattern, at) {
            Some(end) => class_from(pattern, end, nest),
            None => None,
        }
    } else if pattern[at] == '[' {
        class_from(pattern, at + 1, nest + 1)
    } else if pattern[at] == ']' {
        if nest <= 1 {
            Some(at + 1)
        } else {
            class_from(pattern, at + 1, (nest - 1) as nat)
        }
    } else {
        class_from(pattern, at + 1, nest)
    }
}

/// The position of the first character of a class whose bracket stands at `at` that is not
/// taken as it stands: behind a `^` and behind a `]` at its start.
pub open spec fn class_start(pattern: Seq<char>, at: int) -> int {
    let start = if stands(pattern, at + 1, '^') {
        at + 2
    } else {
        at + 1
    };
    if stands(pattern, start, ']') {
        start + 1
    } else {
        start
    }
}

/// The first place of a character that ends a name, or the end.
pub open spec fn name_end(pattern: Seq<char>, at: int, close: char, signs: bool) -> int
    decreases pattern.len() - at,
{
    if at >= pattern.len() || pattern[at] == close || signs && (pattern[at] == '+' || pattern[at]
        == '-') {
        at
    } else {
        name_end(pattern, at + 1, close, signs)
    }
}

/// How a pattern refers to a group: by a name or number, which ends at `name_end`, or by a
/// distance, with its sign.
#[derive(Clone, Copy)]
pub struct Reference {
    pub name_end: usize,
    pub distance: Option<usize>,
    pub forward: bool,
    /// The place of the character that closes the reference.
    pub close: usize,
}

/// The reference that starts at `at` and is closed by a character. `None` where there is
/// none, or where no `usize` holds the distance: the engine refuses it.
pub open spec fn reference_at(
    pattern: Seq<char>,
    at: int,
    close: char,
    signs: bool,
) -> Option<Reference> {
    let end = name_end(pattern, at, close, signs);
    let last = numeral_end(pattern, end + 1);
    if end >= pattern.len() {
        None
    } else if pattern[end] == close {
        if end > at {
            Some(
                Reference {
                    name_end: end as usize,
                    distance: None,
                    forward: false,
                    close: end as usize,
                },
            )
        } else {
            None
        }
    } else if last > end + 1 && stands(pattern, last, close) && numeral(pattern, end + 1, last)
        <= usize::MAX {
        Some(
            Reference {
                name_end: end as usize,
                distance: Some(numeral(pattern, end + 1, last) as usize),
                forward: pattern[end] == '+',
                close: last as usize,
            },
        )
    } else {
        None
    }
}

/// The number that a reference from `at` on gives; 0 where it gives a name, as do digits
/// whose number no `usize` holds.
pub open spec fn number_in(pattern: Seq<char>, at: int, reference: Reference) -> nat {
    let end = reference.name_end as int;
    if at < end && numeral_end(pattern, at) == end && numeral(pattern, at, end) <= usize::MAX {
        numeral(pattern, at, end)
    } else {
        0
    }
}

/// The numbers of a reference are in range.
pub open spec fn numbers_fit(pattern: Seq<char>, at: int, reference: Reference) -> bool {
    &&& number_in(pattern, at, reference) <= MAX_GROUP_NUMBER
    &&& reference.distance matches Some(distance) ==> distance <= MAX_GROUP_NUMBER
}

/// The number of the group that a reference gives, where `groups` have been opened before;
/// 0 where it gives a name.
pub open spec fn target(pattern: Seq<char>, at: int, reference: Reference, groups: nat) -> nat {
    if at < reference.name_end {
        number_in(pattern, at, reference)
    } else {
        match reference.distance {
            Some(distance) => if reference.forward {
                groups + distance as nat
            } else if distance <= groups {
                (groups + 1 - distance) as nat
            } else {
                0
            },
            None => 0,
        }
    }
}

/// A group that is open, or the whole pattern.
#[derive(Clone, Copy)]
pub struct Frame {
    /// The number of the group; 0 where it captures nothing.
    pub number: usize,
    /// Where its name stands; nowhere, where it has none.
    pub name_start: usize,
    pub name_end: usize,
    /// A bound on the characters that what stands in it matches at least.
    pub size: usize,
    /// The alternative that is being read matches a character at least.
    pub moves: bool,
    /// So do the alternatives before it.
    pub others_move: bool,
    /// What stands in it is looked at, and not matched.
    pub looks: bool,
    /// It is looked for behind a position.
    pub behind: bool,
    /// The flags from before the group hold again behind it.
    pub restores: bool,
    pub ignore_space: bool,
    pub ignore_case: bool,
}

/// How far a pattern has been read.
#[derive(Clone, Copy)]
pub struct Scan {
    pub at: usize,
    /// The number of groups that have been opened.
    pub groups: usize,
    /// A bound on the characters that all of it matches at least.
    pub total: usize,
    /// The same for the last item, which a count repeats; 0 where there is none, or where
    /// it is repeated already: a brace stands for itself there.
    pub last: usize,
    /// The last item matches a character at least.
    pub last_moves: bool,
    pub ignore_space: bool,
    pub ignore_case: bool,
    /// The group that was opened last, among those that are open.
    pub top: Frame,
}

/// What reading a token of a pattern comes to.
pub enum Step {
    /// The engine may not be able to take the pattern.
    Refused,
    /// The pattern ends here, or the engine refuses it with an error.
    Done,
    /// Reading goes on, with these groups open around the last one.
    Next(Scan, Seq<Frame>),
}

/// One of the groups has the number or the name.
pub open spec fn is_open(
    pattern: Seq<char>,
    frames: Seq<Frame>,
    number: nat,
    name_start: int,
    name_end: int,
) -> bool {
    exists|i: int|
        0 <= i < frames.len() && is_named(
            pattern,
            #[trigger] frames[i],
            number,
            name_start,
            name_end,
        )
}

/// A group has the number or the name.
pub open spec fn is_named(
    pattern: Seq<char>,
    frame: Frame,
    number: nat,
    name_start: int,
    name_end: int,
) -> bool {
    ||| number > 0 && frame.number == number
    ||| name_start < name_end && frame.name_start < frame.name_end && pattern.subrange(
        frame.name_start as int,
        frame.name_end as int,
    ) == pattern.subrange(name_start, name_end)
}

/// The group that was opened last, with the last item taken in.
pub open spec fn settled(s: Scan) -> Frame {
    Frame { moves: s.top.moves || s.last_moves, ..s.top }
}

/// An item of the given size has been read, up to `at`.
pub open spec fn with_item(
    s: Scan,
    outer: Seq<Frame>,
    size: nat,
    moves: bool,
    at: int,
) -> Step {
    if s.total + size > usize::MAX || s.top.size + size > usize::MAX {
        Step::Refused
    } else {
        Step::Next(
            Scan {
                at: at as usize,
                total: (s.total + size) as usize,
                last: size as usize,
                last_moves: moves,
                top: Frame { size: (s.top.size + size) as usize, ..settled(s) },
                ..s
            },
            outer,
        )
    }
}

/// The last item is repeated by a count that ends before `at`.
pub open spec fn with_count(
    s: Scan,
    outer: Seq<Frame>,
    least: nat,
    greatest: nat,
    at: int,
) -> Step {
    let rounds = if s.top.behind && greatest > least {
        greatest
    } else {
        least
    };
    let product = s.last as nat * rounds;
    let more = (if rounds == 0 {
        0
    } else {
        (product - s.last) as nat
    }) + (at - s.at) as nat;
    if product > usize::MAX || s.top.behind && product > MAX_BEHIND || !s.last_moves && product
        > MAX_ROUNDS {
        Step::Refused
    } else if s.total + more > usize::MAX || s.top.size + more > usize::MAX {
        Step::Refused
    } else {
        Step::Next(
            Scan {
                at: at as usize,
                total: (s.total + more) as usize,
                last: 0,
                last_moves: s.last_moves && least > 0,
                top: Frame { size: (s.top.size + more) as usize, ..s.top },
                ..s
            },
            outer,
        )
    }
}

/// A group is opened, of which the characters from `at` on stand inside.
pub open spec fn with_group(s: Scan, outer: Seq<Frame>, frame: Frame, at: int) -> Step {
    if frame.number > MAX_GROUP_NUMBER {
        Step::Refused
    } else {
        Step::Next(
            Scan {
                at: at as usize,
                groups: if frame.number > 0 {
                    frame.number
                } else {
                    s.groups
                },
                last: 0,
                last_moves: false,
                top: frame,
                ..s
            },
            outer.push(settled(s)),
        )
    }
}

/// A group without a number or a name, in which the flags stay as they are.
pub open spec fn plain_group(s: Scan) -> Frame {
    Frame {
        number: 0,
        name_start: 0,
        name_end: 0,
        size: 0,
        moves: false,
        others_move: true,
        looks: false,
        behind: s.top.behind,
        restores: false,
        ignore_space: s.ignore_space,
        ignore_case: s.ignore_case,
    }
}

/// The group that was opened last is closed before `at`.
pub open spec fn closed(s: Scan, outer: Seq<Frame>, at: int) -> Step {
    let parent = outer.last();
    if outer.len() == 0 {
        Step::Done
    } else if s.total + 1 > usize::MAX || parent.size + s.top.size + 1 > usize::MAX {
        Step::Refused
    } else {
        Step::Next(
            Scan {
                at: at as usize,
                total: (s.total + 1) as usize,
                last: (s.top.size + 1) as usize,
                last_moves: !s.top.looks && s.top.others_move && settled(s).moves,
                ignore_space: if s.top.restores {
                    s.top.ignore_space
                } else {
                    s.ignore_space
                },
                ignore_case: if s.top.restores {
                    s.top.ignore_case
                } else {
                    s.ignore_case
                },
                top: Frame { size: (parent.size + s.top.size + 1) as usize, ..parent },
                ..s
            },
            outer.drop_last(),
        )
    }
}

/// A reference to what a group matched ends before `at`. It matches no more than all that
/// stands before it. It may not stand in its own group, nor leave the case open.
pub open spec fn with_reference(
    pattern: Seq<char>,
    s: Scan,
    outer: Seq<Frame>,
    number: nat,
    name_start: int,
    name_end: int,
    at: int,
) -> Step {
    if s.ignore_case || is_open(pattern, outer.push(s.top), number, name_start, name_end) {
        Step::Refused
    } else {
        with_item(s, outer, s.total as nat + 1, false, at)
    }
}

/// The escape sequence at the backslash `at`.
pub open spec fn escape_step(pattern: Seq<char>, s: Scan, outer: Seq<Frame>, at: int) -> Step {
    let name = pattern[at + 1];
    if at + 1 >= pattern.len() {
        Step::Done
    } else if is_decimal_digit(name) {
        let end = numeral_end(pattern, at + 1);
        let number = numeral(pattern, at + 1, end);
        if number > MAX_GROUP_NUMBER {
            Step::Done
        } else {
            with_reference(pattern, s, outer, number, 0, 0, end)
        }
    } else if name == 'k' || name == 'g' {
        named_step(pattern, s, outer, at)
    } else if name == 'b' || name == 'B' {
        boundary_step(pattern, s, outer, at)
    } else if name == 'A' || name == 'z' || name == 'Z' || name == 'G' || name == 'K' || name
        == '<' || name == '>' {
        with_item(s, outer, 1, false, at + 2)
    } else {
        match escape_end(pattern, at) {
            Some(end) => with_item(s, outer, 1, true, end),
            None => Step::Refused,
        }
    }
}

/// The reference or call by name at the backslash `at`. The engine refuses every call.
pub open spec fn named_step(pattern: Seq<char>, s: Scan, outer: Seq<Frame>, at: int) -> Step {
    let close = if stands(pattern, at + 2, '\'') {
        '\''
    } else {
        '>'
    };
    if pattern[at + 1] == 'g' && at + 2 < pattern.len() && is_decimal_digit(pattern[at + 2]) {
        with_item(s, outer, 1, false, at + 2)
    } else if !stands(pattern, at + 2, '\'') && !stands(pattern, at + 2, '<') {
        Step::Done
    } else {
        match reference_at(pattern, at + 3, close, true) {
            Some(reference) => if !numbers_fit(pattern, at + 3, reference) {
                Step::Refused
            } else if pattern[at + 1] == 'g' {
                with_item(s, outer, 1, false, reference.close + 1)
            } else {
                with_reference(
                    pattern,
                    s,
                    outer,
                    target(pattern, at + 3, reference, s.groups as nat),
                    at + 3,
                    reference.name_end as int,
                    reference.close + 1,
                )
            },
            None => Step::Done,
        }
    }
}

/// The word boundary at the backslash `at`, with what it names in braces.
pub open spec fn boundary_step(pattern: Seq<char>, s: Scan, outer: Seq<Frame>, at: int) -> Step {
    let brace = behind_ignored(pattern, at + 2, s.ignore_space);
    let first = behind_ignored(pattern, brace + 1, s.ignore_space);
    let close = brace_end(pattern, brace + 1);
    if !stands(pattern, brace, '{') || stands(pattern, first, ',') || first < pattern.len()
        && is_decimal_digit(pattern[first]) {
        with_item(s, outer, 1, false, at + 2)
    } else if close >= pattern.len() {
        Step::Done
    } else if pattern[close] == '}' {
        with_item(s, outer, 1, false, close + 1)
    } else {
        Step::Refused
    }
}

/// The position behind the flags from `at` on.
pub open spec fn flags_end(pattern: Seq<char>, at: int) -> int
    decreases pattern.len() - at,
{
    if at < pattern.len() && (pattern[at] == 'i' || pattern[at] == 'm' || pattern[at] == 's'
        || pattern[at] == 'U' || pattern[at] == 'x' || pattern[at] == 'u' || pattern[at] == '-') {
        flags_end(pattern, at + 1)
    } else {
        at
    }
}

/// What the flags at `start..end` make of one of them: it is set before a `-`, and unset
/// behind one.
pub open spec fn flag_behind(
    pattern: Seq<char>,
    start: int,
    end: int,
    flag: char,
    before: bool,
) -> bool
    decreases end - start,
{
    if start >= end {
        before
    } else if pattern[end - 1] == flag {
        place_of(pattern, start, '-') >= end - 1
    } else {
        flag_behind(pattern, start, end - 1, flag, before)
    }
}

/// The group with a name that starts at `at`.
pub open spec fn name_step(
    pattern: Seq<char>,
    s: Scan,
    outer: Seq<Frame>,
    at: int,
    close: char,
) -> Step {
    let end = place_of(pattern, at, close);
    if s.groups >= MAX_GROUP_NUMBER {
        Step::Refused
    } else if end >= pattern.len() {
        Step::Done
    } else {
        with_group(
            s,
            outer,
            Frame {
                number: (s.groups + 1) as usize,
                name_start: at as usize,
                name_end: end as usize,
                ..plain_group(s)
            },
            end + 1,
        )
    }
}

/// The condition that starts at `at`: whether a group has matched, or a pattern. What
/// follows from it is a group of its own.
pub open spec fn condition_step(pattern: Seq<char>, s: Scan, outer: Seq<Frame>, at: int) -> Step {
    let choice = Frame { looks: true, ..plain_group(s) };
    let quoted = stands(pattern, at, '\'') || stands(pattern, at, '<');
    let start = if quoted {
        at + 1
    } else {
        at
    };
    let close = if stands(pattern, at, '\'') {
        '\''
    } else if stands(pattern, at, '<') {
        '>'
    } else {
        ')'
    };
    if at >= pattern.len() {
        Step::Done
    } else if quoted || pattern[at] == '+' || pattern[at] == '-' || is_decimal_digit(
        pattern[at],
    ) {
        match reference_at(pattern, start, close, true) {
            Some(reference) => if !numbers_fit(pattern, start, reference) {
                Step::Refused
            } else if !quoted {
                with_group(s, outer, choice, reference.close + 1)
            } else if stands(pattern, reference.close + 1, ')') {
                with_group(s, outer, choice, reference.close + 2)
            } else {
                Step::Done
            },
            None => Step::Done,
        }
    } else {
        Step::Next(
            Scan { at: at as usize, last: 0, last_moves: false, top: choice, ..s },
            outer.push(settled(s)).push(choice),
        )
    }
}

/// The flags that start at `at`: for the rest, or for a group.
pub open spec fn flags_step(pattern: Seq<char>, s: Scan, outer: Seq<Frame>, at: int) -> Step {
    let end = flags_end(pattern, at);
    let flagged = Scan {
        ignore_space: flag_behind(pattern, at, end, 'x', s.ignore_space),
        ignore_case: flag_behind(pattern, at, end, 'i', s.ignore_case),
        ..s
    };
    if end >= pattern.len() {
        Step::Done
    } else if pattern[end] == ')' {
        Step::Next(
            Scan {
                at: (end + 1) as usize,
                last: 0,
                last_moves: false,
                top: settled(s),
                ..flagged
            },
            outer,
        )
    } else if pattern[end] == ':' {
        with_group(flagged, outer, Frame { restores: true, ..plain_group(s) }, end + 1)
    } else if is_blank(pattern[end]) || pattern[end] == '(' || pattern[end] == '#' {
        Step::Refused
    } else {
        Step::Done
    }
}

/// The group whose bracket stands before `at`.
pub open spec fn group_step(pattern: Seq<char>, s: Scan, outer: Seq<Frame>, at: int) -> Step {
    let head = behind_ignored(pattern, at, s.ignore_space);
    let plain = plain_group(s);
    if !stands(pattern, head, '?') {
        if s.groups >= MAX_GROUP_NUMBER {
            Step::Refused
        } else {
            with_group(s, outer, Frame { number: (s.groups + 1) as usize, ..plain }, head)
        }
    } else if stands(pattern, head + 1, '=') || stands(pattern, head + 1, '!') {
        with_group(s, outer, Frame { looks: true, ..plain }, head + 2)
    } else if stands(pattern, head + 1, '<') && (stands(pattern, head + 2, '=') || stands(
        pattern,
        head + 2,
        '!',
    )) {
        with_group(s, outer, Frame { looks: true, behind: true, ..plain }, head + 3)
    } else if stands(pattern, head + 1, '<') {
        name_step(pattern, s, outer, head + 2, '>')
    } else if stands(pattern, head + 1, '\'') {
        name_step(pattern, s, outer, head + 2, '\'')
    } else if stands(pattern, head + 1, 'P') && stands(pattern, head + 2, '<') {
        name_step(pattern, s, outer, head + 3, '>')
    } else if stands(pattern, head + 1, 'P') && stands(pattern, head + 2, '=') {
        match reference_at(pattern, head + 3, ')', false) {
            Some(reference) => if !numbers_fit(pattern, head + 3, reference) {
                Step::Refused
            } else {
                with_reference(
                    pattern,
                    s,
                    outer,
                    target(pattern, head + 3, reference, s.groups as nat),
                    head + 3,
                    reference.name_end as int,
                    reference.close + 1,
                )
            },
            None => Step::Done,
        }
    } else if stands(pattern, head + 1, 'P') && stands(pattern, head + 2, '>') {
        let close = place_of(pattern, head + 3, ')');
        if close >= pattern.len() {
            Step::Done
        } else {
            with_item(s, outer, 1, false, close + 1)
        }
    } else if stands(pattern, head + 1, '>') {
        with_group(s, outer, plain, head + 2)
    } else if stands(pattern, head + 1, '(') {
        condition_step(pattern, s, outer, head + 2)
    } else {
        flags_step(pattern, s, outer, head + 1)
    }
}

/// The next token of a pattern.
pub open spec fn step(pattern: Seq<char>, s: Scan, outer: Seq<Frame>) -> Step {
    let at = behind_ignored(pattern, s.at as int, s.ignore_space);
    let c = pattern[at];
    if at >= pattern.len() {
        Step::Done
    } else if c == '\\' {
        escape_step(pattern, s, outer, at)
    } else if c == '[' {
        match class_from(pattern, class_start(pattern, at), 1) {
            Some(end) => with_item(s, outer, 1, true, end),
            None => Step::Refused,
        }
    } else if c == '(' {
        group_step(pattern, s, outer, at + 1)
    } else if c == ')' {
        closed(s, outer, at + 1)
    } else if c == '|' {
        Step::Next(
            Scan {
                at: (at + 1) as usize,
                last: 0,
                last_moves: false,
                top: Frame {
                    moves: false,
                    others_move: s.top.others_move && settled(s).moves,
                    ..s.top
                },
                ..s
            },
            outer,
        )
    } else if c == '?' || c == '*' {
        Step::Next(Scan { at: (at + 1) as usize, last: 0, last_moves: false, ..s }, outer)
    } else if c == '+' {
        Step::Next(Scan { at: (at + 1) as usize, last: 0, ..s }, outer)
    } else if c == '{' && s.last > 0 {
        match count_at(pattern, at, s.ignore_space) {
            Some((end, least, greatest)) => with_count(s, outer, least, greatest, end),
            None => with_item(s, outer, 1, true, at + 1),
        }
    } else if c == '^' || c == '$' {
        with_item(s, outer, 1, false, at + 1)
    } else {
        with_item(s, outer, 1, true, at + 1)
    }
}

/// The rest of a pattern can be taken, from where it has been read up to.
pub open spec fn fits_from(pattern: Seq<char>, s: Scan, outer: Seq<Frame>) -> bool
    decreases pattern.len() - s.at,
{
    match step(pattern, s, outer) {
        Step::Refused => false,
        Step::Done => true,
        Step::Next(next, around) => s.at < next.at <= pattern.len() && fits_from(
            pattern,
            next,
            around,
        ),
    }
}

/// Nothing of a pattern has been read.
pub open spec fn unread() -> Scan {
    Scan {
        at: 0,
        groups: 0,
        total: 0,
        last: 0,
        last_moves: false,
        ignore_space: false,
        ignore_case: false,
        top: Frame {
            number: 0,
            name_start: 0,
            name_end: 0,
            size: 0,
            moves: false,
            others_move: true,
            looks: false,
            behind: false,
            restores: false,
            ignore_space: false,
            ignore_case: false,
        },
    }
}

/// The engine can take the pattern, and search any text with it.
pub open spec fn pattern_fits(pattern: Seq<char>) -> bool {
    ||| is_plain(pattern)
    ||| pattern.len() <= MAX_PATTERN_LENGTH && fits_from(pattern, unread(), Seq::empty())
}

/// The first place of a character does not lie before where it is looked for, nor behind
/// the end.
pub proof fn lemma_place_of(pattern: Seq<char>, at: int, c: char)
    requires
        0 <= at <= pattern.len(),
    ensures
        at <= place_of(pattern, at, c) <= pattern.len(),
    decreases pattern.len() - at,
{
    if at < pattern.len() && pattern[at] != c {
        lemma_place_of(pattern, at + 1, c);
    }
}

/// A comment does not end before it starts, nor behind the end.
pub proof fn lemma_comment_end(pattern: Seq<char>, at: int)
    requires
        at <= pattern.len(),
    ensures
        at <= comment_end(pattern, at) <= pattern.len(),
    decreases pattern.len() - at,
{
    if at + 2 <= pattern.len() && pattern[at] == '\\' {
        lemma_comment_end(pattern, at + 2);
    } else if at < pattern.len() && pattern[at] != ')' {
        lemma_comment_end(pattern, at + 1);
    }
}

/// What stands in braces does not end before it starts, nor behind the end.
pub proof fn lemma_brace_end(pattern: Seq<char>, at: int)
    requires
        0 <= at <= pattern.len(),
    ensures
        at <= brace_end(pattern, at) <= pattern.len(),
    decreases pattern.len() - at,
{
    if at < pattern.len() && !(pattern[at] == '}' || pattern[at] == '(' || pattern[at] == '#') {
        lemma_brace_end(pattern, at + 1);
    }
}

/// An escape sequence ends behind its backslash and within the pattern.
pub proof fn lemma_escape_end(pattern: Seq<char>, at: int)
    requires
        0 <= at < pattern.len(),
    ensures
        escape_end(pattern, at) matches Some(end) ==> at < end <= pattern.len(),
{
    if at + 3 <= pattern.len() {
        lemma_brace_end(pattern, at + 3);
        lemma_place_of(pattern, at + 3, '}');
    }
}

/// A numeral ends behind its first digit and within the pattern.
pub proof fn lemma_numeral_end(pattern: Seq<char>, at: int)
    requires
        0 <= at <= pattern.len(),
    ensures
        at <= numeral_end(pattern, at) <= pattern.len(),
        at < pattern.len() && is_decimal_digit(pattern[at]) ==> at < numeral_end(pattern, at),
        forall|i: int|
            at <= i < numeral_end(pattern, at) ==> is_decimal_digit(#[trigger] pattern[i]),
    decreases pattern.len() - at,
{
    if at < pattern.len() && is_decimal_digit(pattern[at]) {
        lemma_numeral_end(pattern, at + 1);
    }
}

/// Two plain patterns behind each other are plain.
pub proof fn lemma_plain_add(a: Seq<char>, b: Seq<char>)
    requires
        is_plain(a),
        is_plain(b),
    ensures
        is_plain(a + b),
    decreases a.len(),
{
    if a.len() == 0 {
        assert(a + b =~= b);
    } else if a[0] == '\\' {
        lemma_plain_add(a.skip(2), b);
        assert((a + b).skip(2) =~= a.skip(2) + b);
    } else {
        lemma_plain_add(a.skip(1), b);
        assert((a + b).skip(1) =~= a.skip(1) + b);
    }
}

/// The characters of a text.
fn chars_of(text: &str) -> (chars: Vec<char>)
    ensures
        chars@ == text@,
{
    let mut chars: Vec<char> = Vec::new();
    for c in it: text.chars()
        invariant
            it.seq() == text@,
            chars@ == text@.take(it.index()),
    {
        chars.push(c);
        assert(text@.take(it.index() + 1) =~= text@.take(it.index()).push(c));
    }
    assert(text@.take(text@.len() as int) =~= text@);
    chars
}

/// Whether a character is a decimal digit.
fn decimal_digit(c: char) -> (is: bool)
    ensures
        is == is_decimal_digit(c),
{
    '0' <= c && c <= '9'
}

/// Whether a character is white space for the reader.
fn blank(c: char) -> (is: bool)
    ensures
        is == is_blank(c),
{
    c == ' ' || c == '\t' || c == '\r' || c == '\n'
}

/// Whether a character is special.
fn special(c: char) -> (is: bool)
    ensures
        is == is_special(c),
{
    c == '\\' || c == '.' || c == '+' || c == '*' || c == '?' || c == '(' || c == ')' || c == '|'
        || c == '[' || c == ']' || c == '{' || c == '}' || c == '^' || c == '$' || c == '#'
}

/// Whether a pattern is plain.
fn plain(pattern: &Vec<char>) -> (is: bool)
    ensures
        is == is_plain(pattern@),
{
    let mut at: usize = 0;
    assert(pattern@.skip(0) =~= pattern@);
    while at < pattern.len()
        invariant
            at <= pattern@.len(),
            is_plain(pattern@) == is_plain(pattern@.skip(at as int)),
        decreases pattern@.len() - at,
    {
        let c = pattern[at];
        assert(pattern@.skip(at as int)[0] == c);
        if c == '\\' {
            if at + 1 >= pattern.len() || !special(pattern[at + 1]) {
                return false;
            }
            assert(pattern@.skip(at as int)[1] == pattern@[at + 1]);
            assert(pattern@.skip(at as int).skip(2) =~= pattern@.skip(at + 2));
            at += 2;
        } else {
            if c == '(' || c == '{' || c == '[' {
                return false;
            }
            assert(pattern@.skip(at as int).skip(1) =~= pattern@.skip(at + 1));
            at += 1;
        }
    }
    assert(pattern@.skip(at as int).len() == 0);
    true
}

/// The position behind the digits that stand from `at` on.
fn end_of_numeral(pattern: &Vec<char>, at: usize) -> (end: usize)
    requires
        at <= pattern@.len(),
    ensures
        end == numeral_end(pattern@, at as int),
        at <= end <= pattern@.len(),
{
    let mut end: usize = at;
    while end < pattern.len() && decimal_digit(pattern[end])
        invariant
            at <= end <= pattern@.len(),
            numeral_end(pattern@, at as int) == numeral_end(pattern@, end as int),
        decreases pattern@.len() - end,
    {
        end += 1;
    }
    end
}

/// The number that digits write, or `None` where no `usize` holds it.
fn value_of_numeral(pattern: &Vec<char>, start: usize, end: usize) -> (value: Option<usize>)
    requires
        start <= end <= pattern@.len(),
        forall|i: int| start <= i < end ==> is_decimal_digit(#[trigger] pattern@[i]),
    ensures
        match value {
            Some(value) => value == numeral(pattern@, start as int, end as int),
            None => numeral(pattern@, start as int, end as int) > usize::MAX,
        },
{
    let mut value: Option<usize> = Some(0);
    let mut at: usize = start;
    while at < end
        invariant
            start <= at <= end <= pattern@.len(),
            forall|i: int| start <= i < end ==> is_decimal_digit(#[trigger] pattern@[i]),
            match value {
                Some(value) => value == numeral(pattern@, start as int, at as int),
                None => numeral(pattern@, start as int, at as int) > usize::MAX,
            },
        decreases end - at,
    {
        let digit: usize = (pattern[at] as u32 - '0' as u32) as usize;
        value = match value {
            Some(value) => match value.checked_mul(10) {
                Some(tens) => tens.checked_add(digit),
                None => None,
            },
            None => None,
        };
        at += 1;
    }
    value
}

/// The first place of a character at or behind a position, or the end.
fn find_place(pattern: &Vec<char>, at: usize, c: char) -> (place: usize)
    requires
        at <= pattern@.len(),
    ensures
        place == place_of(pattern@, at as int, c),
        at <= place <= pattern@.len(),
{
    let mut place: usize = at;
    while place < pattern.len() && pattern[place] != c
        invariant
            at <= place <= pattern@.len(),
            place_of(pattern@, at as int, c) == place_of(pattern@, place as int, c),
        decreases pattern@.len() - place,
    {
        place += 1;
    }
    place
}

/// The position behind a comment whose text starts at `at`.
fn end_of_comment(pattern: &Vec<char>, at: usize) -> (end: usize)
    requires
        at <= pattern@.len() <= MAX_PATTERN_LENGTH,
    ensures
        end == comment_end(pattern@, at as int),
        at <= end <= pattern@.len(),
{
    let mut end: usize = at;
    while end < pattern.len()
        invariant
            at <= end <= pattern@.len() <= MAX_PATTERN_LENGTH,
            comment_end(pattern@, at as int) == comment_end(pattern@, end as int),
        decreases pattern@.len() - end,
    {
        if pattern[end] == ')' {
            return end + 1;
        }
        if pattern[end] == '\\' {
            if pattern.len() - end < 2 {
                return pattern.len();
            }
            end += 1;
        }
        end += 1;
    }
    end
}

/// Whether a character stands at a position.
fn is_at(pattern: &Vec<char>, at: usize, c: char) -> (is: bool)
    ensures
        is == stands(pattern@, at as int, c),
{
    at < pattern.len() && pattern[at] == c
}

/// Whether a decimal digit stands at a position.
fn digit_at(pattern: &Vec<char>, at: usize) -> (is: bool)
    ensures
        is == (at < pattern@.len() && is_decimal_digit(pattern@[at as int])),
{
    at < pattern.len() && decimal_digit(pattern[at])
}

/// The position behind what the engine ignores.
fn skip_ignored(pattern: &Vec<char>, at: usize, ignore_space: bool) -> (end: usize)
    requires
        at <= pattern@.len() <= MAX_PATTERN_LENGTH,
    ensures
        end == behind_ignored(pattern@, at as int, ignore_space),
        at <= end <= pattern@.len(),
{
    let mut end: usize = at;
    while end < pattern.len()
        invariant_except_break
            behind_ignored(pattern@, at as int, ignore_space) == behind_ignored(
                pattern@,
                end as int,
                ignore_space,
            ),
        invariant
            at <= end <= pattern@.len() <= MAX_PATTERN_LENGTH,
        ensures
            end == behind_ignored(pattern@, at as int, ignore_space),
        decreases pattern@.len() - end,
    {
        if ignore_space && pattern[end] == '#' {
            let line = find_place(pattern, end, '\n');
            if line >= pattern.len() {
                end = line;
                break;
            }
            end = line + 1;
        } else if ignore_space && blank(pattern[end]) {
            end = end + 1;
        } else if is_at(pattern, end, '(') && is_at(pattern, end + 1, '?') && is_at(
            pattern,
            end + 2,
            '#',
        ) {
            end = end_of_comment(pattern, end + 3);
        } else {
            break;
        }
    }
    end
}

/// The count that the digits from `at` on write, with the position behind them.
fn read_count(pattern: &Vec<char>, at: usize) -> (count: (usize, usize))
    requires
        at <= pattern@.len(),
    ensures
        count.0 == upper_count(pattern@, at as int).0,
        count.1 == upper_count(pattern@, at as int).1,
        at <= count.0 <= pattern@.len(),
{
    let end = end_of_numeral(pattern, at);
    proof {
        lemma_numeral_end(pattern@, at as int);
    }
    if end > at {
        if let Some(value) = value_of_numeral(pattern, at, end) {
            return (end, value);
        }
    }
    (at, 0)
}

/// The count in braces at `at`: the position behind it, the least and the greatest number
/// of rounds.
fn read_braces(pattern: &Vec<char>, at: usize, ignore_space: bool) -> (count: Option<
    (usize, usize, usize),
>)
    requires
        at < pattern@.len() <= MAX_PATTERN_LENGTH,
    ensures
        match (count, count_at(pattern@, at as int, ignore_space)) {
            (Some((end, least, greatest)), Some((expected, lower, upper))) => {
                &&& end == expected
                &&& least == lower
                &&& greatest == upper
                &&& at < end <= pattern@.len()
            },
            (None, None) => true,
            _ => false,
        },
{
    let start = skip_ignored(pattern, at + 1, ignore_space);
    let (end, least) = read_count(pattern, start);
    if !(start < end || is_at(pattern, start, ',')) {
        return None;
    }
    let comma = skip_ignored(pattern, end, ignore_space);
    if is_at(pattern, comma, '}') {
        return Some((comma + 1, least, least));
    }
    if !is_at(pattern, comma, ',') {
        return None;
    }
    let (end, greatest) = read_count(pattern, skip_ignored(pattern, comma + 1, ignore_space));
    let close = skip_ignored(pattern, end, ignore_space);
    if is_at(pattern, close, '}') {
        Some((close + 1, least, greatest))
    } else {
        None
    }
}

/// The first place of a character that ends or may end what stands in braces, or the end.
fn end_of_braces(pattern: &Vec<char>, at: usize) -> (end: usize)
    requires
        at <= pattern@.len(),
    ensures
        end == brace_end(pattern@, at as int),
        at <= end <= pattern@.len(),
{
    let mut end: usize = at;
    while end < pattern.len() && pattern[end] != '}' && pattern[end] != '(' && pattern[end] != '#'
        invariant
            at <= end <= pattern@.len(),
            brace_end(pattern@, at as int) == brace_end(pattern@, end as int),
        decreases pattern@.len() - end,
    {
        end += 1;
    }
    end
}

/// The position behind an escape sequence that is no reference. `None` where a comment
/// stands in it.
fn end_of_escape(pattern: &Vec<char>, at: usize) -> (end: Option<usize>)
    requires
        at < pattern@.len() <= MAX_PATTERN_LENGTH,
    ensures
        match end {
            Some(end) => escape_end(pattern@, at as int) == Some(end as int) && at < end
                <= pattern@.len(),
            None => escape_end(pattern@, at as int) is None,
        },
{
    if pattern.len() - at <= 2 {
        return Some(pattern.len());
    }
    let name = pattern[at + 1];
    let first = pattern[at + 2];
    if name == 'p' || name == 'P' {
        if first != '{' {
            return Some(at + 3);
        }
        let close = find_place(pattern, at + 3, '}');
        return Some(
            if close < pattern.len() {
                close + 1
            } else {
                pattern.len()
            },
        );
    }
    if name != 'x' && name != 'u' && name != 'U' {
        return Some(at + 2);
    }
    if blank(first) || first == '(' || first == '#' {
        return None;
    }
    if first != '{' {
        return Some(at + 2);
    }
    let close = end_of_braces(pattern, at + 3);
    if close >= pattern.len() {
        Some(pattern.len())
    } else if pattern[close] == '}' {
        Some(close + 1)
    } else {
        None
    }
}

/// The position behind the class whose bracket stands at `at`.
fn end_of_class(pattern: &Vec<char>, at: usize) -> (end: Option<usize>)
    requires
        at < pattern@.len() <= MAX_PATTERN_LENGTH,
    ensures
        match end {
            Some(end) => class_from(pattern@, class_start(pattern@, at as int), 1) == Some(
                end as int,
            ) && at < end <= pattern@.len(),
            None => class_from(pattern@, class_start(pattern@, at as int), 1) is None,
        },
{
    let mut end: usize = at + 1;
    if is_at(pattern, end, '^') {
        end += 1;
    }
    if is_at(pattern, end, ']') {
        end += 1;
    }
    let ghost start = end as int;
    let mut nest: usize = 1;
    while end < pattern.len()
        invariant
            at < end <= pattern@.len() <= MAX_PATTERN_LENGTH,
            1 <= nest <= end,
            start == class_start(pattern@, at as int),
            class_from(pattern@, start, 1) == class_from(pattern@, end as int, nest as nat),
        decreases pattern@.len() - end,
    {
        let c = pattern[end];
        if c == '\\' {
            match end_of_escape(pattern, end) {
                Some(next) => {
                    end = next;
                },
                None => {
                    return None;
                },
            }
        } else {
            if c == '[' {
                nest += 1;
            } else if c == ']' {
                if nest == 1 {
                    return Some(end + 1);
                }
                nest -= 1;
            }
            end += 1;
        }
    }
    Some(end)
}

/// The first place of a character that ends a name, or the end.
fn end_of_name(pattern: &Vec<char>, at: usize, close: char, signs: bool) -> (end: usize)
    requires
        at <= pattern@.len(),
    ensures
        end == name_end(pattern@, at as int, close, signs),
        at <= end <= pattern@.len(),
{
    let mut end: usize = at;
    while end < pattern.len() && pattern[end] != close && !(signs && (pattern[end] == '+'
        || pattern[end] == '-'))
        invariant
            at <= end <= pattern@.len(),
            name_end(pattern@, at as int, close, signs) == name_end(
                pattern@,
                end as int,
                close,
                signs,
            ),
        decreases pattern@.len() - end,
    {
        end += 1;
    }
    end
}

/// The reference that starts at `at` and is closed by a character.
fn read_reference(pattern: &Vec<char>, at: usize, close: char, signs: bool) -> (reference: Option<
    Reference,
>)
    requires
        at <= pattern@.len() <= MAX_PATTERN_LENGTH,
    ensures
        reference == reference_at(pattern@, at as int, close, signs),
        reference matches Some(reference) ==> at <= reference.name_end <= reference.close
            < pattern@.len(),
{
    let end = end_of_name(pattern, at, close, signs);
    if end >= pattern.len() {
        return None;
    }
    if pattern[end] == close {
        return if end > at {
            Some(Reference { name_end: end, distance: None, forward: false, close: end })
        } else {
            None
        };
    }
    let last = end_of_numeral(pattern, end + 1);
    proof {
        lemma_numeral_end(pattern@, end + 1);
    }
    if last > end + 1 && is_at(pattern, last, close) {
        match value_of_numeral(pattern, end + 1, last) {
            Some(distance) => Some(
                Reference {
                    name_end: end,
                    distance: Some(distance),
                    forward: pattern[end] == '+',
                    close: last,
                },
            ),
            None => None,
        }
    } else {
        None
    }
}

/// The number that a reference from `at` on gives; 0 where it gives a name.
fn read_number(pattern: &Vec<char>, at: usize, reference: Reference) -> (number: usize)
    requires
        at <= reference.name_end <= pattern@.len(),
    ensures
        number == number_in(pattern@, at as int, reference),
{
    let end = end_of_numeral(pattern, at);
    proof {
        lemma_numeral_end(pattern@, at as int);
    }
    if at < reference.name_end && end == reference.name_end {
        if let Some(number) = value_of_numeral(pattern, at, end) {
            return number;
        }
    }
    0
}

/// The number of the group that a reference gives, 0 where it gives a name. `None` where a
/// number of it is out of range.
fn read_target(pattern: &Vec<char>, at: usize, reference: Reference, groups: usize) -> (found:
    Option<usize>)
    requires
        at <= reference.name_end <= pattern@.len(),
        groups <= MAX_GROUP_NUMBER,
    ensures
        match found {
            Some(found) => numbers_fit(pattern@, at as int, reference) && found == target(
                pattern@,
                at as int,
                reference,
                groups as nat,
            ),
            None => !numbers_fit(pattern@, at as int, reference),
        },
{
    let number = read_number(pattern, at, reference);
    if number > MAX_GROUP_NUMBER {
        return None;
    }
    match reference.distance {
        Some(distance) => if distance > MAX_GROUP_NUMBER {
            None
        } else if at < reference.name_end {
            Some(number)
        } else if reference.forward {
            Some(groups + distance)
        } else if distance <= groups {
            Some(groups + 1 - distance)
        } else {
            Some(0)
        },
        None => Some(number),
    }
}

/// Whether the characters of two ranges of a pattern are the same.
fn same_range(pattern: &Vec<char>, a: usize, b: usize, c: usize, d: usize) -> (same: bool)
    requires
        a <= b <= pattern@.len(),
        c <= d <= pattern@.len(),
    ensures
        same == (pattern@.subrange(a as int, b as int) == pattern@.subrange(c as int, d as int)),
{
    if b - a != d - c {
        assert(pattern@.subrange(a as int, b as int).len() != pattern@.subrange(
            c as int,
            d as int,
        ).len());
        return false;
    }
    let mut i: usize = 0;
    while i < b - a
        invariant
            a <= b <= pattern@.len(),
            c <= d <= pattern@.len(),
            b - a == d - c,
            i <= b - a,
            forall|k: int|
                0 <= k < i ==> pattern@.subrange(a as int, b as int)[k]
                    == #[trigger] pattern@.subrange(c as int, d as int)[k],
        decreases b - a - i,
    {
        if pattern[a + i] != pattern[c + i] {
            assert(pattern@.subrange(a as int, b as int)[i as int] != pattern@.subrange(
                c as int,
                d as int,
            )[i as int]);
            return false;
        }
        i += 1;
    }
    assert(pattern@.subrange(a as int, b as int) =~= pattern@.subrange(c as int, d as int));
    true
}

/// The names of the groups stand in the pattern.
spec fn names_stand(pattern: Seq<char>, frames: Seq<Frame>) -> bool {
    forall|i: int|
        0 <= i < frames.len() ==> (#[trigger] frames[i]).name_start <= frames[i].name_end
            <= pattern.len()
}

/// Whether a group has the number or the name.
fn has_name(
    pattern: &Vec<char>,
    frame: &Frame,
    number: usize,
    name_start: usize,
    name_end: usize,
) -> (has: bool)
    requires
        frame.name_start <= frame.name_end <= pattern@.len(),
        name_start <= name_end <= pattern@.len(),
    ensures
        has == is_named(pattern@, *frame, number as nat, name_start as int, name_end as int),
{
    number > 0 && frame.number == number || name_start < name_end && frame.name_start
        < frame.name_end && same_range(
        pattern,
        frame.name_start,
        frame.name_end,
        name_start,
        name_end,
    )
}

/// Whether one of the open groups has the number or the name.
fn has_open(
    pattern: &Vec<char>,
    s: &Scan,
    outer: &Vec<Frame>,
    number: usize,
    name_start: usize,
    name_end: usize,
) -> (open: bool)
    requires
        names_stand(pattern@, outer@),
        s.top.name_start <= s.top.name_end <= pattern@.len(),
        name_start <= name_end <= pattern@.len(),
    ensures
        open == is_open(
            pattern@,
            outer@.push(s.top),
            number as nat,
            name_start as int,
            name_end as int,
        ),
{
    let ghost frames = outer@.push(s.top);
    let mut i: usize = 0;
    while i < outer.len()
        invariant
            i <= outer@.len(),
            frames == outer@.push(s.top),
            names_stand(pattern@, outer@),
            name_start <= name_end <= pattern@.len(),
            forall|k: int|
                0 <= k < i ==> !is_named(
                    pattern@,
                    #[trigger] frames[k],
                    number as nat,
                    name_start as int,
                    name_end as int,
                ),
        decreases outer@.len() - i,
    {
        if has_name(pattern, &outer[i], number, name_start, name_end) {
            assert(frames[i as int] == outer@[i as int]);
            return true;
        }
        i += 1;
    }
    assert(frames[outer@.len() as int] == s.top);
    has_name(pattern, &s.top, number, name_start, name_end)
}

/// What reading a token comes to, without the groups around the last one.
enum Verdict {
    Refused,
    Done,
    Next(Scan),
}

/// The verdict says what a step comes to, and the groups are those around.
spec fn tells(verdict: Verdict, outer: Seq<Frame>, expected: Step) -> bool {
    match (verdict, expected) {
        (Verdict::Refused, Step::Refused) => true,
        (Verdict::Done, Step::Done) => true,
        (Verdict::Next(s), Step::Next(next, around)) => s == next && outer == around,
        _ => false,
    }
}

/// How far a pattern has been read, as far as it has to be known to go on.
spec fn scan_wf(pattern: Seq<char>, s: Scan, outer: Seq<Frame>) -> bool {
    &&& s.at <= pattern.len() <= MAX_PATTERN_LENGTH
    &&& s.groups <= MAX_GROUP_NUMBER
    &&& names_stand(pattern, outer)
    &&& s.top.name_start <= s.top.name_end <= pattern.len()
}

/// Where reading goes on, it goes on behind the position, with what has to be known.
spec fn goes_on(pattern: Seq<char>, verdict: Verdict, outer: Seq<Frame>, at: int) -> bool {
    match verdict {
        Verdict::Next(s) => at < s.at && scan_wf(pattern, s, outer),
        _ => true,
    }
}

/// The group that was opened last, with the last item taken in.
fn settle(s: &Scan) -> (frame: Frame)
    ensures
        frame == settled(*s),
{
    Frame { moves: s.top.moves || s.last_moves, ..s.top }
}

/// A group without a number or a name, in which the flags stay as they are.
fn new_group(s: &Scan) -> (frame: Frame)
    ensures
        frame == plain_group(*s),
{
    Frame {
        number: 0,
        name_start: 0,
        name_end: 0,
        size: 0,
        moves: false,
        others_move: true,
        looks: false,
        behind: s.top.behind,
        restores: false,
        ignore_space: s.ignore_space,
        ignore_case: s.ignore_case,
    }
}

/// An item of the given size has been read, up to `at`.
fn add_item(s: &Scan, size: usize, moves: bool, at: usize, Ghost(outer): Ghost<Seq<Frame>>) -> (
verdict: Verdict)
    ensures
        tells(verdict, outer, with_item(*s, outer, size as nat, moves, at as int)),
        verdict matches Verdict::Next(next) ==> next.at == at && next.groups == s.groups
            && next.top.name_start == s.top.name_start && next.top.name_end == s.top.name_end,
{
    match (s.total.checked_add(size), s.top.size.checked_add(size)) {
        (Some(total), Some(whole)) => Verdict::Next(
            Scan {
                at,
                total,
                last: size,
                last_moves: moves,
                top: Frame { size: whole, ..settle(s) },
                ..*s
            },
        ),
        _ => Verdict::Refused,
    }
}

/// The last item is repeated by a count that ends before `at`.
fn add_count(
    s: &Scan,
    least: usize,
    greatest: usize,
    at: usize,
    Ghost(outer): Ghost<Seq<Frame>>,
) -> (verdict: Verdict)
    requires
        s.at <= at,
    ensures
        tells(verdict, outer, with_count(*s, outer, least as nat, greatest as nat, at as int)),
        verdict matches Verdict::Next(next) ==> next.at == at && next.groups == s.groups
            && next.top.name_start == s.top.name_start && next.top.name_end == s.top.name_end,
{
    let rounds = if s.top.behind && greatest > least {
        greatest
    } else {
        least
    };
    let product = match s.last.checked_mul(rounds) {
        Some(product) => product,
        None => {
            return Verdict::Refused;
        },
    };
    if s.top.behind && product > MAX_BEHIND || !s.last_moves && product > MAX_ROUNDS {
        return Verdict::Refused;
    }
    proof {
        assert(rounds >= 1 ==> s.last * rounds >= s.last) by (nonlinear_arith);
        assert(rounds == 0 ==> s.last * rounds == 0) by (nonlinear_arith);
    }
    let extra: usize = if rounds == 0 {
        0
    } else {
        product - s.last
    };
    let more = match extra.checked_add(at - s.at) {
        Some(more) => more,
        None => {
            return Verdict::Refused;
        },
    };
    match (s.total.checked_add(more), s.top.size.checked_add(more)) {
        (Some(total), Some(whole)) => Verdict::Next(
            Scan {
                at,
                total,
                last: 0,
                last_moves: s.last_moves && least > 0,
                top: Frame { size: whole, ..s.top },
                ..*s
            },
        ),
        _ => Verdict::Refused,
    }
}

/// A group is opened, of which the characters from `at` on stand inside.
fn add_group(
    pattern: &Vec<char>,
    s: &Scan,
    outer: &mut Vec<Frame>,
    frame: Frame,
    at: usize,
) -> (verdict: Verdict)
    requires
        scan_wf(pattern@, *s, old(outer)@),
        s.at < at <= pattern@.len(),
        frame.name_start <= frame.name_end <= pattern@.len(),
    ensures
        tells(verdict, final(outer)@, with_group(*s, old(outer)@, frame, at as int)),
        goes_on(pattern@, verdict, final(outer)@, s.at as int),
{
    if frame.number > MAX_GROUP_NUMBER {
        return Verdict::Refused;
    }
    outer.push(settle(s));
    Verdict::Next(
        Scan {
            at,
            groups: if frame.number > 0 {
                frame.number
            } else {
                s.groups
            },
            last: 0,
            last_moves: false,
            top: frame,
            ..*s
        },
    )
}

/// The group that was opened last is closed before `at`.
fn close_group(pattern: &Vec<char>, s: &Scan, outer: &mut Vec<Frame>, at: usize) -> (verdict:
    Verdict)
    requires
        scan_wf(pattern@, *s, old(outer)@),
        s.at < at <= pattern@.len(),
    ensures
        tells(verdict, final(outer)@, closed(*s, old(outer)@, at as int)),
        goes_on(pattern@, verdict, final(outer)@, s.at as int),
{
    if outer.len() == 0 {
        return Verdict::Done;
    }
    let ghost before = outer@;
    let parent = outer[outer.len() - 1];
    assert(parent == before.last());
    let (total, last) = match (s.total.checked_add(1), s.top.size.checked_add(1)) {
        (Some(total), Some(last)) => (total, last),
        _ => {
            return Verdict::Refused;
        },
    };
    let size = match parent.size.checked_add(last) {
        Some(size) => size,
        None => {
            return Verdict::Refused;
        },
    };
    outer.pop();
    assert(outer@ =~= before.drop_last());
    Verdict::Next(
        Scan {
            at,
            total,
            last,
            last_moves: !s.top.looks && s.top.others_move && (s.top.moves || s.last_moves),
            ignore_space: if s.top.restores {
                s.top.ignore_space
            } else {
                s.ignore_space
            },
            ignore_case: if s.top.restores {
                s.top.ignore_case
            } else {
                s.ignore_case
            },
            top: Frame { size, ..parent },
            ..*s
        },
    )
}

/// A reference to what a group matched ends before `at`.
fn add_reference(
    pattern: &Vec<char>,
    s: &Scan,
    outer: &Vec<Frame>,
    number: usize,
    name_start: usize,
    name_end: usize,
    at: usize,
) -> (verdict: Verdict)
    requires
        scan_wf(pattern@, *s, outer@),
        name_start <= name_end <= pattern@.len(),
        s.at < at <= pattern@.len(),
    ensures
        tells(
            verdict,
            outer@,
            with_reference(
                pattern@,
                *s,
                outer@,
                number as nat,
                name_start as int,
                name_end as int,
                at as int,
            ),
        ),
        goes_on(pattern@, verdict, outer@, s.at as int),
{
    if s.ignore_case || has_open(pattern, s, outer, number, name_start, name_end) {
        return Verdict::Refused;
    }
    match s.total.checked_add(1) {
        Some(size) => add_item(s, size, false, at, Ghost(outer@)),
        None => Verdict::Refused,
    }
}

/// The reference or call by name at the backslash `at`.
fn read_named(pattern: &Vec<char>, s: &Scan, outer: &Vec<Frame>, at: usize) -> (verdict: Verdict)
    requires
        scan_wf(pattern@, *s, outer@),
        s.at <= at,
        at + 1 < pattern@.len(),
    ensures
        tells(verdict, outer@, named_step(pattern@, *s, outer@, at as int)),
        goes_on(pattern@, verdict, outer@, s.at as int),
{
    let call = pattern[at + 1] == 'g';
    if call && digit_at(pattern, at + 2) {
        return add_item(s, 1, false, at + 2, Ghost(outer@));
    }
    let quote = is_at(pattern, at + 2, '\'');
    if !quote && !is_at(pattern, at + 2, '<') {
        return Verdict::Done;
    }
    let close = if quote {
        '\''
    } else {
        '>'
    };
    let reference = match read_reference(pattern, at + 3, close, true) {
        Some(reference) => reference,
        None => {
            return Verdict::Done;
        },
    };
    match read_target(pattern, at + 3, reference, s.groups) {
        Some(number) => if call {
            add_item(s, 1, false, reference.close + 1, Ghost(outer@))
        } else {
            add_reference(
                pattern,
                s,
                outer,
                number,
                at + 3,
                reference.name_end,
                reference.close + 1,
            )
        },
        None => Verdict::Refused,
    }
}

/// The word boundary at the backslash `at`, with what it names in braces.
fn read_boundary(pattern: &Vec<char>, s: &Scan, at: usize, Ghost(outer): Ghost<Seq<Frame>>) -> (
verdict: Verdict)
    requires
        scan_wf(pattern@, *s, outer),
        s.at <= at,
        at + 1 < pattern@.len(),
    ensures
        tells(verdict, outer, boundary_step(pattern@, *s, outer, at as int)),
        goes_on(pattern@, verdict, outer, s.at as int),
{
    let brace = skip_ignored(pattern, at + 2, s.ignore_space);
    if !is_at(pattern, brace, '{') {
        return add_item(s, 1, false, at + 2, Ghost(outer));
    }
    let first = skip_ignored(pattern, brace + 1, s.ignore_space);
    if is_at(pattern, first, ',') || digit_at(pattern, first) {
        return add_item(s, 1, false, at + 2, Ghost(outer));
    }
    let close = end_of_braces(pattern, brace + 1);
    if close >= pattern.len() {
        Verdict::Done
    } else if pattern[close] == '}' {
        add_item(s, 1, false, close + 1, Ghost(outer))
    } else {
        Verdict::Refused
    }
}

/// The escape sequence at the backslash `at`.
fn read_escape(pattern: &Vec<char>, s: &Scan, outer: &Vec<Frame>, at: usize) -> (verdict: Verdict)
    requires
        scan_wf(pattern@, *s, outer@),
        s.at <= at < pattern@.len(),
    ensures
        tells(verdict, outer@, escape_step(pattern@, *s, outer@, at as int)),
        goes_on(pattern@, verdict, outer@, s.at as int),
{
    if at + 1 >= pattern.len() {
        return Verdict::Done;
    }
    let name = pattern[at + 1];
    if decimal_digit(name) {
        let end = end_of_numeral(pattern, at + 1);
        proof {
            lemma_numeral_end(pattern@, at + 1);
        }
        return match value_of_numeral(pattern, at + 1, end) {
            Some(number) if number <= MAX_GROUP_NUMBER => add_reference(
                pattern,
                s,
                outer,
                number,
                0,
                0,
                end,
            ),
            _ => Verdict::Done,
        };
    }
    if name == 'k' || name == 'g' {
        return read_named(pattern, s, outer, at);
    }
    if name == 'b' || name == 'B' {
        return read_boundary(pattern, s, at, Ghost(outer@));
    }
    if name == 'A' || name == 'z' || name == 'Z' || name == 'G' || name == 'K' || name == '<'
        || name == '>' {
        return add_item(s, 1, false, at + 2, Ghost(outer@));
    }
    match end_of_escape(pattern, at) {
        Some(end) => add_item(s, 1, true, end, Ghost(outer@)),
        None => Verdict::Refused,
    }
}

/// The position behind the flags from `at` on.
fn end_of_flags(pattern: &Vec<char>, at: usize) -> (end: usize)
    requires
        at <= pattern@.len(),
    ensures
        end == flags_end(pattern@, at as int),
        at <= end <= pattern@.len(),
{
    let mut end: usize = at;
    while end < pattern.len() && (pattern[end] == 'i' || pattern[end] == 'm' || pattern[end] == 's'
        || pattern[end] == 'U' || pattern[end] == 'x' || pattern[end] == 'u' || pattern[end]
        == '-')
        invariant
            at <= end <= pattern@.len(),
            flags_end(pattern@, at as int) == flags_end(pattern@, end as int),
        decreases pattern@.len() - end,
    {
        end += 1;
    }
    end
}

/// What the flags at `start..end` make of one of them.
fn read_flag(pattern: &Vec<char>, start: usize, end: usize, flag: char, before: bool) -> (is: bool)
    requires
        start <= end <= pattern@.len(),
    ensures
        is == flag_behind(pattern@, start as int, end as int, flag, before),
{
    let minus = find_place(pattern, start, '-');
    let mut at: usize = end;
    while at > start
        invariant
            start <= at <= end <= pattern@.len(),
            minus == place_of(pattern@, start as int, '-'),
            flag_behind(pattern@, start as int, end as int, flag, before) == flag_behind(
                pattern@,
                start as int,
                at as int,
                flag,
                before,
            ),
        decreases at - start,
    {
        if pattern[at - 1] == flag {
            return minus >= at - 1;
        }
        at -= 1;
    }
    before
}

/// The group with a name that starts at `at`.
fn read_name(
    pattern: &Vec<char>,
    s: &Scan,
    outer: &mut Vec<Frame>,
    at: usize,
    close: char,
) -> (verdict: Verdict)
    requires
        scan_wf(pattern@, *s, old(outer)@),
        s.at < at <= pattern@.len(),
    ensures
        tells(
            verdict,
            final(outer)@,
            name_step(pattern@, *s, old(outer)@, at as int, close),
        ),
        goes_on(pattern@, verdict, final(outer)@, s.at as int),
{
    if s.groups >= MAX_GROUP_NUMBER {
        return Verdict::Refused;
    }
    let end = find_place(pattern, at, close);
    if end >= pattern.len() {
        return Verdict::Done;
    }
    let frame = Frame { number: s.groups + 1, name_start: at, name_end: end, ..new_group(s) };
    add_group(pattern, s, outer, frame, end + 1)
}

/// The condition that starts at `at`.
fn read_condition(pattern: &Vec<char>, s: &Scan, outer: &mut Vec<Frame>, at: usize) -> (verdict:
    Verdict)
    requires
        scan_wf(pattern@, *s, old(outer)@),
        s.at < at <= pattern@.len(),
    ensures
        tells(verdict, final(outer)@, condition_step(pattern@, *s, old(outer)@, at as int)),
        goes_on(pattern@, verdict, final(outer)@, s.at as int),
{
    if at >= pattern.len() {
        return Verdict::Done;
    }
    let choice = Frame { looks: true, ..new_group(s) };
    let c = pattern[at];
    let quoted = c == '\'' || c == '<';
    if quoted || c == '+' || c == '-' || decimal_digit(c) {
        let start = if quoted {
            at + 1
        } else {
            at
        };
        let close = if c == '\'' {
            '\''
        } else if c == '<' {
            '>'
        } else {
            ')'
        };
        let reference = match read_reference(pattern, start, close, true) {
            Some(reference) => reference,
            None => {
                return Verdict::Done;
            },
        };
        if read_target(pattern, start, reference, s.groups).is_none() {
            return Verdict::Refused;
        }
        if !quoted {
            return add_group(pattern, s, outer, choice, reference.close + 1);
        }
        return if is_at(pattern, reference.close + 1, ')') {
            add_group(pattern, s, outer, choice, reference.close + 2)
        } else {
            Verdict::Done
        };
    }
    outer.push(settle(s));
    outer.push(choice);
    Verdict::Next(Scan { at, last: 0, last_moves: false, top: choice, ..*s })
}

/// The flags that start at `at`: for the rest, or for a group.
fn read_flags(pattern: &Vec<char>, s: &Scan, outer: &mut Vec<Frame>, at: usize) -> (verdict:
    Verdict)
    requires
        scan_wf(pattern@, *s, old(outer)@),
        s.at < at <= pattern@.len(),
    ensures
        tells(verdict, final(outer)@, flags_step(pattern@, *s, old(outer)@, at as int)),
        goes_on(pattern@, verdict, final(outer)@, s.at as int),
{
    let end = end_of_flags(pattern, at);
    if end >= pattern.len() {
        return Verdict::Done;
    }
    let c = pattern[end];
    let flagged = Scan {
        ignore_space: read_flag(pattern, at, end, 'x', s.ignore_space),
        ignore_case: read_flag(pattern, at, end, 'i', s.ignore_case),
        ..*s
    };
    if c == ')' {
        Verdict::Next(
            Scan { at: end + 1, last: 0, last_moves: false, top: settle(s), ..flagged },
        )
    } else if c == ':' {
        let frame = Frame { restores: true, ..new_group(s) };
        add_group(pattern, &flagged, outer, frame, end + 1)
    } else if blank(c) || c == '(' || c == '#' {
        Verdict::Refused
    } else {
        Verdict::Done
    }
}

/// The group whose bracket stands before `at`.
fn read_group(pattern: &Vec<char>, s: &Scan, outer: &mut Vec<Frame>, at: usize) -> (verdict:
    Verdict)
    requires
        scan_wf(pattern@, *s, old(outer)@),
        s.at < at <= pattern@.len(),
    ensures
        tells(verdict, final(outer)@, group_step(pattern@, *s, old(outer)@, at as int)),
        goes_on(pattern@, verdict, final(outer)@, s.at as int),
{
    let head = skip_ignored(pattern, at, s.ignore_space);
    let plain = new_group(s);
    if !is_at(pattern, head, '?') {
        if s.groups >= MAX_GROUP_NUMBER {
            return Verdict::Refused;
        }
        return add_group(pattern, s, outer, Frame { number: s.groups + 1, ..plain }, head);
    }
    let first = head + 1;
    let second = head + 2;
    if is_at(pattern, first, '=') || is_at(pattern, first, '!') {
        return add_group(pattern, s, outer, Frame { looks: true, ..plain }, second);
    }
    if is_at(pattern, first, '<') && (is_at(pattern, second, '=') || is_at(pattern, second, '!')) {
        return add_group(
            pattern,
            s,
            outer,
            Frame { looks: true, behind: true, ..plain },
            head + 3,
        );
    }
    if is_at(pattern, first, '<') {
        return read_name(pattern, s, outer, second, '>');
    }
    if is_at(pattern, first, '\'') {
        return read_name(pattern, s, outer, second, '\'');
    }
    if is_at(pattern, first, 'P') && is_at(pattern, second, '<') {
        return read_name(pattern, s, outer, head + 3, '>');
    }
    if is_at(pattern, first, 'P') && is_at(pattern, second, '=') {
        let reference = match read_reference(pattern, head + 3, ')', false) {
            Some(reference) => reference,
            None => {
                return Verdict::Done;
            },
        };
        return match read_target(pattern, head + 3, reference, s.groups) {
            Some(number) => add_reference(
                pattern,
                s,
                outer,
                number,
                head + 3,
                reference.name_end,
                reference.close + 1,
            ),
            None => Verdict::Refused,
        };
    }
    if is_at(pattern, first, 'P') && is_at(pattern, second, '>') {
        let close = find_place(pattern, head + 3, ')');
        if close >= pattern.len() {
            return Verdict::Done;
        }
        return add_item(s, 1, false, close + 1, Ghost(outer@));
    }
    if is_at(pattern, first, '>') {
        return add_group(pattern, s, outer, plain, second);
    }
    if is_at(pattern, first, '(') {
        return read_condition(pattern, s, outer, second);
    }
    read_flags(pattern, s, outer, first)
}

/// The next token of a pattern.
fn read_token(pattern: &Vec<char>, s: &Scan, outer: &mut Vec<Frame>) -> (verdict: Verdict)
    requires
        scan_wf(pattern@, *s, old(outer)@),
    ensures
        tells(verdict, final(outer)@, step(pattern@, *s, old(outer)@)),
        goes_on(pattern@, verdict, final(outer)@, s.at as int),
{
    let at = skip_ignored(pattern, s.at, s.ignore_space);
    if at >= pattern.len() {
        return Verdict::Done;
    }
    let c = pattern[at];
    if c == '\\' {
        read_escape(pattern, s, outer, at)
    } else if c == '[' {
        match end_of_class(pattern, at) {
            Some(end) => add_item(s, 1, true, end, Ghost(outer@)),
            None => Verdict::Refused,
        }
    } else if c == '(' {
        read_group(pattern, s, outer, at + 1)
    } else if c == ')' {
        close_group(pattern, s, outer, at + 1)
    } else if c == '|' {
        Verdict::Next(
            Scan {
                at: at + 1,
                last: 0,
                last_moves: false,
                top: Frame {
                    moves: false,
                    others_move: s.top.others_move && (s.top.moves || s.last_moves),
                    ..s.top
                },
                ..*s
            },
        )
    } else if c == '?' || c == '*' {
        Verdict::Next(Scan { at: at + 1, last: 0, last_moves: false, ..*s })
    } else if c == '+' {
        Verdict::Next(Scan { at: at + 1, last: 0, ..*s })
    } else if c == '{' && s.last > 0 {
        match read_braces(pattern, at, s.ignore_space) {
            Some((end, least, greatest)) => add_count(s, least, greatest, end, Ghost(outer@)),
            None => add_item(s, 1, true, at + 1, Ghost(outer@)),
        }
    } else {
        add_item(s, 1, c != '^' && c != '$', at + 1, Ghost(outer@))
    }
}

/// Whether the engine can take a pattern, and search any text with it.
pub fn has_fitting_pattern(pattern: &str) -> (fits: bool)
    ensures
        fits == pattern_fits(pattern@),
{
    let chars = chars_of(pattern);
    if plain(&chars) {
        return true;
    }
    if chars.len() > MAX_PATTERN_LENGTH {
        return false;
    }
    let mut outer: Vec<Frame> = Vec::new();
    let mut s = Scan {
        at: 0,
        groups: 0,
        total: 0,
        last: 0,
        last_moves: false,
        ignore_space: false,
        ignore_case: false,
        top: Frame {
            number: 0,
            name_start: 0,
            name_end: 0,
            size: 0,
            moves: false,
            others_move: true,
            looks: false,
            behind: false,
            restores: false,
            ignore_space: false,
            ignore_case: false,
        },
    };
    assert(outer@ =~= Seq::<Frame>::empty());
    loop
        invariant
            chars@ == pattern@,
            !is_plain(chars@),
            scan_wf(chars@, s, outer@),
            fits_from(chars@, unread(), Seq::empty()) == fits_from(chars@, s, outer@),
        decreases chars@.len() - s.at,
    {
        match read_token(&chars, &s, &mut outer) {
            Verdict::Refused => {
                return false;
            },
            Verdict::Done => {
                return true;
            },
            Verdict::Next(next) => {
                s = next;
            },
        }
    }
}

} // verus!
