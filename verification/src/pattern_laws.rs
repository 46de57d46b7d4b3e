//! Which patterns can always be taken.
use vstd::prelude::*;

use crate::limits::{
    Frame, MAX_PATTERN_LENGTH, Scan, Step, behind_ignored, class_from,
    class_start, count_at, escape_end, fits_from, flag_behind, flags_end, group_step, is_plain,
    lemma_escape_end, numeral_end, pattern_fits, stands, step, unread,
};
use crate::pattern::{alternatives, lemma_alternatives_plain};

verus! {

/// The pattern holds no number, no comment, no reference and no code point, and its groups
/// are plain ones, look ahead or behind, are atomic, or disregard case: no digit and no `#`
/// stands in it; behind a backslash stand none of the letters of a reference or a code
/// point, and no brace behind a word boundary; and what stands behind a bracket with a
/// question mark is one of `:`, `=`, `!`, `>`, `<=`, `<!` and `i:`.
pub open spec fn is_without_numbers(pattern: Seq<char>) -> bool {
    &&& forall|i: int|
        0 <= i < pattern.len() ==> !('0' <= #[trigger] pattern[i] <= '9') && pattern[i] != '#'
    &&& forall|i: int|
        0 <= i < pattern.len() - 1 && #[trigger] pattern[i] == '\\' ==> pattern[i + 1] != 'k'
            && pattern[i + 1] != 'g' && pattern[i + 1] != 'x' && pattern[i + 1] != 'u' && pattern[i
            + 1] != 'U' && !((pattern[i + 1] == 'b' || pattern[i + 1] == 'B') && i + 2
            < pattern.len() && pattern[i + 2] == '{')
    &&& forall|i: int|
        0 <= i < pattern.len() - 1 && #[trigger] pattern[i] == '(' && pattern[i + 1] == '?' ==> {
            ||| i + 2 < pattern.len() && (pattern[i + 2] == ':' || pattern[i + 2] == '='
                || pattern[i + 2] == '!' || pattern[i + 2] == '>')
            ||| i + 3 < pattern.len() && pattern[i + 2] == '<' && (pattern[i + 3] == '='
                || pattern[i + 3] == '!')
            ||| i + 3 < pattern.len() && pattern[i + 2] == 'i' && pattern[i + 3] == ':'
        }
}

/// The sizes of the groups that are open, added up.
spec fn sizes(frames: Seq<Frame>) -> int
    decreases frames.len(),
{
    if frames.len() == 0 {
        0
    } else {
        sizes(frames.drop_last()) + frames.last().size
    }
}

/// Reading has not met anything that could go out of range.
spec fn is_small(pattern: Seq<char>, s: Scan, outer: Seq<Frame>) -> bool {
    &&& s.at <= pattern.len()
    &&& s.total <= s.at
    &&& s.groups <= s.at
    &&& sizes(outer) + s.top.size <= s.at
    &&& !s.ignore_space
    &&& !s.top.ignore_space
    &&& forall|i: int| 0 <= i < outer.len() ==> !(#[trigger] outer[i]).ignore_space
}

/// Nothing is ignored.
proof fn lemma_nothing_ignored(pattern: Seq<char>, at: int)
    requires
        is_without_numbers(pattern),
        0 <= at,
    ensures
        behind_ignored(pattern, at, false) == at,
{
    if at + 2 < pattern.len() {
        let c = pattern[at + 2];
    }
}

/// A class can be read.
proof fn lemma_class_is_read(pattern: Seq<char>, at: int, nest: nat)
    requires
        is_without_numbers(pattern),
        0 <= at,
    ensures
        class_from(pattern, at, nest) matches Some(end) && (at < pattern.len() ==> at < end)
            && end <= pattern.len(),
    decreases pattern.len() - at,
{
    if at < pattern.len() {
        if pattern[at] == '\\' {
            lemma_escape_end(pattern, at);
            lemma_class_is_read(pattern, escape_end(pattern, at)->0, nest);
        } else if pattern[at] == '[' {
            lemma_class_is_read(pattern, at + 1, nest + 1);
        } else if pattern[at] == ']' {
            if nest > 1 {
                lemma_class_is_read(pattern, at + 1, (nest - 1) as nat);
            }
        } else {
            lemma_class_is_read(pattern, at + 1, nest);
        }
    }
}

/// No size lies below zero.
proof fn lemma_sizes(frames: Seq<Frame>)
    ensures
        sizes(frames) >= 0,
    decreases frames.len(),
{
    if frames.len() > 0 {
        lemma_sizes(frames.drop_last());
    }
}

/// A bracket opens a group that can be taken.
proof fn lemma_group_is_small(pattern: Seq<char>, s: Scan, outer: Seq<Frame>)
    requires
        is_without_numbers(pattern),
        pattern.len() <= MAX_PATTERN_LENGTH,
        is_small(pattern, s, outer),
        s.at < pattern.len(),
        pattern[s.at as int] == '(',
    ensures
        group_step(pattern, s, outer, s.at + 1) matches Step::Next(next, around) && s.at < next.at
            && is_small(pattern, next, around),
{
    let at = s.at as int;
    let head = at + 1;
    lemma_nothing_ignored(pattern, head);
    lemma_sizes(outer);
    if stands(pattern, head, '?') && !(stands(pattern, head + 1, '=') || stands(
        pattern,
        head + 1,
        '!',
    ) || stands(pattern, head + 1, '<') || stands(pattern, head + 1, '>')) {
        assert(flags_end(pattern, head + 1) == if pattern[head + 1] == 'i' {
            head + 2
        } else {
            head + 1
        }) by {
            reveal_with_fuel(flags_end, 3);
        }
        reveal_with_fuel(flag_behind, 3);
    }
    if let Step::Next(next, around) = group_step(pattern, s, outer, head) {
        assert(around.drop_last() =~= outer);
    }
}

/// A token of a pattern without numbers can be taken.
proof fn lemma_step_is_small(pattern: Seq<char>, s: Scan, outer: Seq<Frame>)
    requires
        is_without_numbers(pattern),
        pattern.len() <= MAX_PATTERN_LENGTH,
        is_small(pattern, s, outer),
    ensures
        match step(pattern, s, outer) {
            Step::Refused => false,
            Step::Done => true,
            Step::Next(next, around) => s.at < next.at && is_small(pattern, next, around),
        },
{
    let at = s.at as int;
    lemma_nothing_ignored(pattern, at);
    lemma_sizes(outer);
    if at < pattern.len() {
        let c = pattern[at];
        if c == '\\' {
            if at + 1 < pattern.len() {
                let name = pattern[at + 1];
                lemma_escape_end(pattern, at);
                lemma_nothing_ignored(pattern, at + 2);
            }
        } else if c == '[' {
            lemma_class_is_read(pattern, class_start(pattern, at), 1);
        } else if c == '(' {
            lemma_group_is_small(pattern, s, outer);
        } else if c == ')' {
            if outer.len() > 0 {
                lemma_sizes(outer.drop_last());
                let parent = outer[outer.len() - 1];
            }
        } else if c == '{' {
            lemma_nothing_ignored(pattern, at + 1);
            lemma_nothing_ignored(pattern, at + 2);
            if at + 1 < pattern.len() {
                let first = pattern[at + 1];
            }
            if at + 2 < pattern.len() {
                let second = pattern[at + 2];
            }
            assert(numeral_end(pattern, at + 1) == at + 1);
            assert(numeral_end(pattern, at + 2) == at + 2);
            assert(count_at(pattern, at, false) matches Some((end, least, greatest)) ==> end == at
                + 3 && end <= pattern.len() && least == 0 && greatest == 0);
        }
    }
}

/// The rest of a pattern without numbers can be taken.
proof fn lemma_rest_is_small(pattern: Seq<char>, s: Scan, outer: Seq<Frame>)
    requires
        is_without_numbers(pattern),
        pattern.len() <= MAX_PATTERN_LENGTH,
        is_small(pattern, s, outer),
    ensures
        fits_from(pattern, s, outer),
    decreases pattern.len() - s.at,
{
    lemma_step_is_small(pattern, s, outer);
    if let Step::Next(next, around) = step(pattern, s, outer) {
        lemma_rest_is_small(pattern, next, around);
    }
}

/// A pattern without numbers, comments, references and code points can always be taken,
/// whatever groups, classes, properties and repetitions stand in it.
pub proof fn law_pattern_without_numbers_fits(pattern: Seq<char>)
    requires
        is_without_numbers(pattern),
        pattern.len() <= 0x7fff_ffff,
    ensures
        pattern_fits(pattern),
{
    lemma_rest_is_small(pattern, unread(), Seq::empty());
}

/// A pattern without backslashes, groups, classes and counts can always be taken.
pub proof fn law_simple_pattern_fits(pattern: Seq<char>)
    requires
        forall|i: int|
            0 <= i < pattern.len() ==> (#[trigger] pattern[i]) != '\\' && pattern[i] != '('
                && pattern[i] != '[' && pattern[i] != '{',
    ensures
        pattern_fits(pattern),
{
    lemma_simple_is_plain(pattern);
}

/// A pattern of ordinary characters is plain.
proof fn lemma_simple_is_plain(pattern: Seq<char>)
    requires
        forall|i: int|
            0 <= i < pattern.len() ==> (#[trigger] pattern[i]) != '\\' && pattern[i] != '('
                && pattern[i] != '[' && pattern[i] != '{',
    ensures
        is_plain(pattern),
    decreases pattern.len(),
{
    if pattern.len() > 0 {
        let rest = pattern.skip(1);
        let first = pattern[0];
        assert forall|i: int| 0 <= i < rest.len() implies (#[trigger] rest[i]) != '\\' && rest[i]
            != '(' && rest[i] != '[' && rest[i] != '{' by {
            assert(rest[i] == pattern[i + 1]);
        }
        lemma_simple_is_plain(rest);
    }
}

/// The pattern of special tokens can always be taken, whatever they are.
pub proof fn law_special_pattern_fits(order: Seq<Seq<char>>)
    ensures
        pattern_fits(alternatives(order)),
{
    lemma_alternatives_plain(order);
}

} // verus!
