//! Cutting a text into lines and words.
use vstd::prelude::*;
use vstd::string::*;
use vstd::utf8::*;

use crate::text::{is_white_space, lemma_same_bytes, white_space};

verus! {

/// What the characters of a run have in common.
#[derive(Clone, Copy)]
pub enum Run {
    /// They part words.
    Space,
    /// They do not part words.
    Word,
    /// They are not line feeds.
    Line,
}

/// The character parts words: it is white space to Unicode, or one of the four separators
/// of files, groups, records and units.
pub open spec fn parts_words(c: char) -> bool {
    is_white_space(c) || 0x1c <= c as u32 <= 0x1f
}

/// The character belongs to a run.
pub open spec fn in_run(run: Run, c: char) -> bool {
    match run {
        Run::Space => parts_words(c),
        Run::Word => !parts_words(c),
        Run::Line => c != '\n',
    }
}

/// The number of characters at the start of a text that belong to a run.
pub open spec fn run_len(run: Run, text: Seq<char>) -> int
    decreases text.len(),
{
    if text.len() > 0 && in_run(run, text[0]) {
        1 + run_len(run, text.skip(1))
    } else {
        0
    }
}

/// The lines of a text that a line feed ends.
pub open spec fn ended_lines(text: Seq<char>) -> Seq<Seq<char>>
    decreases text.len(),
{
    let len = run_len(Run::Line, text);
    if 0 <= len < text.len() {
        seq![text.take(len)] + ended_lines(text.skip(len + 1))
    } else {
        Seq::empty()
    }
}

/// The words of a text: its longest stretches without a character that parts words.
pub open spec fn words(text: Seq<char>) -> Seq<Seq<char>>
    decreases text.len(),
{
    let rest = text.skip(run_len(Run::Space, text));
    let len = run_len(Run::Word, rest);
    if 0 < len <= rest.len() <= text.len() {
        seq![rest.take(len)] + words(rest.skip(len))
    } else {
        Seq::empty()
    }
}

/// A run ends within the text, before a character that does not belong to it.
pub proof fn lemma_run_len(run: Run, text: Seq<char>)
    ensures
        0 <= run_len(run, text) <= text.len(),
        forall|i: int| 0 <= i < run_len(run, text) ==> in_run(run, #[trigger] text[i]),
        run_len(run, text) < text.len() ==> !in_run(run, text[run_len(run, text)]),
    decreases text.len(),
{
    if text.len() > 0 && in_run(run, text[0]) {
        let rest = text.skip(1);
        lemma_run_len(run, rest);
        assert forall|i: int| 0 <= i < run_len(run, text) implies in_run(
            run,
            #[trigger] text[i],
        ) by {
            if i > 0 {
                assert(rest[i - 1] == text[i]);
            }
        }
    }
}

/// The number of characters up to the first that does not belong to a run.
proof fn lemma_run_ends(run: Run, text: Seq<char>, len: int)
    requires
        0 <= len <= text.len(),
        forall|i: int| 0 <= i < len ==> in_run(run, #[trigger] text[i]),
        len < text.len() ==> !in_run(run, text[len]),
    ensures
        run_len(run, text) == len,
    decreases len,
{
    if len > 0 {
        let rest = text.skip(1);
        assert forall|i: int| 0 <= i < len - 1 implies in_run(run, #[trigger] rest[i]) by {
            assert(rest[i] == text[i + 1]);
        }
        assert(in_run(run, text[0]));
        lemma_run_ends(run, rest, len - 1);
    }
}

/// The bytes of two texts in a row are those of the one and those of the other.
pub proof fn lemma_encode_add(a: Seq<char>, b: Seq<char>)
    ensures
        encode_utf8(a + b) == encode_utf8(a) + encode_utf8(b),
    decreases a.len(),
{
    if a.len() == 0 {
        assert(a + b =~= b);
        assert(encode_utf8(a + b) =~= encode_utf8(a) + encode_utf8(b));
    } else {
        assert((a + b).drop_first() =~= a.drop_first() + b);
        lemma_encode_add(a.drop_first(), b);
        assert(encode_utf8(a + b) =~= encode_utf8(a) + encode_utf8(b));
    }
}

/// The bytes of a character at the start of a text end where the next one starts.
pub proof fn lemma_prefix_is_boundary(text: Seq<char>, len: int)
    requires
        0 <= len <= text.len(),
    ensures
        is_char_boundary(encode_utf8(text), encode_utf8(text.take(len)).len() as int),
        encode_utf8(text.take(len)).len() <= encode_utf8(text).len(),
    decreases len,
{
    let bytes = encode_utf8(text);
    encode_utf8_valid_utf8(text);
    assert(text.take(len) + text.skip(len) =~= text);
    lemma_encode_add(text.take(len), text.skip(len));
    if len > 0 {
        let rest = text.drop_first();
        encode_utf8_first_scalar(text);
        assert(pop_first_scalar(bytes) =~= encode_utf8(rest));
        assert(text.take(len).drop_first() =~= rest.take(len - 1));
        lemma_prefix_is_boundary(rest, len - 1);
    }
}

/// The number of bytes of a character.
pub(crate) fn char_len(c: char) -> (len: usize)
    ensures
        len == encode_utf8(seq![c]).len(),
        1 <= len <= 4,
{
    proof {
        reveal_with_fuel(encode_utf8, 2);
        char_is_scalar(c);
        assert(seq![c].drop_first() =~= Seq::<char>::empty());
    }
    let code = c as u32;
    if code <= 0x7f {
        1
    } else if code <= 0x7ff {
        2
    } else if code <= 0xffff {
        3
    } else {
        4
    }
}

/// Cuts a text in two behind its first `len` characters, which have `bytes` bytes.
fn cut_text<'a>(text: &'a str, bytes: usize, Ghost(len): Ghost<int>) -> (parts: (&'a str, &'a str))
    requires
        0 <= len <= text@.len(),
        bytes == encode_utf8(text@.take(len)).len(),
    ensures
        parts.0@ == text@.take(len),
        parts.1@ == text@.skip(len),
{
    proof {
        lemma_prefix_is_boundary(text@, len);
        assert(text@.take(len) + text@.skip(len) =~= text@);
        lemma_encode_add(text@.take(len), text@.skip(len));
    }
    let (front, back) = text.split_at(bytes);
    proof {
        assert(encode_utf8(front@) =~= encode_utf8(text@.take(len)));
        assert(encode_utf8(back@) =~= encode_utf8(text@.skip(len)));
        lemma_same_bytes(front@, text@.take(len));
        lemma_same_bytes(back@, text@.skip(len));
    }
    (front, back)
}

/// Cuts a text in two behind its first character.
pub(crate) fn cut_first<'a>(text: &'a str) -> (parts: (&'a str, &'a str))
    requires
        text@.len() > 0,
    ensures
        parts.0@ == text@.take(1),
        parts.1@ == text@.skip(1),
{
    let c = first_char(text);
    assert(text@.take(1) =~= seq![c]);
    cut_text(text, char_len(c), Ghost(1))
}

/// The first character of a text.
pub(crate) fn first_char(text: &str) -> (c: char)
    requires
        text@.len() > 0,
    ensures
        c == text@[0],
{
    broadcast use {vstd::string::axiom_spec_iter, vstd::string::next_postcondition};

    let mut chars = text.chars();
    chars.next().unwrap()
}

/// Whether the character parts words.
fn separates(c: char) -> (does: bool)
    ensures
        does == parts_words(c),
{
    let code = c as u32;
    white_space(c) || 0x1c <= code && code <= 0x1f
}

/// Whether the character belongs to the run.
fn belongs(run: Run, c: char) -> (does: bool)
    ensures
        does == in_run(run, c),
{
    match run {
        Run::Space => separates(c),
        Run::Word => !separates(c),
        Run::Line => c != '\n',
    }
}

/// Cuts a text in two where a run at its start ends.
pub(crate) fn cut_run<'a>(text: &'a str, run: Run) -> (parts: (&'a str, &'a str))
    ensures
        parts.0@ == text@.take(run_len(run, text@)),
        parts.1@ == text@.skip(run_len(run, text@)),
{
    let ghost mut len: int = 0;
    let total = text.as_bytes().len();
    let mut bytes: usize = 0;
    assert(text@.take(0) =~= Seq::<char>::empty());
    for c in it: text.chars()
        invariant
            it.seq() == text@,
            len == it.index(),
            0 <= len <= text@.len(),
            bytes == encode_utf8(text@.take(len)).len(),
            total == encode_utf8(text@).len(),
            forall|i: int| 0 <= i < len ==> in_run(run, #[trigger] text@[i]),
    {
        if !belongs(run, c) {
            proof {
                lemma_run_ends(run, text@, len);
            }
            return cut_text(text, bytes, Ghost(len));
        }
        proof {
            assert(text@.take(len + 1) =~= text@.take(len) + seq![c]);
            lemma_encode_add(text@.take(len), seq![c]);
            lemma_prefix_is_boundary(text@, len + 1);
            len = len + 1;
        }
        bytes = bytes + char_len(c);
    }
    proof {
        lemma_run_ends(run, text@, len);
    }
    cut_text(text, bytes, Ghost(len))
}

/// Lines with a line feed behind each of them.
pub open spec fn with_line_feeds(lines: Seq<Seq<char>>) -> Seq<char>
    decreases lines.len(),
{
    if lines.len() == 0 {
        Seq::empty()
    } else {
        lines[0] + seq!['\n'] + with_line_feeds(lines.skip(1))
    }
}

/// Cutting a text into lines loses nothing: with its line feeds put back, there remains
/// only what follows the last one. No line holds a line feed.
pub proof fn law_lines_rejoin(text: Seq<char>) -> (tail: Seq<char>)
    ensures
        text == with_line_feeds(ended_lines(text)) + tail,
        !tail.contains('\n'),
        forall|i: int|
            0 <= i < ended_lines(text).len() ==> !(#[trigger] ended_lines(text)[i]).contains('\n'),
    decreases text.len(),
{
    let len = run_len(Run::Line, text);
    let lines = ended_lines(text);
    lemma_run_len(Run::Line, text);
    if len < text.len() {
        let rest = text.skip(len + 1);
        let tail = law_lines_rejoin(rest);
        assert(lines.skip(1) =~= ended_lines(rest));
        assert(lines[0] =~= text.take(len));
        assert(text =~= with_line_feeds(lines) + tail) by {
            assert(with_line_feeds(lines) =~= text.take(len) + seq!['\n'] + with_line_feeds(
                ended_lines(rest),
            ));
            assert(text =~= text.take(len) + seq![text[len]] + rest);
        }
        assert forall|i: int| 0 <= i < lines.len() implies !(#[trigger] lines[i]).contains(
            '\n',
        ) by {
            if i > 0 {
                assert(lines[i] == ended_lines(rest)[i - 1]);
            }
        }
        tail
    } else {
        assert(with_line_feeds(lines) + text =~= text);
        text
    }
}

/// Words are not empty, and hold no character that parts words.
pub proof fn law_words(text: Seq<char>, i: int)
    requires
        0 <= i < words(text).len(),
    ensures
        words(text)[i].len() > 0,
        forall|k: int|
            0 <= k < words(text)[i].len() ==> !parts_words(#[trigger] words(text)[i][k]),
    decreases text.len(),
{
    lemma_run_len(Run::Space, text);
    let rest = text.skip(run_len(Run::Space, text));
    lemma_run_len(Run::Word, rest);
    let len = run_len(Run::Word, rest);
    if i > 0 {
        law_words(rest.skip(len), i - 1);
        assert(words(text)[i] == words(rest.skip(len))[i - 1]);
    } else {
        assert(words(text)[0] =~= rest.take(len));
        assert forall|k: int| 0 <= k < len implies !parts_words(
            #[trigger] words(text)[0][k],
        ) by {
            assert(in_run(Run::Word, rest[k]));
        }
    }
}

/// A text without a character that parts words is a word.
pub open spec fn is_word(text: Seq<char>) -> bool {
    text.len() > 0 && forall|i: int| 0 <= i < text.len() ==> !parts_words(#[trigger] text[i])
}

/// Two words with a space between them are read back.
pub proof fn law_two_words(first: Seq<char>, second: Seq<char>)
    requires
        is_word(first),
        is_word(second),
    ensures
        words(first + seq![' '] + second) == seq![first, second],
{
    let text = first + seq![' '] + second;
    lemma_run_ends(Run::Space, text, 0);
    assert(text.skip(0) =~= text);
    assert forall|i: int| 0 <= i < first.len() implies in_run(Run::Word, #[trigger] text[i]) by {
        assert(text[i] == first[i]);
    }
    lemma_run_ends(Run::Word, text, first.len() as int);
    assert(text.take(first.len() as int) =~= first);
    let rest = text.skip(first.len() as int);
    assert(rest =~= seq![' '] + second);
    assert(rest[1] == second[0]);
    lemma_run_ends(Run::Space, rest, 1);
    assert(rest.skip(1) =~= second);
    lemma_run_ends(Run::Word, second, second.len() as int);
    assert(second.take(second.len() as int) =~= second);
    let end = second.skip(second.len() as int);
    assert(end =~= Seq::<char>::empty());
    assert(words(end) =~= Seq::<Seq<char>>::empty());
    assert(words(rest) =~= seq![second]);
    assert(words(text) =~= seq![first, second]);
}

} // verus!
