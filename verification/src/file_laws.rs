//! What `vocab.bpe` says, and what the characters in it stand for.
use vstd::prelude::*;

use crate::bpe::single_bytes;
use crate::data_gym::{
    Fault, bytes_of_pairs, halves, mapped, mapped_len, merge_lines,
};
use crate::outside::{char_debug, str_debug};
use crate::ranks::{all_tokens, bytes_of_text, merged_token, merged_tokens};
use crate::split::{
    Run, ended_lines, in_run, lemma_run_len, parts_words, run_len, words,
};
use crate::text::is_white_space;

verus! {

/// The characters that part words.
pub open spec fn is_separator(c: char) -> bool {
    let code = c as u32;
    ||| 0x9 <= code <= 0xd
    ||| 0x1c <= code <= 0x20
    ||| code == 0x85
    ||| code == 0xa0
    ||| code == 0x1680
    ||| 0x2000 <= code <= 0x200a
    ||| code == 0x2028
    ||| code == 0x2029
    ||| code == 0x202f
    ||| code == 0x205f
    ||| code == 0x3000
}

/// White space is what parts words, but for the four separators of files, groups, records
/// and units.
pub proof fn law_white_space(c: char)
    ensures
        is_white_space(c) <==> is_separator(c) && !(0x1c <= c as u32 <= 0x1f),
        parts_words(c) <==> is_separator(c),
{
}

/// A run ends before the first character that does not belong to it.
proof fn lemma_run_is(run: Run, text: Seq<char>, len: int)
    requires
        0 <= len <= text.len(),
        forall|i: int| 0 <= i < len ==> in_run(run, #[trigger] text[i]),
        len < text.len() ==> !in_run(run, text[len]),
    ensures
        run_len(run, text) == len,
{
    lemma_run_len(run, text);
    let own = run_len(run, text);
    if own < len {
        assert(in_run(run, text[own]));
    } else if own > len {
        assert(in_run(run, text[len]));
    }
}

/// A line goes up to the first line feed, and the next one starts behind it.
pub proof fn law_line_feed_ends_line(line: Seq<char>, rest: Seq<char>)
    requires
        !line.contains('\n'),
    ensures
        ended_lines(line + seq!['\n'] + rest) == seq![line] + ended_lines(rest),
{
    let text = line + seq!['\n'] + rest;
    let len = line.len() as int;
    assert forall|i: int| 0 <= i < len implies in_run(Run::Line, #[trigger] text[i]) by {
        assert(text[i] == line[i]);
        assert(line.contains(line[i]));
    }
    assert(text[len] == '\n');
    lemma_run_is(Run::Line, text, len);
    assert(text.take(len) =~= line);
    assert(text.skip(len + 1) =~= rest);
}

/// What no line feed ends is no line.
pub proof fn law_no_line_feed_no_line(text: Seq<char>)
    requires
        !text.contains('\n'),
    ensures
        ended_lines(text) == Seq::<Seq<char>>::empty(),
{
    assert forall|i: int| 0 <= i < text.len() implies in_run(Run::Line, #[trigger] text[i]) by {
        assert(text.contains(text[i]));
    }
    lemma_run_is(Run::Line, text, text.len() as int);
}

/// Every character parts words.
pub open spec fn all_separators(text: Seq<char>) -> bool {
    forall|i: int| 0 <= i < text.len() ==> is_separator(#[trigger] text[i])
}

/// No character parts words, and there is one.
pub open spec fn is_one_word(text: Seq<char>) -> bool {
    text.len() > 0 && forall|i: int| 0 <= i < text.len() ==> !is_separator(#[trigger] text[i])
}

/// A word goes from the first character that does not part words up to the next that does.
pub proof fn law_word_goes_up_to_separator(space: Seq<char>, word: Seq<char>, rest: Seq<char>)
    requires
        all_separators(space),
        is_one_word(word),
        rest.len() > 0 ==> is_separator(rest[0]),
    ensures
        words(space + word + rest) == seq![word] + words(rest),
{
    let text = space + word + rest;
    let len = space.len() as int;
    assert forall|i: int| 0 <= i < len implies in_run(Run::Space, #[trigger] text[i]) by {
        assert(text[i] == space[i]);
    }
    assert(text[len] == word[0]);
    lemma_run_is(Run::Space, text, len);
    let behind = text.skip(len);
    assert(behind =~= word + rest);
    assert forall|i: int| 0 <= i < word.len() implies in_run(Run::Word, #[trigger] behind[i]) by {
        assert(behind[i] == word[i]);
    }
    if rest.len() > 0 {
        assert(behind[word.len() as int] == rest[0]);
    }
    lemma_run_is(Run::Word, behind, word.len() as int);
    assert(behind.take(word.len() as int) =~= word);
    assert(behind.skip(word.len() as int) =~= rest);
}

/// Characters that part words make no word.
pub proof fn law_separators_make_no_word(space: Seq<char>)
    requires
        all_separators(space),
    ensures
        words(space) == Seq::<Seq<char>>::empty(),
{
    assert forall|i: int| 0 <= i < space.len() implies in_run(Run::Space, #[trigger] space[i]) by {
        assert(is_separator(space[i]));
    }
    lemma_run_is(Run::Space, space, space.len() as int);
    let rest = space.skip(space.len() as int);
    assert(rest =~= Seq::<char>::empty());
    lemma_run_is(Run::Word, rest, 0);
}

/// The lines of merges are all that a line feed ends but for the first, whatever stands in
/// them.
pub proof fn law_first_line_is_no_merge(header: Seq<char>, rest: Seq<char>)
    requires
        !header.contains('\n'),
    ensures
        merge_lines(header + seq!['\n'] + rest) == ended_lines(rest),
        merge_lines(header) == Seq::<Seq<char>>::empty(),
{
    law_line_feed_ends_line(header, rest);
    law_no_line_feed_no_line(header);
    assert((seq![header] + ended_lines(rest)).skip(1) =~= ended_lines(rest));
}

/// Every character stands for a byte.
pub open spec fn all_stand_for_bytes(map: Map<char, u8>, text: Seq<char>) -> bool {
    forall|i: int| 0 <= i < text.len() ==> map.contains_key(#[trigger] text[i])
}

/// The bytes that the characters stand for, one for each.
pub open spec fn stands_for(map: Map<char, u8>, text: Seq<char>) -> Seq<u8> {
    Seq::new(text.len(), |i: int| map[text[i]])
}

/// The characters of a text stand for one byte each, up to the first that stands for none.
pub proof fn law_characters_stand_for_bytes(map: Map<char, u8>, text: Seq<char>)
    ensures
        mapped(map, text) == stands_for(map, text),
        0 <= mapped_len(map, text) <= text.len(),
        all_stand_for_bytes(map, text.take(mapped_len(map, text))),
        mapped_len(map, text) < text.len() ==> !map.contains_key(text[mapped_len(map, text)]),
    decreases text.len(),
{
    assert(mapped(map, text) =~= stands_for(map, text));
    if text.len() > 0 && map.contains_key(text[0]) {
        let rest = text.skip(1);
        law_characters_stand_for_bytes(map, rest);
        let len = mapped_len(map, rest);
        let taken = text.take(1 + len);
        assert forall|i: int| 0 <= i < taken.len() implies map.contains_key(
            #[trigger] taken[i],
        ) by {
            if i > 0 {
                assert(rest.take(len)[i - 1] == taken[i]);
            }
        }
    }
}

/// The bytes of a text are those that its characters stand for. The first character that
/// stands for none is an error, which names it.
pub proof fn law_text_has_bytes(map: Map<char, u8>, text: Seq<char>)
    ensures
        all_stand_for_bytes(map, text) ==> bytes_of_text(map, text) == Ok::<Seq<u8>, Fault>(
            stands_for(map, text),
        ),
        forall|k: int|
            0 <= k < text.len() && !map.contains_key(#[trigger] text[k]) && all_stand_for_bytes(
                map,
                text.take(k),
            ) ==> bytes_of_text(map, text) == Err::<Seq<u8>, Fault>(
                Fault {
                    message: char_debug(text[k]) + " is not a data gym character"@,
                    is_mismatch: false,
                },
            ),
{
    law_characters_stand_for_bytes(map, text);
    let len = mapped_len(map, text);
    if all_stand_for_bytes(map, text) && len < text.len() {
        assert(map.contains_key(text[len]));
    }
    assert forall|k: int|
        0 <= k < text.len() && !map.contains_key(#[trigger] text[k]) && all_stand_for_bytes(
            map,
            text.take(k),
        ) implies len == k by {
        if len < k {
            assert(map.contains_key(text.take(k)[len]));
        } else if len > k {
            assert(map.contains_key(text.take(len)[k]));
        }
    }
}

/// The table of a list of pairs holds its characters, each with the last byte that the list
/// gives it, and no others. The first character out of range is an error.
pub proof fn law_table_of_pairs(pairs: Seq<(char, u8)>)
    ensures
        match bytes_of_pairs(pairs) {
            Ok(map) => {
                &&& forall|i: int| 0 <= i < pairs.len() ==> ((#[trigger] pairs[i]).0 as u32) < 512
                &&& forall|c: char| #[trigger]
                    map.contains_key(c) <==> exists|i: int|
                        0 <= i < pairs.len() && (#[trigger] pairs[i]).0 == c
                &&& forall|i: int|
                    0 <= i < pairs.len() && (forall|k: int|
                        i < k < pairs.len() ==> (#[trigger] pairs[k]).0 != pairs[i].0)
                        ==> map[(#[trigger] pairs[i]).0] == pairs[i].1
            },
            Err(c) => exists|i: int|
                0 <= i < pairs.len() && (#[trigger] pairs[i]).0 == c && c as u32 >= 512 && forall|
                    k: int,
                |
                    0 <= k < i ==> ((#[trigger] pairs[k]).0 as u32) < 512,
        },
    decreases pairs.len(),
{
    if pairs.len() > 0 {
        let before = pairs.drop_last();
        let last = pairs.len() - 1;
        law_table_of_pairs(before);
        match bytes_of_pairs(before) {
            Ok(map) => {
                if (pairs.last().0 as u32) < 512 {
                    let own = bytes_of_pairs(pairs)->Ok_0;
                    assert forall|i: int| 0 <= i < pairs.len() implies ((
                    #[trigger] pairs[i]).0 as u32) < 512 by {
                        if i < last {
                            assert(before[i] == pairs[i]);
                        }
                    }
                    assert forall|c: char| #[trigger] own.contains_key(c) <==> exists|i: int|
                        0 <= i < pairs.len() && (#[trigger] pairs[i]).0 == c by {
                        if map.contains_key(c) {
                            let i = choose|i: int|
                                0 <= i < before.len() && (#[trigger] before[i]).0 == c;
                            assert(pairs[i].0 == c);
                        }
                        if c == pairs.last().0 {
                            assert(pairs[last].0 == c);
                        }
                        if exists|i: int| 0 <= i < pairs.len() && (#[trigger] pairs[i]).0 == c {
                            let i = choose|i: int|
                                0 <= i < pairs.len() && (#[trigger] pairs[i]).0 == c;
                            if i < last {
                                assert(before[i].0 == c);
                                assert(map.contains_key(c));
                            }
                        }
                    }
                    assert forall|i: int|
                        0 <= i < pairs.len() && (forall|k: int|
                            i < k < pairs.len() ==> (#[trigger] pairs[k]).0 != pairs[i].0) implies
                        own[(#[trigger] pairs[i]).0] == pairs[i].1 by {
                        if i < last {
                            assert(pairs[last].0 != pairs[i].0);
                            assert(before[i] == pairs[i]);
                            assert forall|k: int| i < k < before.len() implies (
                            #[trigger] before[k]).0 != before[i].0 by {
                                assert(before[k] == pairs[k]);
                            }
                        }
                    }
                } else {
                    assert forall|k: int| 0 <= k < last implies ((#[trigger] pairs[k]).0 as u32)
                        < 512 by {
                        assert(before[k] == pairs[k]);
                    }
                    assert(pairs[last].0 == pairs.last().0);
                }
            },
            Err(c) => {
                let i = choose|i: int|
                    0 <= i < before.len() && (#[trigger] before[i]).0 == c && c as u32 >= 512
                        && forall|k: int| 0 <= k < i ==> ((#[trigger] before[k]).0 as u32) < 512;
                assert(pairs[i].0 == c);
                assert forall|k: int| 0 <= k < i implies ((#[trigger] pairs[k]).0 as u32)
                    < 512 by {
                    assert(before[k] == pairs[k]);
                }
            },
        }
    }
}

/// The line is a merge: it holds two words, of characters that stand for bytes.
pub open spec fn is_merge(map: Map<char, u8>, line: Seq<char>) -> bool {
    &&& words(line).len() == 2
    &&& all_stand_for_bytes(map, words(line)[0])
    &&& all_stand_for_bytes(map, words(line)[1])
}

/// What a line that is a merge makes.
proof fn lemma_merged_token(map: Map<char, u8>, line: Seq<char>)
    ensures
        is_merge(map, line) ==> merged_token(map, line) == Ok::<Seq<u8>, Fault>(
            stands_for(map, words(line)[0]) + stands_for(map, words(line)[1]),
        ),
        merged_token(map, line) is Ok ==> is_merge(map, line),
{
    if words(line).len() == 2 {
        law_text_has_bytes(map, words(line)[0]);
        law_text_has_bytes(map, words(line)[1]);
        law_characters_stand_for_bytes(map, words(line)[0]);
        law_characters_stand_for_bytes(map, words(line)[1]);
        let (first, second) = (words(line)[0], words(line)[1]);
        assert(first.take(first.len() as int) =~= first);
        assert(second.take(second.len() as int) =~= second);
    }
}

/// Lines that are merges make one token each.
proof fn lemma_merged_tokens(map: Map<char, u8>, lines: Seq<Seq<char>>)
    ensures
        (forall|i: int| 0 <= i < lines.len() ==> is_merge(map, #[trigger] lines[i]))
            ==> merged_tokens(map, lines) is Ok,
        merged_tokens(map, lines) matches Ok(tokens) ==> {
            &&& tokens.len() == lines.len()
            &&& forall|i: int|
                #![trigger lines[i]]
                #![trigger tokens[i]]
                0 <= i < lines.len() ==> is_merge(map, lines[i]) && tokens[i] == stands_for(
                    map,
                    words(lines[i])[0],
                ) + stands_for(map, words(lines[i])[1])
        },
    decreases lines.len(),
{
    if lines.len() > 0 {
        let rest = lines.skip(1);
        lemma_merged_token(map, lines[0]);
        lemma_merged_tokens(map, rest);
        if forall|i: int| 0 <= i < lines.len() ==> is_merge(map, #[trigger] lines[i]) {
            assert(is_merge(map, lines[0]));
            assert forall|i: int| 0 <= i < rest.len() implies is_merge(
                map,
                #[trigger] rest[i],
            ) by {
                assert(rest[i] == lines[i + 1]);
            }
        }
        if let Ok(tokens) = merged_tokens(map, lines) {
            let others = merged_tokens(map, rest)->Ok_0;
            assert forall|i: int|
                #![trigger lines[i]]
                #![trigger tokens[i]]
                0 <= i < lines.len() implies is_merge(map, lines[i]) && tokens[i] == stands_for(
                map,
                words(lines[i])[0],
            ) + stands_for(map, words(lines[i])[1]) by {
                if i > 0 {
                    assert(rest[i - 1] == lines[i]);
                    assert(tokens[i] == others[i - 1]);
                }
            }
        }
    }
}

/// There is one token for each single byte, and behind them one for each line of merges,
/// in order, whatever it starts with: the bytes of its first half, and those of its second.
pub proof fn law_every_merge_makes_a_token(
    map: Map<char, u8>,
    singles: Seq<u8>,
    vocab_bpe: Seq<char>,
)
    ensures
        all_tokens(map, singles, vocab_bpe) matches Ok(tokens) ==> {
            let lines = merge_lines(vocab_bpe);
            &&& tokens.len() == singles.len() + lines.len()
            &&& forall|i: int| 0 <= i < singles.len() ==> #[trigger] tokens[i] == seq![singles[i]]
            &&& forall|i: int|
                0 <= i < lines.len() ==> is_merge(map, #[trigger] lines[i]) && tokens[singles.len()
                    + i] == stands_for(map, words(lines[i])[0]) + stands_for(
                    map,
                    words(lines[i])[1],
                )
        },
        all_tokens(map, singles, vocab_bpe) is Ok <==> forall|i: int|
            0 <= i < merge_lines(vocab_bpe).len() ==> is_merge(
                map,
                #[trigger] merge_lines(vocab_bpe)[i],
            ),
{
    let lines = merge_lines(vocab_bpe);
    lemma_merged_tokens(map, lines);
    if let Ok(tokens) = all_tokens(map, singles, vocab_bpe) {
        let merges = merged_tokens(map, lines)->Ok_0;
        assert forall|i: int| 0 <= i < lines.len() implies is_merge(map, #[trigger] lines[i])
            && tokens[singles.len() + i] == stands_for(map, words(lines[i])[0]) + stands_for(
            map,
            words(lines[i])[1],
        ) by {
            assert(tokens[singles.len() + i] == merges[i]);
        }
        assert forall|i: int| 0 <= i < singles.len() implies #[trigger] tokens[i] == seq![
            singles[i],
        ] by {
            assert(tokens[i] == single_bytes(singles)[i]);
        }
    }
}

/// The first line that does not hold two halves is an error, which quotes it.
pub proof fn law_first_bad_line_is_told(
    map: Map<char, u8>,
    singles: Seq<u8>,
    vocab_bpe: Seq<char>,
    k: int,
)
    requires
        0 <= k < merge_lines(vocab_bpe).len(),
        forall|i: int| 0 <= i < k ==> is_merge(map, #[trigger] merge_lines(vocab_bpe)[i]),
        words(merge_lines(vocab_bpe)[k]).len() != 2,
    ensures
        all_tokens(map, singles, vocab_bpe) == Err::<Seq<Seq<u8>>, Fault>(
            Fault {
                message: "expected two merge halves in vocab.bpe line "@ + str_debug(
                    merge_lines(vocab_bpe)[k],
                ),
                is_mismatch: false,
            },
        ),
{
    lemma_first_bad_line(map, merge_lines(vocab_bpe), k);
}

/// The first line that is no merge is an error.
proof fn lemma_first_bad_line(map: Map<char, u8>, lines: Seq<Seq<char>>, k: int)
    requires
        0 <= k < lines.len(),
        forall|i: int| 0 <= i < k ==> is_merge(map, #[trigger] lines[i]),
        merged_token(map, lines[k]) is Err,
    ensures
        merged_tokens(map, lines) == Err::<Seq<Seq<u8>>, Fault>(
            merged_token(map, lines[k])->Err_0,
        ),
    decreases k,
{
    if k > 0 {
        let rest = lines.skip(1);
        assert(is_merge(map, lines[0]));
        lemma_merged_token(map, lines[0]);
        assert forall|i: int| 0 <= i < k - 1 implies is_merge(map, #[trigger] rest[i]) by {
            assert(rest[i] == lines[i + 1]);
        }
        assert(rest[k - 1] == lines[k]);
        lemma_first_bad_line(map, rest, k - 1);
    }
}

/// The first character of a merge that stands for no byte is an error, which names it.
pub proof fn law_first_bad_character_is_told(
    map: Map<char, u8>,
    singles: Seq<u8>,
    vocab_bpe: Seq<char>,
    k: int,
    half: int,
    at: int,
)
    requires
        0 <= k < merge_lines(vocab_bpe).len(),
        forall|i: int| 0 <= i < k ==> is_merge(map, #[trigger] merge_lines(vocab_bpe)[i]),
        words(merge_lines(vocab_bpe)[k]).len() == 2,
        half == 0 || half == 1 && all_stand_for_bytes(map, words(merge_lines(vocab_bpe)[k])[0]),
        0 <= at < words(merge_lines(vocab_bpe)[k])[half].len(),
        !map.contains_key(words(merge_lines(vocab_bpe)[k])[half][at]),
        all_stand_for_bytes(map, words(merge_lines(vocab_bpe)[k])[half].take(at)),
    ensures
        all_tokens(map, singles, vocab_bpe) == Err::<Seq<Seq<u8>>, Fault>(
            Fault {
                message: char_debug(words(merge_lines(vocab_bpe)[k])[half][at])
                    + " is not a data gym character"@,
                is_mismatch: false,
            },
        ),
{
    let line = merge_lines(vocab_bpe)[k];
    law_text_has_bytes(map, words(line)[0]);
    law_text_has_bytes(map, words(line)[1]);
    lemma_first_bad_line(map, merge_lines(vocab_bpe), k);
}

/// Merges as lines, with a space between the two halves.
pub open spec fn shown_merges(merges: Seq<(Seq<char>, Seq<char>)>) -> Seq<char>
    decreases merges.len(),
{
    if merges.len() == 0 {
        Seq::empty()
    } else {
        (merges[0].0 + seq![' '] + merges[0].1) + seq!['\n'] + shown_merges(merges.skip(1))
    }
}

/// The lines of merges are read back.
proof fn lemma_shown_merges(merges: Seq<(Seq<char>, Seq<char>)>, tail: Seq<char>)
    requires
        forall|i: int|
            0 <= i < merges.len() ==> is_one_word((#[trigger] merges[i]).0) && is_one_word(
                merges[i].1,
            ),
        !tail.contains('\n'),
    ensures
        ended_lines(shown_merges(merges) + tail) == Seq::new(
            merges.len(),
            |i: int| merges[i].0 + seq![' '] + merges[i].1,
        ),
    decreases merges.len(),
{
    let expected = Seq::new(merges.len(), |i: int| merges[i].0 + seq![' '] + merges[i].1);
    if merges.len() == 0 {
        law_no_line_feed_no_line(tail);
        assert(shown_merges(merges) + tail =~= tail);
        assert(expected =~= Seq::<Seq<char>>::empty());
    } else {
        let rest = merges.skip(1);
        let line = merges[0].0 + seq![' '] + merges[0].1;
        assert forall|i: int| 0 <= i < rest.len() implies is_one_word((#[trigger] rest[i]).0)
            && is_one_word(rest[i].1) by {
            assert(rest[i] == merges[i + 1]);
        }
        lemma_shown_merges(rest, tail);
        assert(!line.contains('\n')) by {
            if line.contains('\n') {
                let i = choose|i: int| 0 <= i < line.len() && line[i] == '\n';
                let len = merges[0].0.len();
                if i < len {
                    assert(is_separator(merges[0].0[i]));
                } else if i > len {
                    assert(is_separator(merges[0].1[i - len - 1]));
                }
            }
        }
        assert(shown_merges(merges) + tail =~= line + seq!['\n'] + (shown_merges(rest) + tail));
        law_line_feed_ends_line(line, shown_merges(rest) + tail);
        assert(expected =~= seq![line] + Seq::new(
            rest.len(),
            |i: int| rest[i].0 + seq![' '] + rest[i].1,
        ));
    }
}

/// Merges that are written down are read back: behind the header, every line makes the
/// token of its two halves, also one that starts as a comment would.
pub proof fn law_merges_are_read_back(
    map: Map<char, u8>,
    singles: Seq<u8>,
    header: Seq<char>,
    merges: Seq<(Seq<char>, Seq<char>)>,
    tail: Seq<char>,
)
    requires
        !header.contains('\n'),
        !tail.contains('\n'),
        forall|i: int|
            0 <= i < merges.len() ==> is_one_word((#[trigger] merges[i]).0) && is_one_word(
                merges[i].1,
            ) && all_stand_for_bytes(map, merges[i].0) && all_stand_for_bytes(map, merges[i].1),
    ensures
        all_tokens(map, singles, header + seq!['\n'] + (shown_merges(merges) + tail)) == Ok::<
            Seq<Seq<u8>>,
            Fault,
        >(
            Seq::new(singles.len(), |i: int| seq![singles[i]]) + Seq::new(
                merges.len(),
                |i: int| stands_for(map, merges[i].0) + stands_for(map, merges[i].1),
            ),
        ),
{
    let text = header + seq!['\n'] + (shown_merges(merges) + tail);
    let lines = merge_lines(text);
    lemma_shown_merges(merges, tail);
    law_first_line_is_no_merge(header, shown_merges(merges) + tail);
    assert forall|i: int| 0 <= i < lines.len() implies words(#[trigger] lines[i]) == seq![
        merges[i].0,
        merges[i].1,
    ] && is_merge(map, lines[i]) by {
        let (first, second) = merges[i];
        let none = Seq::<char>::empty();
        let rest = seq![' '] + second;
        assert(lines[i] =~= none + first + rest);
        law_word_goes_up_to_separator(none, first, rest);
        assert(rest =~= seq![' '] + second + none);
        law_word_goes_up_to_separator(seq![' '], second, none);
        law_separators_make_no_word(none);
        assert(words(lines[i]) =~= seq![first, second]);
    }
    law_every_merge_makes_a_token(map, singles, text);
    assert(all_tokens(map, singles, text)->Ok_0 =~= Seq::new(
        singles.len(),
        |i: int| seq![singles[i]],
    ) + Seq::new(
        merges.len(),
        |i: int| stands_for(map, merges[i].0) + stands_for(map, merges[i].1),
    )) by {
        let tokens = all_tokens(map, singles, text)->Ok_0;
        assert forall|i: int| 0 <= i < merges.len() implies #[trigger] tokens[singles.len() + i]
            == stands_for(map, merges[i].0) + stands_for(map, merges[i].1) by {
            let line = lines[i];
        }
        assert forall|i: int| singles.len() <= i < tokens.len() implies #[trigger] tokens[i]
            == stands_for(map, merges[i - singles.len()].0) + stands_for(
            map,
            merges[i - singles.len()].1,
        ) by {
            assert(tokens[singles.len() + (i - singles.len())] == tokens[i]);
        }
    }
}

/// The two halves of a merge are the two words of its line.
pub proof fn law_halves_are_words(line: Seq<char>)
    ensures
        words(line).len() == 2 ==> halves(line) == Ok::<(Seq<char>, Seq<char>), Fault>(
            (words(line)[0], words(line)[1]),
        ),
        words(line).len() != 2 ==> halves(line) == Err::<(Seq<char>, Seq<char>), Fault>(
            Fault {
                message: "expected two merge halves in vocab.bpe line "@ + str_debug(line),
                is_mismatch: false,
            },
        ),
{
}

} // verus!
