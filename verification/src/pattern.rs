//! The regular expressions that cut a text into pieces.
//!
//! The expressions are `fancy_regex::Regex`es. What they find takes pages to state, so
//! it is named: a name stands for what the engine returns, as a function of the
//! expression and the text. An expression has no view: besides its pattern it holds the
//! options that it was compiled with, so the names take the expression itself.
use fancy_regex::Regex;
use vstd::prelude::*;
use vstd::utf8::{encode_utf8, is_char_boundary};

use crate::limits::{is_plain, is_special, lemma_plain_add, pattern_fits};
use crate::text::occurs_at;

verus! {

/// A compiled regular expression.
#[verifier::external_type_specification]
#[verifier::external_body]
pub struct ExRegex(fancy_regex::Regex);

/// What `Regex::new` makes of a pattern: the expression, or what its error says.
pub uninterp spec fn compiled(pattern: Seq<char>) -> Result<Regex, Seq<char>>;

/// What `Regex::find_iter` yields for a text, cut after the first `limit` items: the
/// byte range of each match, or what the error says that ends the search.
pub uninterp spec fn all_matches(regex: Regex, text: Seq<char>, limit: nat) -> Seq<
    Result<(usize, usize), Seq<char>>,
>;

/// What `Regex::find_from_pos` returns for a text and a byte position: the byte range of
/// the first match, if there is one, or what the error says.
pub uninterp spec fn first_match(regex: Regex, text: Seq<char>, pos: nat) -> Result<
    Option<(usize, usize)>,
    Seq<char>,
>;

/// The pattern that matches exactly a text: a backslash before each special character.
pub open spec fn escaped(text: Seq<char>) -> Seq<char>
    decreases text.len(),
{
    if text.len() == 0 {
        Seq::empty()
    } else if is_special(text.last()) {
        escaped(text.drop_last()).push('\\').push(text.last())
    } else {
        escaped(text.drop_last()).push(text.last())
    }
}

/// An escaped text is a plain pattern.
pub proof fn lemma_escaped_plain(text: Seq<char>)
    ensures
        is_plain(escaped(text)),
    decreases text.len(),
{
    reveal_with_fuel(is_plain, 2);
    if text.len() > 0 {
        let rest = escaped(text.drop_last());
        let last = text.last();
        lemma_escaped_plain(text.drop_last());
        if is_special(last) {
            lemma_plain_add(rest, seq!['\\', last]);
            assert(escaped(text) =~= rest + seq!['\\', last]);
        } else {
            lemma_plain_add(rest, seq![last]);
            assert(escaped(text) =~= rest + seq![last]);
        }
    }
}

/// A pattern that finds the given texts: each of them escaped, as alternatives.
pub open spec fn alternatives(order: Seq<Seq<char>>) -> Seq<char>
    decreases order.len(),
{
    if order.len() == 0 {
        Seq::empty()
    } else if order.len() == 1 {
        escaped(order[0])
    } else {
        alternatives(order.drop_last()) + "|"@ + escaped(order.last())
    }
}

/// A pattern of alternatives is plain, whatever the texts are.
pub proof fn lemma_alternatives_plain(order: Seq<Seq<char>>)
    ensures
        is_plain(alternatives(order)),
    decreases order.len(),
{
    if order.len() == 1 {
        lemma_escaped_plain(order[0]);
    } else if order.len() > 1 {
        let first = alternatives(order.drop_last());
        lemma_alternatives_plain(order.drop_last());
        lemma_escaped_plain(order.last());
        reveal_strlit("|");
        reveal_with_fuel(is_plain, 2);
        assert("|"@ =~= seq!['|']);
        lemma_plain_add(first, "|"@);
        lemma_plain_add(first + "|"@, escaped(order.last()));
    }
}

/// No text of a list stands in a text between two positions.
pub open spec fn none_of_between(
    order: Seq<Seq<char>>,
    text: Seq<char>,
    from: int,
    end: int,
) -> bool {
    forall|k: int, pos: int|
        0 <= k < order.len() && from <= pos < end ==> !#[trigger] occurs_at(text, order[k], pos)
}

/// What was found is the first place from a position on where a text of a list stands, as
/// far as one of the texts goes, or that there is none.
pub open spec fn is_first_of(
    order: Seq<Seq<char>>,
    text: Seq<char>,
    from: int,
    found: Result<Option<(usize, usize)>, Seq<char>>,
) -> bool {
    match found {
        Ok(Some((start, end))) => {
            &&& from <= start
            &&& none_of_between(order, text, from, start as int)
            &&& exists|k: int|
                0 <= k < order.len() && occurs_at(text, #[trigger] order[k], start as int) && end
                    == start + encode_utf8(order[k]).len()
        },
        Ok(None) => none_of_between(order, text, from, encode_utf8(text).len() as int + 1),
        Err(_) => false,
    }
}

/// An expression finds the texts of a list where they stand in a text, in every text that a
/// machine can hold.
pub open spec fn finds_texts(regex: Regex, order: Seq<Seq<char>>) -> bool {
    forall|text: Seq<char>, from: nat|
        encode_utf8(text).len() <= isize::MAX && is_char_boundary(encode_utf8(text), from as int)
            ==> is_first_of(order, text, from as int, #[trigger] first_match(regex, text, from))
}

/// Where a pattern is one of alternatives, the expression finds them as they stand.
pub open spec fn finds_alternatives(pattern: Seq<char>, regex: Regex) -> bool {
    forall|order: Seq<Seq<char>>|
        pattern == #[trigger] alternatives(order) && order.len() > 0 ==> finds_texts(regex, order)
}

/// A found item with its error message, if it is one, by its characters.
pub open spec fn item_view(item: Result<(usize, usize), String>) -> Result<
    (usize, usize),
    Seq<char>,
> {
    match item {
        Ok(range) => Ok(range),
        Err(message) => Err(message@),
    }
}

/// The found items with their error messages by their characters.
pub open spec fn items_view(items: Seq<Result<(usize, usize), String>>) -> Seq<
    Result<(usize, usize), Seq<char>>,
> {
    Seq::new(items.len(), |i: int| item_view(items[i]))
}

/// Compiles a pattern, with `Regex::new`. The same pattern gives an expression that
/// finds the same; where it is refused, the message is what the error prints. A pattern
/// that does not fit is left out: on some of them the engine stops the program, where the
/// number of a group or the size of a part goes out of range.
///
/// An expression of alternatives that are escaped texts finds them as they stand, the
/// leftmost first, and no search with it fails. Where several of them stand at the same
/// place, it is left open which of them is found.
#[verifier::external_body]
pub(crate) fn compile(pattern: &str) -> (regex: Result<Regex, String>)
    requires
        pattern_fits(pattern@),
    ensures
        compiled(pattern@) == (match regex {
            Ok(regex) => Ok(regex),
            Err(message) => Err(message@),
        }),
        regex matches Ok(regex) ==> finds_alternatives(pattern@, regex),
{
    Regex::new(pattern).map_err(|error| error.to_string())
}

/// The expression comes of a pattern with which every text can be searched.
pub open spec fn is_searchable(regex: Regex) -> bool {
    exists|pattern: Seq<char>|
        pattern_fits(pattern) && (#[trigger] compiled(pattern)) == Ok::<Regex, Seq<char>>(regex)
}

/// The first `limit` items of `Regex::find_iter`. What they are is named by
/// `all_matches`; beyond that it is only claimed that there are no more than `limit`. An
/// expression of a pattern that does not fit is left out: with some of them a search stops
/// the program or stands still.
#[verifier::external_body]
pub(crate) fn find_all(regex: &Regex, text: &str, limit: usize) -> (items: Vec<
    Result<(usize, usize), String>,
>)
    requires
        is_searchable(*regex),
    ensures
        items_view(items@) == all_matches(*regex, text@, limit as nat),
        items@.len() <= limit,
{
    let items = regex.find_iter(text).take(limit).map(|item| match item {
        Ok(found) => Ok((found.start(), found.end())),
        Err(error) => Err(error.to_string()),
    });
    items.collect()
}

/// The first match at or behind `pos`, with `Regex::find_from_pos`. What it is, is named
/// by `first_match`. The position is at the start of a character or at the end of the
/// text, so that the engine reads whole characters. An expression of a pattern that does
/// not fit is left out, as in `find_all`.
#[verifier::external_body]
pub(crate) fn find_from(regex: &Regex, text: &str, pos: usize) -> (found: Result<
    Option<(usize, usize)>,
    String,
>)
    requires
        is_searchable(*regex),
        is_char_boundary(encode_utf8(text@), pos as int),
    ensures
        first_match(*regex, text@, pos as nat) == (match found {
            Ok(range) => Ok(range),
            Err(message) => Err(message@),
        }),
{
    match regex.find_from_pos(text, pos) {
        Ok(found) => Ok(found.map(|found| (found.start(), found.end()))),
        Err(error) => Err(error.to_string()),
    }
}

/// Escapes a text, with `fancy_regex::escape`: each special character gets a backslash
/// before it, and the others stay as they are.
#[verifier::external_body]
pub(crate) fn escape(text: &str) -> (pattern: String)
    ensures
        pattern@ == escaped(text@),
{
    fancy_regex::escape(text).into_owned()
}

} // verus!
