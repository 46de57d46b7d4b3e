//! The tokeniser: how it is built, and what its tables hold.
use fancy_regex::Regex;
use rustc_hash::FxHashMap;
use vstd::prelude::*;
use vstd::slice::*;
use vstd::string::*;
use vstd::utf8::*;

use crate::bpe::Rank;
use crate::error::PatternError;
use crate::limits::{has_fitting_pattern, pattern_fits};
use crate::order::{byte_strings, is_sorted};
use crate::outside::sort_byte_strings;
use crate::pattern::{
    alternatives, compile, compiled, escape, escaped, finds_alternatives, is_searchable,
    lemma_alternatives_plain,
};
use crate::special_laws::{lemma_searches_specials, searches_specials};
use crate::tables::{
    empty_rank_table, empty_special_table, empty_token_table, rank_keys, rank_of, rank_table,
    set_rank, set_special_rank, set_token, special_keys, special_rank_of, special_table, token_of,
    token_table,
};
use crate::text::texts;
use crate::vocab::{
    Vocab, bytes_of_token, is_inverse, is_special_bytes, is_special_inverse, listed_bytes,
    ranks_distinct, vocab_wf,
};

verus! {

/// The number of slots that hold a compiled expression of their own. An expression keeps
/// its scratch space behind a lock, so threads that share one wait for each other.
pub const MAX_NUM_THREADS: usize = 64;

/// A tokeniser.
#[derive(Clone)]
pub struct CoreBPE {
    encoder: FxHashMap<Vec<u8>, Rank>,
    special_tokens_encoder: FxHashMap<String, Rank>,
    decoder: FxHashMap<Rank, Vec<u8>>,
    special_tokens_decoder: FxHashMap<Rank, Vec<u8>>,
    /// The bytes of every token, by rank. Ranks are dense, so that decoding resolves a
    /// token with one index instead of one or two hash lookups.
    decoder_flat: Vec<Vec<u8>>,
    regex_tls: Vec<Regex>,
    special_regex_tls: Vec<Regex>,
    sorted_token_bytes: Vec<Vec<u8>>,
}

/// What the flat table holds for a rank: nothing behind its end.
spec fn flat_entry(flat: Seq<Vec<u8>>, rank: Rank) -> Seq<u8> {
    if rank < flat.len() {
        flat[rank as int]@
    } else {
        Seq::empty()
    }
}

/// Every slot holds the same expression.
spec fn all_slots_hold(slots: Seq<Regex>, regex: Regex) -> bool {
    &&& slots.len() == MAX_NUM_THREADS
    &&& forall|i: int| 0 <= i < slots.len() ==> #[trigger] slots[i] == regex
}

/// The flat table holds, for each rank, the bytes that it decodes to.
spec fn flat_fits(flat: Seq<Vec<u8>>, v: Vocab) -> bool {
    forall|rank: Rank|
        bytes_of_token(v, rank) == (if (#[trigger] flat_entry(flat, rank)).len() > 0 {
            Some(flat_entry(flat, rank))
        } else {
            None
        })
}

/// The list holds each special token once.
pub open spec fn lists_special(
    order: Seq<Seq<char>>,
    special_encoder: Map<Seq<char>, Rank>,
) -> bool {
    &&& order.no_duplicates()
    &&& forall|text: Seq<char>| #[trigger]
        order.contains(text) <==> special_encoder.contains_key(text)
}

/// The ranks that a list of pairs gives: where a byte string stands in it more than once,
/// the last rank counts.
pub open spec fn ranks_of_pairs(pairs: Seq<(Vec<u8>, Rank)>) -> Map<Seq<u8>, Rank>
    decreases pairs.len(),
{
    if pairs.len() == 0 {
        Map::empty()
    } else {
        ranks_of_pairs(pairs.drop_last()).insert(pairs.last().0@, pairs.last().1)
    }
}

/// The ranks that a list of pairs gives: where a text stands in it more than once, the
/// last rank counts.
pub open spec fn special_ranks_of_pairs(pairs: Seq<(String, Rank)>) -> Map<Seq<char>, Rank>
    decreases pairs.len(),
{
    if pairs.len() == 0 {
        Map::empty()
    } else {
        special_ranks_of_pairs(pairs.drop_last()).insert(pairs.last().0@, pairs.last().1)
    }
}

/// The list holds the byte strings of the regular tokens, each of them once, in the order
/// of a dictionary.
pub open spec fn lists_tokens(list: Seq<Seq<u8>>, encoder: Map<Seq<u8>, Rank>) -> bool {
    &&& is_sorted(list)
    &&& list.no_duplicates()
    &&& forall|bytes: Seq<u8>| #[trigger] list.contains(bytes) <==> encoder.contains_key(bytes)
}

impl CoreBPE {
    /// What the tokeniser knows.
    pub closed spec fn vocab(&self) -> Vocab {
        Vocab {
            encoder: rank_table(self.encoder),
            special_encoder: special_table(self.special_tokens_encoder),
            decoder: token_table(self.decoder),
            special_decoder: token_table(self.special_tokens_decoder),
            regex: self.regex_tls@[0],
            special_regex: self.special_regex_tls@[0],
        }
    }

    /// The tables of the tokeniser fit each other.
    pub closed spec fn wf(&self) -> bool {
        &&& vocab_wf(self.vocab())
        &&& all_slots_hold(self.regex_tls@, self.vocab().regex)
        &&& all_slots_hold(self.special_regex_tls@, self.vocab().special_regex)
        &&& is_searchable(self.vocab().regex)
        &&& is_searchable(self.vocab().special_regex)
        &&& flat_fits(self.decoder_flat@, self.vocab())
        &&& lists_tokens(byte_strings(self.sorted_token_bytes@), self.vocab().encoder)
    }

    /// The decoders of a tokeniser fit its encoders.
    pub proof fn law_decoders_fit(&self)
        requires
            self.wf(),
        ensures
            vocab_wf(self.vocab()),
    {
    }
}

/// A list of all special tokens without repetition holds each of them once.
proof fn lemma_lists_special(order: Seq<&str>, special_encoder: Map<Seq<char>, Rank>)
    requires
        forall|key: Seq<char>|
            special_encoder.contains_key(key) <==> exists|i: int|
                0 <= i < order.len() && (#[trigger] order[i])@ == key,
        forall|i: int, j: int|
            0 <= i < j < order.len() ==> (#[trigger] order[i])@ != (#[trigger] order[j])@,
    ensures
        lists_special(texts(order), special_encoder),
{
    let listed = texts(order);
    assert forall|i: int, j: int|
        0 <= i < listed.len() && 0 <= j < listed.len() && i != j implies listed[i] != listed[j] by {
        if i < j {
            assert(order[i]@ != order[j]@);
        } else {
            assert(order[j]@ != order[i]@);
        }
    }
    assert forall|text: Seq<char>| #[trigger]
        listed.contains(text) <==> special_encoder.contains_key(text) by {
        if listed.contains(text) {
            let i = choose|i: int| 0 <= i < listed.len() && listed[i] == text;
            assert(order[i]@ == text);
        }
        if special_encoder.contains_key(text) {
            let i = choose|i: int| 0 <= i < order.len() && (#[trigger] order[i])@ == text;
            assert(listed[i] == text);
        }
    }
}

/// What comes of building a tokeniser: it holds the given tokens and the compiled
/// pattern, and searches for special tokens with a pattern that lists each of them once,
/// which finds them as they stand. Where one of the two patterns is refused, the error says
/// why; the given pattern comes first.
pub open spec fn is_built(
    bpe: Result<CoreBPE, PatternError>,
    encoder: Map<Seq<u8>, Rank>,
    special_encoder: Map<Seq<char>, Rank>,
    pattern: Seq<char>,
) -> bool {
    match compiled(pattern) {
        Ok(regex) => exists|order: Seq<Seq<char>>| #[trigger]
            lists_special(order, special_encoder) && match compiled(alternatives(order)) {
                Ok(special_regex) => {
                    &&& bpe is Ok
                    &&& bpe->Ok_0.wf()
                    &&& bpe->Ok_0.vocab().encoder == encoder
                    &&& bpe->Ok_0.vocab().special_encoder == special_encoder
                    &&& bpe->Ok_0.vocab().regex == regex
                    &&& bpe->Ok_0.vocab().special_regex == special_regex
                    &&& searches_specials(bpe->Ok_0.vocab())
                },
                Err(message) => bpe is Err && bpe->Err_0.message@ == message,
            },
        Err(message) => bpe is Err && bpe->Err_0.message@ == message,
    }
}

/// Sets the bytes of `rank` in the flat table, which grows as far as needed.
fn set_flat(flat: &mut Vec<Vec<u8>>, rank: Rank, bytes: Vec<u8>)
    ensures
        forall|r: Rank|
            #[trigger] flat_entry(final(flat)@, r) == (if r == rank {
                bytes@
            } else {
                flat_entry(old(flat)@, r)
            }),
{
    let slot = rank as usize;
    while flat.len() <= slot
        invariant
            forall|r: Rank| #[trigger] flat_entry(flat@, r) == flat_entry(old(flat)@, r),
        decreases slot + 1 - flat@.len(),
    {
        let ghost before = flat@;
        flat.push(Vec::new());
        assert forall|r: Rank| #[trigger] flat_entry(flat@, r) == flat_entry(old(flat)@, r) by {
            assert(flat_entry(before, r) == flat_entry(old(flat)@, r));
            if r < flat@.len() {
                if r == before.len() {
                    assert(flat_entry(flat@, r) =~= Seq::<u8>::empty());
                } else {
                    assert(flat@[r as int] == before[r as int]);
                }
            }
        }
    }
    let ghost before = flat@;
    flat.set(slot, bytes);
    assert forall|r: Rank| #[trigger] flat_entry(flat@, r) == (if r == rank {
        bytes@
    } else {
        flat_entry(old(flat)@, r)
    }) by {
        assert(flat_entry(before, r) == flat_entry(old(flat)@, r));
    }
}

/// The keys of a map hold what is asked, for the first `count` of them.
spec fn inverts_first(
    keys: Seq<&Vec<u8>>,
    count: int,
    encoder: Map<Seq<u8>, Rank>,
    decoder: Map<Rank, Seq<u8>>,
) -> bool {
    &&& forall|i: int|
        0 <= i < count ==> decoder.contains_key(encoder[(#[trigger] keys[i])@])
            && decoder[encoder[keys[i]@]] == keys[i]@
    &&& forall|rank: Rank| #[trigger]
        decoder.contains_key(rank) ==> encoder.contains_key(decoder[rank])
            && encoder[decoder[rank]] == rank
}

/// Maps the ranks of an encoder back to its byte strings, or `None` where two byte
/// strings have the same rank.
fn invert(encoder: &FxHashMap<Vec<u8>, Rank>) -> (decoder: Option<FxHashMap<Rank, Vec<u8>>>)
    ensures
        decoder is Some <==> ranks_distinct(rank_table(*encoder)),
        decoder is Some ==> is_inverse(rank_table(*encoder), token_table(decoder->0)),
{
    let ghost table = rank_table(*encoder);
    let keys = rank_keys(encoder);
    let mut decoder = empty_token_table();
    let mut i: usize = 0;
    while i < keys.len()
        invariant
            i <= keys@.len(),
            table == rank_table(*encoder),
            forall|key: Seq<u8>|
                table.contains_key(key) <==> exists|k: int|
                    0 <= k < keys@.len() && (#[trigger] keys@[k])@ == key,
            forall|k: int, l: int|
                0 <= k < l < keys@.len() ==> (#[trigger] keys@[k])@ != (#[trigger] keys@[l])@,
            inverts_first(keys@, i as int, table, token_table(decoder)),
            forall|rank: Rank| #[trigger]
                token_table(decoder).contains_key(rank) ==> exists|k: int|
                    0 <= k < i && (#[trigger] keys@[k])@ == token_table(decoder)[rank],
        decreases keys@.len() - i,
    {
        let key = keys[i];
        assert(table.contains_key(key@)) by {
            assert(keys@[i as int]@ == key@);
        }
        let rank = rank_of(encoder, key.as_slice()).unwrap();
        if token_of(&decoder, rank).is_some() {
            proof {
                let other = token_table(decoder)[rank];
                let k = choose|k: int| 0 <= k < i && (#[trigger] keys@[k])@ == other;
                assert(keys@[k]@ != keys@[i as int]@);
                assert(table[other] == table[key@]);
            }
            return None;
        }
        let ghost before = token_table(decoder);
        set_token(&mut decoder, rank, slice_to_vec(key.as_slice()));
        proof {
            let after = token_table(decoder);
            assert forall|k: int| 0 <= k < i + 1 implies after.contains_key(
                table[(#[trigger] keys@[k])@],
            ) && after[table[keys@[k]@]] == keys@[k]@ by {
                if k < i {
                    assert(before.contains_key(table[keys@[k]@]));
                }
            }
            assert forall|r: Rank| #[trigger] after.contains_key(r) implies exists|k: int|
                0 <= k < i + 1 && (#[trigger] keys@[k])@ == after[r] by {
                if r != rank {
                    assert(before.contains_key(r));
                } else {
                    assert(keys@[i as int]@ == after[r]);
                }
            }
            assert forall|r: Rank| #[trigger] after.contains_key(r) implies table.contains_key(
                after[r],
            ) && table[after[r]] == r by {
                if r != rank {
                    assert(before.contains_key(r));
                }
            }
        }
        i += 1;
    }
    proof {
        let decoder = token_table(decoder);
        assert forall|bytes: Seq<u8>| #[trigger] table.contains_key(bytes) implies {
            decoder.contains_key(table[bytes]) && decoder[table[bytes]] == bytes
        } by {
            let k = choose|k: int| 0 <= k < keys@.len() && (#[trigger] keys@[k])@ == bytes;
            assert(decoder[table[keys@[k]@]] == keys@[k]@);
        }
        assert forall|a: Seq<u8>, b: Seq<u8>|
            #![trigger table[a], table[b]]
            table.contains_key(a) && table.contains_key(b) && table[a] == table[b] implies a
            == b by {
            assert(decoder[table[a]] == a);
            assert(decoder[table[b]] == b);
        }
    }
    Some(decoder)
}

/// Whether no two byte strings have the same rank.
pub fn has_distinct_ranks(encoder: &FxHashMap<Vec<u8>, Rank>) -> (distinct: bool)
    ensures
        distinct == ranks_distinct(rank_table(*encoder)),
{
    invert(encoder).is_some()
}

/// Maps the ranks of special tokens back to their bytes. Where several special tokens
/// have the same rank, it is left open whose bytes are kept.
fn invert_special(encoder: &FxHashMap<String, Rank>) -> (decoder: FxHashMap<Rank, Vec<u8>>)
    ensures
        is_special_inverse(special_table(*encoder), token_table(decoder)),
{
    let ghost table = special_table(*encoder);
    let keys = special_keys(encoder);
    let mut decoder = empty_token_table();
    let mut i: usize = 0;
    while i < keys.len()
        invariant
            i <= keys@.len(),
            table == special_table(*encoder),
            forall|key: Seq<char>|
                table.contains_key(key) <==> exists|k: int|
                    0 <= k < keys@.len() && (#[trigger] keys@[k])@ == key,
            forall|k: int|
                0 <= k < i ==> token_table(decoder).contains_key(table[(#[trigger] keys@[k])@]),
            forall|rank: Rank| #[trigger]
                token_table(decoder).contains_key(rank) ==> is_special_bytes(
                    table,
                    rank,
                    token_table(decoder)[rank],
                ),
        decreases keys@.len() - i,
    {
        let key = keys[i];
        assert(table.contains_key(key@)) by {
            assert(keys@[i as int]@ == key@);
        }
        let rank = special_rank_of(encoder, key).unwrap();
        let ghost before = token_table(decoder);
        set_token(&mut decoder, rank, slice_to_vec(key.as_bytes()));
        proof {
            let after = token_table(decoder);
            assert forall|r: Rank| #[trigger] after.contains_key(r) implies is_special_bytes(
                table,
                r,
                after[r],
            ) by {
                if r != rank {
                    assert(before.contains_key(r));
                } else {
                    assert(table.contains_key(key@) && table[key@] == rank && after[r]
                        == encode_utf8(key@));
                }
            }
        }
        i += 1;
    }
    proof {
        assert forall|text: Seq<char>| #[trigger] table.contains_key(text) implies token_table(
            decoder,
        ).contains_key(table[text]) by {
            let k = choose|k: int| 0 <= k < keys@.len() && (#[trigger] keys@[k])@ == text;
            assert(token_table(decoder).contains_key(table[keys@[k]@]));
        }
    }
    decoder
}

/// The flat table of the bytes that ranks decode to.
fn flatten(
    encoder: &FxHashMap<Vec<u8>, Rank>,
    special_encoder: &FxHashMap<String, Rank>,
    special_decoder: &FxHashMap<Rank, Vec<u8>>,
    Ghost(v): Ghost<Vocab>,
) -> (flat: Vec<Vec<u8>>)
    requires
        vocab_wf(v),
        v.encoder == rank_table(*encoder),
        v.special_encoder == special_table(*special_encoder),
        v.special_decoder == token_table(*special_decoder),
    ensures
        flat_fits(flat@, v),
{
    let mut flat: Vec<Vec<u8>> = Vec::new();
    let keys = special_keys(special_encoder);
    let mut i: usize = 0;
    while i < keys.len()
        invariant
            i <= keys@.len(),
            vocab_wf(v),
            v.special_encoder == special_table(*special_encoder),
            v.special_decoder == token_table(*special_decoder),
            forall|key: Seq<char>|
                v.special_encoder.contains_key(key) <==> exists|k: int|
                    0 <= k < keys@.len() && (#[trigger] keys@[k])@ == key,
            forall|rank: Rank|
                (#[trigger] flat_entry(flat@, rank)).len() > 0 ==> v.special_decoder.contains_key(
                    rank,
                ) && flat_entry(flat@, rank) == v.special_decoder[rank],
            forall|k: int|
                0 <= k < i ==> flat_entry(flat@, v.special_encoder[(#[trigger] keys@[k])@])
                    == v.special_decoder[v.special_encoder[keys@[k]@]],
        decreases keys@.len() - i,
    {
        let key = keys[i];
        assert(v.special_encoder.contains_key(key@)) by {
            assert(keys@[i as int]@ == key@);
        }
        let rank = special_rank_of(special_encoder, key).unwrap();
        let bytes = token_of(special_decoder, rank).unwrap();
        set_flat(&mut flat, rank, slice_to_vec(bytes.as_slice()));
        i += 1;
    }
    let ghost base = flat@;
    proof {
        assert forall|rank: Rank|
            v.special_decoder.contains_key(rank) implies #[trigger] flat_entry(base, rank)
            == v.special_decoder[rank] by {
            let text = choose|text: Seq<char>| #[trigger]
                v.special_encoder.contains_key(text) && v.special_encoder[text] == rank
                    && v.special_decoder[rank] == encode_utf8(text);
            assert(is_special_bytes(v.special_encoder, rank, v.special_decoder[rank]));
            let k = choose|k: int| 0 <= k < keys@.len() && (#[trigger] keys@[k])@ == text;
            assert(keys@[k]@ == text);
        }
    }
    let keys = rank_keys(encoder);
    let mut i: usize = 0;
    while i < keys.len()
        invariant
            i <= keys@.len(),
            vocab_wf(v),
            v.encoder == rank_table(*encoder),
            forall|key: Seq<u8>|
                v.encoder.contains_key(key) <==> exists|k: int|
                    0 <= k < keys@.len() && (#[trigger] keys@[k])@ == key,
            forall|rank: Rank| #[trigger]
                flat_entry(flat@, rank) == flat_entry(base, rank) || v.decoder.contains_key(rank)
                    && v.decoder[rank].len() > 0 && flat_entry(flat@, rank) == v.decoder[rank],
            forall|k: int|
                0 <= k < i && (#[trigger] keys@[k])@.len() > 0 ==> flat_entry(
                    flat@,
                    v.encoder[keys@[k]@],
                ) == keys@[k]@,
        decreases keys@.len() - i,
    {
        let key = keys[i];
        assert(v.encoder.contains_key(key@)) by {
            assert(keys@[i as int]@ == key@);
        }
        let ghost before = flat@;
        if key.len() > 0 {
            let rank = rank_of(encoder, key.as_slice()).unwrap();
            set_flat(&mut flat, rank, slice_to_vec(key.as_slice()));
            assert forall|r: Rank| #[trigger]
                flat_entry(flat@, r) == flat_entry(base, r) || v.decoder.contains_key(r)
                    && v.decoder[r].len() > 0 && flat_entry(flat@, r) == v.decoder[r] by {
                assert(flat_entry(before, r) == flat_entry(base, r) || v.decoder.contains_key(r)
                    && v.decoder[r].len() > 0 && flat_entry(before, r) == v.decoder[r]);
            }
            assert forall|k: int| 0 <= k < i + 1 && (#[trigger] keys@[k])@.len() > 0 implies
                flat_entry(flat@, v.encoder[keys@[k]@]) == keys@[k]@ by {
                assert(v.encoder.contains_key(keys@[k]@));
            }
        }
        i += 1;
    }
    proof {
        assert forall|rank: Rank|
            bytes_of_token(v, rank) == (if (#[trigger] flat_entry(flat@, rank)).len() > 0 {
                Some(flat_entry(flat@, rank))
            } else {
                None
            }) by {
            if v.decoder.contains_key(rank) && v.decoder[rank].len() > 0 {
                let key = v.decoder[rank];
                assert(v.encoder.contains_key(key));
                let k = choose|k: int| 0 <= k < keys@.len() && (#[trigger] keys@[k])@ == key;
                assert(flat_entry(flat@, v.encoder[keys@[k]@]) == keys@[k]@);
            } else {
                assert(flat_entry(flat@, rank) == flat_entry(base, rank));
                if v.special_decoder.contains_key(rank) {
                    assert(flat_entry(base, rank) == v.special_decoder[rank]);
                }
            }
        }
    }
    flat
}

/// The byte strings of an encoder in the order of a dictionary.
fn sorted_keys(encoder: &FxHashMap<Vec<u8>, Rank>) -> (list: Vec<Vec<u8>>)
    ensures
        lists_tokens(byte_strings(list@), rank_table(*encoder)),
{
    let keys = rank_keys(encoder);
    let mut list: Vec<Vec<u8>> = Vec::new();
    let mut i: usize = 0;
    while i < keys.len()
        invariant
            i <= keys@.len(),
            list@.len() == i,
            forall|k: int| 0 <= k < i ==> (#[trigger] byte_strings(list@)[k]) == keys@[k]@,
        decreases keys@.len() - i,
    {
        let ghost before = byte_strings(list@);
        list.push(slice_to_vec(keys[i].as_slice()));
        i += 1;
        assert forall|k: int| 0 <= k < i implies (#[trigger] byte_strings(list@)[k])
            == keys@[k]@ by {
            if k < i - 1 {
                assert(before[k] == keys@[k]@);
            }
        }
    }
    let ghost unsorted = byte_strings(list@);
    sort_byte_strings(&mut list);
    proof {
        broadcast use vstd::seq_lib::group_to_multiset_ensures;

        let sorted = byte_strings(list@);
        assert forall|a: int, b: int| 0 <= a < unsorted.len() && 0 <= b < unsorted.len() && a
            != b implies unsorted[a] != unsorted[b] by {
            if a < b {
                assert(keys@[a]@ != keys@[b]@);
            } else {
                assert(keys@[b]@ != keys@[a]@);
            }
        }
        unsorted.lemma_multiset_has_no_duplicates();
        sorted.lemma_multiset_has_no_duplicates_conv();
        assert forall|bytes: Seq<u8>| #[trigger] sorted.contains(bytes) <==> rank_table(
            *encoder,
        ).contains_key(bytes) by {
            assert(sorted.contains(bytes) <==> sorted.to_multiset().count(bytes) > 0);
            assert(unsorted.contains(bytes) <==> unsorted.to_multiset().count(bytes) > 0);
            if unsorted.contains(bytes) {
                let k = choose|k: int| 0 <= k < unsorted.len() && unsorted[k] == bytes;
                assert(keys@[k]@ == bytes);
            }
            if rank_table(*encoder).contains_key(bytes) {
                let k = choose|k: int| 0 <= k < keys@.len() && (#[trigger] keys@[k])@ == bytes;
                assert(unsorted[k] == bytes);
            }
        }
    }
    list
}

/// Compiles a pattern for every slot.
fn compile_slots(pattern: &str) -> (slots: Result<Vec<Regex>, PatternError>)
    requires
        pattern_fits(pattern@),
    ensures
        match compiled(pattern@) {
            Ok(regex) => slots is Ok && all_slots_hold(slots->Ok_0@, regex) && finds_alternatives(
                pattern@,
                regex,
            ),
            Err(message) => slots is Err && slots->Err_0.message@ == message,
        },
{
    let mut slots: Vec<Regex> = Vec::new();
    let mut i: usize = 0;
    while i < MAX_NUM_THREADS
        invariant
            i <= MAX_NUM_THREADS,
            pattern_fits(pattern@),
            slots@.len() == i,
            i > 0 ==> compiled(pattern@) is Ok && finds_alternatives(
                pattern@,
                compiled(pattern@)->Ok_0,
            ),
            forall|k: int| 0 <= k < i ==> #[trigger] slots@[k] == compiled(pattern@)->Ok_0,
        decreases MAX_NUM_THREADS - i,
    {
        match compile(pattern) {
            Ok(regex) => slots.push(regex),
            Err(message) => return Err(PatternError { message }),
        }
        i += 1;
    }
    Ok(slots)
}

/// A pattern that finds the given texts: each of them escaped, as alternatives.
pub fn special_pattern(order: &[&str]) -> (pattern: String)
    ensures
        pattern@ == alternatives(texts(order@)),
        pattern_fits(pattern@),
{
    let mut pattern = String::new();
    let mut i: usize = 0;
    while i < order.len()
        invariant
            i <= order@.len(),
            pattern@ == alternatives(texts(order@).take(i as int)),
        decreases order@.len() - i,
    {
        if i > 0 {
            pattern.append("|");
        }
        pattern.append(escape(order[i]).as_str());
        i += 1;
        proof {
            let taken = texts(order@).take(i as int);
            assert(taken.drop_last() =~= texts(order@).take(i - 1));
            assert(taken.last() == order@[i - 1]@);
            if i == 1 {
                assert(pattern@ =~= escaped(taken[0]));
            }
        }
    }
    assert(texts(order@).take(i as int) =~= texts(order@));
    proof {
        lemma_alternatives_plain(texts(order@));
    }
    pattern
}

/// The map that a list of pairs gives.
fn collect_ranks(pairs: Vec<(Vec<u8>, Rank)>) -> (table: FxHashMap<Vec<u8>, Rank>)
    ensures
        rank_table(table) == ranks_of_pairs(pairs@),
{
    let mut table = empty_rank_table();
    assert(rank_table(table) =~= ranks_of_pairs(pairs@.take(0)));
    let mut i: usize = 0;
    while i < pairs.len()
        invariant
            i <= pairs@.len(),
            rank_table(table) == ranks_of_pairs(pairs@.take(i as int)),
        decreases pairs@.len() - i,
    {
        set_rank(&mut table, slice_to_vec(pairs[i].0.as_slice()), pairs[i].1);
        i += 1;
        assert(pairs@.take(i as int).drop_last() =~= pairs@.take(i - 1));
    }
    assert(pairs@.take(i as int) =~= pairs@);
    table
}

/// The map that a list of pairs gives.
fn collect_special_ranks(pairs: Vec<(String, Rank)>) -> (table: FxHashMap<String, Rank>)
    ensures
        special_table(table) == special_ranks_of_pairs(pairs@),
{
    let mut table = empty_special_table();
    assert(special_table(table) =~= special_ranks_of_pairs(pairs@.take(0)));
    let mut i: usize = 0;
    while i < pairs.len()
        invariant
            i <= pairs@.len(),
            special_table(table) == special_ranks_of_pairs(pairs@.take(i as int)),
        decreases pairs@.len() - i,
    {
        set_special_rank(&mut table, pairs[i].0.clone(), pairs[i].1);
        i += 1;
        assert(pairs@.take(i as int).drop_last() =~= pairs@.take(i - 1));
    }
    assert(pairs@.take(i as int) =~= pairs@);
    table
}

impl CoreBPE {
    /// A tokeniser with the given tokens, pattern, and pattern of special tokens.
    /// `special_pattern` makes one that always fits.
    pub fn with_special_pattern(
        encoder: FxHashMap<Vec<u8>, Rank>,
        special_tokens_encoder: FxHashMap<String, Rank>,
        pattern: &str,
        special_pattern: &str,
    ) -> (bpe: Result<CoreBPE, PatternError>)
        requires
            ranks_distinct(rank_table(encoder)),
            pattern_fits(pattern@),
            pattern_fits(special_pattern@),
        ensures
            match (compiled(pattern@), compiled(special_pattern@)) {
                (Ok(regex), Ok(special_regex)) => {
                    &&& bpe is Ok
                    &&& bpe->Ok_0.wf()
                    &&& bpe->Ok_0.vocab().encoder == rank_table(encoder)
                    &&& bpe->Ok_0.vocab().special_encoder == special_table(special_tokens_encoder)
                    &&& bpe->Ok_0.vocab().regex == regex
                    &&& bpe->Ok_0.vocab().special_regex == special_regex
                    &&& finds_alternatives(special_pattern@, special_regex)
                },
                (Err(message), _) => bpe is Err && bpe->Err_0.message@ == message,
                (Ok(_), Err(message)) => bpe is Err && bpe->Err_0.message@ == message,
            },
    {
        let decoder = invert(&encoder).unwrap();
        let special_tokens_decoder = invert_special(&special_tokens_encoder);
        let sorted_token_bytes = sorted_keys(&encoder);
        let regex_tls = match compile_slots(pattern) {
            Ok(slots) => slots,
            Err(error) => return Err(error),
        };
        let special_regex_tls = match compile_slots(special_pattern) {
            Ok(slots) => slots,
            Err(error) => return Err(error),
        };
        let ghost v = Vocab {
            encoder: rank_table(encoder),
            special_encoder: special_table(special_tokens_encoder),
            decoder: token_table(decoder),
            special_decoder: token_table(special_tokens_decoder),
            regex: regex_tls@[0],
            special_regex: special_regex_tls@[0],
        };
        let decoder_flat = flatten(
            &encoder,
            &special_tokens_encoder,
            &special_tokens_decoder,
            Ghost(v),
        );
        Ok(
            CoreBPE {
                encoder,
                special_tokens_encoder,
                decoder,
                special_tokens_decoder,
                decoder_flat,
                regex_tls,
                special_regex_tls,
                sorted_token_bytes,
            },
        )
    }

    /// A tokeniser with the given tokens and pattern, which has to be one that the engine can
    /// take. The pattern of special tokens lists them in the order in which the map is
    /// walked, which is left open.
    pub fn new_internal(
        encoder: FxHashMap<Vec<u8>, Rank>,
        special_tokens_encoder: FxHashMap<String, Rank>,
        pattern: &str,
    ) -> (bpe: Result<CoreBPE, PatternError>)
        requires
            ranks_distinct(rank_table(encoder)),
            pattern_fits(pattern@),
        ensures
            is_built(
                bpe,
                rank_table(encoder),
                special_table(special_tokens_encoder),
                pattern@,
            ),
    {
        let order = special_keys(&special_tokens_encoder);
        let special_pattern = special_pattern(order.as_slice());
        proof {
            lemma_lists_special(order@, special_table(special_tokens_encoder));
        }
        let bpe = Self::with_special_pattern(
            encoder,
            special_tokens_encoder,
            pattern,
            special_pattern.as_str(),
        );
        proof {
            if bpe is Ok {
                let v = bpe->Ok_0.vocab();
                assert(alternatives(seq![Seq::<char>::empty()]) =~= Seq::<char>::empty());
                lemma_searches_specials(v, texts(order@));
            }
        }
        bpe
    }

    /// A tokeniser with the given tokens and pattern, or `None` where two byte strings have
    /// the same rank or the engine cannot take the pattern.
    pub fn try_new_internal(
        encoder: FxHashMap<Vec<u8>, Rank>,
        special_tokens_encoder: FxHashMap<String, Rank>,
        pattern: &str,
    ) -> (bpe: Option<Result<CoreBPE, PatternError>>)
        ensures
            bpe is Some <==> ranks_distinct(rank_table(encoder)) && pattern_fits(pattern@),
            bpe is Some ==> is_built(
                bpe->0,
                rank_table(encoder),
                special_table(special_tokens_encoder),
                pattern@,
            ),
    {
        if has_distinct_ranks(&encoder) && has_fitting_pattern(pattern) {
            Some(Self::new_internal(encoder, special_tokens_encoder, pattern))
        } else {
            None
        }
    }

    /// A tokeniser with the given regular tokens, special tokens and pattern, which has to be
    /// one that the engine can take.
    pub fn new(
        encoder: Vec<(Vec<u8>, Rank)>,
        special_tokens_encoder: Vec<(String, Rank)>,
        pattern: &str,
    ) -> (bpe: Result<CoreBPE, PatternError>)
        requires
            ranks_distinct(ranks_of_pairs(encoder@)),
            pattern_fits(pattern@),
        ensures
            is_built(
                bpe,
                ranks_of_pairs(encoder@),
                special_ranks_of_pairs(special_tokens_encoder@),
                pattern@,
            ),
    {
        Self::new_internal(
            collect_ranks(encoder),
            collect_special_ranks(special_tokens_encoder),
            pattern,
        )
    }

    /// The expression that cuts a text into pieces, from the slot of a thread.
    pub(crate) fn _get_tl_regex(&self, thread: usize) -> (regex: &Regex)
        requires
            self.wf(),
        ensures
            *regex == self.vocab().regex,
            is_searchable(*regex),
    {
        &self.regex_tls[thread % MAX_NUM_THREADS]
    }

    /// The expression that finds special tokens, from the slot of a thread.
    pub(crate) fn _get_tl_special_regex(&self, thread: usize) -> (regex: &Regex)
        requires
            self.wf(),
        ensures
            *regex == self.vocab().special_regex,
            is_searchable(*regex),
    {
        &self.special_regex_tls[thread % MAX_NUM_THREADS]
    }

    /// The ranks of the regular tokens.
    pub(crate) fn ranks(&self) -> (ranks: &FxHashMap<Vec<u8>, Rank>)
        ensures
            rank_table(*ranks) == self.vocab().encoder,
    {
        &self.encoder
    }

    /// The rank of a special token.
    pub(crate) fn special_rank(&self, text: &str) -> (rank: Option<Rank>)
        ensures
            rank == self.vocab().special_encoder.get(text@),
    {
        special_rank_of(&self.special_tokens_encoder, text)
    }

    /// The bytes of a regular token.
    pub(crate) fn regular_bytes(&self, token: Rank) -> (bytes: Option<&Vec<u8>>)
        ensures
            match bytes {
                Some(bytes) => self.vocab().decoder.get(token) == Some(bytes@),
                None => self.vocab().decoder.get(token) is None,
            },
    {
        token_of(&self.decoder, token)
    }

    /// The bytes that a token decodes to: those of the regular token, else those of the
    /// special token. A token without bytes is treated as a miss.
    pub fn token_bytes(&self, token: Rank) -> (bytes: Option<&[u8]>)
        requires
            self.wf(),
        ensures
            match bytes {
                Some(bytes) => bytes_of_token(self.vocab(), token) == Some(bytes@),
                None => bytes_of_token(self.vocab(), token) is None,
            },
    {
        let ghost entry = flat_entry(self.decoder_flat@, token);
        if (token as usize) < self.decoder_flat.len() {
            let bytes = self.decoder_flat[token as usize].as_slice();
            if bytes.len() > 0 {
                return Some(bytes);
            }
        }
        None
    }

    /// The bytes of a token: those of the regular token, else those of the special token.
    pub fn decode_single_token_bytes(&self, token: Rank) -> (bytes: Option<&[u8]>)
        ensures
            match bytes {
                Some(bytes) => listed_bytes(self.vocab(), token) == Some(bytes@),
                None => listed_bytes(self.vocab(), token) is None,
            },
    {
        if let Some(bytes) = token_of(&self.decoder, token) {
            return Some(bytes.as_slice());
        }
        if let Some(bytes) = token_of(&self.special_tokens_decoder, token) {
            return Some(bytes.as_slice());
        }
        None
    }

    /// The byte strings of the regular tokens, in the order of a dictionary.
    pub fn token_byte_values(&self) -> (list: &Vec<Vec<u8>>)
        requires
            self.wf(),
        ensures
            lists_tokens(byte_strings(list@), self.vocab().encoder),
    {
        &self.sorted_token_bytes
    }

    /// The special tokens, each of them once, in an order that is left open.
    pub fn special_tokens(&self) -> (list: Vec<&str>)
        ensures
            lists_special(texts(list@), self.vocab().special_encoder),
    {
        let list = special_keys(&self.special_tokens_encoder);
        proof {
            lemma_lists_special(list@, self.vocab().special_encoder);
        }
        list
    }
}

} // verus!
