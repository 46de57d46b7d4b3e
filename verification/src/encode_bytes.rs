//! Encoding bytes that need not be those of a text.
use vstd::prelude::*;
use vstd::utf8::*;

use crate::bpe::Rank;
use crate::core_bpe::CoreBPE;
use crate::outside::text_of_bytes;
use crate::tables::rank_of;
use crate::text::texts;
use crate::unstable::{lemma_last_bounded, unstable_count};
use crate::vocab::{Encoding, Vocab, decoded, encoding, ordinary_encoding, piece_tokens};

verus! {

/// The first `len` bytes are those of a text, and no longer prefix is.
pub open spec fn is_valid_up_to(bytes: Seq<u8>, len: int) -> bool {
    &&& 0 <= len <= bytes.len()
    &&& valid_utf8(bytes.take(len))
    &&& forall|longer: int|
        len < longer <= bytes.len() ==> !valid_utf8(#[trigger] bytes.take(longer))
}

/// The length of the longest prefix that is the bytes of a text.
pub open spec fn valid_up_to(bytes: Seq<u8>) -> int {
    choose|len: int| is_valid_up_to(bytes, len)
}

/// There is a longest prefix that is the bytes of a text.
pub proof fn lemma_valid_up_to(bytes: Seq<u8>)
    ensures
        is_valid_up_to(bytes, valid_up_to(bytes)),
{
    let len = lemma_valid_prefix(bytes, bytes.len() as int);
    assert(is_valid_up_to(bytes, len));
}

/// Among the prefixes up to a length, there is a longest that is the bytes of a text.
proof fn lemma_valid_prefix(bytes: Seq<u8>, most: int) -> (len: int)
    requires
        0 <= most <= bytes.len(),
    ensures
        0 <= len <= most,
        valid_utf8(bytes.take(len)),
        forall|longer: int| len < longer <= most ==> !valid_utf8(#[trigger] bytes.take(longer)),
    decreases most,
{
    if most == 0 {
        assert(bytes.take(0).len() == 0);
        0
    } else if valid_utf8(bytes.take(most)) {
        most
    } else {
        lemma_valid_prefix(bytes, most - 1)
    }
}

/// The tokens, followed by those of the bytes as a piece of their own. `None` where the
/// piece has no encoding.
pub open spec fn with_piece(v: Vocab, tokens: Seq<Rank>, bytes: Seq<u8>) -> Option<Seq<Rank>> {
    if bytes.len() == 0 {
        Some(tokens)
    } else {
        match piece_tokens(v.encoder, bytes) {
            Some(more) => Some(tokens + more),
            None => None,
        }
    }
}

/// The tokens of a text and of the bytes behind it, where the last piece of the text has
/// `last` tokens: the unstable ones at its end are encoded again, together with the bytes.
/// `None` where there is no answer.
pub open spec fn with_rest(v: Vocab, tokens: Seq<Rank>, last: nat, rest: Seq<u8>) -> Option<
    Seq<Rank>,
> {
    let stable = tokens.len() - unstable_count(v, tokens, last);
    if stable < tokens.len() {
        match decoded(v, tokens.skip(stable)) {
            Ok(unstable) => with_piece(v, tokens.take(stable), unstable + rest),
            Err(_) => None,
        }
    } else {
        with_piece(v, tokens, rest)
    }
}

/// The tokens of some bytes: those of the text, where they are the bytes of one, else
/// those of the text at their start and of the bytes behind it. `None` where there is no
/// answer.
pub open spec fn bytes_encoding(v: Vocab, bytes: Seq<u8>) -> Option<Seq<Rank>> {
    if valid_utf8(bytes) {
        match ordinary_encoding(v, decode_utf8(bytes)) {
            Encoding::Tokens(tokens, _) => Some(tokens),
            _ => None,
        }
    } else {
        let len = valid_up_to(bytes);
        match encoding(v, decode_utf8(bytes.take(len)), Set::empty()) {
            Encoding::Tokens(tokens, last) => with_rest(v, tokens, last, bytes.skip(len)),
            _ => None,
        }
    }
}

/// The rank of a token: that of the regular token with these bytes, else that of the
/// special token.
pub open spec fn rank_of_token(v: Vocab, bytes: Seq<u8>) -> Option<Rank> {
    if v.encoder.contains_key(bytes) {
        Some(v.encoder[bytes])
    } else if valid_utf8(bytes) {
        v.special_encoder.get(decode_utf8(bytes))
    } else {
        None
    }
}

impl CoreBPE {
    /// The tokens of a text and of the bytes behind it, where the last piece of the text has
    /// `last_piece_token_len` tokens. `None` where there is no answer.
    ///
    /// The unstable tokens at the end of the text are encoded again, together with the
    /// bytes: where these are the start of a character, they belong to the last piece.
    pub fn encode_rest(
        &self,
        tokens: Vec<Rank>,
        last_piece_token_len: usize,
        rest: &[u8],
    ) -> (result: Option<Vec<Rank>>)
        requires
            self.wf(),
            last_piece_token_len <= tokens@.len(),
        ensures
            match result {
                Some(result) => with_rest(
                    self.vocab(),
                    tokens@,
                    last_piece_token_len as nat,
                    rest@,
                ) == Some(result@),
                None => with_rest(self.vocab(), tokens@, last_piece_token_len as nat, rest@)
                    is None,
            },
    {
        let (mut tokens, count) = self._increase_last_piece_token_len(
            tokens,
            last_piece_token_len,
        );
        let ghost before = tokens@;
        let stable = tokens.len() - count;
        let mut unstable_bytes: Vec<u8> = Vec::new();
        if count > 0 {
            let decoded = self.decode_bytes(&tokens.as_slice()[stable..tokens.len()]);
            assert(before.subrange(stable as int, before.len() as int) =~= before.skip(
                stable as int,
            ));
            match decoded {
                Ok(bytes) => unstable_bytes = bytes,
                Err(_) => return None,
            }
            tokens.truncate(stable);
            assert(tokens@ =~= before.take(stable as int));
        }
        let ghost front = unstable_bytes@;
        unstable_bytes.extend_from_slice(rest);
        proof {
            assert(unstable_bytes@ =~= front + rest@);
            if count == 0 {
                assert(unstable_bytes@ =~= rest@);
            }
        }
        if unstable_bytes.len() > 0 {
            match self.push_piece(unstable_bytes.as_slice(), &mut tokens) {
                Some(_) => {},
                None => return None,
            }
        }
        Some(tokens)
    }

    /// The tokens of some bytes: those of the text, where they are the bytes of one. Else
    /// the text at their start is encoded, and the bytes behind it with its last piece.
    /// `None` where there is no answer. The result is the same for every thread.
    pub fn try_encode_bytes(&self, bytes: &[u8], thread: usize) -> (tokens: Option<Vec<Rank>>)
        requires
            self.wf(),
        ensures
            match tokens {
                Some(tokens) => bytes_encoding(self.vocab(), bytes@) == Some(tokens@),
                None => bytes_encoding(self.vocab(), bytes@) is None,
            },
    {
        let valid = match text_of_bytes(bytes) {
            Ok(text) => {
                proof {
                    encode_utf8_decode_utf8(text@);
                }
                return self.try_encode_ordinary(text, thread);
            },
            Err((valid, _)) => valid,
        };
        proof {
            assert(is_valid_up_to(bytes@, valid as int));
            let len = valid_up_to(bytes@);
            if len < valid {
                assert(!valid_utf8(bytes@.take(valid as int)));
            } else if len > valid {
                assert(!valid_utf8(bytes@.take(len)));
            }
        }
        let start = &bytes[0..valid];
        let rest = &bytes[valid..bytes.len()];
        proof {
            assert(start@ =~= bytes@.take(valid as int));
            assert(rest@ =~= bytes@.skip(valid as int));
        }
        let text = match text_of_bytes(start) {
            Ok(text) => text,
            Err(_) => return None,
        };
        proof {
            encode_utf8_decode_utf8(text@);
        }
        let none_allowed: Vec<&str> = Vec::new();
        assert(texts(none_allowed@).to_set() =~= Set::empty());
        match self.try_encode(text, none_allowed.as_slice(), thread) {
            Some(Ok((tokens, last_piece_token_len))) => {
                proof {
                    lemma_last_bounded(self.vocab(), text@, Set::empty(), 0);
                }
                self.encode_rest(tokens, last_piece_token_len, rest)
            },
            _ => None,
        }
    }

    /// The tokens of some bytes: those of the text, where they are the bytes of one. Else
    /// the text at their start is encoded, and the bytes behind it with its last piece.
    pub fn _encode_bytes(&self, bytes: &[u8], thread: usize) -> (tokens: Vec<Rank>)
        requires
            self.wf(),
            bytes_encoding(self.vocab(), bytes@) is Some,
        ensures
            bytes_encoding(self.vocab(), bytes@) == Some(tokens@),
    {
        self.try_encode_bytes(bytes, thread).unwrap()
    }

    /// The rank of a token: that of the regular token with these bytes, else that of the
    /// special token. `None` where there is neither.
    pub fn encode_single_token(&self, piece: &[u8]) -> (rank: Option<Rank>)
        ensures
            rank == rank_of_token(self.vocab(), piece@),
    {
        if let Some(rank) = rank_of(self.ranks(), piece) {
            return Some(rank);
        }
        match text_of_bytes(piece) {
            Ok(text) => {
                proof {
                    encode_utf8_decode_utf8(text@);
                }
                self.special_rank(text)
            },
            Err(_) => None,
        }
    }

    /// The tokens of a piece: its own rank where it is a token, else those of byte pair
    /// encoding. `None` where it has no encoding.
    pub fn try_encode_single_piece(&self, piece: &[u8]) -> (tokens: Option<Vec<Rank>>)
        ensures
            match tokens {
                Some(tokens) => piece_tokens(self.vocab().encoder, piece@) == Some(tokens@),
                None => piece_tokens(self.vocab().encoder, piece@) is None,
            },
    {
        let mut tokens: Vec<Rank> = Vec::new();
        match self.push_piece(piece, &mut tokens) {
            Some(_) => {
                assert(piece_tokens(self.vocab().encoder, piece@)->0 =~= tokens@);
                Some(tokens)
            },
            None => None,
        }
    }

    /// The tokens of a piece: its own rank where it is a token, else those of byte pair
    /// encoding.
    pub fn encode_single_piece(&self, piece: &[u8]) -> (tokens: Vec<Rank>)
        requires
            piece_tokens(self.vocab().encoder, piece@) is Some,
        ensures
            piece_tokens(self.vocab().encoder, piece@) == Some(tokens@),
    {
        self.try_encode_single_piece(piece).unwrap()
    }
}

} // verus!
