//! Decoding.
use vstd::prelude::*;

use crate::bpe::Rank;
use crate::core_bpe::CoreBPE;
use crate::error::DecodeKeyError;
use crate::vocab::{Vocab, decoded};

verus! {

/// Where some of the first tokens decode to nothing, so do all of them together.
proof fn lemma_decoded_prefix_fails(v: Vocab, tokens: Seq<Rank>, len: int)
    requires
        0 <= len <= tokens.len(),
        decoded(v, tokens.take(len)) is Err,
    ensures
        decoded(v, tokens) == decoded(v, tokens.take(len)),
    decreases tokens.len(),
{
    if len < tokens.len() {
        assert(tokens.drop_last().take(len) =~= tokens.take(len));
        lemma_decoded_prefix_fails(v, tokens.drop_last(), len);
    } else {
        assert(tokens.take(len) =~= tokens);
    }
}

impl CoreBPE {
    /// Decodes tokens into bytes, which are not always those of a text. The first token
    /// that decodes to nothing is an error.
    pub fn decode_bytes(&self, tokens: &[Rank]) -> (bytes: Result<Vec<u8>, DecodeKeyError>)
        requires
            self.wf(),
        ensures
            match bytes {
                Ok(bytes) => decoded(self.vocab(), tokens@) == Ok::<Seq<u8>, Rank>(bytes@),
                Err(error) => decoded(self.vocab(), tokens@) == Err::<Seq<u8>, Rank>(error.token),
            },
    {
        let ghost v = self.vocab();
        let mut bytes: Vec<u8> = Vec::new();
        let mut i: usize = 0;
        while i < tokens.len()
            invariant
                self.wf(),
                v == self.vocab(),
                i <= tokens@.len(),
                decoded(v, tokens@.take(i as int)) == Ok::<Seq<u8>, Rank>(bytes@),
            decreases tokens@.len() - i,
        {
            let ghost before = bytes@;
            let token = tokens[i];
            assert(tokens@.take(i + 1).drop_last() =~= tokens@.take(i as int));
            match self.token_bytes(token) {
                Some(more) => {
                    bytes.extend_from_slice(more);
                    assert(bytes@ =~= before + more@);
                },
                None => {
                    proof {
                        assert(decoded(v, tokens@.take(i + 1)) == Err::<Seq<u8>, Rank>(token));
                        lemma_decoded_prefix_fails(v, tokens@, i + 1);
                    }
                    return Err(DecodeKeyError { token });
                },
            }
            i += 1;
        }
        assert(tokens@.take(i as int) =~= tokens@);
        Ok(bytes)
    }
}

} // verus!
