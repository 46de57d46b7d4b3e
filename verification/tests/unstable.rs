use tiktoken::text::white_space;
use tiktoken::{CoreBPE, Rank};

const PATTERN: &str = r"\s+(?!\S)|\s+|\S+";

fn with_merges(merges: &[&[u8]]) -> CoreBPE {
    let mut tokens: Vec<(Vec<u8>, Rank)> =
        (0..=255u8).map(|byte| (vec![byte], byte as Rank)).collect();
    for (i, merge) in merges.iter().enumerate() {
        tokens.push((merge.to_vec(), 256 + i as Rank));
    }
    CoreBPE::new(tokens, vec![("<|end|>".to_string(), 400)], PATTERN).unwrap()
}

fn unstable(bpe: &CoreBPE, text: &str) -> (Vec<Rank>, Vec<Vec<Rank>>) {
    let (tokens, mut completions) = bpe._encode_unstable_native(text, &["<|end|>"], 0);
    completions.sort();
    (tokens, completions)
}

#[test]
fn single_tokens_complete_the_last_piece() {
    let bpe = with_merges(&[b"he", b"ll", b"hell", b"hello", b"lo"]);
    // "he" is a token, and so are "hell" and "hello" that start with it.
    assert_eq!(unstable(&bpe, "he"), (vec![], vec![vec![256], vec![258], vec![259]]));
    assert_eq!(unstable(&bpe, "x\nhe"), (vec![120, 10], vec![vec![256], vec![258], vec![259]]));
}

#[test]
fn tokens_that_straddle_the_end_complete_it() {
    let bpe = with_merges(&[b"he", b"ll", b"hell", b"hello", b"lo"]);
    // "hel": "hell" and "hello" start with it; "l", "ll" and "lo" straddle its end.
    assert_eq!(
        unstable(&bpe, "hel"),
        (vec![], vec![vec![256, 108], vec![256, 260], vec![258], vec![259]])
    );
}

#[test]
fn nothing_is_unstable_behind_a_special_token() {
    let bpe = with_merges(&[b"he"]);
    assert_eq!(unstable(&bpe, "he<|end|>"), (vec![256, 400], vec![]));
    assert_eq!(unstable(&bpe, ""), (vec![], vec![]));
}

#[test]
fn space_before_the_last_piece_is_unstable() {
    let bpe = with_merges(&[]);
    let increase =
        |tokens: &[Rank], last| bpe._increase_last_piece_token_len(tokens.to_vec(), last);
    assert_eq!(increase(&[97, 32, 10, 9], 1), (vec![97, 32, 10, 9], 3));
    assert_eq!(increase(&[97, 32, 98], 1), (vec![97, 32, 98], 1));
    assert_eq!(increase(&[32, 32], 1), (vec![32, 32], 2));
    assert_eq!(increase(&[32, 400, 32], 1), (vec![32, 400, 32], 1));
    assert_eq!(increase(&[32, 13, 32], 1), (vec![32, 13, 32], 1));
    assert_eq!(increase(&[32, 32], 0), (vec![32, 32], 0));
    assert_eq!(increase(&[], 0), (vec![], 0));
}

#[test]
fn a_last_character_of_space_can_split_off() {
    let bpe = with_merges(&[b"\n\n"]);
    // "\n\n" is a token; with a split it is two.
    let (tokens, completions) = unstable(&bpe, "a\n\n");
    assert_eq!(tokens, vec![97]);
    assert!(completions.contains(&vec![256]));
    assert!(completions.contains(&vec![10, 10]));
}

#[test]
fn a_last_character_of_space_has_all_its_bytes() {
    // With the ideographic space (three bytes) split off, "a" stays alone.
    let mut tokens: Vec<(Vec<u8>, Rank)> =
        (0..=255u8).map(|byte| (vec![byte], byte as Rank)).collect();
    tokens.push((b"a\xe3".to_vec(), 256));
    let bpe = CoreBPE::new(tokens, vec![], "(?s).+").unwrap();
    let (stable, completions) = bpe._encode_unstable_native("a\u{3000}", &[], 0);
    assert_eq!(stable, vec![]);
    assert!(completions.contains(&vec![256, 0x80, 0x80]));
    assert!(completions.contains(&vec![97, 0xe3, 0x80, 0x80]));
    assert!(!completions.contains(&vec![256, 0x80]));
}

#[test]
fn completions_start_with_the_text_and_differ() {
    let bpe = with_merges(&[b"he", b"ll", b"hell", b"hello", b"lo", b" w", b"wo", b"  ", b"\n "]);
    for text in ["h", "hel", "hello w", "a \n ", "a\u{2003}", "é"] {
        let (tokens, completions) = unstable(&bpe, text);
        assert!(!completions.is_empty());
        for (i, completion) in completions.iter().enumerate() {
            let whole = [tokens.as_slice(), completion].concat();
            assert!(bpe.decode_bytes(&whole).unwrap().starts_with(text.as_bytes()));
            assert!(i == 0 || completions[i - 1] != *completion);
        }
    }
}

#[test]
fn as_many_tokens_are_kept_as_cover_the_bytes() {
    let bpe = with_merges(&[b"he"]);
    assert_eq!(bpe.cut_tokens(&[256, 97, 98], 0), Some(vec![256]));
    assert_eq!(bpe.cut_tokens(&[256, 97, 98], 2), Some(vec![256]));
    assert_eq!(bpe.cut_tokens(&[256, 97, 98], 3), Some(vec![256, 97]));
    assert_eq!(bpe.cut_tokens(&[256, 97, 98], 9), Some(vec![256, 97, 98]));
    assert_eq!(bpe.cut_tokens(&[], 9), Some(vec![]));
    assert_eq!(bpe.cut_tokens(&[97, 400], 1), Some(vec![97]));
    assert_eq!(bpe.cut_tokens(&[97, 400], 2), None);
}

#[test]
fn given_tokens_are_completed() {
    let bpe = with_merges(&[b"he"]);
    assert_eq!(bpe.complete_tokens(vec![97, 400], 0, 0), Some((vec![97, 400], vec![])));
    let (stable, completions) = bpe.complete_tokens(vec![97, 104], 1, 0).unwrap();
    assert_eq!(stable, vec![97]);
    assert_eq!(completions, vec![vec![104], vec![256]]);
    // A token that decodes to nothing leaves no answer.
    assert_eq!(bpe.complete_tokens(vec![97, 399], 1, 0), None);
}

#[test]
fn bytes_of_a_text_are_encoded_as_the_text() {
    let bpe = with_merges(&[b"he"]);
    assert_eq!(bpe._encode_bytes("he é".as_bytes(), 0), vec![256, 32, 0xc3, 0xa9]);
    assert_eq!(bpe._encode_bytes(b"", 0), vec![]);
}

#[test]
fn bytes_behind_a_text_join_its_last_piece() {
    let bpe = with_merges(&[b"he", b"e\xff", b"hel"]);
    // "he" is taken back, and the bytes are merged anew.
    assert_eq!(bpe._encode_bytes(b"x he\xff", 0), vec![120, 32, 256, 255]);
    assert_eq!(bpe._encode_bytes(b"e\xff", 0), vec![257]);
    assert_eq!(bpe._encode_bytes(b"\xff", 0), vec![255]);
    assert_eq!(bpe._encode_bytes(b"\xff\xfe", 0), vec![255, 254]);
    let merged = with_merges(&[b" \xe2"]);
    assert_eq!(merged._encode_bytes(b"a  \xe2", 0), vec![97, 32, 256]);
    for bytes in [&b"he\xffllo"[..], b"\xe2\x82", b"a \xf0\x9f"] {
        assert_eq!(bpe.decode_bytes(&bpe._encode_bytes(bytes, 0)).unwrap(), bytes);
    }
}

#[test]
fn the_rest_is_encoded_with_the_last_tokens() {
    let bpe = with_merges(&[b"he", b"e\xff"]);
    assert_eq!(bpe.encode_rest(vec![97, 101], 1, b"\xff"), Some(vec![97, 257]));
    assert_eq!(bpe.encode_rest(vec![97, 101], 0, b"\xff"), Some(vec![97, 101, 255]));
    assert_eq!(bpe.encode_rest(vec![97], 0, b""), Some(vec![97]));
    assert_eq!(bpe.encode_rest(vec![399], 1, b"\xff"), None);
}

#[test]
fn white_space_is_that_of_unicode() {
    for code in 0..=0x10ffffu32 {
        if let Some(c) = char::from_u32(code) {
            assert_eq!(white_space(c), c.is_whitespace(), "{code:x}");
        }
    }
}

#[test]
fn stable_tokens_are_the_first_ones() {
    let bpe = with_merges(&[b"he", b"hello"]);
    for text in ["he", "a he", "a  \n ", "x<|end|>he"] {
        let (tokens, last) = bpe.encode(text, &["<|end|>"], 0).unwrap();
        let (stable, _) = unstable(&bpe, text);
        assert!(tokens.starts_with(&stable));
        assert!(stable.len() + last <= tokens.len());
    }
}

#[test]
fn every_token_that_goes_on_is_a_completion() {
    let bpe = with_merges(&[b"he", b"hello"]);
    let (_, completions) = unstable(&bpe, "h");
    assert_eq!(completions, vec![vec![104], vec![256], vec![257]]);
}

#[test]
fn no_completion_has_a_superfluous_token() {
    let bpe = with_merges(&[b"he", b"ll", b"hell", b"hello", b"lo", b" w", b"wo", b"  ", b"\n "]);
    for text in ["h", "hel", "hello w", "a \n ", "a\u{2003}", "é", "x<|end|>hell"] {
        let (tokens, completions) = unstable(&bpe, text);
        for completion in completions {
            let mut whole = [tokens.as_slice(), &completion].concat();
            assert!(bpe.decode_bytes(&whole).unwrap().starts_with(text.as_bytes()));
            assert!(!completion.is_empty());
            whole.pop();
            assert!(bpe.decode_bytes(&whole).unwrap().len() < text.len());
        }
    }
}

#[test]
fn the_tokens_of_the_unstable_bytes_complete_them() {
    let bpe = with_merges(&[b"he", b"ll", b"hell", b"hello", b"lo", b" w", b"wo", b"  ", b"\n "]);
    for text in ["h", "hel", "hello w", "a \n ", "a\u{2003}", "é", "x<|end|>hell"] {
        let (tokens, completions) = unstable(&bpe, text);
        let stable = bpe.decode_bytes(&tokens).unwrap();
        let rest = &text[stable.len()..];
        assert!(!rest.is_empty());
        assert!(completions.contains(&bpe.encode_ordinary(rest, 0)));
    }
}

#[test]
fn the_tokens_of_bytes_are_regular_and_decode_to_them() {
    let bpe = with_merges(&[b"he", b"e\xff", b" \xe2", b"  "]);
    for bytes in
        [&b"he<|end|>"[..], b"<|end|>\xff", b"  \xe2", b"he \n\xe2\x82x", b"\xff\xc3\xa9", b""]
    {
        let tokens = bpe.try_encode_bytes(bytes, 0).unwrap();
        assert_eq!(bpe.decode_bytes(&tokens).unwrap(), bytes);
        assert!(!tokens.contains(&400));
        if let Ok(text) = std::str::from_utf8(bytes) {
            assert_eq!(tokens, bpe.encode_ordinary(text, 0));
        }
    }
}
