use rustc_hash::FxHashMap;
use tiktoken::core_bpe::{has_distinct_ranks, special_pattern};
use tiktoken::encode::judge_match;
use tiktoken::limits::has_fitting_pattern;
use tiktoken::vocab::SpecialSearch;
use tiktoken::{CoreBPE, DecodeError, DecodeKeyError, EncodeError, Rank};

const PATTERN: &str =
    r"'(?:[sdmt]|ll|ve|re)| ?\p{L}+| ?\p{N}+| ?[^\s\p{L}\p{N}]+|\s+(?!\S)|\s+";

const MERGES: [&[u8]; 9] =
    [b"he", b"ll", b"hell", b"hello", b" w", b"or", b" wor", b"ld", b" world"];

const END: &str = "<|endoftext|>";

/// Every byte is a token, and so are the merges, in order.
fn regular() -> Vec<(Vec<u8>, Rank)> {
    let mut tokens: Vec<(Vec<u8>, Rank)> =
        (0..=255u8).map(|byte| (vec![byte], byte as Rank)).collect();
    for (i, merge) in MERGES.iter().enumerate() {
        tokens.push((merge.to_vec(), 256 + i as Rank));
    }
    tokens
}

fn special() -> Vec<(String, Rank)> {
    vec![(END.to_string(), 300), ("<|pad|>".to_string(), 301)]
}

fn bpe() -> CoreBPE {
    CoreBPE::new(regular(), special(), PATTERN).unwrap()
}

fn bytes(text: &str) -> Vec<Rank> {
    text.bytes().map(|byte| byte as Rank).collect()
}

#[test]
fn a_piece_that_is_a_token_is_not_split() {
    assert_eq!(bpe().encode_ordinary("hello world", 0), vec![259, 264]);
}

#[test]
fn a_piece_that_is_no_token_is_merged() {
    assert_eq!(bpe().encode_ordinary("hello worlds", 0), vec![259, 264, 115]);
    assert_eq!(bpe().encode_ordinary("", 0), vec![]);
    assert_eq!(bpe().encode_ordinary("é", 0), vec![0xc3, 0xa9]);
}

#[test]
fn every_thread_gets_the_same_tokens() {
    let bpe = bpe();
    for thread in [0, 1, 127, 128, 129, usize::MAX] {
        assert_eq!(bpe.encode_ordinary("hello world", thread), vec![259, 264]);
        assert_eq!(
            bpe.encode("hello<|endoftext|>", &[END], thread).unwrap(),
            (vec![259, 300], 0)
        );
    }
}

#[test]
fn allowed_special_tokens_are_found() {
    let bpe = bpe();
    let text = "hello<|endoftext|> world<|pad|>s";
    assert_eq!(
        bpe.encode(text, &[END, "<|pad|>"], 0).unwrap(),
        (vec![259, 300, 264, 301, 115], 1)
    );
    assert_eq!(bpe.encode_with_special_tokens(text, 0), vec![259, 300, 264, 301, 115]);
    let mut expected = vec![259, 300, 264];
    expected.extend(bytes("<|pad|>s"));
    assert_eq!(bpe.encode(text, &[END], 0).unwrap(), (expected, 1));
    assert_eq!(bpe.encode("<|endoftext|>", &[END], 0).unwrap(), (vec![300], 0));
    assert_eq!(bpe.encode("é<|endoftext|>é", &[END], 0).unwrap().0, vec![
        0xc3, 0xa9, 300, 0xc3, 0xa9
    ]);
}

#[test]
fn without_allowed_special_tokens_encoding_is_ordinary() {
    let bpe = bpe();
    for text in ["", "hello world", "hello<|endoftext|>", "é<|pad|>"] {
        assert_eq!(bpe.encode(text, &[], 0).unwrap().0, bpe.encode_ordinary(text, 0));
    }
}

#[test]
fn the_tokens_of_the_last_piece_are_counted() {
    let bpe = bpe();
    assert_eq!(bpe.encode("hello worlds", &[], 0).unwrap(), (vec![259, 264, 115], 2));
    assert_eq!(bpe.encode("", &[], 0).unwrap(), (vec![], 0));
}

#[test]
fn decoding_undoes_encoding() {
    let bpe = bpe();
    let texts = ["", "hello world", "  hello\n\nworlds 12 é 世界 🙂", "a<|endoftext|>b<|pad|>"];
    for text in texts {
        let ordinary = bpe.encode_ordinary(text, 0);
        assert_eq!(bpe.decode_bytes(&ordinary).unwrap(), text.as_bytes());
        let tokens = bpe.encode_with_special_tokens(text, 0);
        assert_eq!(bpe.decode_bytes(&tokens).unwrap(), text.as_bytes());
    }
}

#[test]
fn decoding_in_two_parts_gives_the_same() {
    let bpe = bpe();
    let (a, b): (&[Rank], &[Rank]) = (&[259, 300], &[264, 115]);
    let mut together = bpe.decode_bytes(a).unwrap();
    together.extend(bpe.decode_bytes(b).unwrap());
    assert_eq!(bpe.decode_bytes(&[a, b].concat()).unwrap(), together);
}

#[test]
fn the_first_unknown_token_is_an_error() {
    let bpe = bpe();
    let error = bpe.decode_bytes(&[259, 299, 298]).unwrap_err();
    assert_eq!(error.token, 299);
    assert_eq!(error.to_string(), "Invalid token for decoding: 299");
    assert_eq!(bpe.decode_bytes(&[Rank::MAX]).unwrap_err().token, Rank::MAX);
    assert_eq!(
        DecodeKeyError { token: 0 }.to_string(),
        "Invalid token for decoding: 0"
    );
    assert_eq!(
        DecodeKeyError { token: 4294967295 }.to_string(),
        "Invalid token for decoding: 4294967295"
    );
}

#[test]
fn errors_are_told() {
    let error = DecodeError { message: "x".to_string() };
    assert_eq!(error.to_string(), "Could not decode tokens: x");
    let error = EncodeError { message: "y".to_string() };
    assert_eq!(error.to_string(), "Could not encode string: y");
}

#[test]
fn the_bytes_of_a_token_are_found() {
    let bpe = bpe();
    assert_eq!(bpe.token_bytes(259), Some(b"hello".as_slice()));
    assert_eq!(bpe.token_bytes(300), Some(END.as_bytes()));
    assert_eq!(bpe.token_bytes(299), None);
    assert_eq!(bpe.token_bytes(302), None);
    assert_eq!(bpe.decode_single_token_bytes(259), Some(b"hello".as_slice()));
    assert_eq!(bpe.decode_single_token_bytes(301), Some(b"<|pad|>".as_slice()));
    assert_eq!(bpe.decode_single_token_bytes(302), None);
}

#[test]
fn a_regular_token_comes_before_a_special_one_of_its_rank() {
    let bpe = CoreBPE::new(
        vec![(b"a".to_vec(), 0), (b"".to_vec(), 1)],
        vec![("<s>".to_string(), 0), ("<t>".to_string(), 1), ("".to_string(), 2)],
        "a",
    )
    .unwrap();
    assert_eq!(bpe.token_bytes(0), Some(b"a".as_slice()));
    assert_eq!(bpe.decode_bytes(&[0]).unwrap(), b"a");
    assert_eq!(bpe.decode_single_token_bytes(0), Some(b"a".as_slice()));
    // A token without bytes is a miss.
    assert_eq!(bpe.token_bytes(1), Some(b"<t>".as_slice()));
    assert_eq!(bpe.decode_single_token_bytes(1), Some(b"".as_slice()));
    assert_eq!(bpe.token_bytes(2), None);
    assert_eq!(bpe.decode_single_token_bytes(2), Some(b"".as_slice()));
}

#[test]
fn the_rank_of_a_token_is_found() {
    let bpe = bpe();
    assert_eq!(bpe.encode_single_token(b"hello"), Some(259));
    assert_eq!(bpe.encode_single_token(END.as_bytes()), Some(300));
    assert_eq!(bpe.encode_single_token(b"hellos"), None);
    assert_eq!(bpe.encode_single_token(b"\xff\xff"), None);
    assert_eq!(bpe.encode_single_token(b"\xff"), Some(255));
    for rank in [0, 255, 259, 264, 300, 301] {
        let bytes = bpe.decode_single_token_bytes(rank).unwrap();
        assert_eq!(bpe.encode_single_token(bytes), Some(rank));
    }
}

#[test]
fn a_single_piece_is_encoded() {
    let bpe = bpe();
    assert_eq!(bpe.encode_single_piece(b"hello"), vec![259]);
    assert_eq!(bpe.encode_single_piece(b"hellos world"), vec![259, 115, 264]);
    assert_eq!(bpe.try_encode_single_piece(b""), None);
}

#[test]
fn the_tokens_are_listed_in_order() {
    let bpe = bpe();
    let list = bpe.token_byte_values();
    assert_eq!(list.len(), 256 + MERGES.len());
    assert!(list.windows(2).all(|pair| pair[0] < pair[1]));
    assert!(list.contains(&b" world".to_vec()));
    let mut special = bpe.special_tokens();
    special.sort();
    assert_eq!(special, vec![END, "<|pad|>"]);
}

#[test]
fn the_last_rank_of_a_token_counts() {
    let bpe = CoreBPE::new(
        vec![(b"a".to_vec(), 5), (b"a".to_vec(), 6)],
        vec![("<s>".to_string(), 7), ("<s>".to_string(), 8)],
        "a",
    )
    .unwrap();
    assert_eq!(bpe.encode_ordinary("aa", 0), vec![6, 6]);
    assert_eq!(bpe.encode_single_token(b"<s>"), Some(8));
    assert_eq!(bpe.token_bytes(5), None);
    assert_eq!(bpe.token_bytes(7), None);
}

#[test]
fn ranks_have_to_be_distinct() {
    let tokens = [(b"a".to_vec(), 1), (b"b".to_vec(), 1)];
    let same: FxHashMap<Vec<u8>, Rank> = FxHashMap::from_iter(tokens);
    assert!(!has_distinct_ranks(&same));
    assert!(CoreBPE::try_new_internal(same, FxHashMap::default(), "a").is_none());
    let tokens = [(b"a".to_vec(), 1), (b"b".to_vec(), 2)];
    let distinct: FxHashMap<Vec<u8>, Rank> = FxHashMap::from_iter(tokens);
    assert!(has_distinct_ranks(&distinct));
    let bpe = CoreBPE::try_new_internal(distinct, FxHashMap::default(), "a|b");
    assert_eq!(bpe.unwrap().unwrap().encode_ordinary("ab", 0), vec![1, 2]);
}

#[test]
fn a_refused_pattern_is_an_error() {
    let error = CoreBPE::new(regular(), special(), "(").err().unwrap();
    assert_eq!(error.message, fancy_regex::Regex::new("(").unwrap_err().to_string());
    let error = CoreBPE::with_special_pattern(
        FxHashMap::default(),
        FxHashMap::default(),
        "a",
        "[",
    );
    assert_eq!(
        error.err().unwrap().message,
        fancy_regex::Regex::new("[").unwrap_err().to_string()
    );
}

#[test]
fn patterns_out_of_range_are_told() {
    let try_new = |pattern: &str| {
        CoreBPE::try_new_internal(FxHashMap::default(), FxHashMap::default(), pattern)
    };
    // Numbers of groups.
    for pattern in [
        r"\k<18446744073709551615>",
        r"\k'18446744073709551615'",
        "(?P=18446744073709551615)",
        "(?(18446744073709551615)a|b)",
        "(?(<18446744073709551615>)a|b)",
        "(?('18446744073709551615')a|b)",
        r"\k<-9223372036854775808>",
        r"(?<n>a)\k<n-9223372036854775808>",
        r"\g<-9223372036854775808>",
        r"\k<18446744073709551615-1>",
        "(?(18446744073709551615+1)a|b)",
    ] {
        assert!(!has_fitting_pattern(pattern), "{pattern}");
        assert!(try_new(pattern).is_none(), "{pattern}");
    }
    // Counts.
    for pattern in [
        "(?:a{4294967296}){4294967296}",
        "(?x)(?:(?:a{4294967296}) {4294967296})",
        "(?x:(?:a{4294967296})# c\n{4294967296})",
        "(?:b|(?:[)]a{4294967296})){4294967296}",
        "(?x)(?:a{4294967296}){ 4294967296}",
        "(?:a{4294967296}){(?#c)4294967296}",
        "a{18446744073709551615}a",
        r"(a{4294967296})\1{4294967296}",
        r"(?<n>a{4294967296})\k<n>{4294967296}",
    ] {
        assert!(!has_fitting_pattern(pattern), "{pattern}");
        assert!(try_new(pattern).is_none(), "{pattern}");
    }
    // A group that is referred to twice, by a group that is referred to twice, and so on.
    let doubled: String = (1..=64).map(|n| format!(r"(\{n}\{n})")).collect();
    assert!(!has_fitting_pattern(&format!("(a){doubled}")));
}

#[test]
fn patterns_that_stop_a_search_are_told() {
    for pattern in [
        // A group that refers back to itself.
        r"(?:x(a|b\1))+",
        r"(?:x(?<n>a|b\k<n>))+",
        r"(?:x(?<n>a|b(?P=n)))+",
        r"(?:x(a|b\k<-1>))+",
        r"(?:x(a|b\k'1'))+",
        r"(a(b)(?:c(?=d\1)))",
        r"((?#()a|[(]\(\1)",
        // A reference without regard to case.
        r"(?i)(\p{L}+) \1",
        r"(?i:(\p{L}+) \1)",
        r"(\p{L}+)(?s-i)(?i) \1",
        // A count of what matches nothing.
        r"\b{18446744073709551000}",
        "^{18446744073709551000}",
        "(?:a?|b){18446744073709551000}",
        "(?:(?=a)){1000001}",
        "((?=a)){1000001}",
        r"(a*)\1{1000000}",
        // What is looked for behind a position is laid out in full.
        "(?<=a{1,4294967295})b",
        "(?<=(?:a{0,1000}b{0,1000}){0,1000})b",
    ] {
        assert!(!has_fitting_pattern(pattern), "{pattern}");
    }
}

#[test]
fn patterns_in_range_are_taken() {
    let long = "[0-9]{3}".repeat(100);
    let groups = "(?:a){1000}".repeat(7);
    for pattern in [
        PATTERN,
        r"(?i:'s|'t|'re)|[^\r\n\p{L}\p{N}]?\p{L}+|\p{N}{1,3}| ?[^\s\p{L}\p{N}]+[\r\n]*|\s+",
        r"[\x{3040}-\x{309F}]{2}|[\u{4E00}-\u{9FFF}]|\x{99}{2}|.",
        r"(\w)\1|(?<n>a)\k<n>|.",
        "(?:[a-z]{8}-(?:[a-z]{4}-){3}[a-z]{12})|.",
        "(12345678901)|-12345678901|.",
        "a{99999999999999999999}|.",
        &long,
        &groups,
        "",
        // References behind their groups, and flags that do not reach them.
        r"(?i:'s|(a)|b)(\w)\2|(?i)x(?-i)(['\x22]).*?\3|.",
        r"(?<q>['\x22])(?<in>(?<x>a)\k<q>\k<x>)|.",
        r"((a)\2)\1|(?:(b)|c\3)+|.",
        r"(?<q>a)(?(q)b|c)|(?(<q>)a)|(?(1)b|c)|.",
        r"(a)?(?(1)b|(?!x)c)|.",
        // What looks like a group or a count, and is none.
        r"[(]{3}|[^]({]|\({2}|\p{L}{2}|(?#(){2})|[\p{L}[(]]|.",
        "(?x) ( ?: a ) {2} # (\n | \\ {2} | .",
        r"{3}{4}|a{,3}{5}|a{2,b}|\b{start}a|x{ 3}|.",
        r"(?>a+)b{1000}|\bc{3}|(?<=ab{0,9}c)d|(?<!a)b|\Ab|\Gb|a\Kb|.",
    ] {
        assert!(has_fitting_pattern(pattern), "{pattern}");
        // What is refused, is refused with an error.
        let built =
            CoreBPE::try_new_internal(FxHashMap::default(), FxHashMap::default(), pattern).unwrap();
        if let Ok(bpe) = &built {
            for text in ["", "abab aabb 'a'b'", "x\"a\" ((({{{", "b cd é世界 333"] {
                bpe.try_encode(text, &[], 0);
            }
        }
        let compiled = fancy_regex::Regex::new(pattern);
        assert_eq!(
            built.err().map(|error| error.message),
            compiled.err().map(|error| error.to_string())
        );
    }
    // References to groups that do not exist are refused, but in range.
    for pattern in [r"\k<2147483647>", r"\k<99999999999999999999999>", r"\99999999999999"] {
        assert!(has_fitting_pattern(pattern));
        assert!(CoreBPE::new(regular(), special(), pattern).is_err());
    }
    assert!(CoreBPE::new(regular(), special(), r"\k<7>").is_err());
}

#[test]
fn special_tokens_may_look_like_references_and_counts() {
    let texts = [
        r"\k<18446744073709551615>",
        "(?P=18446744073709551615)",
        "a{18446744073709551615}{18446744073709551615}",
        "-18446744073709551615>",
        "[[[[",
    ];
    let special = texts.iter().zip(300..).map(|(text, rank)| (text.to_string(), rank)).collect();
    let bpe = CoreBPE::new(regular(), special, PATTERN).unwrap();
    for (text, rank) in texts.iter().zip(300..) {
        assert_eq!(bpe.encode_with_special_tokens(&format!("x{text}"), 0), vec![120, rank]);
    }
}

#[test]
fn encoding_parts_at_the_first_allowed_special_token() {
    let bpe = bpe();
    let pad = "<|pad|>";
    for allowed in [&[END][..], &[pad], &[END, pad]] {
        for front in ["", "hello", "hello <|", "é world"] {
            for back in ["", " world", "s<|pad|>x", "<|endoftext|><|pad|>"] {
                let special = allowed[0];
                let text = format!("{front}{special}{back}");
                let rank = if special == END { 300 } else { 301 };
                let mut expected = bpe.encode_ordinary(front, 0);
                expected.push(rank);
                let (rest, last) = bpe.encode(back, allowed, 0).unwrap();
                expected.extend(rest);
                assert_eq!(bpe.encode(&text, allowed, 0).unwrap(), (expected, last), "{text}");
            }
        }
    }
}

#[test]
fn a_text_without_an_allowed_special_token_is_ordinary() {
    let bpe = bpe();
    for text in ["hello<|endoftext|> world", "<|endoftext|><|pa|>", "é"] {
        for allowed in [&["<|pad|>"][..], &["<|pad|>", "world", "é"]] {
            assert_eq!(bpe.encode(text, allowed, 0).unwrap().0, bpe.encode_ordinary(text, 0));
        }
    }
}

#[test]
fn special_characters_are_escaped() {
    assert_eq!(
        special_pattern(&[r"\.+*?()|[]{}^$#", "-&~ é<>/:'0k"]),
        r"\\\.\+\*\?\(\)\|\[\]\{\}\^\$\#|-&~ é<>/:'0k"
    );
}

#[test]
fn special_tokens_are_searched_for_as_they_stand() {
    assert_eq!(special_pattern(&["a|b", "c.d"]), r"a\|b|c\.d");
    assert_eq!(special_pattern(&["x"]), "x");
    assert_eq!(special_pattern(&[]), "");
    let bpe = CoreBPE::new(regular(), vec![("a.c".to_string(), 300)], PATTERN).unwrap();
    assert_eq!(bpe.encode("abca.c", &["a.c"], 0).unwrap(), (vec![97, 98, 99, 300], 0));
}

#[test]
fn a_search_that_fails_is_an_error() {
    let pattern = "(x+x+)+(?>y)";
    let text = "x".repeat(60);
    let bpe = CoreBPE::new(regular(), special(), pattern).unwrap();
    let expected = fancy_regex::Regex::new(pattern).unwrap().find(&text).unwrap_err();
    let error = bpe.encode(&text, &[], 0).unwrap_err();
    assert_eq!(error.message, format!("Regex error while tokenizing: {expected}"));
    assert_eq!(bpe.try_encode_ordinary(&text, 0), None);
    assert_eq!(bpe.try_encode_with_special_tokens(&text, 0), None);
    assert!(bpe.try_encode_unstable_native(&text, &[], 0).is_none());
    assert!(bpe.try_encode_bytes(text.as_bytes(), 0).is_none());
}

#[test]
fn a_text_without_an_encoding_gives_none() {
    let bpe = CoreBPE::new(vec![(b"a".to_vec(), 0)], special(), r"\w+").unwrap();
    assert_eq!(bpe.try_encode_ordinary("a a", 0), Some(vec![0, 0]));
    assert_eq!(bpe.try_encode_ordinary("ab", 0), None);
    assert!(bpe.try_encode("ab", &[], 0).is_none());
    assert!(bpe.try_encode("a<|endoftext|>b", &[END], 0).is_none());
    // An empty special token is found again and again.
    let bpe = CoreBPE::new(regular(), vec![("".to_string(), 300)], PATTERN).unwrap();
    assert!(bpe.try_encode("ab", &[""], 0).is_none());
    assert_eq!(bpe.encode("ab", &[], 0).unwrap().0, vec![97, 98]);
    // What is allowed but unknown is found where no special token is known.
    let bpe = CoreBPE::new(regular(), vec![], PATTERN).unwrap();
    assert!(bpe.try_encode("ab", &[""], 0).is_none());
    assert_eq!(bpe.encode("ab", &["x"], 0).unwrap().0, vec![97, 98]);
}

#[test]
fn found_pieces_are_encoded() {
    let bpe = bpe();
    let text = "hello worlds";
    let found = |items: &[(usize, usize)]| {
        let items: Vec<_> = items.iter().map(|&range| Ok(range)).collect();
        bpe.encode_items(text, &items).map(|result| result.unwrap())
    };
    assert_eq!(found(&[]), Some((vec![], 0)));
    assert_eq!(found(&[(0, 5), (5, 12)]), Some((vec![259, 264, 115], 2)));
    assert_eq!(found(&[(0, 2)]), Some((vec![256], 1)));
    assert_eq!(found(&[(5, 4)]), None);
    assert_eq!(found(&[(5, 13)]), None);
    assert_eq!(found(&[(0, 0)]), None);
    assert!(bpe.encode_items("é", &[Ok((0, 1))]).is_none());
    let failed = bpe.encode_items(text, &[Ok((0, 5)), Err("why".to_string()), Ok((9, 1))]);
    assert_eq!(failed.unwrap().unwrap_err().message, "Regex error while tokenizing: why");
}

#[test]
fn a_special_token_follows_a_stretch_of_text() {
    let bpe = bpe();
    let items = [Ok((0, 5))];
    assert_eq!(
        bpe.encode_segment("hello", &items, Some(END)).unwrap().unwrap(),
        (vec![259, 300], 0)
    );
    assert_eq!(bpe.encode_segment("hello", &items, None).unwrap().unwrap(), (vec![259], 1));
    assert!(bpe.encode_segment("hello", &items, Some("<|other|>")).is_none());
}

#[test]
fn a_match_that_is_not_allowed_is_passed_over() {
    let judge = |found: Result<Option<(usize, usize)>, String>, allowed: &[&str], from: usize| {
        match judge_match("aé<s>", allowed, from, &found) {
            SpecialSearch::Found(start, end) => format!("found {start} {end}"),
            SpecialSearch::Absent => "absent".to_string(),
            SpecialSearch::Again(again) => format!("again {again}"),
            SpecialSearch::Undefined => "undefined".to_string(),
        }
    };
    assert_eq!(judge(Ok(Some((3, 6))), &["<s>"], 0), "found 3 6");
    assert_eq!(judge(Ok(Some((3, 6))), &["<t>"], 0), "again 4");
    assert_eq!(judge(Ok(Some((1, 3))), &[], 1), "again 3");
    assert_eq!(judge(Ok(Some((6, 6))), &[], 0), "absent");
    assert_eq!(judge(Ok(Some((6, 6))), &["x", ""], 0), "found 6 6");
    assert_eq!(judge(Ok(None), &[], 0), "absent");
    assert_eq!(judge(Ok(Some((2, 3))), &[], 0), "undefined");
    assert_eq!(judge(Ok(Some((3, 6))), &["<s>"], 6), "undefined");
    assert_eq!(judge(Err("why".to_string()), &[], 0), "undefined");
}

#[test]
fn a_clone_encodes_alike() {
    let bpe = bpe();
    assert_eq!(bpe.clone().encode_ordinary("hello world", 3), vec![259, 264]);
}

#[test]
fn tokens_without_special_ones_are_regular() {
    let bpe = bpe();
    for text in ["hello<|endoftext|>", "世界 worlds"] {
        for token in bpe.encode_ordinary(text, 0) {
            assert!(token < 256 + MERGES.len() as Rank);
        }
    }
}

#[test]
fn the_tokens_of_a_piece_decode_to_it() {
    let bpe = bpe();
    for piece in [&b"hello"[..], b"hellos", b"\xff\xfehell"] {
        assert_eq!(bpe.decode_bytes(&bpe.encode_single_piece(piece)).unwrap(), piece);
    }
}

#[test]
fn special_tokens_of_any_characters_are_found_where_they_stand() {
    let ascii: String = (0..128u8).map(|byte| byte as char).collect();
    let specials = [
        "(?#x)", r"\d+", "[[:alpha:]]", "a{2}", "# y", "(?i)", r"\Qz\E", "é^", "\n$", "x|y", "~&-",
        ".*", &ascii,
    ];
    let ranks: Vec<_> =
        specials.iter().enumerate().map(|(i, text)| (text.to_string(), 300 + i as Rank)).collect();
    let bpe = CoreBPE::new(regular(), ranks, PATTERN).unwrap();
    for (i, special) in specials.iter().enumerate() {
        let text = format!("é {special}hello{special}");
        let mut expected = bpe.encode_ordinary("é ", 0);
        expected.extend([300 + i as Rank, 259, 300 + i as Rank]);
        assert_eq!(bpe.encode(&text, &[special], 0).unwrap(), (expected, 0), "{special}");
        let others: Vec<&str> = specials.iter().copied().filter(|other| other != special).collect();
        let plain = "5 zz aa Y x y i";
        assert_eq!(bpe.encode(plain, &others, 0).unwrap().0, bpe.encode_ordinary(plain, 0));
    }
}

#[test]
fn one_of_the_special_tokens_at_a_place_is_found() {
    let ranks = vec![("ab".to_string(), 300), ("abc".to_string(), 301), ("b".to_string(), 302)];
    let bpe = CoreBPE::new(regular(), ranks, PATTERN).unwrap();
    let (tokens, _) = bpe.encode("xabc", &["ab", "abc", "b"], 0).unwrap();
    assert!(tokens == vec![120, 300, 99] || tokens == vec![120, 301]);
}

#[test]
fn only_allowed_special_tokens_occur() {
    let bpe = bpe();
    let text = "hello<|pad|> world<|endoftext|><|pad|>";
    for allowed in [&[][..], &[END], &["<|pad|>"], &[END, "<|pad|>"]] {
        let (tokens, _) = bpe.encode(text, allowed, 0).unwrap();
        assert_eq!(tokens.contains(&300), allowed.contains(&END));
        assert_eq!(tokens.contains(&301), allowed.contains(&"<|pad|>"));
    }
}

#[test]
fn ordinary_tokens_decode_to_the_pieces_that_were_found() {
    let bpe = CoreBPE::new(regular(), special(), r"\w+").unwrap();
    for (text, pieces) in [("a b", "ab"), (" hello, é! ", "helloé"), ("...", ""), ("", "")] {
        let tokens = bpe.encode_ordinary(text, 0);
        assert_eq!(bpe.decode_bytes(&tokens).unwrap(), pieces.as_bytes());
    }
}
