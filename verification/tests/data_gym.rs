use tiktoken::{
    DataGymByteTable, DataGymError, Rank, data_gym_merge_pairs, data_gym_mergeable_ranks,
    encoder_json_entries, for_each_encoder_json_entry,
};

/// Printable ASCII stands for itself, and `Ġ`/`Ĉ` stand for the space and 0x08.
fn data_gym_table() -> DataGymByteTable {
    let mut mapping: Vec<(char, u8)> = (b'!'..=b'~').map(|byte| (byte as char, byte)).collect();
    mapping.push(('Ġ', b' '));
    mapping.push(('Ĉ', 0x08));
    DataGymByteTable::new(mapping).unwrap()
}

fn entries(contents: &[u8]) -> Result<Vec<(Vec<u8>, Rank)>, DataGymError> {
    let mut entries = Vec::new();
    let result = for_each_encoder_json_entry(contents, &data_gym_table(), |token, rank| {
        entries.push((token.to_vec(), rank));
        Ok(())
    });
    result.map(|()| entries)
}

fn message(contents: &[u8]) -> String {
    let error = entries(contents).unwrap_err();
    assert!(!error.is_mismatch);
    error.to_string()
}

#[test]
fn test_data_gym_merge_pairs() {
    // The version header and whatever follows the last newline are dropped.
    let mut lines = data_gym_merge_pairs("#version: 0.2\nĠ t\nh e\n");
    let mut pairs = Vec::new();
    while let Some(pair) = lines.next() {
        pairs.push(pair.unwrap());
    }
    assert_eq!(pairs, vec![("Ġ", "t"), ("h", "e")]);
    assert!(data_gym_merge_pairs("").next().is_none());
    assert!(data_gym_merge_pairs("#version: 0.2\n").next().is_none());
    // A line without exactly two halves is malformed.
    assert!(data_gym_merge_pairs("#version: 0.2\nlonely\n").next().unwrap().is_err());
}

#[test]
fn test_encoder_json_entries() {
    let table = data_gym_table();
    let mut entries = Vec::new();
    for_each_encoder_json_entry(
        br#" {"!": 0, "\"": 1, "\u0120t": 2, "\\": 3, "\u0108": 4} "#,
        &table,
        |token, rank| {
            entries.push((token.to_vec(), rank));
            Ok(())
        },
    )
    .unwrap();
    assert_eq!(
        entries,
        vec![
            (b"!".to_vec(), 0),
            (b"\"".to_vec(), 1),
            (b" t".to_vec(), 2),
            (b"\\".to_vec(), 3),
            (vec![0x08], 4),
        ]
    );

    // An empty object is valid; anything that is not this exact shape is not.
    for_each_encoder_json_entry(b"{}", &table, |_, _| Ok(())).unwrap();
    for malformed in [
        &b"{"[..],
        b"{\"!\" 0}",
        b"{\"!\": }",
        b"{\"!\": -1}",
        b"{\"!\": 0,}",
        b"{\"!\": 0} trailing",
        b"{\"\\q\": 0}",
        b"{\"\\ud800\": 0}",
    ] {
        assert!(
            for_each_encoder_json_entry(malformed, &table, |_, _| Ok(())).is_err(),
            "{malformed:?} should be rejected"
        );
    }
}

#[test]
fn test_data_gym_mergeable_ranks() {
    let table = data_gym_table();
    let single_bytes = [b'!', b' '];
    let vocab_bpe = "#version: 0.2\n! Ġ\n!Ġ !\n";
    // Ranks: "!" 0, " " 1, "! " 2, "! !" 3.
    let encoder_json = br#"{"!": 0, "\u0120": 1, "!\u0120": 2, "!\u0120!": 3}"#;
    let ranks =
        data_gym_mergeable_ranks(&table, &single_bytes, vocab_bpe, encoder_json, false).unwrap();
    assert_eq!(
        ranks,
        vec![
            (b"!".to_vec(), 0),
            (b" ".to_vec(), 1),
            (b"! ".to_vec(), 2),
            (b"! !".to_vec(), 3),
        ]
    );

    // Special tokens in the encoder json are not mergeable and are ignored.
    let with_special = br#"{"!": 0, "\u0120": 1, "!\u0120": 2, "!\u0120!": 3, "<|endoftext|>": 9}"#;
    assert!(
        data_gym_mergeable_ranks(&table, &single_bytes, vocab_bpe, with_special, false).is_ok()
    );

    // A disagreement between the two files is reported as a mismatch.
    let disagrees = br#"{"!": 0, "\u0120": 1, "!\u0120": 3, "!\u0120!": 2}"#;
    let err = data_gym_mergeable_ranks(&table, &single_bytes, vocab_bpe, disagrees, false)
        .unwrap_err();
    assert!(err.is_mismatch);
    // As is a missing entry.
    let incomplete = br#"{"!": 0, "\u0120": 1, "!\u0120": 2}"#;
    assert!(
        data_gym_mergeable_ranks(&table, &single_bytes, vocab_bpe, incomplete, false)
            .unwrap_err()
            .is_mismatch
    );

    // Clobbering takes the one-byte ranks from the encoder json instead.
    let clobbered = br#"{"!": 7, "\u0120": 1, "!\u0120": 2, "!\u0120!": 3}"#;
    let ranks =
        data_gym_mergeable_ranks(&table, &single_bytes, vocab_bpe, clobbered, true).unwrap();
    assert_eq!(ranks[0], (b"!".to_vec(), 7));
}

#[test]
fn a_character_out_of_range_has_no_place_in_the_table() {
    let error = DataGymByteTable::new(vec![('a', 1), ('\u{200}', 2), ('\u{201}', 3)])
        .err()
        .unwrap();
    assert!(!error.is_mismatch);
    assert_eq!(error.to_string(), "data gym character 'Ȁ' is outside the supported range");
    assert!(DataGymByteTable::new(vec![('\u{1ff}', 2)]).is_ok());
}

#[test]
fn the_last_byte_of_a_character_counts() {
    let table = DataGymByteTable::new(vec![('a', 1), ('a', 2)]).unwrap();
    let mut out = Vec::new();
    table.push_decoded("aa", &mut out).unwrap();
    assert_eq!(out, vec![2, 2]);
}

#[test]
fn the_first_unmapped_character_is_an_error() {
    let table = data_gym_table();
    let mut out = vec![9];
    let error = table.push_decoded("a b", &mut out).unwrap_err();
    assert_eq!(error.to_string(), "' ' is not a data gym character");
    assert_eq!(out, vec![9, b'a']);
    let error = table.push_decoded("\u{3000}", &mut out).unwrap_err();
    assert_eq!(error.to_string(), "'\\u{3000}' is not a data gym character");
}

#[test]
fn a_line_of_merges_has_two_halves() {
    let mut lines = data_gym_merge_pairs("header\na b c\n\n \u{3000} x\t y\r\nrest");
    let error = lines.next().unwrap().unwrap_err();
    assert_eq!(error.to_string(), "expected two merge halves in vocab.bpe line \"a b c\"");
    let error = lines.next().unwrap().unwrap_err();
    assert_eq!(error.to_string(), "expected two merge halves in vocab.bpe line \"\"");
    assert_eq!(lines.next().unwrap().unwrap(), ("x", "y"));
    assert!(lines.next().is_none());
    assert!(lines.next().is_none());
}

#[test]
fn every_fault_of_the_json_is_told_with_its_place() {
    for (contents, expected) in [
        (&b""[..], "malformed encoder.json: expected '{' at byte 0"),
        (b"  ", "malformed encoder.json: expected '{' at byte 1"),
        (b" [", "malformed encoder.json: expected '{' at byte 1"),
        (b"{", "malformed encoder.json: expected '\"' at byte 0"),
        (b"{ x", "malformed encoder.json: expected '\"' at byte 2"),
        (b"{\"!", "malformed encoder.json: unterminated string at byte 3"),
        (b"{\"!\\", "malformed encoder.json: unterminated escape at byte 4"),
        (b"{\"\\q\": 0}", "malformed encoder.json: unknown escape at byte 4"),
        (b"{\"\\u12", "malformed encoder.json: expected four hex digits at byte 6"),
        (b"{\"\\u12x", "malformed encoder.json: expected four hex digits at byte 7"),
        (b"{\"\\ud800\": 0}", "malformed encoder.json: unpaired surrogate escape at byte 9"),
        (b"{\"\\ud800\\n", "malformed encoder.json: unpaired surrogate escape at byte 10"),
        (b"{\"\\ud800", "malformed encoder.json: unpaired surrogate escape at byte 8"),
        (b"{\"\\ud800\\", "malformed encoder.json: unpaired surrogate escape at byte 9"),
        (b"{\"\\ud800\\u0041", "malformed encoder.json: unpaired surrogate escape at byte 14"),
        (b"{\"\\udc00\": 0}", "malformed encoder.json: unpaired surrogate escape at byte 8"),
        (b"{\"\t\": 0}", "malformed encoder.json: unescaped control character at byte 2"),
        (b"{\" \": 0}", "' ' is not a data gym character"),
        (b"{\"!\" 0}", "malformed encoder.json: expected ':' at byte 5"),
        (b"{\"!\"", "malformed encoder.json: expected ':' at byte 3"),
        (b"{\"!\": }", "malformed encoder.json: expected a rank at byte 6"),
        (b"{\"!\": 007}", "malformed encoder.json: rank with a leading zero at byte 9"),
        (b"{\"!\": 00}", "malformed encoder.json: rank with a leading zero at byte 8"),
        (b"{\"!\": 4294967296}", "malformed encoder.json: rank out of range at byte 16"),
        (b"{\"!\": 0", "malformed encoder.json: expected ',' or '}' at byte 7"),
        (b"{\"!\": 0;", "malformed encoder.json: expected ',' or '}' at byte 8"),
        (b"{\"!\": 0} x", "malformed encoder.json: expected end of encoder.json at byte 9"),
        (b"{} x", "malformed encoder.json: expected end of encoder.json at byte 3"),
    ] {
        assert_eq!(message(contents), expected, "{contents:?}");
    }
    assert_eq!(
        message(b"{\xff"),
        "encoder.json is not valid UTF-8: invalid utf-8 sequence of 1 bytes from index 1"
    );
}

#[test]
fn escapes_and_numbers_are_read() {
    let mapping = "\"\\/\u{8}\u{c}\n\r\tAéĠ".chars().zip(1u8..).collect();
    let table = DataGymByteTable::new(mapping).unwrap();
    let mut entries = Vec::new();
    for_each_encoder_json_entry(
        "{\"\\\"\\\\\\/\\b\\f\\n\\r\\t\\u0041\\u00e9é\\u0120Ġ\" : 42 , \"\":4294967295}".as_bytes(),
        &table,
        |token, rank| {
            entries.push((token.to_vec(), rank));
            Ok(())
        },
    )
    .unwrap();
    assert_eq!(
        entries,
        vec![(vec![1, 2, 3, 4, 5, 6, 7, 8, 9, 10, 10, 11, 11], 42), (vec![], Rank::MAX)]
    );
    // A pair of surrogates is one character, which no table holds.
    assert_eq!(message(b"{\"\\ud83d\\ude00\": 0}"), "'😀' is not a data gym character");
}

#[test]
fn an_error_of_the_visitor_ends_the_reading() {
    let mut seen = 0;
    let result = for_each_encoder_json_entry(
        b"{\"a\": 0, \"b\": 1, broken",
        &data_gym_table(),
        |_, rank| {
            seen += 1;
            if rank == 1 {
                return Err(DataGymError { message: "stop".to_string(), is_mismatch: true });
            }
            Ok(())
        },
    );
    assert_eq!(result.unwrap_err().to_string(), "stop");
    assert_eq!(seen, 2);
}

#[test]
fn the_visitor_sees_the_entries_of_the_file_only() {
    let table = data_gym_table();
    let seen = |contents: &[u8]| {
        let mut seen = vec![];
        let result = for_each_encoder_json_entry(contents, &table, |token, rank| {
            seen.push((token.to_vec(), rank));
            Ok(())
        });
        (result.is_ok(), seen)
    };
    assert_eq!(seen(b"{}"), (true, vec![]));
    assert_eq!(seen(b"{"), (false, vec![]));
    assert_eq!(seen(b"{\"a\": 7}"), (true, vec![(b"a".to_vec(), 7)]));
}

#[test]
fn every_mismatch_is_told() {
    let table = data_gym_table();
    let run = |json: &[u8]| {
        let error =
            data_gym_mergeable_ranks(&table, b"ab", "h\na b\n", json, false).unwrap_err();
        assert!(error.is_mismatch);
        error.to_string()
    };
    assert_eq!(
        run(b"{\"a\": 0, \"abc\": 1}"),
        "encoder.json has token [97, 98, 99] (rank 1), which vocab.bpe does not produce"
    );
    assert_eq!(
        run(b"{\"\": 5}"),
        "encoder.json has token [] (rank 5), which vocab.bpe does not produce"
    );
    assert_eq!(
        run(b"{\"a\": 0, \"ab\": 7}"),
        "encoder.json ranks token [97, 98] 7, vocab.bpe ranks it 2"
    );
    assert_eq!(
        run(b"{\"a\": 0, \"b\": 1}"),
        "vocab.bpe produces 3 tokens, encoder.json lists 2"
    );
    // An entry that stands twice does not make up for one that is missing.
    assert_eq!(
        run(b"{\"a\": 0, \"b\": 1, \"b\": 1}"),
        "vocab.bpe produces 3 tokens, encoder.json lists 2"
    );
    // Of several entries of a token, the last one counts.
    assert_eq!(
        run(b"{\"a\": 0, \"b\": 1, \"ab\": 2, \"ab\": 3}"),
        "encoder.json ranks token [97, 98] 3, vocab.bpe ranks it 2"
    );
}

#[test]
fn an_entry_that_stands_twice_does_no_harm() {
    let table = data_gym_table();
    let expected = vec![(b"a".to_vec(), 0), (b"b".to_vec(), 1), (b"ab".to_vec(), 2)];
    for json in [
        &b"{\"a\": 0, \"b\": 1, \"ab\": 2, \"ab\": 2}"[..],
        b"{\"ab\": 7, \"a\": 0, \"b\": 1, \"ab\": 2}",
    ] {
        let ranks = data_gym_mergeable_ranks(&table, b"ab", "h\na b\n", json, false).unwrap();
        assert_eq!(ranks, expected);
    }
    let json = b"{\"a\": 5, \"a\": 9, \"b\": 1, \"ab\": 2}";
    let ranks = data_gym_mergeable_ranks(&table, b"ab", "h\na b\n", json, true).unwrap();
    assert_eq!(ranks[0], (b"a".to_vec(), 9));
}

#[test]
fn entries_are_listed_up_to_the_fault() {
    let table = data_gym_table();
    let (listed, fault) = encoder_json_entries(b"{\"a\": 3, \"!b\": 4}", &table);
    assert_eq!(listed, vec![(b"a".to_vec(), 3), (b"!b".to_vec(), 4)]);
    assert!(fault.is_none());
    let (listed, fault) = encoder_json_entries(b"{\"a\": 3, \"!b\": 4 x", &table);
    assert_eq!(listed, vec![(b"a".to_vec(), 3), (b"!b".to_vec(), 4)]);
    assert_eq!(
        fault.unwrap().to_string(),
        "malformed encoder.json: expected ',' or '}' at byte 18"
    );
    let (listed, fault) = encoder_json_entries(b"\xff", &table);
    assert_eq!(listed, vec![]);
    assert_eq!(
        fault.unwrap().to_string(),
        "encoder.json is not valid UTF-8: invalid utf-8 sequence of 1 bytes from index 0"
    );
}

#[test]
fn words_are_parted_at_separators() {
    for separator in ['\u{1c}', '\u{1d}', '\u{1e}', '\u{1f}', ' ', '\t', '\u{3000}'] {
        let text = format!("#version: 0.2\na{separator}b\n");
        let pair = data_gym_merge_pairs(&text).next().unwrap().unwrap();
        assert_eq!(pair, ("a", "b"));
    }
    assert!(data_gym_merge_pairs("#version: 0.2\na\u{1b}b\n").next().unwrap().is_err());
}

#[test]
fn a_malformed_file_is_no_mismatch() {
    let table = data_gym_table();
    let run = |vocab: &str, json: &[u8]| {
        let error = data_gym_mergeable_ranks(&table, b"ab", vocab, json, false).unwrap_err();
        assert!(!error.is_mismatch);
        error.to_string()
    };
    assert_eq!(
        run("h\na\n", b"{}"),
        "expected two merge halves in vocab.bpe line \"a\""
    );
    assert_eq!(run("h\né b\n", b"{}"), "'é' is not a data gym character");
    assert_eq!(run("h\na é\n", b"{}"), "'é' is not a data gym character");
    assert_eq!(
        run("h\na b\n", b"{\"a\": 0"),
        "malformed encoder.json: expected ',' or '}' at byte 7"
    );
    // Also where a mismatch stands before it.
    assert_eq!(
        run("h\na b\n", b"{\"a\": 5} x"),
        "malformed encoder.json: expected end of encoder.json at byte 9"
    );
    assert_eq!(
        run("h\na b\n", b"{\"a\": 1, broken"),
        "malformed encoder.json: expected '\"' at byte 9"
    );
}

#[test]
fn a_token_that_is_made_twice_has_its_last_rank() {
    let table = data_gym_table();
    let vocab = "h\na b\nb c\na b\n";
    let json = b"{\"a\": 0, \"b\": 1, \"c\": 2, \"bc\": 4, \"ab\": 5}";
    let ranks = data_gym_mergeable_ranks(&table, b"abc", vocab, json, false).unwrap();
    assert_eq!(
        ranks,
        vec![
            (b"a".to_vec(), 0),
            (b"b".to_vec(), 1),
            (b"c".to_vec(), 2),
            (b"ab".to_vec(), 3),
            (b"bc".to_vec(), 4),
            (b"ab".to_vec(), 5),
        ]
    );
}

#[test]
fn clobbering_leaves_longer_tokens_to_the_check() {
    let table = data_gym_table();
    let json = b"{\"a\": 9, \"b\": 8, \"ab\": 7, \"<|startoftext|>\": 3}";
    assert!(data_gym_mergeable_ranks(&table, b"ab", "h\na b\n", json, true).is_err());
    let json = b"{\"a\": 9, \"b\": 8, \"ab\": 2, \"<|startoftext|>\": 3}";
    assert_eq!(
        data_gym_mergeable_ranks(&table, b"ab", "h\na b\n", json, true).unwrap(),
        vec![(b"a".to_vec(), 9), (b"b".to_vec(), 8), (b"ab".to_vec(), 2)]
    );
}

#[test]
fn an_object_that_is_written_down_is_read_back() {
    let table = DataGymByteTable::new((0..=255u8).map(|byte| (byte as char, byte)).collect());
    let table = table.unwrap();
    let mut written = "{".to_string();
    let mut expected = Vec::new();
    for byte in 0..=255u8 {
        let shown = match byte as char {
            c @ ('"' | '\\') => format!("\\{c}"),
            c if byte < 0x20 => format!("\\u{:04x}", c as u32),
            c => c.to_string(),
        };
        let rank = byte as Rank * 16777216 + 7;
        written.push_str(&format!("{}\"{shown}z\": {rank}", if byte > 0 { ", " } else { "" }));
        expected.push((vec![byte, b'z'], rank));
    }
    written.push('}');
    let mut entries = Vec::new();
    for_each_encoder_json_entry(written.as_bytes(), &table, |token, rank| {
        entries.push((token.to_vec(), rank));
        Ok(())
    })
    .unwrap();
    assert_eq!(entries, expected);
}

#[test]
fn two_words_in_a_line_are_a_merge() {
    let mut lines = data_gym_merge_pairs("h\nfirst second\nlast line");
    assert_eq!(lines.next().unwrap().unwrap(), ("first", "second"));
    assert!(lines.next().is_none());
}
