use rustc_hash::FxHashMap;
use tiktoken::{Rank, byte_pair_encode, byte_pair_split, try_byte_pair_encode};

fn setup_ranks() -> FxHashMap<Vec<u8>, Rank> {
    FxHashMap::from_iter([(b"ab".to_vec(), 0), (b"cd".to_vec(), 1)])
}

/// Every byte is a token, and so are the given byte strings, in order.
fn with_merges(merges: &[&[u8]]) -> FxHashMap<Vec<u8>, Rank> {
    let mut ranks: FxHashMap<Vec<u8>, Rank> = FxHashMap::default();
    for byte in 0..=255u8 {
        ranks.insert(vec![byte], byte as Rank);
    }
    for (i, merge) in merges.iter().enumerate() {
        ranks.insert(merge.to_vec(), 256 + i as Rank);
    }
    ranks
}

#[test]
fn test_simple_characters() {
    let ranks = setup_ranks();
    let res = byte_pair_split(b"abcd", &ranks);
    assert_eq!(res, vec![b"ab", b"cd"]);
}

#[test]
fn test_repeated_characters() {
    let ranks = setup_ranks();
    let res = byte_pair_split(b"abab", &ranks);
    assert_eq!(res, vec![b"ab", b"ab"]);
}

#[test]
fn the_pair_of_least_rank_merges_first() {
    let ranks = with_merges(&[b"bc", b"ab", b"abc"]);
    assert_eq!(byte_pair_split(b"abc", &ranks), vec![b"abc".as_slice()]);
    let ranks = with_merges(&[b"bc", b"ab"]);
    assert_eq!(byte_pair_split(b"abc", &ranks), vec![b"a".as_slice(), b"bc".as_slice()]);
    assert_eq!(byte_pair_encode(b"abc", &ranks), vec![97, 256]);
}

#[test]
fn of_equal_pairs_the_leftmost_merges_first() {
    let ranks = with_merges(&[b"aa"]);
    assert_eq!(byte_pair_encode(b"aaa", &ranks), vec![256, 97]);
}

#[test]
fn a_single_byte_is_looked_up() {
    let ranks = with_merges(&[]);
    assert_eq!(byte_pair_encode(b"z", &ranks), vec![122]);
}

#[test]
fn the_parts_make_up_the_piece() {
    let ranks = with_merges(&[b"he", b"ll", b"hell", b"hello"]);
    let piece = b"hello hell he";
    assert_eq!(byte_pair_split(piece, &ranks).concat(), piece.to_vec());
}

#[test]
fn long_and_short_pieces_are_encoded_alike() {
    let ranks = with_merges(&[b"ab", b"ba", b"abab", b"bab", b"cab", b"abc", b"abcab"]);
    let mut seed: u32 = 7;
    for len in [99usize, 100, 101, 150, 257] {
        let mut piece = Vec::new();
        for _ in 0..len {
            seed = seed.wrapping_mul(1664525).wrapping_add(1013904223);
            piece.push(b'a' + (seed >> 16) as u8 % 3);
        }
        let split: Vec<Rank> =
            byte_pair_split(&piece, &ranks).iter().map(|part| ranks[*part]).collect();
        assert_eq!(byte_pair_encode(&piece, &ranks), split);
    }
}

#[test]
fn a_rank_of_the_greatest_number_never_merges() {
    let mut ranks = with_merges(&[]);
    ranks.insert(b"ab".to_vec(), Rank::MAX);
    assert_eq!(byte_pair_encode(b"ab", &ranks), vec![97, 98]);
    let long = b"ab".repeat(60);
    let expected: Vec<Rank> = long.iter().map(|&byte| byte as Rank).collect();
    assert_eq!(byte_pair_encode(&long, &ranks), expected);
}

#[test]
fn a_piece_without_an_encoding_gives_none() {
    let ranks = setup_ranks();
    assert_eq!(try_byte_pair_encode(b"", &ranks), None);
    assert_eq!(try_byte_pair_encode(b"a", &ranks), None);
    assert_eq!(try_byte_pair_encode(b"abc", &ranks), None);
    assert_eq!(try_byte_pair_encode(b"abcd", &ranks), Some(vec![0, 1]));
    assert_eq!(try_byte_pair_encode(&b"a".repeat(200), &ranks), None);
    assert_eq!(try_byte_pair_encode(&b"ab".repeat(100), &ranks), Some(vec![0; 100]));
}

#[test]
fn nothing_is_left_to_merge() {
    let ranks = with_merges(&[b"he", b"ll", b"hell", b"hello"]);
    let parts = byte_pair_split(b"hellohelhe", &ranks);
    for pair in parts.windows(2) {
        assert!(!ranks.contains_key(&pair.concat()));
    }
    for part in parts {
        assert!(ranks.contains_key(part));
    }
}
