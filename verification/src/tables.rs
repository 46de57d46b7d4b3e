//! The hash maps that hold a vocabulary.
//!
//! The maps are `rustc_hash::FxHashMap`s. What one of them holds is named by a
//! spec function on the map, and each operation states what it reads or changes
//! of those contents. In which order a map is walked is left open.
use rustc_hash::FxHashMap;
use vstd::prelude::*;

use crate::bpe::Rank;

verus! {

/// The hasher of an `FxHashMap`, carried in the type of the maps below.
#[verifier::external_type_specification]
#[verifier::external_body]
pub struct ExFxBuildHasher(rustc_hash::FxBuildHasher);

/// What a map from byte strings to ranks holds.
pub uninterp spec fn rank_table(table: FxHashMap<Vec<u8>, Rank>) -> Map<Seq<u8>, Rank>;

/// What a map from texts to ranks holds.
pub uninterp spec fn special_table(table: FxHashMap<String, Rank>) -> Map<Seq<char>, Rank>;

/// What a map from ranks to byte strings holds.
pub uninterp spec fn token_table(table: FxHashMap<Rank, Vec<u8>>) -> Map<Rank, Seq<u8>>;

/// An empty map, made with `FxHashMap::default`.
#[verifier::external_body]
pub(crate) fn empty_rank_table() -> (table: FxHashMap<Vec<u8>, Rank>)
    ensures
        forall|key: Seq<u8>| !(#[trigger] rank_table(table).contains_key(key)),
{
    FxHashMap::default()
}

/// Sets the rank of `key`, with `HashMap::insert`: it takes the place of the rank that
/// the map held for `key`, if it held one.
#[verifier::external_body]
pub(crate) fn set_rank(table: &mut FxHashMap<Vec<u8>, Rank>, key: Vec<u8>, rank: Rank)
    ensures
        rank_table(*final(table)) == rank_table(*old(table)).insert(key@, rank),
{
    table.insert(key, rank);
}

/// Reads a rank, with `HashMap::get`: the value that the map holds for `key`, or
/// `None` where it holds none.
#[verifier::external_body]
pub(crate) fn rank_of(table: &FxHashMap<Vec<u8>, Rank>, key: &[u8]) -> (rank: Option<Rank>)
    ensures
        rank == rank_table(*table).get(key@),
{
    table.get(key).copied()
}

/// The number of byte strings that the map holds a rank for, from `HashMap::len`.
#[verifier::external_body]
pub(crate) fn rank_count(table: &FxHashMap<Vec<u8>, Rank>) -> (count: usize)
    ensures
        count == rank_table(*table).dom().len(),
{
    table.len()
}

/// The byte strings that the map holds a rank for, from `HashMap::keys`: each of them
/// once, in an order that is left open.
#[verifier::external_body]
pub(crate) fn rank_keys<'a>(table: &'a FxHashMap<Vec<u8>, Rank>) -> (keys: Vec<&'a Vec<u8>>)
    ensures
        forall|key: Seq<u8>|
            rank_table(*table).contains_key(key) <==> exists|i: int|
                0 <= i < keys@.len() && (#[trigger] keys@[i])@ == key,
        forall|i: int, j: int|
            0 <= i < j < keys@.len() ==> (#[trigger] keys@[i])@ != (#[trigger] keys@[j])@,
{
    table.keys().collect()
}

/// An empty map, made with `FxHashMap::default`.
#[verifier::external_body]
pub(crate) fn empty_special_table() -> (table: FxHashMap<String, Rank>)
    ensures
        forall|key: Seq<char>| !(#[trigger] special_table(table).contains_key(key)),
{
    FxHashMap::default()
}

/// Sets the rank of `key`, with `HashMap::insert`: it takes the place of the rank that
/// the map held for `key`, if it held one.
#[verifier::external_body]
pub(crate) fn set_special_rank(table: &mut FxHashMap<String, Rank>, key: String, rank: Rank)
    ensures
        special_table(*final(table)) == special_table(*old(table)).insert(key@, rank),
{
    table.insert(key, rank);
}

/// Reads a rank, with `HashMap::get`: the value that the map holds for `key`, or
/// `None` where it holds none.
#[verifier::external_body]
pub(crate) fn special_rank_of(table: &FxHashMap<String, Rank>, key: &str) -> (rank: Option<Rank>)
    ensures
        rank == special_table(*table).get(key@),
{
    table.get(key).copied()
}

/// The texts that the map holds a rank for, from `HashMap::keys`: each of them once, in
/// an order that is left open.
#[verifier::external_body]
pub(crate) fn special_keys<'a>(table: &'a FxHashMap<String, Rank>) -> (keys: Vec<&'a str>)
    ensures
        forall|key: Seq<char>|
            special_table(*table).contains_key(key) <==> exists|i: int|
                0 <= i < keys@.len() && (#[trigger] keys@[i])@ == key,
        forall|i: int, j: int|
            0 <= i < j < keys@.len() ==> (#[trigger] keys@[i])@ != (#[trigger] keys@[j])@,
{
    table.keys().map(|key| key.as_str()).collect()
}

/// An empty map, made with `FxHashMap::default`.
#[verifier::external_body]
pub(crate) fn empty_token_table() -> (table: FxHashMap<Rank, Vec<u8>>)
    ensures
        forall|rank: Rank| !(#[trigger] token_table(table).contains_key(rank)),
{
    FxHashMap::default()
}

/// Sets the bytes of `rank`, with `HashMap::insert`: they take the place of those that
/// the map held for `rank`, if it held any.
#[verifier::external_body]
pub(crate) fn set_token(table: &mut FxHashMap<Rank, Vec<u8>>, rank: Rank, bytes: Vec<u8>)
    ensures
        token_table(*final(table)) == token_table(*old(table)).insert(rank, bytes@),
{
    table.insert(rank, bytes);
}

/// Reads the bytes of a rank, with `HashMap::get`: those that the map holds for it, or
/// `None` where it holds none.
#[verifier::external_body]
pub(crate) fn token_of<'a>(table: &'a FxHashMap<Rank, Vec<u8>>, rank: Rank) -> (bytes: Option<
    &'a Vec<u8>,
>)
    ensures
        match bytes {
            Some(bytes) => token_table(*table).get(rank) == Some(bytes@),
            None => token_table(*table).get(rank) is None,
        },
{
    table.get(&rank)
}

} // verus!
