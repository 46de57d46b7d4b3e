//! Byte pair encoding: a tokeniser that merges adjacent byte strings by rank.
//!
//! A text is cut into pieces by a regular expression, and each piece into tokens by
//! merging its bytes. `bpe` and `vocab` say what the tokens are; the modules whose names end
//! in `laws` say what holds of them, of a tokeniser, and of the vocabulary files; the other
//! modules compute them. What is taken from outside without proof stands in `tables`,
//! `pattern` and `outside`.

pub mod agree_laws;
pub mod bpe;
pub mod byte_pair;
pub mod completion_laws;
pub mod core_bpe;
pub mod data_gym;
pub mod decode;
pub mod encode;
pub mod encode_bytes;
pub mod end_laws;
pub mod error;
pub mod fault_laws;
pub mod file_laws;
pub mod json;
pub mod json_laws;
pub mod laws;
pub mod limits;
mod merge_heap;
mod merge_large;
pub mod merge_laws;
pub mod order;
pub mod outside;
pub mod pattern;
pub mod pattern_laws;
pub mod rank_laws;
pub mod ranks;
pub mod read_laws;
pub mod result_laws;
pub mod sequence_set;
pub mod special_laws;
pub mod split;
pub mod tables;
pub mod text;
pub mod text_laws;
pub mod unstable;
pub mod vocab;
pub mod written_laws;

pub use bpe::Rank;
pub use byte_pair::{byte_pair_encode, byte_pair_split, try_byte_pair_encode};
pub use core_bpe::CoreBPE;
pub use data_gym::{DataGymByteTable, DataGymError, DataGymMergePairs, data_gym_merge_pairs};
pub use error::{DecodeError, DecodeKeyError, EncodeError, PatternError};
pub use json::{encoder_json_entries, for_each_encoder_json_entry};
pub use ranks::data_gym_mergeable_ranks;
