//! Routing of metrics to shards.
//!
//! A metric's shard is a function of its identifier and of the number of
//! shards alone, so a sample and every query for it meet in one shard.

use std::collections::hash_map::DefaultHasher;
use std::hash::Hasher;
use vstd::prelude::*;
use vstd::std_specs::hash::DefaultHasherAdditionalSpecFns;
use vstd::utf8::encode_utf8;

verus! {

/// The byte that closes a hashed identifier. It occurs in no UTF-8 text, so
/// no identifier hashes as the front of another.
pub const END_OF_TEXT: u8 = 0xff;

/// The hash of an identifier: the standard hasher's result after the
/// identifier's UTF-8 bytes and the closing byte.
pub open spec fn stable_hash(metric_id: Seq<char>) -> u64 {
    DefaultHasher::spec_finish(seq![encode_utf8(metric_id), seq![END_OF_TEXT]])
}

/// The shard of a metric among `shards` shards.
pub open spec fn shard_of(metric_id: Seq<char>, shards: int) -> int {
    stable_hash(metric_id) as int % shards
}

/// The shard that holds the samples of `metric_id`.
pub fn route(metric_id: &str, shards: usize) -> (shard: usize)
    requires
        shards > 0,
    ensures
        shard == shard_of(metric_id@, shards as int),
        shard < shards,
{
    let mut hasher = DefaultHasher::new();
    hasher.write(metric_id.as_bytes());
    let end: [u8; 1] = [END_OF_TEXT];
    assert(end@ =~= seq![END_OF_TEXT]);
    hasher.write(end.as_slice());
    assert(hasher@ =~= seq![encode_utf8(metric_id@), seq![END_OF_TEXT]]);
    let hash: u64 = hasher.finish();
    (hash % (shards as u64)) as usize
}

} // verus!
