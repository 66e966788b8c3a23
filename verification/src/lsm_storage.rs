//! What the storage core shares with the engine around it: the cache of
//! decoded blocks.

use crate::block::Block;
use std::sync::Arc;
use vstd::prelude::*;

verus! {

/// `moka::sync::Cache`, a concurrent cache. What it holds at a given moment
/// depends on its capacity, on time and on the other threads, so nothing is
/// stated of its contents.
#[verifier::external_type_specification]
#[verifier::external_body]
#[verifier::reject_recursive_types(K)]
#[verifier::reject_recursive_types(V)]
#[verifier::reject_recursive_types(S)]
pub struct ExCache<K, V, S>(moka::sync::Cache<K, V, S>);

/// The cache of decoded blocks, keyed by table id and block index.
pub type BlockCache = moka::sync::Cache<(u64, u32), Arc<Block>>;

} // verus!
