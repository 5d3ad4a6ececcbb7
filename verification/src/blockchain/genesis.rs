//! The genesis block: number 0, no hashes, no data.
use vstd::prelude::*;
use crate::blockchain::hashing::{hash_header, spec_hash_header};
use crate::blockchain::proto::{Block, BlockData, BlockHeader, BlockMetadata, HeaderModel};

verus! {

pub const GENESIS_NUMBER: u64 = 0;

pub const FIRST_BLOCK_NUM: u64 = GENESIS_NUMBER + 1;

pub open spec fn spec_genesis_head() -> HeaderModel {
    HeaderModel { number: 0, previous_hash: Seq::empty(), data_hash: Seq::empty() }
}

/// The header of the genesis block.
pub fn genesis_head() -> (r: BlockHeader)
    ensures
        r@ == spec_genesis_head(),
{
    BlockHeader { number: GENESIS_NUMBER, previous_hash: Vec::new(), data_hash: Vec::new() }
}

/// The hash of the genesis header, which the first block holds.
pub fn genesis_hash() -> (r: Vec<u8>)
    ensures
        r@ == spec_hash_header(spec_genesis_head()),
{
    hash_header(&genesis_head())
}

/// The genesis block: the genesis header, empty data and empty metadata.
pub fn genesis_block() -> (r: Block)
    ensures
        r@.header == Some(spec_genesis_head()),
        r@.data == Some(Seq::<Seq<u8>>::empty()),
        r@.metadata == Some(Seq::<Seq<u8>>::empty()),
{
    let r = Block {
        header: Some(genesis_head()),
        data: Some(BlockData { data: Vec::new() }),
        metadata: Some(BlockMetadata { metadata: Vec::new() }),
    };
    assert(r@.data->0 =~= Seq::<Seq<u8>>::empty());
    assert(r@.metadata->0 =~= Seq::<Seq<u8>>::empty());
    r
}

} // verus!
