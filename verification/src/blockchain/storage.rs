//! Block storage.
//!
//! A store holds a base (the `Delete` up to which the chain was pruned; at
//! first the genesis header), the header of the block stored last (the
//! head), each block under its number, and the last stable checkpoint.
//! Storing a block puts it under its number, in place of any block stored
//! there before; pruning drops the blocks numbered from the old base to the
//! new one. A store that keeps encodings keeps the protobuf encoding of each
//! block it holds; the one in memory keeps none.
use vstd::prelude::*;
use crate::blockchain::genesis::{genesis_head, spec_genesis_head};
use crate::blockchain::proto::{
    bytes_list, copy_opt_header, spec_encode_block, Block, BlockHeader, BlockModel, CurrentCheckpoint, Delete,
    DeleteModel, HeaderModel,
};

verus! {

/// What a store holds.
pub struct StorageModel {
    pub base: DeleteModel,
    pub head: HeaderModel,
    pub blocks: Map<u64, BlockModel>,
    pub proof_sequence: u64,
    pub proof_messages: Seq<Seq<u8>>,
}

/// The number of the base.
pub open spec fn base_number(m: StorageModel) -> nat {
    m.base.header->0.number as nat
}

/// The number in a block's header.
pub open spec fn number_of(b: BlockModel) -> u64 {
    b.header->0.number
}

/// Whether a store model is one that a store can be in: the base has a
/// header, and every block has one, with the number it is stored under.
pub open spec fn model_wf(m: StorageModel) -> bool {
    &&& m.base.header is Some
    &&& forall|k: u64| #[trigger] m.blocks.contains_key(k) ==> m.blocks[k].header is Some && number_of(m.blocks[k]) == k
}

/// The block stored under number `index`.
pub open spec fn block_at(m: StorageModel, index: u64) -> Option<BlockModel> {
    if m.blocks.contains_key(index) {
        Some(m.blocks[index])
    } else {
        None
    }
}

/// The header of the block stored last (at first, that of the base).
pub open spec fn head_of(m: StorageModel) -> HeaderModel {
    m.head
}

/// The blocks left when those numbered from `from` to `to` are dropped.
pub open spec fn pruned(blocks: Map<u64, BlockModel>, from: nat, to: u64) -> Map<u64, BlockModel> {
    blocks.remove_keys(Set::new(|k: u64| from <= k <= to))
}

/// `bytes` are the encoding of the block stored under number `index`.
pub open spec fn encodes_stored(bytes: Seq<u8>, m: StorageModel, index: u64) -> bool {
    block_at(m, index) matches Some(b) && bytes == spec_encode_block(b)
}

/// The blocks of `s` by number: a later one of a number in place of an
/// earlier.
pub open spec fn blocks_by_number(s: Seq<BlockModel>) -> Map<u64, BlockModel>
    decreases s.len(),
{
    if s.len() == 0 {
        Map::empty()
    } else {
        blocks_by_number(s.drop_last()).insert(number_of(s.last()), s.last())
    }
}

/// The blocks of `s` not numbered from `from` to `to`, in order.
pub open spec fn keep_outside(s: Seq<BlockModel>, from: nat, to: u64) -> Seq<BlockModel>
    decreases s.len(),
{
    if s.len() == 0 {
        Seq::empty()
    } else if from <= number_of(s.last()) <= to {
        keep_outside(s.drop_last(), from, to)
    } else {
        keep_outside(s.drop_last(), from, to).push(s.last())
    }
}

/// Every block of `s` has a header.
pub open spec fn all_headed(s: Seq<BlockModel>) -> bool {
    forall|j: int| 0 <= j < s.len() ==> (#[trigger] s[j]).header is Some
}

/// Each block of `s` that has a header is found by its number, and only
/// those.
proof fn lemma_blocks_by_number(s: Seq<BlockModel>)
    requires
        all_headed(s),
    ensures
        forall|k: u64| #[trigger] blocks_by_number(s).contains_key(k) ==> blocks_by_number(s)[k].header is Some
            && number_of(blocks_by_number(s)[k]) == k,
    decreases s.len(),
{
    if s.len() > 0 {
        lemma_blocks_by_number(s.drop_last());
    }
}

/// The block of `s` found under a number is the last one with it.
proof fn lemma_blocks_by_number_last(s: Seq<BlockModel>, j: int)
    requires
        0 <= j < s.len(),
        forall|i: int| j < i < s.len() ==> number_of(#[trigger] s[i]) != number_of(s[j]),
    ensures
        blocks_by_number(s).contains_key(number_of(s[j])),
        blocks_by_number(s)[number_of(s[j])] == s[j],
    decreases s.len(),
{
    if j < s.len() - 1 {
        let t = s.drop_last();
        assert forall|i: int| j < i < t.len() implies number_of(#[trigger] t[i]) != number_of(t[j]) by {
            assert(t[i] == s[i]);
        }
        lemma_blocks_by_number_last(t, j);
        assert(t[j] == s[j]);
        assert(number_of(s[s.len() - 1]) != number_of(s[j]));
    }
}

/// A number that no block of `s` has is not found.
proof fn lemma_blocks_by_number_absent(s: Seq<BlockModel>, k: u64)
    requires
        forall|i: int| 0 <= i < s.len() ==> number_of(#[trigger] s[i]) != k,
    ensures
        !blocks_by_number(s).contains_key(k),
    decreases s.len(),
{
    if s.len() > 0 {
        let t = s.drop_last();
        assert forall|i: int| 0 <= i < t.len() implies number_of(#[trigger] t[i]) != k by {
            assert(t[i] == s[i]);
        }
        lemma_blocks_by_number_absent(t, k);
    }
}

/// Dropping the blocks of some numbers from the list drops them from the map.
proof fn lemma_keep_outside(s: Seq<BlockModel>, from: nat, to: u64)
    requires
        all_headed(s),
    ensures
        blocks_by_number(keep_outside(s, from, to)) == pruned(blocks_by_number(s), from, to),
        all_headed(keep_outside(s, from, to)),
    decreases s.len(),
{
    if s.len() > 0 {
        let t = s.drop_last();
        assert(all_headed(t)) by {
            assert forall|j: int| 0 <= j < t.len() implies (#[trigger] t[j]).header is Some by {
                assert(t[j] == s[j]);
            }
        }
        lemma_keep_outside(t, from, to);
        let k = keep_outside(t, from, to);
        if !(from <= number_of(s.last()) <= to) {
            assert(keep_outside(s, from, to).drop_last() =~= k);
            assert forall|j: int| 0 <= j < keep_outside(s, from, to).len() implies (#[trigger] keep_outside(
                s,
                from,
                to,
            )[j]).header is Some by {
                if j < k.len() {
                    assert(keep_outside(s, from, to)[j] == k[j]);
                }
            }
        }
        assert(blocks_by_number(keep_outside(s, from, to)) =~= pruned(blocks_by_number(s), from, to));
    }
}

/// How a store on disk starts: from a first block (after clearing the
/// directory, where `clean` is set), resuming after a header, or reading
/// what the directory holds.
pub enum StorageMode {
    Bootstrap { block: Block, clean: bool },
    Resume { header: BlockHeader },
    Read,
}

/// A place to keep the chain.
pub trait Storage: Sized {
    /// What the store holds. Every store in this library gives its own; the
    /// default leaves it open.
    open spec fn model(&self) -> StorageModel {
        vstd::pervasive::arbitrary()
    }

    /// The stored encoding of block `index`, where the store keeps one. A
    /// store that keeps encodings keeps the protobuf encoding of each block
    /// it holds; the default is such a store.
    open spec fn binary(&self, index: u64) -> Option<Seq<u8>> {
        match block_at(self.model(), index) {
            Some(b) => Some(spec_encode_block(b)),
            None => None,
        }
    }

    /// Stores `block` under its number, in place of any block stored there;
    /// its header becomes the head.
    fn store_block(&mut self, block: Block)
        requires
            model_wf(old(self).model()),
            block.header is Some,
        ensures
            model_wf(final(self).model()),
            final(self).model() == (StorageModel {
                blocks: old(self).model().blocks.insert(block.header->0.number, block@),
                head: block.header->0@,
                ..old(self).model()
            }),
    ;

    fn store_proof(&mut self, proof: CurrentCheckpoint)
        requires
            model_wf(old(self).model()),
        ensures
            model_wf(final(self).model()),
            final(self).model() == (StorageModel {
                proof_sequence: proof.sequence,
                proof_messages: bytes_list(proof.messages@),
                ..old(self).model()
            }),
    ;

    fn get_proof(&self) -> (r: &CurrentCheckpoint)
        ensures
            r.sequence == self.model().proof_sequence,
            bytes_list(r.messages@) == self.model().proof_messages,
    ;

    /// Drops the blocks numbered from the base to `delete`'s header, which
    /// becomes the base. The head stays as it is.
    fn prune_chain(&mut self, delete: Delete)
        requires
            model_wf(old(self).model()),
            delete.header is Some,
        ensures
            model_wf(final(self).model()),
            final(self).model() == (StorageModel {
                base: delete@,
                blocks: pruned(old(self).model().blocks, base_number(old(self).model()), delete.header->0.number),
                ..old(self).model()
            }),
    ;

    fn base(&self) -> (r: &Delete)
        ensures
            r@ == self.model().base,
    ;

    fn head(&self) -> (r: &BlockHeader)
        ensures
            r@ == head_of(self.model()),
    ;

    fn read_header(&self, index: u64) -> (r: Option<BlockHeader>)
        requires
            model_wf(self.model()),
        ensures
            r is Some <==> block_at(self.model(), index) is Some,
            r matches Some(h) ==> h@ == block_at(self.model(), index)->0.header->0,
    ;

    fn read_block(&self, index: u64) -> (r: Option<Block>)
        ensures
            r is Some <==> block_at(self.model(), index) is Some,
            r matches Some(b) ==> b@ == block_at(self.model(), index)->0,
    ;

    /// The stored encoding of block `index`: whatever comes back is the
    /// encoding of the block stored under that number.
    fn read_block_binary(&self, index: u64) -> (r: Option<Vec<u8>>)
        ensures
            r is Some <==> self.binary(index) is Some,
            r matches Some(v) ==> v@ == self.binary(index)->0,
            r matches Some(v) ==> encodes_stored(v@, self.model(), index),
    ;
}

/// A store in memory.
pub struct InMemory {
    base: Delete,
    head: BlockHeader,
    storage: Vec<Block>,
    checkpoint: CurrentCheckpoint,
}

impl InMemory {
    /// An empty store whose base and head are the genesis header.
    pub fn new() -> (r: Self)
        ensures
            r.model() == (StorageModel {
                base: DeleteModel { header: Some(spec_genesis_head()), signature: Seq::empty() },
                head: spec_genesis_head(),
                blocks: Map::empty(),
                proof_sequence: 0,
                proof_messages: Seq::empty(),
            }),
            model_wf(r.model()),
    {
        let base = Delete { header: Some(genesis_head()), signature: Vec::new() };
        let storage: Vec<Block> = Vec::new();
        assert(storage@.map_values(|b: Block| b@) =~= Seq::<BlockModel>::empty());
        let r = InMemory { base, head: genesis_head(), storage, checkpoint: CurrentCheckpoint::empty() };
        assert(r.model().blocks =~= Map::<u64, BlockModel>::empty());
        assert(r.model().proof_messages =~= Seq::<Seq<u8>>::empty());
        assert(r.model().base.signature =~= Seq::<u8>::empty());
        r
    }

    /// The stored blocks, in the order they were stored.
    closed spec fn list(&self) -> Seq<BlockModel> {
        self.storage@.map_values(|b: Block| b@)
    }

    /// The base and every stored block have a header.
    #[verifier::type_invariant]
    closed spec fn inv(&self) -> bool {
        &&& all_headed(self.list())
        &&& self.base.header is Some
    }

    /// The stored blocks not numbered from `from` to `to`.
    fn kept(&self, from: u64, to: u64) -> (r: Vec<Block>)
        ensures
            r@.map_values(|b: Block| b@) == keep_outside(self.list(), from as nat, to),
            all_headed(r@.map_values(|b: Block| b@)),
            blocks_by_number(r@.map_values(|b: Block| b@)) == pruned(self.model().blocks, from as nat, to),
    {
        proof {
            use_type_invariant(self);
        }
        let ghost s = self.list();
        let mut kept: Vec<Block> = Vec::new();
        let mut i: usize = 0;
        while i < self.storage.len()
            invariant
                i <= self.storage@.len(),
                s == self.list(),
                all_headed(s),
                kept@.map_values(|b: Block| b@) == keep_outside(s.take(i as int), from as nat, to),
            decreases self.storage@.len() - i,
        {
            let ghost before = kept@;
            assert(s.take(i + 1).drop_last() =~= s.take(i as int));
            assert(s.take(i + 1).last() == s[i as int]);
            assert(s[i as int] == self.storage@[i as int]@);
            let n = self.storage[i].number();
            if !(from <= n && n <= to) {
                kept.push(self.storage[i].copy());
                assert(kept@.map_values(|b: Block| b@) =~= before.map_values(|b: Block| b@).push(s[i as int]));
            }
            i = i + 1;
        }
        assert(s.take(i as int) =~= s);
        proof {
            lemma_keep_outside(s, from as nat, to);
        }
        kept
    }

    /// Where the block numbered `index` is in the list, if it is.
    fn find(&self, index: u64) -> (r: Option<usize>)
        ensures
            r matches Some(j) ==> j < self.list().len() && block_at(self.model(), index) == Some(self.list()[j as int]),
            r is None ==> block_at(self.model(), index) is None,
    {
        proof {
            use_type_invariant(self);
        }
        let ghost s = self.list();
        let mut i: usize = self.storage.len();
        while i > 0
            invariant
                i <= s.len(),
                s == self.list(),
                all_headed(s),
                forall|j: int| i <= j < s.len() ==> number_of(#[trigger] s[j]) != index,
            decreases i,
        {
            assert(s[i - 1] == self.storage@[i - 1]@);
            assert(s[i - 1].header is Some);
            assert(number_of(s[i - 1]) == self.storage@[i - 1].header->0.number);
            if self.storage[i - 1].number() == index {
                proof {
                    lemma_blocks_by_number_last(s, i - 1);
                }
                return Some(i - 1);
            }
            i = i - 1;
        }
        proof {
            lemma_blocks_by_number_absent(s, index);
        }
        None
    }
}

impl Storage for InMemory {
    closed spec fn model(&self) -> StorageModel {
        StorageModel {
            base: self.base@,
            head: self.head@,
            blocks: blocks_by_number(self.list()),
            proof_sequence: self.checkpoint.sequence,
            proof_messages: bytes_list(self.checkpoint.messages@),
        }
    }

    closed spec fn binary(&self, index: u64) -> Option<Seq<u8>> {
        None
    }

    fn store_block(&mut self, block: Block) {
        proof {
            use_type_invariant(&*self);
        }
        let n = block.number();
        let ghost m0 = self.model();
        let ghost b = block@;
        let mut kept = self.kept(n, n);
        let head = block.header().copy();
        let ghost k0 = kept@.map_values(|x: Block| x@);
        kept.push(block);
        assert(kept@.map_values(|x: Block| x@) =~= k0.push(b));
        self.storage = kept;
        self.head = head;
        proof {
            lemma_blocks_by_number(self.list());
            assert(self.list().drop_last() =~= k0);
            assert(self.list().last() == b);
            assert(pruned(m0.blocks, n as nat, n).insert(n, b) =~= m0.blocks.insert(n, b));
            assert(self.model().blocks =~= m0.blocks.insert(n, b));
        }
    }

    fn store_proof(&mut self, proof: CurrentCheckpoint) {
        proof {
            use_type_invariant(&*self);
            lemma_blocks_by_number(self.list());
        }
        self.checkpoint = proof;
    }

    fn get_proof(&self) -> (r: &CurrentCheckpoint) {
        &self.checkpoint
    }

    fn prune_chain(&mut self, delete: Delete) {
        proof {
            use_type_invariant(&*self);
        }
        let from = self.base.number();
        let kept = self.kept(from, delete.number());
        self.storage = kept;
        self.base = delete;
        proof {
            lemma_blocks_by_number(self.list());
        }
    }

    fn base(&self) -> (r: &Delete) {
        &self.base
    }

    fn head(&self) -> (r: &BlockHeader) {
        &self.head
    }

    fn read_header(&self, index: u64) -> (r: Option<BlockHeader>) {
        proof {
            use_type_invariant(self);
        }
        match self.find(index) {
            Some(j) => {
                assert(self.list()[j as int] == self.storage@[j as int]@);
                copy_opt_header(&self.storage[j].header)
            },
            None => None,
        }
    }

    fn read_block(&self, index: u64) -> (r: Option<Block>) {
        match self.find(index) {
            Some(j) => {
                assert(self.list()[j as int] == self.storage@[j as int]@);
                Some(self.storage[j].copy())
            },
            None => None,
        }
    }

    fn read_block_binary(&self, index: u64) -> (r: Option<Vec<u8>>) {
        None
    }
}

} // verus!
