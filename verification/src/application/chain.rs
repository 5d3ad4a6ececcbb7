//! Cutting transactions into blocks, and the chain of blocks on a store.
use vstd::prelude::*;
use crate::blockchain::hashing::{
    block_valid, blocks_model, chain_links, hash_data, hash_header, lemma_chain_links_push, lemma_chain_links_skip,
    spec_hash_data, spec_hash_header, tip_hash,
};
use crate::blockchain::proto::{
    bytes_list, encode_transaction, spec_encode_transaction, tx_list, Block,
    BlockData, BlockHeader, BlockModel, CurrentCheckpoint, Delete, HeaderModel, Transaction, TxModel,
};
use crate::blockchain::storage::{
    base_number, block_at, encodes_stored, head_of, model_wf, number_of, pruned, Storage, StorageModel,
};
use crate::application::config::Config;

verus! {

/// Collects transactions until there are enough for a block.
pub struct BlockCutter {
    config: Config,
    buffer: Vec<Transaction>,
}

/// Transactions, borrowed or owned.
pub enum TxBuffer<'a> {
    Borrowed(&'a [Transaction]),
    Owned(Vec<Transaction>),
}

impl<'a> View for TxBuffer<'a> {
    type V = Seq<TxModel>;

    open spec fn view(&self) -> Seq<TxModel> {
        match self {
            TxBuffer::Borrowed(b) => tx_list(b@),
            TxBuffer::Owned(v) => tx_list(v@),
        }
    }
}

/// A copy of a list of transactions.
pub fn clone_txs(v: &[Transaction]) -> (r: Vec<Transaction>)
    ensures
        tx_list(r@) == tx_list(v@),
{
    let mut out: Vec<Transaction> = Vec::new();
    let mut i: usize = 0;
    while i < v.len()
        invariant
            i <= v@.len(),
            out@.len() == i,
            forall|j: int| 0 <= j < i ==> (#[trigger] out@[j])@ == v@[j]@,
        decreases v@.len() - i,
    {
        out.push(v[i].copy());
        i = i + 1;
    }
    assert(tx_list(out@) =~= tx_list(v@)) by {
        assert forall|j: int| 0 <= j < out@.len() implies tx_list(out@)[j] == tx_list(v@)[j] by {
            assert(out@[j]@ == v@[j]@);
        }
    }
    out
}

impl<'a> TxBuffer<'a> {
    /// The transactions, owned.
    pub fn into_owned(self) -> (r: Vec<Transaction>)
        ensures
            tx_list(r@) == self@,
    {
        match self {
            TxBuffer::Borrowed(b) => clone_txs(b),
            TxBuffer::Owned(v) => v,
        }
    }
}

/// The state of a block cutter in a checkpoint: its buffered transactions.
pub struct CutterState<'a> {
    pub buffer: TxBuffer<'a>,
}

impl<'a> CutterState<'a> {
    /// The same state, owning its transactions.
    pub fn into_owned(self) -> (r: CutterState<'static>)
        ensures
            r.buffer@ == self.buffer@,
    {
        CutterState { buffer: TxBuffer::Owned(self.buffer.into_owned()) }
    }
}

impl BlockCutter {
    pub fn new(config: Config) -> (r: Self)
        ensures
            r.buffered() == Seq::<TxModel>::empty(),
            r.max_messages() == config.max_block_messages,
    {
        let r = BlockCutter { config, buffer: Vec::new() };
        assert(r.buffered() =~= Seq::<TxModel>::empty());
        r
    }

    /// The transactions that wait for a block.
    pub closed spec fn buffered(&self) -> Seq<TxModel> {
        tx_list(self.buffer@)
    }

    pub closed spec fn max_messages(&self) -> nat {
        self.config.max_block_messages as nat
    }

    /// Whether appending one more transaction cuts a block.
    pub fn cuts_next(&self) -> (r: bool)
        ensures
            r == (self.buffered().len() + 1 >= self.max_messages()),
    {
        self.buffer.len() >= self.config.max_block_messages || self.config.max_block_messages - self.buffer.len() <= 1
    }

    /// The buffered transactions, borrowed.
    pub fn state(&self) -> (r: CutterState<'_>)
        ensures
            r.buffer@ == self.buffered(),
    {
        CutterState { buffer: TxBuffer::Borrowed(self.buffer.as_slice()) }
    }

    /// Replaces the buffered transactions by those of a checkpoint.
    pub fn apply_state(&mut self, state: CutterState<'_>)
        ensures
            final(self).buffered() == state.buffer@,
            final(self).max_messages() == old(self).max_messages(),
    {
        self.buffer = state.buffer.into_owned();
    }

    /// Buffers a transaction; once the buffer holds `max_block_messages`
    /// transactions or more, hands them all out for a block and empties it.
    pub fn append(&mut self, transaction: Transaction) -> (r: Option<Vec<Transaction>>)
        ensures
            final(self).max_messages() == old(self).max_messages(),
            old(self).buffered().len() + 1 >= old(self).max_messages() ==> (r matches Some(block)
                && tx_list(block@) == old(self).buffered().push(transaction@)
                && final(self).buffered() == Seq::<TxModel>::empty()),
            old(self).buffered().len() + 1 < old(self).max_messages() ==> (r is None
                && final(self).buffered() == old(self).buffered().push(transaction@)),
    {
        let ghost t = transaction@;
        self.buffer.push(transaction);
        assert(self.buffered() =~= old(self).buffered().push(t));
        if self.buffer.len() >= self.config.max_block_messages {
            Some(self.cut())
        } else {
            None
        }
    }

    /// Hands out the buffered transactions and empties the buffer.
    fn cut(&mut self) -> (r: Vec<Transaction>)
        ensures
            tx_list(r@) == old(self).buffered(),
            final(self).buffered() == Seq::<TxModel>::empty(),
            final(self).max_messages() == old(self).max_messages(),
    {
        let mut taken: Vec<Transaction> = Vec::new();
        core::mem::swap(&mut taken, &mut self.buffer);
        assert(self.buffered() =~= Seq::<TxModel>::empty());
        taken
    }
}

/// Appending to a cutter loses no transaction and reorders none: what the
/// buffer held, followed by the new transaction, is what is handed out,
/// followed by what the buffer holds afterwards.
pub proof fn lemma_cutter_conserves(old_buf: Seq<TxModel>, t: TxModel, max: nat, handed: Seq<TxModel>, new_buf: Seq<TxModel>)
    requires
        old_buf.len() + 1 >= max ==> handed == old_buf.push(t) && new_buf == Seq::<TxModel>::empty(),
        old_buf.len() + 1 < max ==> handed == Seq::<TxModel>::empty() && new_buf == old_buf.push(t),
    ensures
        old_buf.push(t) == handed + new_buf,
{
    assert(old_buf.push(t) =~= handed + new_buf);
}

/// What appending `t` to the buffer `old_buf` of a cutter with limit `max`
/// does, as `append` states it: hands out the buffer with `t` once that
/// reaches the limit, and empties it; otherwise keeps `t` in the buffer.
pub open spec fn cut_step(
    old_buf: Seq<TxModel>,
    t: TxModel,
    max: nat,
    out: Option<Seq<TxModel>>,
    new_buf: Seq<TxModel>,
) -> bool {
    if old_buf.len() + 1 >= max {
        out == Some(old_buf.push(t)) && new_buf == Seq::<TxModel>::empty()
    } else {
        out is None && new_buf == old_buf.push(t)
    }
}

/// The transactions handed out, one block after another.
pub open spec fn handed_out(outs: Seq<Option<Seq<TxModel>>>) -> Seq<TxModel>
    decreases outs.len(),
{
    if outs.len() == 0 {
        Seq::empty()
    } else {
        handed_out(outs.drop_last()) + match outs.last() {
            Some(b) => b,
            None => Seq::empty(),
        }
    }
}

/// Over any run of appends to a cutter with a limit of at least one, whose
/// buffer starts below the limit: nothing is lost, duplicated or reordered
/// (the blocks handed out, followed by the buffer left, are the starting
/// buffer followed by the appended transactions), every block handed out
/// holds exactly the limit, and the buffer stays below the limit.
pub proof fn lemma_cutter_run(
    bufs: Seq<Seq<TxModel>>,
    txs: Seq<TxModel>,
    outs: Seq<Option<Seq<TxModel>>>,
    max: nat,
)
    requires
        bufs.len() == txs.len() + 1,
        outs.len() == txs.len(),
        max >= 1,
        bufs[0].len() < max,
        forall|i: int| 0 <= i < txs.len() ==> cut_step(bufs[i], txs[i], max, outs[i], #[trigger] bufs[i + 1]),
    ensures
        handed_out(outs) + bufs.last() == bufs[0] + txs,
        forall|i: int| 0 <= i < outs.len() ==> (#[trigger] outs[i] matches Some(b) ==> b.len() == max),
        forall|i: int| 0 <= i < bufs.len() ==> (#[trigger] bufs[i]).len() < max,
    decreases txs.len(),
{
    if txs.len() == 0 {
        assert(bufs.last() == bufs[0]);
        assert(bufs[0] + txs =~= bufs[0]);
        assert(handed_out(outs) + bufs.last() =~= bufs[0]);
    } else {
        let n = txs.len() - 1;
        let pb = bufs.take(n + 1);
        let pt = txs.take(n);
        let po = outs.take(n);
        assert forall|i: int| 0 <= i < pt.len() implies cut_step(pb[i], pt[i], max, po[i], #[trigger] pb[i + 1]) by {
            assert(pb[i] == bufs[i]);
            assert(pb[i + 1] == bufs[i + 1]);
            assert(cut_step(bufs[i], txs[i], max, outs[i], bufs[i + 1]));
        }
        lemma_cutter_run(pb, pt, po, max);
        assert(pb.last() == bufs[n]);
        assert(pb[0] == bufs[0]);
        assert(outs.drop_last() =~= po);
        assert(bufs.last() == bufs[n + 1]);
        assert(cut_step(bufs[n], txs[n], max, outs[n], bufs[n + 1]));
        assert(bufs[n].len() < max);
        assert(bufs[0] + txs =~= (bufs[0] + pt).push(txs[n]));
        if bufs[n].len() + 1 >= max {
            assert(handed_out(outs) =~= handed_out(po) + bufs[n].push(txs[n]));
            assert(handed_out(outs) + bufs.last() =~= (handed_out(po) + bufs[n]).push(txs[n]));
        } else {
            assert(handed_out(outs) =~= handed_out(po));
            assert(handed_out(outs) + bufs.last() =~= (handed_out(po) + bufs[n]).push(txs[n]));
        }
        assert forall|i: int| 0 <= i < outs.len() implies (#[trigger] outs[i] matches Some(b) ==> b.len() == max) by {
            if i < n {
                assert(po[i] == outs[i]);
            }
        }
        assert forall|i: int| 0 <= i < bufs.len() implies (#[trigger] bufs[i]).len() < max by {
            if i <= n {
                assert(pb[i] == bufs[i]);
            }
        }
    }
}

/// A block number and its digest.
pub struct BlockDesc {
    pub block_num: u64,
    pub digest: Vec<u8>,
}

impl BlockDesc {
    pub fn new(block_num: u64, digest: Vec<u8>) -> (r: Self)
        ensures
            r.block_num == block_num,
            r.digest == digest,
    {
        BlockDesc { block_num, digest }
    }
}

/// A header, borrowed or owned.
pub enum HeaderRef<'a> {
    Borrowed(&'a BlockHeader),
    Owned(BlockHeader),
}

impl<'a> View for HeaderRef<'a> {
    type V = HeaderModel;

    open spec fn view(&self) -> HeaderModel {
        match self {
            HeaderRef::Borrowed(h) => h@,
            HeaderRef::Owned(h) => h@,
        }
    }
}

impl<'a> HeaderRef<'a> {
    pub fn get(&self) -> (r: &BlockHeader)
        ensures
            r@ == self@,
    {
        match self {
            HeaderRef::Borrowed(h) => h,
            HeaderRef::Owned(h) => h,
        }
    }
}

/// The state of a chain in a checkpoint: its head.
pub struct BlockchainState<'a> {
    pub head: HeaderRef<'a>,
}

impl<'a> BlockchainState<'a> {
    /// The same state, owning its header.
    pub fn into_owned(self) -> (r: BlockchainState<'static>)
        ensures
            r.head@ == self.head@,
    {
        let h = match self.head {
            HeaderRef::Borrowed(h) => h.copy(),
            HeaderRef::Owned(h) => h,
        };
        BlockchainState { head: HeaderRef::Owned(h) }
    }
}

/// The blocks numbered from after the base up to the head, in order.
pub open spec fn chain_blocks(m: StorageModel) -> Seq<BlockModel> {
    Seq::new((m.head.number - base_number(m)) as nat, |i: int| m.blocks[(base_number(m) + 1 + i) as u64])
}

/// The chain runs from the base to the head: every number after the base up
/// to the head holds a block, each valid after the one before it (the first
/// after the base), and the head is the last of them (or the base's header).
pub open spec fn chain_wf(m: StorageModel) -> bool {
    &&& model_wf(m)
    &&& base_number(m) <= m.head.number
    &&& forall|k: u64| base_number(m) < k <= m.head.number ==> #[trigger] m.blocks.contains_key(k)
    &&& chain_links(spec_hash_header(m.base.header->0), chain_blocks(m))
    &&& m.head == (if m.head.number > base_number(m) {
        m.blocks[m.head.number].header->0
    } else {
        m.base.header->0
    })
}

/// The blocks after storing each of `bs` in turn under its number.
pub open spec fn stored_all(blocks: Map<u64, BlockModel>, bs: Seq<BlockModel>) -> Map<u64, BlockModel>
    decreases bs.len(),
{
    if bs.len() == 0 {
        blocks
    } else {
        stored_all(blocks, bs.drop_last()).insert(number_of(bs.last()), bs.last())
    }
}

/// The head after storing each of `bs` in turn: the last one's header.
pub open spec fn head_after(head: HeaderModel, bs: Seq<BlockModel>) -> HeaderModel {
    if bs.len() == 0 {
        head
    } else {
        bs.last().header->0
    }
}

/// The block that `create_block` makes after `head` from the encoded transactions `data`.
pub open spec fn new_block(head: HeaderModel, data: Seq<Seq<u8>>) -> BlockModel {
    BlockModel {
        header: Some(
            HeaderModel {
                number: (head.number + 1) as u64,
                previous_hash: spec_hash_header(head),
                data_hash: spec_hash_data(data),
            },
        ),
        data: Some(data),
        metadata: None,
    }
}

/// The chain of blocks on a store.
pub struct Blockchain<T> {
    storage: T,
}

impl<T: Storage> Blockchain<T> {
    pub closed spec fn model(&self) -> StorageModel {
        self.storage.model()
    }

    pub closed spec fn binary(&self, index: u64) -> Option<Seq<u8>> {
        self.storage.binary(index)
    }

    pub fn new(storage: T) -> (r: Self)
        ensures
            r.model() == storage.model(),
            forall|i: u64| r.binary(i) == storage.binary(i),
    {
        Blockchain { storage }
    }

    /// The last stable checkpoint.
    pub fn checkpoint(&self) -> (r: &CurrentCheckpoint)
        ensures
            r.sequence == self.model().proof_sequence,
            bytes_list(r.messages@) == self.model().proof_messages,
    {
        self.storage.get_proof()
    }

    /// Records the checkpoint quorum (each message in its packed form) that
    /// made `sequence` stable.
    pub fn store_proof(&mut self, sequence: u64, quorum: Vec<Vec<u8>>)
        requires
            model_wf(old(self).model()),
        ensures
            final(self).model() == (StorageModel {
                proof_sequence: sequence,
                proof_messages: bytes_list(quorum@),
                ..old(self).model()
            }),
    {
        let cp = CurrentCheckpoint { sequence, messages: quorum };
        self.storage.store_proof(cp);
    }

    /// The head, borrowed.
    pub fn state(&self) -> (r: BlockchainState<'_>)
        ensures
            r.head@ == head_of(self.model()),
    {
        BlockchainState { head: HeaderRef::Borrowed(self.storage.head()) }
    }

    /// Makes a block of the transactions after the head and stores it.
    pub fn create_block(&mut self, transaction: Vec<Transaction>)
        requires
            model_wf(old(self).model()),
            head_of(old(self).model()).number < u64::MAX,
        ensures
            model_wf(final(self).model()),
            final(self).model() == (StorageModel {
                blocks: old(self).model().blocks.insert(
                    (head_of(old(self).model()).number + 1) as u64,
                    new_block(
                        head_of(old(self).model()),
                        tx_list(transaction@).map_values(|t: TxModel| spec_encode_transaction(t)),
                    ),
                ),
                head: new_block(
                    head_of(old(self).model()),
                    tx_list(transaction@).map_values(|t: TxModel| spec_encode_transaction(t)),
                ).header->0,
                ..old(self).model()
            }),
            chain_wf(old(self).model()) ==> chain_wf(final(self).model()),
    {
        let mut data: Vec<Vec<u8>> = Vec::new();
        let mut i: usize = 0;
        let ghost enc = tx_list(transaction@).map_values(|t: TxModel| spec_encode_transaction(t));
        while i < transaction.len()
            invariant
                i <= transaction@.len(),
                enc == tx_list(transaction@).map_values(|t: TxModel| spec_encode_transaction(t)),
                data@.len() == i,
                forall|j: int| 0 <= j < i ==> (#[trigger] data@[j])@ == enc[j],
            decreases transaction@.len() - i,
        {
            let e = encode_transaction(&transaction[i]);
            assert(enc[i as int] == spec_encode_transaction(transaction@[i as int]@));
            data.push(e);
            i = i + 1;
        }
        let block_data = BlockData { data };
        assert(block_data@ =~= enc) by {
            assert forall|j: int| 0 <= j < enc.len() implies block_data@[j] == enc[j] by {
                assert(block_data.data@[j]@ == enc[j]);
            }
        }
        let head = self.storage.head();
        let previous_digest = hash_header(head);
        let next_number = head.number + 1;
        let data_hash = hash_data(&block_data);
        let header = BlockHeader { number: next_number, previous_hash: previous_digest, data_hash };
        let block = Block { header: Some(header), data: Some(block_data), metadata: None };
        let ghost m0 = self.model();
        assert(block@ == new_block(head_of(m0), enc));
        self.storage.store_block(block);
        proof {
            if chain_wf(m0) {
                lemma_created_block_read_back(m0, enc);
            }
        }
    }

    /// Prunes the chain: drops the blocks numbered from the base to
    /// `new_base`, which becomes the base.
    pub fn prune(&mut self, new_base: Delete)
        requires
            model_wf(old(self).model()),
            new_base.header is Some,
        ensures
            model_wf(final(self).model()),
            final(self).model() == (StorageModel {
                base: new_base@,
                blocks: pruned(old(self).model().blocks, base_number(old(self).model()), new_base.header->0.number),
                ..old(self).model()
            }),
            chain_wf(old(self).model()) && base_number(old(self).model()) <= new_base.header->0.number
                <= head_of(old(self).model()).number && new_base@.header == (if new_base.header->0.number
                == base_number(old(self).model()) {
                old(self).model().base.header
            } else {
                old(self).model().blocks[new_base.header->0.number].header
            }) ==> chain_wf(final(self).model()),
    {
        let ghost m0 = self.model();
        self.storage.prune_chain(new_base);
        proof {
            let m1 = self.model();
            let n = m1.base.header->0.number;
            if chain_wf(m0) && base_number(m0) <= n <= m0.head.number && m1.base.header == (if n
                == base_number(m0) {
                m0.base.header
            } else {
                m0.blocks[n].header
            }) {
                lemma_pruned_chain(m0, m1);
            }
        }
    }

    /// The block stored under `number`.
    pub fn get_block(&self, number: u64) -> (r: Option<Block>)
        ensures
            r is Some <==> block_at(self.model(), number) is Some,
            r matches Some(b) ==> b@ == block_at(self.model(), number)->0,
    {
        self.storage.read_block(number)
    }

    /// The stored encoding of the block under `number`.
    pub fn get_block_binary(&self, number: u64) -> (r: Option<Vec<u8>>)
        ensures
            r is Some <==> self.binary(number) is Some,
            r matches Some(v) ==> v@ == self.binary(number)->0,
            r matches Some(v) ==> encodes_stored(v@, self.model(), number),
    {
        self.storage.read_block_binary(number)
    }

    /// The header of the block stored under `number`.
    pub fn get_block_header(&self, number: u64) -> (r: Option<BlockHeader>)
        requires
            model_wf(self.model()),
        ensures
            r is Some <==> block_at(self.model(), number) is Some,
            r matches Some(h) ==> h@ == block_at(self.model(), number)->0.header->0,
    {
        self.storage.read_header(number)
    }

    /// Stores a block as it is, under its number: it takes the place of any
    /// block stored there, and its header becomes the head.
    pub fn overwrite_block(&mut self, block: Block)
        requires
            model_wf(old(self).model()),
            block.header is Some,
        ensures
            model_wf(final(self).model()),
            final(self).model() == (StorageModel {
                blocks: old(self).model().blocks.insert(block.header->0.number, block@),
                head: block.header->0@,
                ..old(self).model()
            }),
    {
        self.storage.store_block(block)
    }

    /// The header of the block stored last, or of the base.
    pub fn head(&self) -> (r: &BlockHeader)
        ensures
            r@ == head_of(self.model()),
    {
        self.storage.head()
    }

    /// Prunes to `base`, then stores `blocks` in turn, each under its number.
    pub fn rebase(&mut self, base: Delete, blocks: Vec<Block>)
        requires
            model_wf(old(self).model()),
            base.header is Some,
            forall|i: int| 0 <= i < blocks@.len() ==> (#[trigger] blocks@[i]).header is Some,
        ensures
            model_wf(final(self).model()),
            final(self).model() == (StorageModel {
                base: base@,
                blocks: stored_all(
                    pruned(old(self).model().blocks, base_number(old(self).model()), base.header->0.number),
                    blocks_model(blocks@),
                ),
                head: head_after(old(self).model().head, blocks_model(blocks@)),
                ..old(self).model()
            }),
    {
        self.storage.prune_chain(base);
        let ghost m1 = self.model();
        let mut blocks = blocks;
        let ghost all = blocks_model(blocks@);
        let mut rev: Vec<Block> = Vec::new();
        while blocks.len() > 0
            invariant
                rev@.len() + blocks@.len() == all.len(),
                forall|j: int| 0 <= j < blocks@.len() ==> (#[trigger] blocks@[j])@ == all[j],
                forall|j: int| 0 <= j < rev@.len() ==> (#[trigger] rev@[j])@ == all[all.len() - 1 - j],
            decreases blocks@.len(),
        {
            let b = blocks.pop().unwrap();
            rev.push(b);
        }
        let mut i: usize = 0;
        let n = rev.len();
        while rev.len() > 0
            invariant
                n == all.len(),
                rev@.len() + i == n,
                forall|j: int| 0 <= j < rev@.len() ==> (#[trigger] rev@[j])@ == all[n - 1 - j],
                forall|j: int| 0 <= j < all.len() ==> (#[trigger] all[j]).header is Some,
                model_wf(self.model()),
                self.model() == (StorageModel {
                    blocks: stored_all(m1.blocks, all.take(i as int)),
                    head: head_after(m1.head, all.take(i as int)),
                    ..m1
                }),
            decreases rev@.len(),
        {
            let b = rev.pop().unwrap();
            assert(b@ == all[i as int]);
            self.storage.store_block(b);
            assert(all.take(i + 1).drop_last() =~= all.take(i as int));
            i = i + 1;
        }
        assert(all.take(i as int) =~= all);
    }
}

/// Pruning a chain to a number from its base to its head, with the header
/// stored under that number, leaves a chain from the new base to the head.
proof fn lemma_pruned_chain(m0: StorageModel, m1: StorageModel)
    requires
        chain_wf(m0),
        m1.base.header is Some,
        base_number(m0) <= m1.base.header->0.number <= m0.head.number,
        m1.base.header == (if m1.base.header->0.number == base_number(m0) {
            m0.base.header
        } else {
            m0.blocks[m1.base.header->0.number].header
        }),
        model_wf(m1),
        m1 == (StorageModel {
            base: m1.base,
            blocks: pruned(m0.blocks, base_number(m0), m1.base.header->0.number),
            ..m0
        }),
    ensures
        chain_wf(m1),
{
    let b0 = base_number(m0);
    let n = m1.base.header->0.number;
    let k = n - b0;
    let c0 = chain_blocks(m0);
    let c1 = chain_blocks(m1);
    assert forall|x: u64| base_number(m1) < x <= m1.head.number implies #[trigger] m1.blocks.contains_key(x) by {
        assert(m0.blocks.contains_key(x));
    }
    assert(c1 =~= c0.skip(k)) by {
        assert forall|i: int| 0 <= i < c1.len() implies c1[i] == c0.skip(k)[i] by {
            let x = (n + 1 + i) as u64;
            assert(m0.blocks.contains_key(x));
        }
    }
    if k > 0 {
        assert(c0[k - 1] == m0.blocks[n]);
        lemma_chain_links_skip(spec_hash_header(m0.base.header->0), c0, k);
    } else {
        assert(c0.skip(0) =~= c0);
    }
    if m1.head.number > n {
        assert(m1.blocks.contains_key(m1.head.number));
    }
}

/// A block made after the head of a well-formed chain is stored under the
/// number after the head's, becomes the head, and the chain stays well
/// formed, one block longer.
pub proof fn lemma_created_block_read_back(m: StorageModel, data: Seq<Seq<u8>>)
    requires
        chain_wf(m),
        head_of(m).number < u64::MAX,
    ensures
        ({
            let b = new_block(head_of(m), data);
            let m1 = StorageModel {
                blocks: m.blocks.insert((head_of(m).number + 1) as u64, b),
                head: b.header->0,
                ..m
            };
            &&& block_at(m1, (head_of(m).number + 1) as u64) == Some(b)
            &&& chain_wf(m1)
            &&& chain_blocks(m1) == chain_blocks(m).push(b)
        }),
{
    let b = new_block(head_of(m), data);
    let h = m.head.number;
    let m1 = StorageModel { blocks: m.blocks.insert((h + 1) as u64, b), head: b.header->0, ..m };
    let c0 = chain_blocks(m);
    assert(chain_blocks(m1) =~= c0.push(b)) by {
        assert forall|i: int| 0 <= i < c0.len() implies chain_blocks(m1)[i] == c0[i] by {
            let x = (base_number(m) + 1 + i) as u64;
            assert(x <= h);
        }
    }
    let prev = spec_hash_header(m.base.header->0);
    if c0.len() > 0 {
        assert(c0.last() == m.blocks[h]);
    }
    assert(tip_hash(prev, c0) == spec_hash_header(head_of(m)));
    lemma_chain_links_push(prev, c0, b);
    assert forall|k: u64| #[trigger] m1.blocks.contains_key(k) implies m1.blocks[k].header is Some && number_of(
        m1.blocks[k],
    ) == k by {
        if k != h + 1 {
            assert(m.blocks.contains_key(k));
        }
    }
    assert forall|k: u64| base_number(m1) < k <= m1.head.number implies #[trigger] m1.blocks.contains_key(k) by {
        if k != h + 1 {
            assert(m.blocks.contains_key(k));
        }
    }
}

} // verus!
