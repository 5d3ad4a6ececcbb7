//! The chain application of a replica: it buffers transactions into blocks,
//! answers exports, prunes on the exporter's signed request, and takes,
//! resolves and applies checkpoints.
use vstd::prelude::*;
use crate::application::chain::{
    chain_blocks, chain_wf, head_after, stored_all, BlockCutter, Blockchain, BlockchainState, CutterState, new_block,
};
use crate::application::crypto::{spec_ed25519_sign, spec_ed25519_verify, Keys};
use crate::blockchain::genesis::{genesis_hash, genesis_head, spec_genesis_head, GENESIS_NUMBER};
use crate::blockchain::hashing::{
    block_valid, blocks_model, chain_links, chain_valid, link, hash_header, headers_model, spec_hash_header, verify_chain,
};
use crate::blockchain::proto::{
    bytes_list, copy_opt_delete, opt_delete, opt_header, spec_encode_transaction, Block, BlockHeader,
    BlockModel, Blocks, CheckpointProof, CheckpointedBlocks, Command, Delete,
    DeleteModel, Export, ExportCommand, HeaderModel, Headers, Read, Transaction, TxModel, Action, READ_RANGE,
    READ_V1, READ_V2,
};
use crate::blockchain::storage::{
    base_number, block_at, encodes_stored, head_of, model_wf, number_of, pruned, Storage, StorageModel,
};

verus! {

/// `x`, moved into `lo..=hi`.
pub open spec fn clamp(x: int, lo: int, hi: int) -> int {
    if x < lo {
        lo
    } else if x > hi {
        hi
    } else {
        x
    }
}

/// The stored blocks numbered from `start` to `end`, in order.
pub open spec fn stored_range(m: StorageModel, start: int, end: int) -> Seq<BlockModel>
    decreases end - start + 1,
{
    if end < start {
        Seq::empty()
    } else {
        stored_range(m, start, end - 1) + block_seq(block_at(m, end as u64))
    }
}

/// The block under `i`, as a sequence of at most one block.
pub open spec fn block_seq(b: Option<BlockModel>) -> Seq<BlockModel> {
    match b {
        Some(b) => seq![b],
        None => Seq::empty(),
    }
}

/// Reading one number further extends a range of stored blocks by the block
/// stored under it, if any.
pub proof fn lemma_stored_range_step(m: StorageModel, start: int, i: u64)
    requires
        start <= i,
    ensures
        stored_range(m, start, i as int) == stored_range(m, start, i - 1) + block_seq(block_at(m, i)),
{
}

/// A range reads the same from two stores that hold the same blocks under
/// its numbers.
pub proof fn lemma_stored_range_agree(m1: StorageModel, m2: StorageModel, start: int, end: int)
    requires
        0 <= start,
        end <= u64::MAX,
        forall|k: u64| start <= k <= end ==> #[trigger] block_at(m1, k) == block_at(m2, k),
    ensures
        stored_range(m1, start, end) == stored_range(m2, start, end),
    decreases end - start + 1,
{
    if end >= start {
        lemma_stored_range_agree(m1, m2, start, end - 1);
        assert(block_at(m1, end as u64) == block_at(m2, end as u64));
    }
}

/// On a chain from its base to its head, reading from after the base up to
/// a number gives the chain's blocks up to that number, in order.
pub proof fn lemma_stored_range_chain(m: StorageModel, k: int)
    requires
        chain_wf(m),
        base_number(m) <= k <= m.head.number,
    ensures
        stored_range(m, base_number(m) + 1int, k) == chain_blocks(m).take(k - base_number(m)),
    decreases k - base_number(m),
{
    let b = base_number(m);
    if k == b {
        assert(chain_blocks(m).take(0) =~= Seq::<BlockModel>::empty());
    } else {
        lemma_stored_range_chain(m, k - 1);
        assert(m.blocks.contains_key(k as u64));
        assert(chain_blocks(m).take(k - b) =~= chain_blocks(m).take(k - 1 - b).push(m.blocks[k as u64]));
    }
}

/// The headers of the stored blocks numbered from `start` to `end`.
pub open spec fn stored_headers(m: StorageModel, start: int, end: int) -> Seq<HeaderModel> {
    stored_range(m, start, end).map_values(|b: BlockModel| b.header->0)
}

/// Why a checkpoint was not applied: it does not match the replica's state.
pub enum ApplyError {
    Mismatch,
}

/// What an export request is answered with, before it is encoded.
pub enum ExportReply {
    Empty,
    Blocks(Blocks),
    Headers(Headers),
    Proof(CheckpointProof),
    Checkpointed(CheckpointedBlocks),
}

/// The answer to a request, from this replica to the request's source.
pub struct Reply {
    pub source: u64,
    pub destination: u64,
    pub sequence: u64,
    pub payload: ExportReply,
    /// Whether the payload is the hashed form (headers, or a proof alone).
    pub hashed: bool,
}

/// The chain application of a replica.
pub struct Railchain<T> {
    id: u64,
    block_cutter: BlockCutter,
    blockchain: Blockchain<T>,
    prune_base: Option<Delete>,
    checkpoint_interval: u64,
    keys: Keys,
}

/// The number of the header a prune base holds, 0 where there is none.
pub open spec fn base_num(d: Option<DeleteModel>) -> u64 {
    match d {
        Some(d) => match d.header {
            Some(h) => h.number,
            None => 0,
        },
        None => 0,
    }
}

/// The larger of two numbers.
pub open spec fn max_u64(a: u64, b: u64) -> u64 {
    if a >= b {
        a
    } else {
        b
    }
}

/// The smaller of two numbers.
pub open spec fn min_u64(a: u64, b: u64) -> u64 {
    if a <= b {
        a
    } else {
        b
    }
}

/// The encoded forms of transactions, as a block holds them.
pub open spec fn encode_all(txs: Seq<TxModel>) -> Seq<Seq<u8>> {
    txs.map_values(|t: TxModel| spec_encode_transaction(t))
}

/// The header of a block, if there is a block.
pub open spec fn header_of(b: Option<BlockModel>) -> Option<HeaderModel> {
    match b {
        Some(b) => b.header,
        None => None,
    }
}

/// The proof that a version 2 export carries, where the last stable
/// checkpoint certifies block `cp_head`: the prune base when the read starts
/// before it; the quorum and the header of block `cp_head` when that block
/// lies past where the read starts.
pub open spec fn proof_ok(
    p: CheckpointProof,
    m: StorageModel,
    prune_base: Option<DeleteModel>,
    cp_head: u64,
    read_base: u64,
) -> bool {
    let pb = base_num(prune_base);
    let base = max_u64(read_base, pb);
    &&& opt_delete(p.base) == (if pb > read_base {
        prune_base
    } else {
        None
    })
    &&& if cp_head > base {
        &&& p.quorum matches Some(q) && q.sequence == m.proof_sequence && bytes_list(q.messages@)
            == m.proof_messages
        &&& opt_header(p.head) == header_of(block_at(m, cp_head))
    } else {
        p.quorum is None && p.head is None
    }
}

/// The hash that the first block of a checkpoint must hold: that of its
/// base's header, or of the genesis header where it has no base.
pub open spec fn checkpoint_prev(base: Option<DeleteModel>) -> Seq<u8> {
    match base {
        Some(b) => spec_hash_header(b.header->0),
        None => spec_hash_header(spec_genesis_head()),
    }
}

/// Whether a checkpoint is accepted against a handle whose head is `head`:
/// its last block has that header, and its blocks link up from its base.
pub open spec fn checkpoint_accepted(head: HeaderModel, base: Option<DeleteModel>, blocks: Seq<BlockModel>) -> bool {
    &&& blocks.len() > 0
    &&& blocks.last().header == Some(head)
    &&& chain_valid(checkpoint_prev(base), blocks)
}

/// The base a checkpoint is applied on: its own, or genesis where it has none.
pub open spec fn apply_base(base: Option<DeleteModel>) -> DeleteModel {
    match base {
        Some(b) => b,
        None => DeleteModel { header: Some(spec_genesis_head()), signature: Seq::empty() },
    }
}

/// A replica's state at a checkpoint: the buffered transactions and the head.
pub struct RailchainState<'a> {
    pub cutter: CutterState<'a>,
    pub chain: BlockchainState<'a>,
}

impl<'a> RailchainState<'a> {
    pub fn new(cutter: CutterState<'a>, chain: BlockchainState<'a>) -> (r: Self)
        ensures
            r.cutter.buffer@ == cutter.buffer@,
            r.chain.head@ == chain.head@,
    {
        RailchainState { cutter, chain }
    }

    /// The same state, owning what it holds.
    pub fn into_owned(self) -> (r: RailchainState<'static>)
        ensures
            r.cutter.buffer@ == self.cutter.buffer@,
            r.chain.head@ == self.chain.head@,
    {
        RailchainState { cutter: self.cutter.into_owned(), chain: self.chain.into_owned() }
    }
}

/// What a replica sends for a checkpoint: the base it was pruned to, if
/// any, and the blocks after it up to the checkpoint's head.
pub struct FullCheckpointData {
    pub base: Option<Delete>,
    pub blocks: Vec<Block>,
}

impl<T: Storage> Railchain<T> {
    pub closed spec fn chain(&self) -> StorageModel {
        self.blockchain.model()
    }

    /// The stored encoding of block `i`, where the store keeps one.
    pub closed spec fn binary(&self, i: u64) -> Option<Seq<u8>> {
        self.blockchain.binary(i)
    }

    /// The transactions that wait for a block.
    pub closed spec fn buffered(&self) -> Seq<TxModel> {
        self.block_cutter.buffered()
    }

    pub closed spec fn max_messages(&self) -> nat {
        self.block_cutter.max_messages()
    }

    /// The exporter's signed request that the chain was last pruned to, if any.
    pub closed spec fn prune_base(&self) -> Option<DeleteModel> {
        opt_delete(self.prune_base)
    }

    pub closed spec fn interval(&self) -> u64 {
        self.checkpoint_interval
    }

    pub closed spec fn id(&self) -> u64 {
        self.id
    }

    /// The exporter's public key.
    pub closed spec fn cloud_key(&self) -> Seq<u8> {
        self.keys.cloud_key()
    }

    /// The PKCS#8 document of the replica's key pair.
    pub closed spec fn signing_key(&self) -> Seq<u8> {
        self.keys.signing_key()
    }

    /// The store is well formed, and a prune base has a header.
    pub closed spec fn wf(&self) -> bool {
        &&& model_wf(self.chain())
        &&& self.prune_base() matches Some(d) ==> d.header is Some
    }

    /// Everything but the chain, the buffer and the prune base is as in `other`.
    pub open spec fn same_setup(&self, other: &Self) -> bool {
        &&& self.max_messages() == other.max_messages()
        &&& self.interval() == other.interval()
        &&& self.id() == other.id()
        &&& self.cloud_key() == other.cloud_key()
        &&& self.signing_key() == other.signing_key()
    }

    /// The number the chain was pruned to, 0 where it was not.
    pub open spec fn pruned_to(&self) -> u64 {
        base_num(self.prune_base())
    }

    /// Whether `delete` carries the exporter's signature of its header.
    pub open spec fn delete_signed(&self, delete: DeleteModel) -> bool {
        spec_ed25519_verify(self.cloud_key(), spec_hash_header(delete.header->0), delete.signature)
    }

    /// The block that the last stable checkpoint certifies.
    pub open spec fn checkpoint_head(&self) -> u64 {
        (self.chain().proof_sequence / self.interval()) as u64
    }

    /// Where a read from `read_base` starts: after the later of it and the prune base.
    pub open spec fn read_start(&self, read_base: u64) -> u64 {
        max_u64(read_base, self.pruned_to())
    }

    /// `blocks` are the stored encodings of the blocks after `base` up to `head`.
    pub open spec fn binaries_are(&self, blocks: Seq<Vec<u8>>, base: u64, head: u64) -> bool {
        &&& blocks.len() == (if head > base {
            head - base
        } else {
            0int
        })
        &&& forall|k: int| 0 <= k < blocks.len() ==> (#[trigger] blocks[k])@ == self.binary((base + 1 + k) as u64)->0
        &&& forall|k: int| 0 <= k < blocks.len() ==> encodes_stored((#[trigger] blocks[k])@, self.chain(), (base + 1 + k) as u64)
    }

    /// The store keeps the encodings of the blocks after `base` up to `head`.
    pub open spec fn binaries_stored(&self, base: u64, head: u64) -> bool {
        forall|i: u64| base < i <= head ==> (#[trigger] self.binary(i)) is Some
    }

    /// The answer to a version 1 read of blocks.
    pub open spec fn blocks_answer(&self, read: Read, r: Blocks) -> bool {
        &&& blocks_model(r.block@) == stored_range(
            self.chain(),
            self.read_start(read.base) as int,
            head_of(self.chain()).number as int,
        )
        &&& opt_delete(r.base) == self.prune_base()
        &&& r.head_signature@ == (if r.block@.len() > 0 {
            spec_ed25519_sign(self.signing_key(), spec_hash_header(r.block@.last()@.header->0))
        } else {
            Seq::<u8>::empty()
        })
    }

    /// The answer to a version 1 read of headers.
    pub open spec fn headers_answer(&self, read: Read, r: Headers) -> bool {
        &&& headers_model(r.header@) == stored_headers(
            self.chain(),
            self.read_start(read.base) as int,
            head_of(self.chain()).number as int,
        )
        &&& opt_delete(r.base) == self.prune_base()
        &&& r.head_signature@ == (if r.header@.len() > 0 {
            spec_ed25519_sign(self.signing_key(), spec_hash_header(r.header@.last()@))
        } else {
            Seq::<u8>::empty()
        })
    }

    /// The answer to a version 1 export: headers when a hashed reply is
    /// asked for, blocks otherwise.
    pub open spec fn v1_answer(&self, read: Read, hash_reply: bool, r: ExportReply) -> bool {
        if hash_reply {
            r matches ExportReply::Headers(h) && self.headers_answer(read, h)
        } else {
            r matches ExportReply::Blocks(b) && self.blocks_answer(read, b)
        }
    }

    /// The answer to a version 2 export: the proof alone when a hashed reply
    /// is asked for; otherwise the proof with the encodings of the blocks
    /// after the read's start up to the checkpointed block.
    pub open spec fn v2_answer(&self, read: Read, hash_reply: bool, r: ExportReply) -> bool {
        let base = self.read_start(read.base);
        let cp_head = self.checkpoint_head();
        if hash_reply {
            r matches ExportReply::Proof(p) && proof_ok(p, self.chain(), self.prune_base(), cp_head, read.base)
        } else {
            &&& r matches ExportReply::Checkpointed(c)
            &&& c.proof matches Some(p) && proof_ok(p, self.chain(), self.prune_base(), cp_head, read.base)
            &&& self.binaries_are(c.blocks@, base, cp_head)
        }
    }

    /// A version 2 export can be answered: the checkpoint interval is not
    /// zero, and the store keeps the encodings of the blocks to send.
    pub open spec fn v2_defined(&self, read: Read, hash_reply: bool) -> bool {
        &&& self.interval() > 0
        &&& !hash_reply ==> self.binaries_stored(self.read_start(read.base), self.checkpoint_head())
    }

    /// The answer to a read of a range: the encodings of the blocks after
    /// the read's start up to `read.head` or the chain's head, if earlier.
    pub open spec fn range_answer(&self, read: Read, r: ExportReply) -> bool {
        &&& r matches ExportReply::Checkpointed(c)
        &&& c.proof is None
        &&& self.binaries_are(
            c.blocks@,
            self.read_start(read.base),
            min_u64(read.head, head_of(self.chain()).number),
        )
    }

    /// A read of a range can be answered: its start is below `u64::MAX`, and
    /// the store keeps the encodings of the blocks to send.
    pub open spec fn range_defined(&self, read: Read) -> bool {
        &&& self.read_start(read.base) < u64::MAX
        &&& self.binaries_stored(self.read_start(read.base), min_u64(read.head, head_of(self.chain()).number))
    }

    /// Nothing but what is noted here changed from `old`.
    pub open spec fn unchanged(&self, old: &Self) -> bool {
        &&& self.same_setup(old)
        &&& self.chain() == old.chain()
        &&& self.buffered() == old.buffered()
        &&& self.prune_base() == old.prune_base()
        &&& forall|i: u64| #[trigger] self.binary(i) == old.binary(i)
    }

    /// What `delete` did: prune to it when the exporter signed it, nothing
    /// otherwise.
    pub open spec fn deleted(&self, old: &Self, d: DeleteModel) -> bool {
        &&& self.same_setup(old)
        &&& self.buffered() == old.buffered()
        &&& if old.delete_signed(d) {
            &&& self.prune_base() == Some(d)
            &&& self.chain() == (StorageModel {
                base: d,
                blocks: pruned(old.chain().blocks, base_number(old.chain()), d.header->0.number),
                ..old.chain()
            })
        } else {
            &&& self.prune_base() == old.prune_base()
            &&& self.chain() == old.chain()
        }
    }

    /// What appending `t` did: buffer it, and cut a block of the buffer when
    /// it is full.
    pub open spec fn appended(&self, old: &Self, t: TxModel) -> bool {
        &&& self.same_setup(old)
        &&& self.prune_base() == old.prune_base()
        &&& if old.buffered().len() + 1 >= old.max_messages() {
            &&& self.buffered() == Seq::<TxModel>::empty()
            &&& self.chain() == (StorageModel {
                blocks: old.chain().blocks.insert(
                    (head_of(old.chain()).number + 1) as u64,
                    new_block(head_of(old.chain()), encode_all(old.buffered().push(t))),
                ),
                head: new_block(head_of(old.chain()), encode_all(old.buffered().push(t))).header->0,
                ..old.chain()
            })
        } else {
            &&& self.buffered() == old.buffered().push(t)
            &&& self.chain() == old.chain()
        }
    }

    /// Appending a transaction numbers a new block in `u64` when it cuts one.
    pub open spec fn append_defined(&self) -> bool {
        self.buffered().len() + 1 >= self.max_messages() ==> head_of(self.chain()).number < u64::MAX
    }

    /// An export can be answered: it holds a command; a read of a known
    /// version can be answered; a delete has a header.
    pub open spec fn export_defined(&self, hash_reply: bool, export: Export) -> bool {
        match export.command {
            Some(ExportCommand::Read(rd)) => if rd.version == READ_V1 {
                head_of(self.chain()).number < u64::MAX
            } else if rd.version == READ_V2 {
                self.v2_defined(rd, hash_reply)
            } else if rd.version == READ_RANGE {
                self.range_defined(rd)
            } else {
                true
            },
            Some(ExportCommand::Delete(d)) => d.header is Some,
            None => false,
        }
    }

    /// What answering `export` did: a read changes nothing and is answered
    /// by its version, an unknown version with nothing; a delete is done and
    /// answered with nothing.
    pub open spec fn exported(&self, old: &Self, hash_reply: bool, export: Export, r: ExportReply) -> bool {
        match export.command {
            Some(ExportCommand::Read(rd)) => {
                &&& self.unchanged(old)
                &&& if rd.version == READ_V1 {
                    old.v1_answer(rd, hash_reply, r)
                } else if rd.version == READ_V2 {
                    old.v2_answer(rd, hash_reply, r)
                } else if rd.version == READ_RANGE {
                    old.range_answer(rd, r)
                } else {
                    r is Empty
                }
            },
            Some(ExportCommand::Delete(d)) => r is Empty && self.deleted(old, d@),
            None => false,
        }
    }

    /// A request can be handled: an export can be answered, and a
    /// transaction appended.
    pub open spec fn request_defined(&self, hash_reply: bool, command: Command) -> bool {
        match command.action {
            Some(Action::Export(e)) => self.export_defined(hash_reply, e),
            Some(Action::Transaction(_)) => self.append_defined(),
            None => true,
        }
    }

    /// A checkpoint can be applied: it holds blocks, the last with a header,
    /// and a base, if any, with a header.
    pub open spec fn apply_defined(&self, handle_head: HeaderModel, checkpoint: FullCheckpointData) -> bool {
        &&& checkpoint.blocks@.len() > 0
        &&& checkpoint.blocks@.last().header is Some
        &&& checkpoint.base matches Some(b) ==> b.header is Some
    }

    /// What applying an accepted checkpoint did: prune to the base it is
    /// applied on (its own, or genesis), store its blocks in turn, each under
    /// its number, take over the handle's buffer, and keep its base, if any,
    /// as the prune base.
    pub open spec fn applied(&self, old: &Self, buffer: Seq<TxModel>, checkpoint: FullCheckpointData) -> bool {
        let b = apply_base(opt_delete(checkpoint.base));
        &&& self.same_setup(old)
        &&& self.prune_base() == (if checkpoint.base is Some {
            Some(b)
        } else {
            old.prune_base()
        })
        &&& self.buffered() == buffer
        &&& self.chain() == (StorageModel {
            base: b,
            blocks: stored_all(
                pruned(old.chain().blocks, base_number(old.chain()), b.header->0.number),
                blocks_model(checkpoint.blocks@),
            ),
            head: head_after(old.chain().head, blocks_model(checkpoint.blocks@)),
            ..old.chain()
        })
    }

    pub fn new(id: u64, checkpoint_interval: u64, block_cutter: BlockCutter, blockchain: Blockchain<T>, keys: Keys) -> (r: Self)
        ensures
            r.chain() == blockchain.model(),
            forall|i: u64| #[trigger] r.binary(i) == blockchain.binary(i),
            r.buffered() == block_cutter.buffered(),
            r.max_messages() == block_cutter.max_messages(),
            r.prune_base() is None,
            r.interval() == checkpoint_interval,
            r.id() == id,
            r.cloud_key() == keys.cloud_key(),
            r.signing_key() == keys.signing_key(),
            model_wf(blockchain.model()) ==> r.wf(),
    {
        Railchain { id, checkpoint_interval, block_cutter, blockchain, prune_base: None, keys }
    }

    /// Buffers a transaction; when the buffer is full, makes a block of it.
    pub fn append_transaction(&mut self, transaction: Transaction)
        requires
            old(self).wf(),
            old(self).append_defined(),
        ensures
            final(self).wf(),
            final(self).appended(old(self), transaction@),
            chain_wf(old(self).chain()) ==> chain_wf(final(self).chain()),
    {
        if let Some(block_data) = self.block_cutter.append(transaction) {
            self.blockchain.create_block(block_data);
        }
    }

    /// The stored blocks from `read.base` (or the prune base, if later) to the
    /// head, with the prune base and a signature of the last header.
    pub fn read_blocks(&self, read: Read) -> (r: Blocks)
        requires
            self.wf(),
            head_of(self.chain()).number < u64::MAX,
        ensures
            self.blocks_answer(read, r),
    {
        let base = match &self.prune_base {
            Some(b) => match &b.header {
                Some(h) => h.number,
                None => 0,
            },
            None => 0,
        };
        let start = if read.base >= base { read.base } else { base };
        let end = self.blockchain.head().number;
        let ghost m = self.chain();
        let mut blocks: Vec<Block> = Vec::new();
        let mut i = start;
        if start > end {
            assert(stored_range(m, start as int, end as int) =~= Seq::<BlockModel>::empty());
        }
        while i <= end
            invariant
                self.wf(),
                m == self.chain(),
                start <= i,
                i <= end + 1 || i == start,
                end < u64::MAX,
                blocks_model(blocks@) == stored_range(m, start as int, i - 1),
                forall|j: int| 0 <= j < blocks@.len() ==> (#[trigger] blocks@[j])@.header is Some,
            decreases end + 1 - i,
        {
            let ghost before = blocks@;
            proof {
                lemma_stored_range_step(m, start as int, i);
            }
            match self.blockchain.get_block(i) {
                Some(b) => {
                    blocks.push(b);
                    assert(blocks_model(blocks@) =~= blocks_model(before) + block_seq(block_at(m, i)));
                },
                None => {
                    assert(blocks_model(blocks@) =~= blocks_model(before) + block_seq(block_at(m, i)));
                },
            }
            i = i + 1;
        }
        let head_signature = if blocks.len() > 0 {
            let last = &blocks[blocks.len() - 1];
            assert(last@.header is Some);
            assert(blocks@.last()@ == last@);
            self.keys.sign_header(last.header.as_ref().unwrap())
        } else {
            Vec::new()
        };
        Blocks { block: blocks, base: copy_opt_delete(&self.prune_base), head_signature }
    }

    /// The headers of the stored blocks from `read.base` (or the prune base,
    /// if later) to the head, with the prune base and a signature of the last.
    pub fn read_block_headers(&self, read: Read) -> (r: Headers)
        requires
            self.wf(),
            head_of(self.chain()).number < u64::MAX,
        ensures
            self.headers_answer(read, r),
    {
        let base = match &self.prune_base {
            Some(b) => match &b.header {
                Some(h) => h.number,
                None => 0,
            },
            None => 0,
        };
        let start = if read.base >= base { read.base } else { base };
        let end = self.blockchain.head().number;
        let ghost m = self.chain();
        let mut headers: Vec<BlockHeader> = Vec::new();
        let mut i = start;
        if start > end {
            assert(stored_range(m, start as int, end as int) =~= Seq::<BlockModel>::empty());
        }
        while i <= end
            invariant
                self.wf(),
                m == self.chain(),
                start <= i,
                i <= end + 1 || i == start,
                end < u64::MAX,
                headers_model(headers@) == stored_headers(m, start as int, i - 1),
            decreases end + 1 - i,
        {
            let ghost before = headers@;
            proof {
                lemma_stored_range_step(m, start as int, i);
            }
            match self.blockchain.get_block_header(i) {
                Some(h) => {
                    headers.push(h);
                    assert(stored_headers(m, start as int, i as int) =~= stored_headers(m, start as int, i - 1).push(
                        block_at(m, i)->0.header->0,
                    ));
                    assert(headers_model(headers@) =~= headers_model(before).push(block_at(m, i)->0.header->0));
                },
                None => {
                    assert(stored_headers(m, start as int, i as int) =~= stored_headers(m, start as int, i - 1));
                },
            }
            i = i + 1;
        }
        let head_signature = if headers.len() > 0 {
            self.keys.sign_header(&headers[headers.len() - 1])
        } else {
            Vec::new()
        };
        Headers { header: headers, base: copy_opt_delete(&self.prune_base), head_signature }
    }

    /// Prunes the chain to `delete` when the exporter signed it; otherwise
    /// leaves everything as it is.
    pub fn delete_blocks(&mut self, delete: Delete)
        requires
            old(self).wf(),
            delete.header is Some,
        ensures
            final(self).wf(),
            final(self).deleted(old(self), delete@),
    {
        let header = delete.header.as_ref().unwrap();
        if !self.keys.verify_header(header, delete.signature.as_slice()) {
            return;
        }
        let kept = delete.copy();
        self.blockchain.prune(delete);
        self.prune_base = Some(kept);
    }

    /// Headers when a hashed reply is asked for, blocks otherwise.
    pub fn export_v1(&self, read: Read, hash_reply: bool) -> (r: ExportReply)
        requires
            self.wf(),
            head_of(self.chain()).number < u64::MAX,
        ensures
            self.v1_answer(read, hash_reply, r),
    {
        if hash_reply {
            ExportReply::Headers(self.read_block_headers(read))
        } else {
            ExportReply::Blocks(self.read_blocks(read))
        }
    }

    /// The prune base, the checkpoint quorum and the certified header for a
    /// read from `base`.
    fn checkpoint_proof(&self, read: Read, cp_head: u64) -> (r: CheckpointProof)
        requires
            self.wf(),
            cp_head == self.checkpoint_head(),
        ensures
            proof_ok(r, self.chain(), self.prune_base(), cp_head, read.base),
    {
        let prune_base = match &self.prune_base {
            Some(b) => b.number(),
            None => 0,
        };
        let base = if read.base >= prune_base { read.base } else { prune_base };
        let cp_base = if prune_base > read.base { copy_opt_delete(&self.prune_base) } else { None };
        if cp_head > base {
            let checkpoint = self.blockchain.checkpoint();
            let head = self.blockchain.get_block_header(cp_head);
            CheckpointProof { base: cp_base, quorum: Some(checkpoint.copy()), head }
        } else {
            CheckpointProof { base: cp_base, quorum: None, head: None }
        }
    }

    /// The stored encodings of the blocks after `base` up to `head`.
    fn binaries(&self, base: u64, head: u64) -> (r: Vec<Vec<u8>>)
        requires
            base < u64::MAX,
            self.binaries_stored(base, head),
        ensures
            self.binaries_are(r@, base, head),
    {
        let mut blocks: Vec<Vec<u8>> = Vec::new();
        let n: u64 = if head > base { head - base } else { 0 };
        let mut k: u64 = 0;
        while k < n
            invariant
                k <= n,
                n == (if head > base { head - base } else { 0int }),
                self.binaries_stored(base, head),
                blocks@.len() == k,
                forall|j: int| 0 <= j < blocks@.len() ==> (#[trigger] blocks@[j])@ == self.binary((base + 1 + j) as u64)->0,
                forall|j: int| 0 <= j < blocks@.len() ==> encodes_stored((#[trigger] blocks@[j])@, self.chain(), (base + 1 + j) as u64),
            decreases n - k,
        {
            let i = base + 1 + k;
            assert(self.binary(i) is Some);
            let b = self.blockchain.get_block_binary(i).unwrap();
            blocks.push(b);
            k = k + 1;
        }
        blocks
    }

    /// The blocks up to the last stable checkpoint with its proof; only the
    /// proof when a hashed reply is asked for.
    pub fn export_v2(&self, read: Read, hash_reply: bool) -> (r: ExportReply)
        requires
            self.wf(),
            self.v2_defined(read, hash_reply),
        ensures
            self.v2_answer(read, hash_reply, r),
    {
        let checkpoint = self.blockchain.checkpoint();
        let cp_head = checkpoint.sequence / self.checkpoint_interval;
        let proof = self.checkpoint_proof(read, cp_head);
        if hash_reply {
            ExportReply::Proof(proof)
        } else {
            let prune_base = match &self.prune_base {
                Some(b) => b.number(),
                None => 0,
            };
            let base = if read.base >= prune_base { read.base } else { prune_base };
            let blocks = if cp_head > base { self.binaries(base, cp_head) } else { Vec::new() };
            ExportReply::Checkpointed(CheckpointedBlocks { blocks, proof: Some(proof) })
        }
    }

    /// The stored encodings of the blocks after the read's start up to
    /// `read.head` or the head of the chain, if earlier.
    pub fn export_blocks_only(&self, read: Read) -> (r: ExportReply)
        requires
            self.wf(),
            self.range_defined(read),
        ensures
            self.range_answer(read, r),
    {
        let prune_base = match &self.prune_base {
            Some(b) => b.number(),
            None => 0,
        };
        let base = if read.base >= prune_base { read.base } else { prune_base };
        let chain_head = self.blockchain.head().number;
        let head = if read.head <= chain_head { read.head } else { chain_head };
        let blocks = self.binaries(base, head);
        ExportReply::Checkpointed(CheckpointedBlocks { blocks, proof: None })
    }

    /// Answers an export: a read by its version, a delete by pruning.
    pub fn handle_export_message(&mut self, hash_reply: bool, export: Export) -> (r: ExportReply)
        requires
            old(self).wf(),
            old(self).export_defined(hash_reply, export),
        ensures
            final(self).wf(),
            final(self).exported(old(self), hash_reply, export, r),
    {
        match export.command {
            Some(ExportCommand::Read(read)) => {
                if read.version == READ_V1 {
                    self.export_v1(read, hash_reply)
                } else if read.version == READ_V2 {
                    self.export_v2(read, hash_reply)
                } else if read.version == READ_RANGE {
                    self.export_blocks_only(read)
                } else {
                    ExportReply::Empty
                }
            },
            Some(ExportCommand::Delete(delete)) => {
                self.delete_blocks(delete);
                ExportReply::Empty
            },
            None => ExportReply::Empty,
        }
    }

    /// Handles a request from `source` with sequence number `sequence`: an
    /// export is answered (in hashed form when asked for), a transaction
    /// appended; the reply goes from this replica back to `source`.
    pub fn execute(&mut self, source: u64, sequence: u64, hash_reply: bool, command: Command) -> (r: Reply)
        requires
            old(self).wf(),
            old(self).request_defined(hash_reply, command),
        ensures
            final(self).wf(),
            r.source == old(self).id(),
            r.destination == source,
            r.sequence == sequence,
            match command.action {
                Some(Action::Export(e)) => r.hashed == hash_reply && final(self).exported(
                    old(self),
                    hash_reply,
                    e,
                    r.payload,
                ),
                Some(Action::Transaction(t)) => !r.hashed && r.payload is Empty && final(self).appended(
                    old(self),
                    t@,
                ),
                None => !r.hashed && r.payload is Empty && final(self).unchanged(old(self)),
            },
    {
        let (payload, hashed) = match command.action {
            Some(Action::Export(export)) => (self.handle_export_message(hash_reply, export), hash_reply),
            Some(Action::Transaction(transaction)) => {
                self.append_transaction(transaction);
                (ExportReply::Empty, false)
            },
            None => (ExportReply::Empty, false),
        };
        Reply { source: self.id, destination: source, sequence, payload, hashed }
    }

    /// The buffered transactions and the head, borrowed.
    pub fn take_checkpoint(&self) -> (r: RailchainState<'_>)
        requires
            self.wf(),
        ensures
            r.cutter.buffer@ == self.buffered(),
            r.chain.head@ == head_of(self.chain()),
    {
        RailchainState { cutter: self.block_cutter.state(), chain: self.blockchain.state() }
    }

    /// The prune base and the stored blocks after it up to the handle's head.
    pub fn resolve_checkpoint(&self, handle: RailchainState<'_>) -> (r: FullCheckpointData)
        requires
            self.wf(),
            self.pruned_to() < u64::MAX,
            forall|i: u64| self.pruned_to() < i <= handle.chain.head@.number ==> (#[trigger] block_at(self.chain(), i)) is Some,
        ensures
            opt_delete(r.base) == self.prune_base(),
            blocks_model(r.blocks@) == stored_range(
                self.chain(),
                self.pruned_to() + 1,
                handle.chain.head@.number as int,
            ),
    {
        let base = match &self.prune_base {
            Some(b) => match &b.header {
                Some(h) => h.number,
                None => GENESIS_NUMBER,
            },
            None => GENESIS_NUMBER,
        };
        let head = handle.chain.head.get().number;
        let ghost m = self.chain();
        let ghost start = base + 1;
        let mut blocks: Vec<Block> = Vec::new();
        let n: u64 = if head > base { head - base } else { 0 };
        if head <= base {
            assert(stored_range(m, start, head as int) =~= Seq::<BlockModel>::empty());
        }
        let mut k: u64 = 0;
        while k < n
            invariant
                self.wf(),
                m == self.chain(),
                base == self.pruned_to(),
                start == base + 1,
                k <= n,
                n == (if head > base { head - base } else { 0int }),
                forall|i: u64| base < i <= head ==> (#[trigger] block_at(m, i)) is Some,
                blocks_model(blocks@) == stored_range(m, start, base + k),
            decreases n - k,
        {
            let i = base + 1 + k;
            proof {
                lemma_stored_range_step(m, start, i);
            }
            assert(block_at(m, i) is Some);
            let b = self.blockchain.get_block(i).unwrap();
            let ghost before = blocks@;
            blocks.push(b);
            assert(blocks_model(blocks@) =~= blocks_model(before) + block_seq(block_at(m, i)));
            k = k + 1;
        }
        FullCheckpointData { blocks, base: copy_opt_delete(&self.prune_base) }
    }

    /// Applies a checkpoint whose last header is the handle's head and whose
    /// blocks link up from its base: prunes to the base, stores the blocks,
    /// and takes over the handle's buffer. Any other checkpoint is a mismatch.
    pub fn apply_checkpoint(&mut self, handle: RailchainState<'_>, checkpoint: FullCheckpointData) -> (r: Result<(), ApplyError>)
        requires
            old(self).wf(),
            old(self).apply_defined(handle.chain.head@, checkpoint),
        ensures
            final(self).wf(),
            checkpoint_accepted(handle.chain.head@, opt_delete(checkpoint.base), blocks_model(checkpoint.blocks@)) ==> r
                is Ok && final(self).applied(old(self), handle.cutter.buffer@, checkpoint),
            !checkpoint_accepted(handle.chain.head@, opt_delete(checkpoint.base), blocks_model(checkpoint.blocks@)) ==> r
                is Err && final(self).unchanged(old(self)),
    {
        let ghost bs = blocks_model(checkpoint.blocks@);
        let last = &checkpoint.blocks[checkpoint.blocks.len() - 1];
        assert(bs.last() == last@);
        let last_header = last.header.as_ref().unwrap();
        if !handle.chain.head.get().same(last_header) {
            return Err(ApplyError::Mismatch);
        }
        match checkpoint.base {
            Some(base) => {
                let base_hash = hash_header(base.header.as_ref().unwrap());
                if !verify_chain(base_hash.as_slice(), checkpoint.blocks.as_slice()) {
                    return Err(ApplyError::Mismatch);
                }
                assert forall|i: int| 0 <= i < checkpoint.blocks@.len() implies (#[trigger] checkpoint.blocks@[i]).header is Some by {
                    assert(bs[i] == checkpoint.blocks@[i]@);
                    assert(block_valid(link(base_hash@, bs, i), bs[i]));
                }
                self.prune_base = Some(base.copy());
                self.blockchain.rebase(base, checkpoint.blocks);
            },
            None => {
                let prev = genesis_hash();
                if !verify_chain(prev.as_slice(), checkpoint.blocks.as_slice()) {
                    return Err(ApplyError::Mismatch);
                }
                assert forall|i: int| 0 <= i < checkpoint.blocks@.len() implies (#[trigger] checkpoint.blocks@[i]).header is Some by {
                    assert(bs[i] == checkpoint.blocks@[i]@);
                    assert(block_valid(link(prev@, bs, i), bs[i]));
                }
                let base = Delete { header: Some(genesis_head()), signature: Vec::new() };
                assert(base@ == apply_base(opt_delete(checkpoint.base)));
                self.blockchain.rebase(base, checkpoint.blocks);
            },
        }
        self.block_cutter.apply_state(handle.cutter);
        Ok(())
    }

    /// Records the quorum (each message in its packed form) that made
    /// `sequence` stable.
    pub fn checkpoint_stable(&mut self, sequence: u64, quorum: Vec<Vec<u8>>)
        requires
            old(self).wf(),
        ensures
            final(self).wf(),
            final(self).same_setup(old(self)),
            final(self).buffered() == old(self).buffered(),
            final(self).prune_base() == old(self).prune_base(),
            final(self).chain() == (StorageModel {
                proof_sequence: sequence,
                proof_messages: bytes_list(quorum@),
                ..old(self).chain()
            }),
    {
        self.blockchain.store_proof(sequence, quorum);
    }

    /// Whether the store keeps the encodings of the blocks after `base` up to `head`.
    fn binaries_kept(&self, base: u64, head: u64) -> (r: bool)
        ensures
            r == self.binaries_stored(base, head),
    {
        if head <= base {
            return true;
        }
        let mut i = base;
        while i < head
            invariant
                base <= i <= head,
                forall|j: u64| base < j <= i ==> (#[trigger] self.binary(j)) is Some,
            decreases head - i,
        {
            i = i + 1;
            if self.blockchain.get_block_binary(i).is_none() {
                assert(self.binary(i) is None);
                return false;
            }
        }
        true
    }

    /// Whether `execute` can handle a request (see `request_defined`): a
    /// replica cannot serve a request that this refuses.
    pub fn request_allowed(&self, hash_reply: bool, command: &Command) -> (r: bool)
        requires
            self.wf(),
        ensures
            r == self.request_defined(hash_reply, *command),
    {
        match &command.action {
            Some(Action::Export(e)) => match &e.command {
                Some(ExportCommand::Read(rd)) => {
                    let prune_base = match &self.prune_base {
                        Some(b) => b.number(),
                        None => 0,
                    };
                    let start = if rd.base >= prune_base { rd.base } else { prune_base };
                    let head = self.blockchain.head().number;
                    if rd.version == READ_V1 {
                        head < u64::MAX
                    } else if rd.version == READ_V2 {
                        if self.checkpoint_interval == 0 {
                            return false;
                        }
                        hash_reply || self.binaries_kept(
                            start,
                            self.blockchain.checkpoint().sequence / self.checkpoint_interval,
                        )
                    } else if rd.version == READ_RANGE {
                        let end = if rd.head <= head { rd.head } else { head };
                        start < u64::MAX && self.binaries_kept(start, end)
                    } else {
                        true
                    }
                },
                Some(ExportCommand::Delete(d)) => d.header.is_some(),
                None => false,
            },
            Some(Action::Transaction(_)) => !self.block_cutter.cuts_next() || self.blockchain.head().number
                < u64::MAX,
            None => true,
        }
    }

    /// Whether a checkpoint at `head` can be resolved: every block after the
    /// prune base up to `head` is stored, and the prune base is below `u64::MAX`.
    pub fn can_resolve(&self, head: u64) -> (r: bool)
        requires
            self.wf(),
        ensures
            r == (self.pruned_to() < u64::MAX && forall|i: u64| self.pruned_to() < i <= head ==> (#[trigger] block_at(
                self.chain(),
                i,
            )) is Some),
    {
        let base = match &self.prune_base {
            Some(b) => b.number(),
            None => 0,
        };
        if base == u64::MAX {
            return false;
        }
        if head <= base {
            return true;
        }
        let mut i = base;
        while i < head
            invariant
                base <= i <= head,
                base == self.pruned_to(),
                self.wf(),
                forall|j: u64| base < j <= i ==> (#[trigger] block_at(self.chain(), j)) is Some,
            decreases head - i,
        {
            i = i + 1;
            if self.blockchain.get_block_header(i).is_none() {
                return false;
            }
        }
        true
    }
}

/// A replica whose chain runs from its base to its head, and whose prune
/// base is its store's base (or, where it has none, whose base is genesis),
/// resolves a checkpoint at its head to its chain's blocks; they link up from
/// the checkpoint's base, so the checkpoint is accepted against that head
/// when it holds a block.
pub proof fn lemma_resolved_checkpoint_accepted(m: StorageModel, prune_base: Option<DeleteModel>)
    requires
        chain_wf(m),
        prune_base matches Some(d) ==> d == m.base,
        prune_base is None ==> m.base.header == Some(spec_genesis_head()),
    ensures
        stored_range(m, base_num(prune_base) + 1, head_of(m).number as int) == chain_blocks(m),
        chain_links(checkpoint_prev(prune_base), chain_blocks(m)),
        chain_blocks(m).len() > 0 ==> checkpoint_accepted(head_of(m), prune_base, chain_blocks(m)),
{
    let c = chain_blocks(m);
    assert(base_num(prune_base) == base_number(m));
    lemma_stored_range_chain(m, m.head.number as int);
    assert(c.take(c.len() as int) =~= c);
    if c.len() > 0 {
        assert(c.last() == m.blocks[m.head.number]);
    }
}

/// On a chain from its base to its head, a read from after the base returns
/// every block up to the head, in order, each under the number after the one
/// before: what was appended is read back.
pub proof fn lemma_read_whole_chain(m: StorageModel)
    requires
        chain_wf(m),
    ensures
        stored_range(m, base_number(m) + 1int, head_of(m).number as int) == chain_blocks(m),
        chain_blocks(m).len() == head_of(m).number - base_number(m),
        forall|i: int| 0 <= i < chain_blocks(m).len() ==> number_of(#[trigger] chain_blocks(m)[i]) == base_number(m) + 1 + i,
{
    let c = chain_blocks(m);
    lemma_stored_range_chain(m, m.head.number as int);
    assert(c.take(c.len() as int) =~= c);
    assert forall|i: int| 0 <= i < c.len() implies number_of(#[trigger] c[i]) == base_number(m) + 1 + i by {
        assert(m.blocks.contains_key((base_number(m) + 1 + i) as u64));
    }
}

/// Storing blocks numbered one after another, from `first` on, puts each
/// under its number and leaves every other number as it was.
pub proof fn lemma_stored_all(blocks: Map<u64, BlockModel>, bs: Seq<BlockModel>, first: int)
    requires
        forall|i: int| 0 <= i < bs.len() ==> number_of(#[trigger] bs[i]) == first + i,
    ensures
        forall|i: int| 0 <= i < bs.len() ==> #[trigger] stored_all(blocks, bs).contains_key(number_of(bs[i]))
            && stored_all(blocks, bs)[number_of(bs[i])] == bs[i],
        forall|k: u64| !(first <= k < first + bs.len()) ==> #[trigger] stored_all(blocks, bs).contains_key(k)
            == blocks.contains_key(k) && (blocks.contains_key(k) ==> stored_all(blocks, bs)[k] == blocks[k]),
    decreases bs.len(),
{
    if bs.len() > 0 {
        let t = bs.drop_last();
        assert forall|i: int| 0 <= i < t.len() implies number_of(#[trigger] t[i]) == first + i by {
            assert(t[i] == bs[i]);
        }
        lemma_stored_all(blocks, t, first);
        let last = bs[bs.len() - 1];
        assert(bs.last() == last);
        assert(number_of(last) == first + bs.len() - 1);
        assert forall|i: int| 0 <= i < bs.len() implies #[trigger] stored_all(blocks, bs).contains_key(
            number_of(bs[i]),
        ) && stored_all(blocks, bs)[number_of(bs[i])] == bs[i] by {
            if i < bs.len() - 1 {
                assert(t[i] == bs[i]);
                assert(number_of(bs[i]) != number_of(last));
                assert(stored_all(blocks, t).contains_key(number_of(t[i])) && stored_all(blocks, t)[number_of(t[i])]
                    == t[i]);
            }
        }
        assert forall|k: u64| !(first <= k < first + bs.len()) implies #[trigger] stored_all(blocks, bs).contains_key(k)
            == blocks.contains_key(k) && (blocks.contains_key(k) ==> stored_all(blocks, bs)[k] == blocks[k]) by {
            assert(k != number_of(last));
            assert(stored_all(blocks, t).contains_key(k) == blocks.contains_key(k));
        }
    }
}

/// A checkpoint resolved at the head of one replica, whose chain runs from
/// its base to its head and whose prune base is that base (or, where it has
/// none, whose base is genesis), and applied on any other replica, leaves
/// the second replica with the first one's base and head, and with the same
/// block as the first under every number from after the base up to the head.
pub proof fn lemma_applied_checkpoint_matches(
    m1: StorageModel,
    prune_base: Option<DeleteModel>,
    blocks: Seq<BlockModel>,
    old2: StorageModel,
    new2: StorageModel,
)
    requires
        chain_wf(m1),
        prune_base matches Some(d) ==> d == m1.base,
        prune_base is None ==> m1.base == apply_base(None),
        blocks == stored_range(m1, base_num(prune_base) + 1, head_of(m1).number as int),
        blocks.len() > 0,
        new2 == (StorageModel {
            base: apply_base(prune_base),
            blocks: stored_all(
                pruned(old2.blocks, base_number(old2), apply_base(prune_base).header->0.number),
                blocks,
            ),
            head: head_after(old2.head, blocks),
            ..old2
        }),
    ensures
        new2.base == m1.base,
        head_of(new2) == head_of(m1),
        forall|i: u64| base_number(m1) < i <= head_of(m1).number ==> #[trigger] block_at(new2, i) == block_at(m1, i),
{
    lemma_resolved_checkpoint_accepted(m1, prune_base);
    lemma_read_whole_chain(m1);
    let c = chain_blocks(m1);
    let b = base_number(m1);
    let p = pruned(old2.blocks, base_number(old2), apply_base(prune_base).header->0.number);
    lemma_stored_all(p, c, b + 1int);
    assert(c.last() == m1.blocks[m1.head.number]);
    assert forall|i: u64| b < i <= head_of(m1).number implies #[trigger] block_at(new2, i) == block_at(m1, i) by {
        let j = i - b - 1;
        assert(number_of(c[j]) == i);
        assert(m1.blocks.contains_key(i));
    }
}

/// The encoded transactions of `blocks`, one block after another.
pub open spec fn block_data(blocks: Seq<BlockModel>) -> Seq<Seq<u8>>
    decreases blocks.len(),
{
    if blocks.len() == 0 {
        Seq::empty()
    } else {
        block_data(blocks.drop_last()) + blocks.last().data.unwrap_or(Seq::empty())
    }
}

/// Over any run of appends, each state the result of appending the next
/// transaction to the one before, no transaction is lost or reordered: the
/// blocks are made under the numbers after the first head, every other
/// number keeps its block, and the transactions of the blocks made,
/// followed by what is still buffered, are what was buffered at the start
/// followed by the appended transactions.
pub proof fn lemma_appends_keep_every_transaction<T: Storage>(states: Seq<Railchain<T>>, txs: Seq<TxModel>)
    requires
        states.len() == txs.len() + 1,
        forall|i: int| 0 <= i < txs.len() ==> (#[trigger] states[i + 1]).appended(&states[i], txs[i]),
        forall|i: int| 0 <= i < txs.len() ==> (#[trigger] states[i]).append_defined(),
    ensures
        head_of(states[0].chain()).number <= head_of(states.last().chain()).number,
        forall|k: u64| !(head_of(states[0].chain()).number < k <= head_of(states.last().chain()).number) ==> #[trigger] block_at(
            states.last().chain(),
            k,
        ) == block_at(states[0].chain(), k),
        block_data(
            stored_range(
                states.last().chain(),
                head_of(states[0].chain()).number + 1,
                head_of(states.last().chain()).number as int,
            ),
        ) + encode_all(states.last().buffered()) == encode_all(states[0].buffered() + txs),
    decreases txs.len(),
{
    let h0 = head_of(states[0].chain()).number;
    if txs.len() == 0 {
        assert(states.last() == states[0]);
        assert(stored_range(states[0].chain(), h0 + 1, h0 as int) =~= Seq::<BlockModel>::empty());
        assert(states[0].buffered() + txs =~= states[0].buffered());
        assert(block_data(Seq::<BlockModel>::empty()) + encode_all(states[0].buffered()) =~= encode_all(
            states[0].buffered(),
        ));
    } else {
        let n = txs.len() - 1;
        let pre = states.take(n + 1);
        let ptx = txs.take(n);
        assert forall|i: int| 0 <= i < ptx.len() implies (#[trigger] pre[i + 1]).appended(&pre[i], ptx[i]) by {
            assert(pre[i + 1] == states[i + 1]);
            assert(pre[i] == states[i]);
        }
        assert forall|i: int| 0 <= i < ptx.len() implies (#[trigger] pre[i]).append_defined() by {
            assert(pre[i] == states[i]);
        }
        lemma_appends_keep_every_transaction(pre, ptx);
        let a = states[n];
        let b = states[n + 1];
        let t = txs[n];
        assert(pre.last() == a);
        assert(pre[0] == states[0]);
        assert(states.last() == b);
        assert(b.appended(&a, t));
        assert(a.append_defined());
        let h = head_of(a.chain()).number;
        let before = stored_range(a.chain(), h0 + 1, h as int);
        assert(encode_all(a.buffered().push(t)) =~= encode_all(a.buffered()).push(spec_encode_transaction(t)));
        assert(states[0].buffered() + txs =~= (states[0].buffered() + ptx).push(t));
        assert(encode_all((states[0].buffered() + ptx).push(t)) =~= encode_all(states[0].buffered() + ptx).push(
            spec_encode_transaction(t),
        ));
        if a.buffered().len() + 1 >= a.max_messages() {
            let nb = new_block(head_of(a.chain()), encode_all(a.buffered().push(t)));
            let hb = (h + 1) as u64;
            assert(head_of(b.chain()).number == hb);
            assert(block_at(b.chain(), hb) == Some(nb));
            assert forall|k: u64| h0 + 1 <= k <= h implies #[trigger] block_at(b.chain(), k) == block_at(a.chain(), k) by {
                assert(k != hb);
            }
            lemma_stored_range_agree(b.chain(), a.chain(), h0 + 1, h as int);
            assert(stored_range(b.chain(), h0 + 1, hb as int) == before.push(nb)) by {
                lemma_stored_range_step(b.chain(), h0 + 1, hb);
                assert(stored_range(b.chain(), h0 + 1, hb - 1) == before);
                assert(before + block_seq(Some(nb)) =~= before.push(nb));
            }
            assert(before.push(nb).drop_last() =~= before);
            assert(block_data(before.push(nb)) == block_data(before) + encode_all(a.buffered().push(t)));
            assert(encode_all(b.buffered()) =~= Seq::<Seq<u8>>::empty());
            assert(block_data(before.push(nb)) + encode_all(b.buffered()) =~= (block_data(before) + encode_all(
                a.buffered(),
            )).push(spec_encode_transaction(t)));
        } else {
            assert(b.chain() == a.chain());
            assert(encode_all(b.buffered()) =~= encode_all(a.buffered()).push(spec_encode_transaction(t)));
            assert(block_data(before) + encode_all(b.buffered()) =~= (block_data(before) + encode_all(
                a.buffered(),
            )).push(spec_encode_transaction(t)));
        }
    }
}

} // verus!
