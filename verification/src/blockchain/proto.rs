//! The messages of the blockchain: blocks and their headers, and the export
//! protocol by which a client reads and prunes the chain.
//!
//! Each message has a model over `Seq`s, which the contracts speak of. A
//! block holds its transactions in their protobuf encoding, which this
//! module gives; the other messages are encoded around this library.
use vstd::prelude::*;

verus! {

/// The model of a list of byte strings.
pub open spec fn bytes_list(v: Seq<Vec<u8>>) -> Seq<Seq<u8>> {
    v.map_values(|x: Vec<u8>| x@)
}

/// A copy of a list of byte strings.
pub fn clone_bytes_list(v: &Vec<Vec<u8>>) -> (r: Vec<Vec<u8>>)
    ensures
        bytes_list(r@) == bytes_list(v@),
{
    let mut out: Vec<Vec<u8>> = Vec::new();
    let mut i: usize = 0;
    while i < v.len()
        invariant
            i <= v@.len(),
            out@.len() == i,
            forall|j: int| 0 <= j < i ==> (#[trigger] out@[j])@ == v@[j]@,
        decreases v@.len() - i,
    {
        let c = v[i].clone();
        assert(c@ =~= v@[i as int]@);
        out.push(c);
        i = i + 1;
    }
    assert(bytes_list(out@) =~= bytes_list(v@)) by {
        assert forall|j: int| 0 <= j < out@.len() implies bytes_list(out@)[j] == bytes_list(v@)[j] by {
            assert(out@[j]@ == v@[j]@);
        }
    }
    out
}

pub struct BlockHeader {
    pub number: u64,
    pub previous_hash: Vec<u8>,
    pub data_hash: Vec<u8>,
}

pub struct HeaderModel {
    pub number: u64,
    pub previous_hash: Seq<u8>,
    pub data_hash: Seq<u8>,
}

impl View for BlockHeader {
    type V = HeaderModel;

    open spec fn view(&self) -> HeaderModel {
        HeaderModel { number: self.number, previous_hash: self.previous_hash@, data_hash: self.data_hash@ }
    }
}

impl BlockHeader {
    pub fn copy(&self) -> (r: BlockHeader)
        ensures
            r@ == self@,
    {
        BlockHeader {
            number: self.number,
            previous_hash: self.previous_hash.clone(),
            data_hash: self.data_hash.clone(),
        }
    }

    /// Whether two headers hold the same number and hashes.
    pub fn same(&self, other: &BlockHeader) -> (r: bool)
        ensures
            r == (self@ == other@),
    {
        self.number == other.number && crate::text::bytes_eq(
            self.previous_hash.as_slice(),
            other.previous_hash.as_slice(),
        ) && crate::text::bytes_eq(self.data_hash.as_slice(), other.data_hash.as_slice())
    }
}

pub open spec fn opt_header(h: Option<BlockHeader>) -> Option<HeaderModel> {
    match h {
        Some(h) => Some(h@),
        None => None,
    }
}

pub fn copy_opt_header(h: &Option<BlockHeader>) -> (r: Option<BlockHeader>)
    ensures
        opt_header(r) == opt_header(*h),
{
    match h {
        Some(h) => Some(h.copy()),
        None => None,
    }
}

/// The transactions of a block, each in its encoded form.
pub struct BlockData {
    pub data: Vec<Vec<u8>>,
}

impl View for BlockData {
    type V = Seq<Seq<u8>>;

    open spec fn view(&self) -> Seq<Seq<u8>> {
        bytes_list(self.data@)
    }
}

pub struct BlockMetadata {
    pub metadata: Vec<Vec<u8>>,
}

impl View for BlockMetadata {
    type V = Seq<Seq<u8>>;

    open spec fn view(&self) -> Seq<Seq<u8>> {
        bytes_list(self.metadata@)
    }
}

pub struct Block {
    pub header: Option<BlockHeader>,
    pub data: Option<BlockData>,
    pub metadata: Option<BlockMetadata>,
}

pub struct BlockModel {
    pub header: Option<HeaderModel>,
    pub data: Option<Seq<Seq<u8>>>,
    pub metadata: Option<Seq<Seq<u8>>>,
}

impl View for Block {
    type V = BlockModel;

    open spec fn view(&self) -> BlockModel {
        BlockModel {
            header: opt_header(self.header),
            data: match self.data {
                Some(d) => Some(d@),
                None => None,
            },
            metadata: match self.metadata {
                Some(m) => Some(m@),
                None => None,
            },
        }
    }
}

impl Block {
    /// The number of the block; the block must have a header.
    pub fn number(&self) -> (r: u64)
        requires
            self.header is Some,
        ensures
            r == self.header->0.number,
    {
        match &self.header {
            Some(h) => h.number,
            None => 0,
        }
    }

    /// The header of the block, which it must have.
    pub fn header(&self) -> (r: &BlockHeader)
        requires
            self.header is Some,
        ensures
            *r == self.header->0,
    {
        self.header.as_ref().unwrap()
    }

    pub fn copy(&self) -> (r: Block)
        ensures
            r@ == self@,
    {
        Block {
            header: copy_opt_header(&self.header),
            data: match &self.data {
                Some(d) => Some(BlockData { data: clone_bytes_list(&d.data) }),
                None => None,
            },
            metadata: match &self.metadata {
                Some(m) => Some(BlockMetadata { metadata: clone_bytes_list(&m.metadata) }),
                None => None,
            },
        }
    }
}

pub fn copy_opt_block(b: &Option<Block>) -> (r: Option<Block>)
    ensures
        match (r, *b) {
            (Some(x), Some(y)) => x@ == y@,
            (None, None) => true,
            _ => false,
        },
{
    match b {
        Some(b) => Some(b.copy()),
        None => None,
    }
}

/// A payload with its signature.
pub struct Envelope {
    pub payload: Vec<u8>,
    pub signature: Vec<u8>,
}

impl Envelope {
    /// An envelope with no signature.
    pub fn new(payload: Vec<u8>) -> (r: Envelope)
        ensures
            r.payload@ == payload@,
            r.signature@.len() == 0,
    {
        Envelope { payload, signature: Vec::new() }
    }
}

/// The request to prune the chain up to and including the block of `header`,
/// signed by the exporter.
pub struct Delete {
    pub header: Option<BlockHeader>,
    pub signature: Vec<u8>,
}

pub struct DeleteModel {
    pub header: Option<HeaderModel>,
    pub signature: Seq<u8>,
}

impl View for Delete {
    type V = DeleteModel;

    open spec fn view(&self) -> DeleteModel {
        DeleteModel { header: opt_header(self.header), signature: self.signature@ }
    }
}

impl Delete {
    /// The number of the last pruned block; the delete must have a header.
    pub fn number(&self) -> (r: u64)
        requires
            self.header is Some,
        ensures
            r == self.header->0.number,
    {
        match &self.header {
            Some(h) => h.number,
            None => 0,
        }
    }

    /// The header of the last pruned block, which the delete must have.
    pub fn header(&self) -> (r: &BlockHeader)
        requires
            self.header is Some,
        ensures
            *r == self.header->0,
    {
        self.header.as_ref().unwrap()
    }

    pub fn copy(&self) -> (r: Delete)
        ensures
            r@ == self@,
    {
        Delete { header: copy_opt_header(&self.header), signature: self.signature.clone() }
    }
}

pub open spec fn opt_delete(d: Option<Delete>) -> Option<DeleteModel> {
    match d {
        Some(d) => Some(d@),
        None => None,
    }
}

pub fn copy_opt_delete(d: &Option<Delete>) -> (r: Option<Delete>)
    ensures
        opt_delete(r) == opt_delete(*d),
{
    match d {
        Some(d) => Some(d.copy()),
        None => None,
    }
}

/// Transaction type: not given.
pub const TX_UNSPECIFIED: i32 = 0;

/// Transaction type: OSF block data.
pub const TX_DATA: i32 = 1;

/// Transaction type: an OSF header (channel configuration).
pub const TX_CONFIG: i32 = 2;

pub struct Transaction {
    pub payload: Vec<u8>,
    pub tx_type: i32,
}

pub struct TxModel {
    pub payload: Seq<u8>,
    pub tx_type: i32,
}

impl View for Transaction {
    type V = TxModel;

    open spec fn view(&self) -> TxModel {
        TxModel { payload: self.payload@, tx_type: self.tx_type }
    }
}

impl Transaction {
    pub fn copy(&self) -> (r: Transaction)
        ensures
            r@ == self@,
    {
        Transaction { payload: self.payload.clone(), tx_type: self.tx_type }
    }
}

pub open spec fn tx_list(v: Seq<Transaction>) -> Seq<TxModel> {
    v.map_values(|t: Transaction| t@)
}

/// Export version: blocks or headers, signed at the head.
pub const READ_V1: i32 = 0;

/// Export version: the blocks up to the last stable checkpoint, with its proof.
pub const READ_V2: i32 = 1;

/// Export version: the stored blocks in a range.
pub const READ_RANGE: i32 = 2;

/// A read of the chain from `base` on.
#[derive(Clone, Copy)]
pub struct Read {
    pub base: u64,
    pub head: u64,
    pub version: i32,
}

pub enum ExportCommand {
    Read(Read),
    Delete(Delete),
}

pub struct Export {
    pub command: Option<ExportCommand>,
}

pub enum Action {
    Export(Export),
    Transaction(Transaction),
}

/// A client's request to the chain.
pub struct Command {
    pub action: Option<Action>,
}

impl Command {
    /// A transaction of unspecified type.
    pub fn transaction(payload: Vec<u8>) -> (r: Command)
        ensures
            r.action matches Some(Action::Transaction(t)) && t.payload@ == payload@ && t.tx_type
                == TX_UNSPECIFIED,
    {
        Command { action: Some(Action::Transaction(Transaction { payload, tx_type: TX_UNSPECIFIED })) }
    }

    pub fn transaction2(tx: Transaction) -> (r: Command)
        ensures
            r.action matches Some(Action::Transaction(t)) && t == tx,
    {
        Command { action: Some(Action::Transaction(tx)) }
    }

    fn read_op(base: u64, head: u64, version: i32) -> (r: Command)
        ensures
            r.action matches Some(Action::Export(e)) && e.command matches Some(ExportCommand::Read(rd))
                && rd.base == base && rd.head == head && rd.version == version,
    {
        let read = Read { base, head, version };
        Command { action: Some(Action::Export(Export { command: Some(ExportCommand::Read(read)) })) }
    }

    /// A version 1 read from `base`.
    pub fn read(base: u64) -> (r: Command)
        ensures
            r.action matches Some(Action::Export(e)) && e.command matches Some(ExportCommand::Read(rd))
                && rd.base == base && rd.head == 0 && rd.version == READ_V1,
    {
        Command::read_op(base, 0, READ_V1)
    }

    /// A version 2 read from `base`.
    pub fn read2(base: u64) -> (r: Command)
        ensures
            r.action matches Some(Action::Export(e)) && e.command matches Some(ExportCommand::Read(rd))
                && rd.base == base && rd.head == 0 && rd.version == READ_V2,
    {
        Command::read_op(base, 0, READ_V2)
    }

    /// A read of the stored blocks after `base` up to `head`.
    pub fn read0(base: u64, head: u64) -> (r: Command)
        ensures
            r.action matches Some(Action::Export(e)) && e.command matches Some(ExportCommand::Read(rd))
                && rd.base == base && rd.head == head && rd.version == READ_RANGE,
    {
        Command::read_op(base, head, READ_RANGE)
    }

    /// A request to prune up to and including the block of `header`.
    pub fn delete(header: BlockHeader, signature: Vec<u8>) -> (r: Command)
        ensures
            r.action matches Some(Action::Export(e)) && e.command matches Some(ExportCommand::Delete(d))
                && d.header == Some(header) && d.signature == signature,
    {
        let delete = Delete { header: Some(header), signature };
        Command { action: Some(Action::Export(Export { command: Some(ExportCommand::Delete(delete)) })) }
    }
}

/// The quorum of checkpoint messages that made a sequence number stable.
pub struct CurrentCheckpoint {
    pub sequence: u64,
    pub messages: Vec<Vec<u8>>,
}

impl CurrentCheckpoint {
    /// The checkpoint of a fresh chain: sequence 0, no messages.
    pub fn empty() -> (r: CurrentCheckpoint)
        ensures
            r.sequence == 0,
            r.messages@.len() == 0,
    {
        CurrentCheckpoint { sequence: 0, messages: Vec::new() }
    }

    pub fn copy(&self) -> (r: CurrentCheckpoint)
        ensures
            r.sequence == self.sequence,
            bytes_list(r.messages@) == bytes_list(self.messages@),
    {
        CurrentCheckpoint { sequence: self.sequence, messages: clone_bytes_list(&self.messages) }
    }
}

/// The proof that goes with an export: the base the chain was pruned to, the
/// checkpoint quorum, and the header it certifies.
pub struct CheckpointProof {
    pub base: Option<Delete>,
    pub quorum: Option<CurrentCheckpoint>,
    pub head: Option<BlockHeader>,
}

/// Blocks in their stored encoding, with a proof.
pub struct CheckpointedBlocks {
    pub blocks: Vec<Vec<u8>>,
    pub proof: Option<CheckpointProof>,
}

/// Blocks, with the base of the chain and a signature of the last header.
pub struct Blocks {
    pub block: Vec<Block>,
    pub base: Option<Delete>,
    pub head_signature: Vec<u8>,
}

/// Headers, with the base of the chain and a signature of the last header.
pub struct Headers {
    pub header: Vec<BlockHeader>,
    pub base: Option<Delete>,
    pub head_signature: Vec<u8>,
}

/// The protobuf varint of `x`: seven bits at a time, least significant first,
/// the high bit set on every byte but the last.
pub open spec fn varint(x: nat) -> Seq<u8>
    decreases x,
{
    if x < 128 {
        seq![x as u8]
    } else {
        seq![(x % 128 + 128) as u8] + varint(x / 128)
    }
}

/// The 64-bit two's-complement value of an `int32` field.
pub open spec fn int32_wire(t: i32) -> nat {
    if t >= 0 {
        t as nat
    } else {
        (t + 0x1_0000_0000_0000_0000) as nat
    }
}

/// The protobuf encoding of a transaction: the payload as field 1
/// (length-delimited), the type as field 2 (varint), each left out when it
/// holds its default value.
pub open spec fn spec_encode_transaction(t: TxModel) -> Seq<u8> {
    (if t.payload.len() > 0 {
        seq![10u8] + varint(t.payload.len()) + t.payload
    } else {
        Seq::empty()
    }) + (if t.tx_type != 0 {
        seq![16u8] + varint(int32_wire(t.tx_type))
    } else {
        Seq::empty()
    })
}

/// The number that varint bytes stand for: seven bits from each byte, least
/// significant first.
pub open spec fn varint_value(bytes: Seq<u8>) -> nat
    decreases bytes.len(),
{
    if bytes.len() == 0 {
        0
    } else {
        (bytes[0] % 128) as nat + 128 * varint_value(bytes.drop_first())
    }
}

/// A varint stands for the number it was made of; its last byte has the
/// high bit clear and every other byte has it set.
pub proof fn lemma_varint_decodes(x: nat)
    ensures
        varint_value(varint(x)) == x,
        varint(x).len() >= 1,
        varint(x).last() < 128,
        forall|i: int| 0 <= i < varint(x).len() - 1 ==> #[trigger] varint(x)[i] >= 128,
    decreases x,
{
    if x >= 128 {
        lemma_varint_decodes(x / 128);
        let v = varint(x);
        let rest = varint(x / 128);
        assert(v == seq![(x % 128 + 128) as u8] + rest);
        assert(v.drop_first() =~= rest);
        assert(((x % 128 + 128) as u8) % 128 == x % 128);
        assert(x == x % 128 + 128 * (x / 128));
        assert forall|i: int| 0 <= i < v.len() - 1 implies #[trigger] v[i] >= 128 by {
            if i > 0 {
                assert(v[i] == rest[i - 1]);
            }
        }
        assert(v.last() == rest.last());
        assert(v[0] == (x % 128 + 128) as u8);
        assert(varint_value(v) == (v[0] % 128) as nat + 128 * varint_value(rest));
    } else {
        let v = varint(x);
        assert(v.drop_first() =~= Seq::<u8>::empty());
        assert(v[0] == x as u8);
        assert((x as u8) % 128 == x);
        assert(varint_value(v) == (v[0] % 128) as nat + 128 * varint_value(v.drop_first()));
    }
}

/// The wire value of an `int32` is its 64-bit two's complement: below 2^64
/// and equal to the value modulo 2^64 (a negative type is sign-extended).
pub proof fn lemma_int32_wire_is_twos_complement(t: i32)
    ensures
        int32_wire(t) < 0x1_0000_0000_0000_0000,
        (int32_wire(t) - t) % 0x1_0000_0000_0000_0000 == 0,
        t >= 0 ==> int32_wire(t) == t,
{
}

/// The encoding of a transaction keeps both its payload and its type,
/// each independently of the other: a non-empty payload comes first, as
/// field 1 with its length; a type other than 0 comes last, as field 2 (key
/// 16) followed by a varint that stands for the type's 64-bit wire value;
/// and the encoding holds nothing else.
pub proof fn lemma_transaction_encoding_keeps_fields(t: TxModel)
    ensures
        ({
            let e = spec_encode_transaction(t);
            let p: int = if t.payload.len() > 0 {
                1 + varint(t.payload.len()).len() + t.payload.len() as int
            } else {
                0
            };
            let k: int = if t.tx_type != 0 {
                1 + varint(int32_wire(t.tx_type)).len() as int
            } else {
                0
            };
            &&& e.len() == p + k
            &&& t.payload.len() > 0 ==> e[0] == 10 && varint_value(e.subrange(1, 1 + varint(t.payload.len()).len() as int))
                == t.payload.len() && e.subrange(p - t.payload.len(), p) == t.payload
            &&& t.tx_type != 0 ==> e[p] == 16 && varint_value(e.subrange(p + 1, e.len() as int)) == int32_wire(
                t.tx_type,
            )
        }),
{
    let e = spec_encode_transaction(t);
    lemma_varint_decodes(t.payload.len());
    lemma_varint_decodes(int32_wire(t.tx_type));
    let pf = if t.payload.len() > 0 {
        seq![10u8] + varint(t.payload.len()) + t.payload
    } else {
        Seq::empty()
    };
    let tf = if t.tx_type != 0 {
        seq![16u8] + varint(int32_wire(t.tx_type))
    } else {
        Seq::empty()
    };
    assert(e == pf + tf);
    let p = pf.len() as int;
    if t.payload.len() > 0 {
        let vl = varint(t.payload.len());
        assert(e.subrange(1, 1 + vl.len() as int) =~= vl);
        assert(e.subrange(p - t.payload.len(), p) =~= t.payload);
    }
    if t.tx_type != 0 {
        assert(e.subrange(p + 1, e.len() as int) =~= varint(int32_wire(t.tx_type)));
    }
}

/// A length-delimited field: its key, the length as a varint, the bytes.
pub open spec fn delimited(key: u8, bytes: Seq<u8>) -> Seq<u8> {
    seq![key] + varint(bytes.len()) + bytes
}

/// A bytes field, left out when empty.
pub open spec fn bytes_field(key: u8, bytes: Seq<u8>) -> Seq<u8> {
    if bytes.len() > 0 {
        delimited(key, bytes)
    } else {
        Seq::empty()
    }
}

/// The protobuf encoding of a header: the number as field 1 (varint), the
/// previous hash and the data hash as fields 2 and 3 (length-delimited),
/// each left out when it holds its default value.
pub open spec fn spec_encode_header(h: HeaderModel) -> Seq<u8> {
    (if h.number != 0 {
        seq![8u8] + varint(h.number as nat)
    } else {
        Seq::empty()
    }) + bytes_field(18u8, h.previous_hash) + bytes_field(26u8, h.data_hash)
}

/// The protobuf encoding of a message whose field 1 is repeated bytes:
/// every item in order, empty ones too.
pub open spec fn spec_encode_bytes_list(items: Seq<Seq<u8>>) -> Seq<u8>
    decreases items.len(),
{
    if items.len() == 0 {
        Seq::empty()
    } else {
        spec_encode_bytes_list(items.drop_last()) + delimited(10u8, items.last())
    }
}

/// The protobuf encoding of a block: the header, the data and the metadata
/// as fields 1, 2 and 3, each a nested message written where it is set.
pub open spec fn spec_encode_block(b: BlockModel) -> Seq<u8> {
    (match b.header {
        Some(h) => delimited(10u8, spec_encode_header(h)),
        None => Seq::empty(),
    }) + (match b.data {
        Some(d) => delimited(18u8, spec_encode_bytes_list(d)),
        None => Seq::empty(),
    }) + (match b.metadata {
        Some(m) => delimited(26u8, spec_encode_bytes_list(m)),
        None => Seq::empty(),
    })
}

fn push_varint(out: &mut Vec<u8>, x: u64)
    ensures
        final(out)@ == old(out)@ + varint(x as nat),
{
    let mut v = x;
    while v >= 128
        invariant
            out@ + varint(v as nat) == old(out)@ + varint(x as nat),
        decreases v,
    {
        let ghost before = out@;
        out.push((v % 128 + 128) as u8);
        assert(varint(v as nat) == seq![(v % 128 + 128) as u8] + varint((v / 128) as nat));
        assert(out@ + varint((v / 128) as nat) =~= before + varint(v as nat));
        v = v / 128;
    }
    let ghost before = out@;
    out.push(v as u8);
    assert(out@ =~= before + varint(v as nat));
}

/// The protobuf encoding of a transaction.
pub fn encode_transaction(t: &Transaction) -> (r: Vec<u8>)
    ensures
        r@ == spec_encode_transaction(t@),
{
    let mut out: Vec<u8> = Vec::new();
    if t.payload.len() > 0 {
        out.push(10u8);
        push_varint(&mut out, t.payload.len() as u64);
        let mut i: usize = 0;
        let ghost start = out@;
        while i < t.payload.len()
            invariant
                i <= t.payload@.len(),
                out@ == start + t.payload@.take(i as int),
            decreases t.payload@.len() - i,
        {
            out.push(t.payload[i]);
            i = i + 1;
            assert(out@ =~= start + t.payload@.take(i as int));
        }
        assert(t.payload@.take(i as int) =~= t.payload@);
    }
    let ghost first = out@;
    if t.tx_type != 0 {
        out.push(16u8);
        let wire: u64 = if t.tx_type >= 0 {
            t.tx_type as u64
        } else {
            let m = (-(t.tx_type as i64) - 1) as u64;
            0xffff_ffff_ffff_ffffu64 - m
        };
        push_varint(&mut out, wire);
    }
    assert(out@ =~= spec_encode_transaction(t@));
    out
}

} // verus!
