//! The exporter's side of a version 2 export: which base to trust, whether
//! more blocks must be fetched, and whether the fetched blocks form the
//! chain that the checkpoint certifies.
use vstd::prelude::*;
use crate::application::crypto::{spec_ed25519_verify, ed25519_verify};
use crate::blockchain::genesis::{genesis_head, spec_genesis_head};
use crate::blockchain::hashing::{blocks_model, chain_valid, hash_header, spec_hash_header, verify_chain};
use crate::blockchain::proto::{Block, BlockHeader, BlockModel, CheckpointProof, HeaderModel};

verus! {

/// How the exporter connects: its id, its key file, and the address it
/// listens on, where it waits for the replicas.
pub struct ClientConfig {
    pub id: u64,
    pub keyfile: String,
    pub listen: Option<String>,
}

impl ClientConfig {
    pub fn new(id: u64, keyfile: String, listen: Option<String>) -> (r: Self)
        ensures
            r.id == id,
            r.keyfile == keyfile,
            r.listen == listen,
    {
        ClientConfig { id, keyfile, listen }
    }
}

/// The answers to a version 2 export: the blocks of the replica that sent
/// them, and each replica's proof.
pub struct ResponseSet {
    pub blocks: Vec<Block>,
    pub proof: Vec<(u64, CheckpointProof)>,
}

/// The verified result of an export.
pub struct FetchResponse {
    pub blocks: Vec<Block>,
    pub proof: CheckpointProof,
}

/// The buffer of a replica's checkpointed state, as the exporter rebuilds
/// it: a replica certifies its state with an empty buffer.
pub struct Holder {
    pub cutter: Vec<u64>,
}

/// The head of a replica's checkpointed state.
pub struct Header<'a> {
    pub header: &'a BlockHeader,
}

/// A replica's checkpointed state, as the exporter rebuilds it to check a
/// checkpoint's digest.
pub struct RailchainState<'a> {
    pub cutter: Holder,
    pub chain: Header<'a>,
}

impl<'a> RailchainState<'a> {
    /// The state of a replica at `head`, with an empty buffer.
    pub fn at_head(head: &'a BlockHeader) -> (r: Self)
        ensures
            r.cutter.cutter@.len() == 0,
            r.chain.header == head,
    {
        RailchainState { cutter: Holder { cutter: Vec::new() }, chain: Header { header: head } }
    }
}

/// The bases of the proofs, in order, each with whether it carries the
/// exporter's signature under `public_key`.
pub open spec fn signed_base(public_key: Seq<u8>, p: CheckpointProof) -> Option<HeaderModel> {
    match p.base {
        Some(d) => match d.header {
            Some(h) => if spec_ed25519_verify(public_key, spec_hash_header(h@), d.signature@) {
                Some(h@)
            } else {
                None
            },
            None => None,
        },
        None => None,
    }
}

/// The highest-numbered signed base among the first `n` proofs, the last of
/// equal ones.
pub open spec fn best_signed(public_key: Seq<u8>, proofs: Seq<(u64, CheckpointProof)>, n: int) -> Option<HeaderModel>
    decreases n,
{
    if n <= 0 {
        None
    } else {
        let prev = best_signed(public_key, proofs, n - 1);
        match signed_base(public_key, proofs[n - 1].1) {
            Some(h) => match prev {
                Some(p) => if h.number >= p.number {
                    Some(h)
                } else {
                    Some(p)
                },
                None => Some(h),
            },
            None => prev,
        }
    }
}

/// The base that the exporter trusts, or genesis.
pub open spec fn trusted_base(public_key: Seq<u8>, proofs: Seq<(u64, CheckpointProof)>) -> HeaderModel {
    match best_signed(public_key, proofs, proofs.len() as int) {
        Some(h) => h,
        None => spec_genesis_head(),
    }
}

/// Among the first `n` answers, the chosen base is one that carries the
/// exporter's signature, numbered at least as high as every signed base
/// among them; there is one exactly when some base among them is signed.
proof fn lemma_best_signed(public_key: Seq<u8>, proofs: Seq<(u64, CheckpointProof)>, n: int)
    requires
        0 <= n <= proofs.len(),
    ensures
        best_signed(public_key, proofs, n) is None <==> forall|i: int| 0 <= i < n ==> (#[trigger] signed_base(
            public_key,
            proofs[i].1,
        )) is None,
        best_signed(public_key, proofs, n) matches Some(b) ==> exists|i: int| 0 <= i < n && #[trigger] signed_base(
            public_key,
            proofs[i].1,
        ) == Some(b),
        forall|i: int| 0 <= i < n ==> (#[trigger] signed_base(public_key, proofs[i].1) matches Some(h) ==> (best_signed(
            public_key,
            proofs,
            n,
        ) matches Some(b) && b.number >= h.number)),
    decreases n,
{
    if n > 0 {
        lemma_best_signed(public_key, proofs, n - 1);
        let prev = best_signed(public_key, proofs, n - 1);
        if let Some(b) = best_signed(public_key, proofs, n) {
            if signed_base(public_key, proofs[n - 1].1) != Some(b) {
                let i = choose|i: int| 0 <= i < n - 1 && #[trigger] signed_base(public_key, proofs[i].1) == Some(b);
                assert(signed_base(public_key, proofs[i].1) == Some(b));
            }
        }
    }
}

/// The trusted base is a base that carries the exporter's signature and is
/// numbered at least as high as every base among the answers that carries
/// it; where none does, it is the genesis header.
pub proof fn lemma_trusted_base_is_highest_signed(public_key: Seq<u8>, proofs: Seq<(u64, CheckpointProof)>)
    ensures
        forall|i: int| 0 <= i < proofs.len() ==> (#[trigger] signed_base(public_key, proofs[i].1) matches Some(h)
            ==> trusted_base(public_key, proofs).number >= h.number),
        (exists|i: int| 0 <= i < proofs.len() && #[trigger] signed_base(public_key, proofs[i].1) is Some) ==> exists|
            i: int,
        | 0 <= i < proofs.len() && #[trigger] signed_base(public_key, proofs[i].1) == Some(
            trusted_base(public_key, proofs),
        ),
        (forall|i: int| 0 <= i < proofs.len() ==> (#[trigger] signed_base(public_key, proofs[i].1)) is None)
            ==> trusted_base(public_key, proofs) == spec_genesis_head(),
{
    lemma_best_signed(public_key, proofs, proofs.len() as int);
    if exists|i: int| 0 <= i < proofs.len() && #[trigger] signed_base(public_key, proofs[i].1) is Some {
        let i = choose|i: int| 0 <= i < proofs.len() && #[trigger] signed_base(public_key, proofs[i].1) is Some;
        assert(signed_base(public_key, proofs[i].1) is Some);
    }
}

/// The base that the exporter trusts: of the bases that carry its own
/// signature, the highest-numbered (the last of equal ones); genesis where
/// there is none. Bases without a header are passed over.
pub fn select_base(public_key: &[u8], set: &ResponseSet) -> (r: BlockHeader)
    ensures
        r@ == trusted_base(public_key@, set.proof@),
{
    let mut best: Option<&BlockHeader> = None;
    let mut i: usize = 0;
    while i < set.proof.len()
        invariant
            i <= set.proof@.len(),
            match best {
                Some(b) => best_signed(public_key@, set.proof@, i as int) == Some(b@),
                None => best_signed(public_key@, set.proof@, i as int) is None,
            },
        decreases set.proof@.len() - i,
    {
        let p = &set.proof[i].1;
        let mut candidate: Option<&BlockHeader> = None;
        match &p.base {
            Some(d) => match &d.header {
                Some(h) => {
                    let digest = hash_header(h);
                    if ed25519_verify(public_key, digest.as_slice(), d.signature.as_slice()) {
                        candidate = Some(h);
                    }
                },
                None => {},
            },
            None => {},
        }
        match candidate {
            Some(h) => {
                match best {
                    Some(b) => {
                        if h.number >= b.number {
                            best = Some(h);
                        }
                    },
                    None => {
                        best = Some(h);
                    },
                }
            },
            None => {},
        }
        i = i + 1;
    }
    match best {
        Some(b) => b.copy(),
        None => genesis_head(),
    }
}

/// The number of the last block, or `base` where there is none.
pub open spec fn highest(blocks: Seq<BlockModel>, base: u64) -> u64 {
    if blocks.len() > 0 {
        blocks.last().header->0.number
    } else {
        base
    }
}

/// The range of blocks to fetch after the first answers: from the later of
/// the base and the last block received, up to the certified head; none
/// when the blocks already reach the head or the head is not past the base.
pub fn fetch_range(head: u64, base: u64, blocks: &[Block]) -> (r: Option<(u64, u64)>)
    requires
        forall|i: int| 0 <= i < blocks@.len() ==> (#[trigger] blocks@[i]).header is Some,
    ensures
        ({
            let top = highest(blocks_model(blocks@), base);
            if head > top && head > base {
                r == Some((if base >= top { base } else { top }, head))
            } else {
                r is None
            }
        }),
{
    let top = if blocks.len() > 0 {
        assert(blocks_model(blocks@).last() == blocks@[blocks@.len() - 1]@);
        blocks[blocks.len() - 1].number()
    } else {
        base
    };
    if head > top && head > base {
        Some((if base >= top { base } else { top }, head))
    } else {
        None
    }
}

/// The blocks after the leading ones numbered up to `base`.
pub open spec fn after_base(blocks: Seq<BlockModel>, base: u64) -> Seq<BlockModel> {
    blocks.skip(leading(blocks, base))
}

/// The number of leading blocks numbered up to `base`.
pub open spec fn leading(blocks: Seq<BlockModel>, base: u64) -> int
    decreases blocks.len(),
{
    if blocks.len() > 0 && blocks[0].header->0.number <= base {
        1 + leading(blocks.skip(1), base)
    } else {
        0
    }
}

/// Whether the fetched blocks are the certified chain: the blocks after the
/// base link up from the base, and the last block is the certified head.
pub open spec fn fetched_ok(base: HeaderModel, head: u64, blocks: Seq<BlockModel>) -> bool {
    &&& chain_valid(spec_hash_header(base), after_base(blocks, base.number))
    &&& highest(blocks, base.number) == head
}

/// Whether the fetched blocks are the certified chain (see `fetched_ok`).
pub fn check_fetched(base: &BlockHeader, head: u64, blocks: &[Block]) -> (r: bool)
    requires
        forall|i: int| 0 <= i < blocks@.len() ==> (#[trigger] blocks@[i]).header is Some,
    ensures
        r == fetched_ok(base@, head, blocks_model(blocks@)),
{
    let ghost bs = blocks_model(blocks@);
    let mut k: usize = 0;
    while k < blocks.len() && blocks[k].number() <= base.number
        invariant
            k <= blocks@.len(),
            bs == blocks_model(blocks@),
            forall|i: int| 0 <= i < blocks@.len() ==> (#[trigger] blocks@[i]).header is Some,
            forall|i: int| 0 <= i < k ==> (#[trigger] bs[i]).header->0.number <= base.number,
        decreases blocks@.len() - k,
    {
        k = k + 1;
    }
    proof {
        lemma_leading(bs, base.number, k as int);
    }
    let rest = &blocks[k..blocks.len()];
    assert(blocks_model(rest@) =~= after_base(bs, base.number));
    let base_hash = hash_header(base);
    let linked = verify_chain(base_hash.as_slice(), rest);
    let top = if blocks.len() > 0 {
        assert(bs.last() == blocks@[blocks@.len() - 1]@);
        blocks[blocks.len() - 1].number()
    } else {
        base.number
    };
    linked && top == head
}

proof fn lemma_leading(bs: Seq<BlockModel>, base: u64, k: int)
    requires
        0 <= k <= bs.len(),
        forall|i: int| 0 <= i < k ==> (#[trigger] bs[i]).header->0.number <= base,
        k < bs.len() ==> bs[k].header->0.number > base,
    ensures
        leading(bs, base) == k,
    decreases k,
{
    if k > 0 {
        let t = bs.skip(1);
        assert forall|i: int| 0 <= i < k - 1 implies (#[trigger] t[i]).header->0.number <= base by {
            assert(t[i] == bs[i + 1]);
        }
        if k < bs.len() {
            assert(t[k - 1] == bs[k]);
        }
        lemma_leading(t, base, k - 1);
        assert(bs[0].header->0.number <= base);
    }
}

/// The proof to trust among the answers: of those whose checkpoint
/// verified (`verified[i]` for answer `i`), one that certifies the lowest
/// head; the first such answer where several do. `None` when none verified.
pub fn select_proof(proofs: &[(u64, CheckpointProof)], verified: &[bool]) -> (r: Option<usize>)
    requires
        verified@.len() == proofs@.len(),
        forall|i: int| 0 <= i < proofs@.len() ==> (#[trigger] proofs@[i]).1.head is Some,
    ensures
        r is None <==> forall|i: int| 0 <= i < verified@.len() ==> !(#[trigger] verified@[i]),
        r matches Some(k) ==> {
            &&& k < proofs@.len()
            &&& verified@[k as int]
            &&& forall|i: int| 0 <= i < proofs@.len() && #[trigger] verified@[i] ==> proofs@[k as int].1.head->0.number
                <= proofs@[i].1.head->0.number
            &&& forall|i: int| 0 <= i < k && #[trigger] verified@[i] ==> proofs@[i].1.head->0.number
                > proofs@[k as int].1.head->0.number
        },
{
    let mut best: Option<usize> = None;
    let mut i: usize = 0;
    while i < proofs.len()
        invariant
            i <= proofs@.len(),
            verified@.len() == proofs@.len(),
            forall|j: int| 0 <= j < proofs@.len() ==> (#[trigger] proofs@[j]).1.head is Some,
            best is None <==> forall|j: int| 0 <= j < i ==> !(#[trigger] verified@[j]),
            best matches Some(k) ==> {
                &&& k < i
                &&& verified@[k as int]
                &&& forall|j: int| 0 <= j < i && #[trigger] verified@[j] ==> proofs@[k as int].1.head->0.number
                    <= proofs@[j].1.head->0.number
                &&& forall|j: int| 0 <= j < k && #[trigger] verified@[j] ==> proofs@[j].1.head->0.number
                    > proofs@[k as int].1.head->0.number
            },
        decreases proofs@.len() - i,
    {
        if verified[i] {
            let n = match &proofs[i].1.head {
                Some(h) => h.number,
                None => 0,
            };
            match best {
                Some(k) => {
                    let m = match &proofs[k].1.head {
                        Some(h) => h.number,
                        None => 0,
                    };
                    if n < m {
                        best = Some(i);
                    }
                },
                None => {
                    best = Some(i);
                },
            }
        }
        i = i + 1;
    }
    best
}

} // verus!
