//! Hashing of headers and block data, and the verification of hash chains.
//!
//! A header is hashed as its number (eight bytes, little-endian) followed by
//! its previous hash and its data hash; block data as the number of
//! transactions (eight bytes, little-endian) followed by the transactions.
//! Each block's header holds the hash of the header before it.
use vstd::prelude::*;
use crate::blockchain::proto::{Block, BlockData, BlockHeader, BlockModel, HeaderModel};
use crate::osf::datagram::flatten;

verus! {

/// The SHA-256 digest of `data`.
pub uninterp spec fn spec_sha256(data: Seq<u8>) -> Seq<u8>;

/// `ring::digest::digest` with `SHA256`, copied out.
///
/// Trusted: the digest is named `spec_sha256` of the input bytes (a function
/// of them alone); SHA-256 digests are 32 bytes long.
#[verifier::external_body]
fn sha256(data: &[u8]) -> (r: Vec<u8>)
    ensures
        r@ == spec_sha256(data@),
        r@.len() == 32,
{
    ring::digest::digest(&ring::digest::SHA256, data).as_ref().to_vec()
}

/// The `n` least significant bytes of `x`, least significant first.
pub open spec fn le_bytes(x: nat, n: nat) -> Seq<u8>
    decreases n,
{
    if n == 0 {
        Seq::empty()
    } else {
        seq![(x % 256) as u8] + le_bytes(x / 256, (n - 1) as nat)
    }
}

/// The bytes that a header is hashed from.
pub open spec fn header_preimage(h: HeaderModel) -> Seq<u8> {
    le_bytes(h.number as nat, 8) + h.previous_hash + h.data_hash
}

pub open spec fn spec_hash_header(h: HeaderModel) -> Seq<u8> {
    spec_sha256(header_preimage(h))
}

/// The bytes that block data is hashed from.
pub open spec fn data_preimage(d: Seq<Seq<u8>>) -> Seq<u8> {
    le_bytes(d.len(), 8) + flatten(d)
}

pub open spec fn spec_hash_data(d: Seq<Seq<u8>>) -> Seq<u8> {
    spec_sha256(data_preimage(d))
}

/// Appends the eight little-endian bytes of `x` to `out`.
fn push_u64_le(out: &mut Vec<u8>, x: u64)
    ensures
        final(out)@ == old(out)@ + le_bytes(x as nat, 8),
{
    let mut v = x;
    let mut i: usize = 0;
    while i < 8
        invariant
            i <= 8,
            out@ + le_bytes(v as nat, (8 - i) as nat) == old(out)@ + le_bytes(x as nat, 8),
        decreases 8 - i,
    {
        let ghost before = out@;
        out.push((v % 256) as u8);
        assert(le_bytes(v as nat, (8 - i) as nat) == seq![(v % 256) as u8] + le_bytes(
            (v / 256) as nat,
            (8 - i - 1) as nat,
        ));
        assert(out@ + le_bytes((v / 256) as nat, (8 - i - 1) as nat) =~= before + le_bytes(
            v as nat,
            (8 - i) as nat,
        ));
        v = v / 256;
        i = i + 1;
    }
    assert(le_bytes(v as nat, 0) =~= Seq::<u8>::empty());
    assert(out@ =~= out@ + le_bytes(v as nat, 0));
}

fn push_all(out: &mut Vec<u8>, b: &[u8])
    ensures
        final(out)@ == old(out)@ + b@,
{
    let mut i: usize = 0;
    while i < b.len()
        invariant
            i <= b@.len(),
            out@ == old(out)@ + b@.take(i as int),
        decreases b@.len() - i,
    {
        out.push(b[i]);
        i = i + 1;
        assert(out@ =~= old(out)@ + b@.take(i as int));
    }
    assert(b@.take(i as int) =~= b@);
}

/// The hash of a header.
pub fn hash_header(header: &BlockHeader) -> (r: Vec<u8>)
    ensures
        r@ == spec_hash_header(header@),
        r@.len() == 32,
{
    let mut pre: Vec<u8> = Vec::new();
    push_u64_le(&mut pre, header.number);
    push_all(&mut pre, header.previous_hash.as_slice());
    push_all(&mut pre, header.data_hash.as_slice());
    assert(pre@ =~= header_preimage(header@));
    sha256(pre.as_slice())
}

/// The hash of the transactions of a block.
pub fn hash_data(data: &BlockData) -> (r: Vec<u8>)
    ensures
        r@ == spec_hash_data(data@),
        r@.len() == 32,
{
    let mut pre: Vec<u8> = Vec::new();
    push_u64_le(&mut pre, data.data.len() as u64);
    let ghost start = pre@;
    let mut i: usize = 0;
    while i < data.data.len()
        invariant
            i <= data.data@.len(),
            start == le_bytes(data.data@.len() as nat, 8),
            pre@ == start + flatten(data@.take(i as int)),
        decreases data.data@.len() - i,
    {
        push_all(&mut pre, data.data[i].as_slice());
        assert(data@.take(i + 1).drop_last() =~= data@.take(i as int));
        assert(data@[i as int] == data.data@[i as int]@);
        assert(pre@ =~= start + flatten(data@.take(i + 1)));
        i = i + 1;
    }
    assert(data@.take(i as int) =~= data@);
    assert(pre@ =~= data_preimage(data@));
    sha256(pre.as_slice())
}

/// A block is valid after a block with hash `prev` when it has data and a
/// header, its header holds `prev`, and the hash of its data.
pub open spec fn block_valid(prev: Seq<u8>, b: BlockModel) -> bool {
    &&& b.data is Some
    &&& b.header is Some
    &&& b.header->0.previous_hash == prev
    &&& b.header->0.data_hash == spec_hash_data(b.data->0)
}

pub open spec fn blocks_model(s: Seq<Block>) -> Seq<BlockModel> {
    s.map_values(|b: Block| b@)
}

/// The hash that block `i` of `bs` must hold: `prev` for the first, the hash
/// of the header before it for the others.
pub open spec fn link(prev: Seq<u8>, bs: Seq<BlockModel>, i: int) -> Seq<u8> {
    if i == 0 {
        prev
    } else {
        spec_hash_header(bs[i - 1].header->0)
    }
}

/// Every block of `bs` is valid after the one before it, the first after `prev`.
pub open spec fn chain_links(prev: Seq<u8>, bs: Seq<BlockModel>) -> bool {
    forall|i: int| 0 <= i < bs.len() ==> #[trigger] block_valid(link(prev, bs, i), bs[i])
}

/// A non-empty chain whose blocks link up from `prev`.
pub open spec fn chain_valid(prev: Seq<u8>, bs: Seq<BlockModel>) -> bool {
    bs.len() > 0 && chain_links(prev, bs)
}

/// Whether `block` is valid after a block whose header hashes to `expected_previous`.
pub fn verify_block(expected_previous: &[u8], block: &Block) -> (r: bool)
    ensures
        r == block_valid(expected_previous@, block@),
{
    let data = match &block.data {
        Some(d) => d,
        None => return false,
    };
    let header = match &block.header {
        Some(h) => h,
        None => return false,
    };
    if !crate::text::bytes_eq(header.previous_hash.as_slice(), expected_previous) {
        return false;
    }
    let data_hash = hash_data(data);
    crate::text::bytes_eq(header.data_hash.as_slice(), data_hash.as_slice())
}

/// Whether `blocks` form a chain from `previous_hash`: a chain must not be empty.
pub fn verify_chain(previous_hash: &[u8], blocks: &[Block]) -> (r: bool)
    ensures
        r == chain_valid(previous_hash@, blocks_model(blocks@)),
{
    let ghost bs = blocks_model(blocks@);
    if blocks.len() == 0 {
        return false;
    }
    if !verify_block(previous_hash, &blocks[0]) {
        assert(!block_valid(link(previous_hash@, bs, 0), bs[0]));
        return false;
    }
    let mut i: usize = 1;
    while i < blocks.len()
        invariant
            1 <= i <= blocks@.len(),
            bs == blocks_model(blocks@),
            forall|j: int| 0 <= j < i ==> #[trigger] block_valid(link(previous_hash@, bs, j), bs[j]),
        decreases blocks@.len() - i,
    {
        assert(bs[i - 1] == blocks@[i - 1]@);
        assert(bs[i as int] == blocks@[i as int]@);
        assert(block_valid(link(previous_hash@, bs, i - 1), bs[i - 1]));
        let prev_header = blocks[i - 1].header.as_ref().unwrap();
        let prev = hash_header(prev_header);
        assert(prev@ == link(previous_hash@, bs, i as int));
        if !verify_block(prev.as_slice(), &blocks[i]) {
            assert(!block_valid(link(previous_hash@, bs, i as int), bs[i as int]));
            return false;
        }
        i = i + 1;
    }
    true
}

/// Whether `blocks` link up from `previous_hash`; an empty list does.
pub fn verify_chain2(previous_hash: &[u8], blocks: &[Block]) -> (r: bool)
    ensures
        r == chain_links(previous_hash@, blocks_model(blocks@)),
{
    let ghost bs = blocks_model(blocks@);
    if blocks.len() > 0 {
        if !verify_block(previous_hash, &blocks[0]) {
            assert(!block_valid(link(previous_hash@, bs, 0), bs[0]));
            return false;
        }
    }
    let mut i: usize = 1;
    while i < blocks.len()
        invariant
            blocks@.len() > 0 ==> 1 <= i <= blocks@.len(),
            bs == blocks_model(blocks@),
            forall|j: int| 0 <= j < i && j < blocks@.len() ==> #[trigger] block_valid(link(previous_hash@, bs, j), bs[j]),
        decreases blocks@.len() - i,
    {
        assert(bs[i - 1] == blocks@[i - 1]@);
        assert(bs[i as int] == blocks@[i as int]@);
        assert(block_valid(link(previous_hash@, bs, i - 1), bs[i - 1]));
        let prev_header = blocks[i - 1].header.as_ref().unwrap();
        let prev = hash_header(prev_header);
        assert(prev@ == link(previous_hash@, bs, i as int));
        if !verify_block(prev.as_slice(), &blocks[i]) {
            assert(!block_valid(link(previous_hash@, bs, i as int), bs[i as int]));
            return false;
        }
        i = i + 1;
    }
    true
}

pub open spec fn headers_model(s: Seq<BlockHeader>) -> Seq<HeaderModel> {
    s.map_values(|h: BlockHeader| h@)
}

/// Every header holds the hash of the header before it, the first `prev`.
pub open spec fn headers_linked(prev: Seq<u8>, hs: Seq<HeaderModel>) -> bool {
    forall|i: int| 0 <= i < hs.len() ==> #[trigger] hs[i].previous_hash == (if i == 0 {
        prev
    } else {
        spec_hash_header(hs[i - 1])
    })
}

/// Headers link up from `prev` only if the first holds `prev`; an empty
/// list links up from anything; and a list with one more header links up
/// exactly when the list did and the new header holds the hash of the last
/// one (`prev`, for the first).
pub proof fn lemma_headers_linked_laws(prev: Seq<u8>, hs: Seq<HeaderModel>, h: HeaderModel)
    ensures
        hs.len() > 0 && hs[0].previous_hash != prev ==> !headers_linked(prev, hs),
        headers_linked(prev, Seq::<HeaderModel>::empty()),
        headers_linked(prev, hs.push(h)) == (headers_linked(prev, hs) && h.previous_hash == (if hs.len() == 0 {
            prev
        } else {
            spec_hash_header(hs.last())
        })),
{
    let g = hs.push(h);
    if headers_linked(prev, hs) && h.previous_hash == (if hs.len() == 0 {
        prev
    } else {
        spec_hash_header(hs.last())
    }) {
        assert forall|i: int| 0 <= i < g.len() implies #[trigger] g[i].previous_hash == (if i == 0 {
            prev
        } else {
            spec_hash_header(g[i - 1])
        }) by {
            if i < hs.len() {
                assert(g[i] == hs[i]);
                if i > 0 {
                    assert(g[i - 1] == hs[i - 1]);
                }
            }
        }
    }
    if headers_linked(prev, g) {
        assert forall|i: int| 0 <= i < hs.len() implies #[trigger] hs[i].previous_hash == (if i == 0 {
            prev
        } else {
            spec_hash_header(hs[i - 1])
        }) by {
            assert(g[i] == hs[i]);
            if i > 0 {
                assert(g[i - 1] == hs[i - 1]);
            }
        }
        assert(g[hs.len() as int] == h);
        if hs.len() > 0 {
            assert(g[hs.len() - 1] == hs.last());
        }
    }
}

/// Blocks link up from `prev` only if the first holds `prev` and the hash of
/// its data; a list with one more block links up exactly when the list did
/// and the new block is valid after the last one (after `prev`, for the
/// first).
pub proof fn lemma_chain_links_laws(prev: Seq<u8>, bs: Seq<BlockModel>, b: BlockModel)
    ensures
        bs.len() > 0 && chain_links(prev, bs) ==> (bs[0].header matches Some(h0) && h0.previous_hash == prev
            && h0.data_hash == spec_hash_data(bs[0].data->0)),
        chain_links(prev, bs.push(b)) == (chain_links(prev, bs) && block_valid(tip_hash(prev, bs), b)),
{
    if bs.len() > 0 && chain_links(prev, bs) {
        assert(block_valid(link(prev, bs, 0), bs[0]));
    }
    let g = bs.push(b);
    if chain_links(prev, g) {
        assert forall|i: int| 0 <= i < bs.len() implies #[trigger] block_valid(link(prev, bs, i), bs[i]) by {
            assert(block_valid(link(prev, g, i), g[i]));
            assert(g[i] == bs[i]);
            if i > 0 {
                assert(g[i - 1] == bs[i - 1]);
            }
        }
        assert(block_valid(link(prev, g, bs.len() as int), g[bs.len() as int]));
        if bs.len() > 0 {
            assert(g[bs.len() - 1] == bs.last());
        }
    }
    if chain_links(prev, bs) && block_valid(tip_hash(prev, bs), b) {
        lemma_chain_links_push(prev, bs, b);
    }
}

/// Whether `headers` link up from `previous_hash`; an empty list does.
pub fn verify_headers(previous_hash: &[u8], headers: &[BlockHeader]) -> (r: bool)
    ensures
        r == headers_linked(previous_hash@, headers_model(headers@)),
{
    let ghost hs = headers_model(headers@);
    if headers.len() > 0 {
        if !crate::text::bytes_eq(headers[0].previous_hash.as_slice(), previous_hash) {
            assert(hs[0].previous_hash != previous_hash@);
            return false;
        }
    }
    let mut i: usize = 1;
    while i < headers.len()
        invariant
            headers@.len() > 0 ==> 1 <= i <= headers@.len(),
            hs == headers_model(headers@),
            forall|j: int| 0 <= j < i && j < headers@.len() ==> #[trigger] hs[j].previous_hash == (if j == 0 {
                previous_hash@
            } else {
                spec_hash_header(hs[j - 1])
            }),
        decreases headers@.len() - i,
    {
        let prev = hash_header(&headers[i - 1]);
        if !crate::text::bytes_eq(headers[i].previous_hash.as_slice(), prev.as_slice()) {
            assert(hs[i as int].previous_hash != spec_hash_header(hs[i - 1]));
            return false;
        }
        i = i + 1;
    }
    true
}

/// `verify_chain` is `verify_chain2` restricted to non-empty lists.
pub proof fn lemma_chain_valid_iff_nonempty_links(prev: Seq<u8>, bs: Seq<BlockModel>)
    ensures
        chain_valid(prev, bs) == (bs.len() > 0 && chain_links(prev, bs)),
{
}

/// The headers of a linked chain of blocks are linked.
pub proof fn lemma_chain_links_headers(prev: Seq<u8>, bs: Seq<BlockModel>)
    requires
        chain_links(prev, bs),
    ensures
        headers_linked(prev, bs.map_values(|b: BlockModel| b.header->0)),
{
    let hs = bs.map_values(|b: BlockModel| b.header->0);
    assert forall|i: int| 0 <= i < hs.len() implies #[trigger] hs[i].previous_hash == (if i == 0 {
        prev
    } else {
        spec_hash_header(hs[i - 1])
    }) by {
        assert(block_valid(link(prev, bs, i), bs[i]));
    }
}

/// The hash that a block appended to `bs` must hold.
pub open spec fn tip_hash(prev: Seq<u8>, bs: Seq<BlockModel>) -> Seq<u8> {
    if bs.len() == 0 {
        prev
    } else {
        spec_hash_header(bs.last().header->0)
    }
}

/// A linked chain stays linked when a block valid after its tip is appended.
pub proof fn lemma_chain_links_push(prev: Seq<u8>, bs: Seq<BlockModel>, b: BlockModel)
    requires
        chain_links(prev, bs),
        block_valid(tip_hash(prev, bs), b),
    ensures
        chain_links(prev, bs.push(b)),
{
    let cs = bs.push(b);
    assert forall|i: int| 0 <= i < cs.len() implies #[trigger] block_valid(link(prev, cs, i), cs[i]) by {
        if i < bs.len() {
            assert(block_valid(link(prev, bs, i), bs[i]));
            assert(link(prev, cs, i) == link(prev, bs, i));
        }
    }
}

/// What is left of a linked chain after its first `k` blocks are cut off
/// links up from the hash of the last header cut off.
pub proof fn lemma_chain_links_skip(prev: Seq<u8>, bs: Seq<BlockModel>, k: int)
    requires
        chain_links(prev, bs),
        0 < k <= bs.len(),
    ensures
        chain_links(spec_hash_header(bs[k - 1].header->0), bs.skip(k)),
{
    let p2 = spec_hash_header(bs[k - 1].header->0);
    let cs = bs.skip(k);
    assert forall|i: int| 0 <= i < cs.len() implies #[trigger] block_valid(link(p2, cs, i), cs[i]) by {
        assert(block_valid(link(prev, bs, i + k), bs[i + k]));
    }
}

} // verus!
