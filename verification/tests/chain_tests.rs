use railchain::blockchain::display::DisplayBytes;
use railchain::application::chain::{BlockCutter, BlockDesc, Blockchain, CutterState, TxBuffer};
use railchain::application::config::{Config, Export};
use railchain::blockchain::genesis::{genesis_block, genesis_hash, genesis_head, FIRST_BLOCK_NUM, GENESIS_NUMBER};
use railchain::blockchain::hashing::{hash_data, hash_header, verify_block, verify_chain, verify_chain2, verify_headers};
use railchain::blockchain::proto::{Block, BlockData, BlockHeader, Delete, Transaction, TX_DATA};
use railchain::blockchain::storage::{InMemory, Storage};

fn config(max: usize) -> Config {
    Config { max_block_messages: max, export: Export { signing_key: String::new(), exporter_identity: String::new() } }
}

fn tx(b: u8) -> Transaction {
    Transaction { payload: vec![b], tx_type: TX_DATA }
}

fn chain_of(n: usize) -> Blockchain<InMemory> {
    let mut chain = Blockchain::new(InMemory::new());
    for i in 0..n {
        chain.create_block(vec![tx(i as u8)]);
    }
    chain
}

fn blocks_of(chain: &Blockchain<InMemory>, from: u64, to: u64) -> Vec<Block> {
    (from..=to).filter_map(|i| chain.get_block(i)).collect()
}

#[test]
fn genesis() {
    let g = genesis_head();
    assert_eq!(g.number, GENESIS_NUMBER);
    assert!(g.previous_hash.is_empty() && g.data_hash.is_empty());
    assert_eq!(FIRST_BLOCK_NUM, 1);
    assert_eq!(genesis_hash(), hash_header(&g));
    assert_eq!(genesis_hash().len(), 32);
    let b = genesis_block();
    assert_eq!(b.number(), 0);
    assert!(b.data.unwrap().data.is_empty());
}

#[test]
fn header_hash_is_sha256_of_its_fields() {
    let h = BlockHeader { number: 1, previous_hash: vec![0xaa], data_hash: vec![0xbb, 0xcc] };
    let mut pre = 1u64.to_le_bytes().to_vec();
    pre.extend_from_slice(&[0xaa, 0xbb, 0xcc]);
    let expected = ring::digest::digest(&ring::digest::SHA256, &pre);
    assert_eq!(hash_header(&h), expected.as_ref().to_vec());

    let d = BlockData { data: vec![vec![1, 2], vec![3]] };
    let mut pre = 2u64.to_le_bytes().to_vec();
    pre.extend_from_slice(&[1, 2, 3]);
    let expected = ring::digest::digest(&ring::digest::SHA256, &pre);
    assert_eq!(hash_data(&d), expected.as_ref().to_vec());
}

#[test]
fn created_blocks_link_up_from_genesis() {
    let chain = chain_of(3);
    assert_eq!(chain.head().number, 3);
    let blocks = blocks_of(&chain, 1, 3);
    assert_eq!(blocks.len(), 3);
    assert!(verify_chain(&genesis_hash(), &blocks));
    assert!(verify_chain2(&genesis_hash(), &blocks));
    assert!(verify_block(&genesis_hash(), &blocks[0]));
    assert!(!verify_block(&genesis_hash(), &blocks[1]));
    let headers: Vec<BlockHeader> = blocks.iter().map(|b| b.header().copy()).collect();
    assert!(verify_headers(&genesis_hash(), &headers));
    // the block created last is read back under the next number
    let last = chain.get_block(3).unwrap();
    assert_eq!(last.header().previous_hash, hash_header(blocks[1].header()));
    assert!(chain.get_block(4).is_none());
    assert!(chain.get_block(0).is_none());
}

#[test]
fn an_empty_chain_verifies_only_as_links() {
    assert!(!verify_chain(&genesis_hash(), &[]));
    assert!(verify_chain2(&genesis_hash(), &[]));
    assert!(verify_headers(&genesis_hash(), &[]));
}

#[test]
fn tampered_data_breaks_the_chain() {
    let chain = chain_of(2);
    let mut blocks = blocks_of(&chain, 1, 2);
    blocks[1].data = Some(BlockData { data: vec![vec![9, 9]] });
    assert!(!verify_chain(&genesis_hash(), &blocks));
    assert!(!verify_chain(&[1, 2, 3], &blocks_of(&chain, 1, 2)));
}

#[test]
fn prune_keeps_the_blocks_after_the_base() {
    let mut chain = chain_of(5);
    let base_header = chain.get_block_header(2).unwrap();
    let base_hash = hash_header(&base_header);
    chain.prune(Delete { header: Some(base_header), signature: vec![] });
    assert!(chain.get_block(2).is_none());
    assert_eq!(chain.get_block(3).unwrap().number(), 3);
    assert_eq!(chain.head().number, 5);
    assert!(verify_chain(&base_hash, &blocks_of(&chain, 3, 5)));
}

#[test]
fn rebase_stores_after_the_new_base() {
    let source = chain_of(4);
    let mut chain = chain_of(2);
    let base = chain.get_block_header(1).unwrap();
    let extra: Vec<Block> = blocks_of(&source, 3, 4);
    chain.rebase(Delete { header: Some(base), signature: vec![] }, extra);
    assert_eq!(chain.head().number, 4);
    let kept = blocks_of(&chain, 2, 4);
    assert_eq!(kept.len(), 3);
    assert!(verify_chain(&hash_header(&source.get_block_header(1).unwrap()), &kept));
}

#[test]
fn checkpoint_proof_is_kept() {
    let mut chain = chain_of(1);
    assert_eq!(chain.checkpoint().sequence, 0);
    chain.store_proof(30, vec![vec![1], vec![2, 3]]);
    assert_eq!(chain.checkpoint().sequence, 30);
    assert_eq!(chain.checkpoint().messages, vec![vec![1], vec![2, 3]]);
    assert!(chain.get_block_binary(1).is_none());
}

#[test]
fn overwrite_stores_the_block_as_it_is() {
    let mut chain = chain_of(1);
    let b = Block { header: Some(BlockHeader { number: 99, previous_hash: vec![], data_hash: vec![] }), data: None, metadata: None };
    chain.overwrite_block(b);
    assert_eq!(chain.head().number, 99);
    assert_eq!(chain.get_block(99).unwrap().number(), 99);
    assert!(chain.get_block(2).is_none());
    assert_eq!(chain.get_block(1).unwrap().number(), 1);
}

#[test]
fn overwrite_replaces_the_block_under_its_number() {
    let mut chain = chain_of(3);
    let b = Block {
        header: Some(BlockHeader { number: 2, previous_hash: vec![7], data_hash: vec![8] }),
        data: Some(BlockData { data: vec![vec![4, 2]] }),
        metadata: None,
    };
    chain.overwrite_block(b);
    let found = chain.get_block(2).unwrap();
    assert_eq!(found.header().previous_hash, vec![7]);
    assert_eq!(found.data.unwrap().data, vec![vec![4, 2]]);
    assert_eq!(chain.head().number, 2);
    assert_eq!(chain.get_block(3).unwrap().number(), 3);
    assert_eq!(blocks_of(&chain, 1, 3).len(), 3);
}

#[test]
fn cutter_hands_out_full_blocks() {
    let mut cutter = BlockCutter::new(config(2));
    assert!(cutter.append(tx(1)).is_none());
    let block = cutter.append(tx(2)).unwrap();
    assert_eq!(block.len(), 2);
    assert_eq!(block[0].payload, vec![1]);
    assert_eq!(block[1].payload, vec![2]);
    assert!(cutter.append(tx(3)).is_none());
    match cutter.state().buffer {
        TxBuffer::Borrowed(b) => assert_eq!(b.len(), 1),
        TxBuffer::Owned(_) => panic!("not borrowed"),
    }
    let owned = cutter.state().into_owned();
    let mut other = BlockCutter::new(config(2));
    other.apply_state(owned);
    let block = other.append(tx(4)).unwrap();
    assert_eq!(block.len(), 2);
    assert_eq!(block[0].payload, vec![3]);
    let empty = CutterState { buffer: TxBuffer::Owned(vec![]) };
    other.apply_state(empty);
    assert!(other.append(tx(5)).is_none());
}

#[test]
fn cutter_of_zero_cuts_every_transaction() {
    let mut cutter = BlockCutter::new(config(0));
    assert_eq!(cutter.append(tx(1)).unwrap().len(), 1);
}

#[test]
fn storage_reads_and_state() {
    let mut store = InMemory::new();
    assert_eq!(store.head().number, 0);
    assert_eq!(store.base().number(), 0);
    assert!(store.read_block(1).is_none());
    let chain = chain_of(1);
    store.store_block(chain.get_block(1).unwrap());
    assert_eq!(store.read_header(1).unwrap().number, 1);
    let state = chain.state().into_owned();
    assert_eq!(state.head.get().number, 1);
    let d = BlockDesc::new(1, vec![1, 2]);
    assert_eq!(d.block_num, 1);
    assert_eq!(d.digest, vec![1, 2]);
}

#[test]
fn prune_past_the_head_drops_every_block_and_keeps_the_head() {
    let mut chain = chain_of(3);
    let header = BlockHeader { number: 5, previous_hash: vec![1], data_hash: vec![2] };
    chain.prune(Delete { header: Some(header), signature: vec![] });
    assert!(blocks_of(&chain, 0, 5).is_empty());
    assert_eq!(chain.head().number, 3);
    let store = InMemory::new();
    assert_eq!(store.base().number(), GENESIS_NUMBER);
}

#[test]
fn rebase_replaces_the_blocks_under_the_same_numbers() {
    // the source holds blocks 1 to 4; the chain holds other blocks 1 to 4
    let source = chain_of(4);
    let mut chain = Blockchain::new(InMemory::new());
    for i in 0..4usize {
        chain.create_block(vec![tx(100 + i as u8)]);
    }
    let base = source.get_block_header(1).unwrap();
    chain.rebase(Delete { header: Some(base), signature: vec![] }, blocks_of(&source, 2, 4));
    assert!(chain.get_block(1).is_none());
    for i in 2..=4u64 {
        assert!(chain.get_block_header(i).unwrap().same(&source.get_block_header(i).unwrap()));
    }
    assert_eq!(chain.head().number, 4);
    assert!(verify_chain(&hash_header(&source.get_block_header(1).unwrap()), &blocks_of(&chain, 2, 4)));
}

#[test]
fn prune_to_the_head_leaves_no_block() {
    let mut chain = chain_of(3);
    let head = chain.get_block_header(3).unwrap();
    chain.prune(Delete { header: Some(head), signature: vec![] });
    assert!(chain.get_block(3).is_none());
    assert_eq!(chain.head().number, 3);
}

#[test]
fn bytes_show_as_hex() {
    assert_eq!(DisplayBytes(&[0x01, 0xab, 0x10]).debug_string(), "01ab10");
    assert_eq!(DisplayBytes(&[]).debug_string(), "");
    assert_eq!(DisplayBytes(&[0xde, 0xad, 0xbe, 0xef, 0x00, 0x42]).to_string(), "deadbeef");
    assert_eq!(DisplayBytes(&[]).to_string(), "()");
}

#[test]
fn cutter_keeps_every_transaction_over_a_run() {
    let mut cutter = BlockCutter::new(config(3));
    let mut handed: Vec<Vec<u8>> = Vec::new();
    for i in 0..7u8 {
        if let Some(block) = cutter.append(tx(i)) {
            assert_eq!(block.len(), 3);
            for t in block {
                handed.push(t.payload);
            }
        }
    }
    let rest = cutter.state().buffer.into_owned();
    assert_eq!(rest.len(), 1);
    for t in rest {
        handed.push(t.payload);
    }
    let expected: Vec<Vec<u8>> = (0..7u8).map(|i| vec![i]).collect();
    assert_eq!(handed, expected);
}
