use railchain::application::chain::{BlockCutter, Blockchain};
use railchain::application::config::{Config, Export};
use railchain::application::crypto::Keys;
use railchain::application::railchain::{ApplyError, ExportReply, FullCheckpointData, Railchain, Reply};
use railchain::blockchain::genesis::genesis_hash;
use railchain::blockchain::hashing::{hash_header, verify_chain};
use railchain::blockchain::proto::{Block, BlockHeader, Blocks, Command, Delete, Transaction, TX_UNSPECIFIED};
use railchain::blockchain::storage::InMemory;
use ring::signature::{Ed25519KeyPair, KeyPair};

/// A key pair as PKCS#8, and the raw public key.
fn make_keypair() -> (Vec<u8>, Vec<u8>) {
    let rng = ring::rand::SystemRandom::new();
    let doc = Ed25519KeyPair::generate_pkcs8(&rng).unwrap();
    let key = Ed25519KeyPair::from_pkcs8(doc.as_ref()).unwrap();
    let pk = key.public_key().as_ref().to_vec();
    (doc.as_ref().to_vec(), pk)
}

/// The replica's keys, where the exporter is the replica itself, and a copy
/// of them to sign with in the test.
fn make_keys() -> (Keys, Keys) {
    let (doc, pk) = make_keypair();
    let a = Keys::new(doc.clone(), pk.clone()).unwrap();
    let b = Keys::new(doc, pk).unwrap();
    (a, b)
}

fn make_config(max_block_messages: usize) -> Config {
    Config {
        max_block_messages,
        export: Export { signing_key: String::new(), exporter_identity: String::new() },
    }
}

fn make_app_with(keys: Keys, max_block_messages: usize) -> Railchain<InMemory> {
    let chain = Blockchain::new(InMemory::new());
    let cutter = BlockCutter::new(make_config(max_block_messages));
    Railchain::new(0, 10, cutter, chain, keys)
}

fn make_app() -> (Railchain<InMemory>, Keys) {
    let (keys, signer) = make_keys();
    (make_app_with(keys, 1), signer)
}

fn make_tx() -> Command {
    Command::transaction(vec![5, 5, 5])
}

fn send(app: &mut Railchain<InMemory>, command: Command) -> Reply {
    app.execute(100, 0, false, command)
}

fn read_blocks(app: &mut Railchain<InMemory>, base: u64) -> Blocks {
    match send(app, Command::read(base)).payload {
        ExportReply::Blocks(b) => b,
        _ => panic!("not blocks"),
    }
}

fn copy_header(h: &BlockHeader) -> BlockHeader {
    BlockHeader { number: h.number, previous_hash: h.previous_hash.clone(), data_hash: h.data_hash.clone() }
}

fn same_delete(a: &Option<Delete>, header: &BlockHeader, signature: &[u8]) -> bool {
    match a {
        Some(d) => {
            let h = d.header.as_ref().unwrap();
            h.number == header.number
                && h.previous_hash == header.previous_hash
                && h.data_hash == header.data_hash
                && d.signature == signature
        }
        None => false,
    }
}

#[test]
fn checkpoint_one() {
    let (mut app, _) = make_app();
    send(&mut app, make_tx());

    let handle = app.take_checkpoint().into_owned();
    let full_cp = app.resolve_checkpoint(handle);

    assert!(full_cp.base.is_none());
    assert_eq!(full_cp.blocks.len(), 1);
    assert!(verify_chain(genesis_hash().as_slice(), &full_cp.blocks));
}

#[test]
fn checkpoint_zero() {
    let (app, _) = make_app();

    let handle = app.take_checkpoint().into_owned();
    let full_cp = app.resolve_checkpoint(handle);

    assert!(full_cp.base.is_none());
    assert_eq!(full_cp.blocks.len(), 0);
}

#[test]
fn checkpoint_two() {
    let (mut app, _) = make_app();
    send(&mut app, make_tx());
    send(&mut app, make_tx());

    let handle = app.take_checkpoint().into_owned();
    let block = app.resolve_checkpoint(handle);

    assert!(block.base.is_none());
    assert_eq!(block.blocks.len(), 2);
    assert!(verify_chain(genesis_hash().as_slice(), &block.blocks));
}

#[test]
fn read_all() {
    let (mut app, _) = make_app();
    for _ in 0..5usize {
        send(&mut app, make_tx());
    }

    let response = read_blocks(&mut app, 0);
    assert_eq!(response.block.len(), 5);
    assert!(response.base.is_none());
    assert!(verify_chain(genesis_hash().as_slice(), &response.block));
    assert_eq!(response.head_signature.len(), 64);
}

#[test]
fn head_signature_verifies_under_the_replica_key() {
    let (mut app, signer) = make_app();
    for _ in 0..2usize {
        send(&mut app, make_tx());
    }
    let response = read_blocks(&mut app, 0);
    let last = response.block[1].header.as_ref().unwrap();
    let pk = signer.public_key();
    assert_eq!(pk.len(), 32);
    let key = ring::signature::UnparsedPublicKey::new(&ring::signature::ED25519, pk);
    assert!(key.verify(&hash_header(last), &response.head_signature).is_ok());
    assert_eq!(response.head_signature, signer.sign_header(last));
}

#[test]
fn read_subset() {
    let (mut app, _) = make_app();
    for _ in 0..5usize {
        send(&mut app, make_tx());
    }

    let response = read_blocks(&mut app, 3);
    assert_eq!(response.block.len(), 3);
    assert!(response.base.is_none());
    assert_eq!(response.block[0].number(), 3);
}

#[test]
fn delete_blocks() {
    let (mut app, signer) = make_app();
    for _ in 0..5usize {
        send(&mut app, make_tx());
    }

    let response = read_blocks(&mut app, 0);
    let last_header = copy_header(response.block[2].header.as_ref().unwrap());
    let signature = signer.sign_header(&last_header);
    let delete = Command::delete(copy_header(&last_header), signature.clone());
    send(&mut app, delete);

    let response = read_blocks(&mut app, 0);
    // blocks 4, 5
    assert_eq!(response.block.len(), 2);
    assert_eq!(response.block[0].number(), 4);
    assert!(same_delete(&response.base, &last_header, &signature));
}

#[test]
fn checkpoint_then_delete() {
    let (mut app, signer) = make_app();
    for _ in 0..5usize {
        send(&mut app, make_tx());
    }

    let handle = app.take_checkpoint().into_owned();

    let response = read_blocks(&mut app, 0);
    let last_header = copy_header(response.block[2].header.as_ref().unwrap());
    let signature = signer.sign_header(&last_header);
    send(&mut app, Command::delete(copy_header(&last_header), signature.clone()));

    let full_cp = app.resolve_checkpoint(handle);
    assert!(same_delete(&full_cp.base, &last_header, &signature));
    assert_eq!(full_cp.blocks.len(), 2);
}

#[test]
fn unsigned_delete_is_ignored() {
    let (mut app, _) = make_app();
    for _ in 0..3usize {
        send(&mut app, make_tx());
    }
    let response = read_blocks(&mut app, 0);
    let header = copy_header(response.block[1].header.as_ref().unwrap());
    send(&mut app, Command::delete(header, vec![0; 64]));

    let response = read_blocks(&mut app, 0);
    assert_eq!(response.block.len(), 3);
    assert!(response.base.is_none());
}

#[test]
fn signed_delete_past_the_head_drops_every_block() {
    let (mut app, signer) = make_app();
    send(&mut app, make_tx());
    let header = BlockHeader { number: 7, previous_hash: vec![1], data_hash: vec![2] };
    let unsigned = Delete { header: Some(copy_header(&header)), signature: vec![] };
    app.delete_blocks(unsigned);
    assert_eq!(read_blocks(&mut app, 0).block.len(), 1);

    let signature = signer.sign_header(&header);
    app.delete_blocks(Delete { header: Some(copy_header(&header)), signature });
    let after = read_blocks(&mut app, 0);
    assert!(after.block.is_empty());
    assert_eq!(after.base.unwrap().number(), 7);
}

#[test]
fn hashed_read_gives_headers() {
    let (mut app, _) = make_app();
    for _ in 0..4usize {
        send(&mut app, make_tx());
    }
    let reply = app.execute(100, 9, true, Command::read(2));
    assert!(reply.hashed);
    assert_eq!(reply.sequence, 9);
    assert_eq!(reply.destination, 100);
    assert_eq!(reply.source, 0);
    match reply.payload {
        ExportReply::Headers(h) => {
            assert_eq!(h.header.len(), 3);
            assert_eq!(h.header[0].number, 2);
            assert_eq!(h.head_signature.len(), 64);
        }
        _ => panic!("not headers"),
    }
}

#[test]
fn transactions_wait_for_a_full_block() {
    let (keys, _) = make_keys();
    let mut app = make_app_with(keys, 3);
    send(&mut app, make_tx());
    send(&mut app, make_tx());
    assert_eq!(read_blocks(&mut app, 0).block.len(), 0);
    send(&mut app, make_tx());
    let blocks = read_blocks(&mut app, 0).block;
    assert_eq!(blocks.len(), 1);
    assert_eq!(blocks[0].data.as_ref().unwrap().data.len(), 3);
}

#[test]
fn transaction_reply_is_empty() {
    let (mut app, _) = make_app();
    let reply = app.execute(5, 1, true, make_tx());
    assert!(!reply.hashed);
    assert!(matches!(reply.payload, ExportReply::Empty));
}

#[test]
fn unknown_read_version_is_answered_with_nothing() {
    let (mut app, _) = make_app();
    send(&mut app, make_tx());
    let mut command = Command::read(0);
    if let Some(railchain::blockchain::proto::Action::Export(e)) = &mut command.action {
        if let Some(railchain::blockchain::proto::ExportCommand::Read(r)) = &mut e.command {
            r.version = 42;
        }
    }
    let reply = send(&mut app, command);
    assert!(matches!(reply.payload, ExportReply::Empty));
}

#[test]
fn hashed_v2_export_carries_the_proof() {
    let (mut app, _) = make_app();
    for _ in 0..3usize {
        send(&mut app, make_tx());
    }
    app.checkpoint_stable(25, vec![vec![1, 2, 3]]);
    match app.execute(100, 0, true, Command::read2(0)).payload {
        ExportReply::Proof(p) => {
            assert!(p.base.is_none());
            let q = p.quorum.unwrap();
            assert_eq!(q.sequence, 25);
            assert_eq!(q.messages, vec![vec![1u8, 2, 3]]);
            // the checkpoint at 25, every 10 requests, certifies block 2
            assert_eq!(p.head.unwrap().number, 2);
        }
        _ => panic!("not a proof"),
    }
    match app.execute(100, 0, true, Command::read2(2)).payload {
        ExportReply::Proof(p) => {
            assert!(p.quorum.is_none());
            assert!(p.head.is_none());
        }
        _ => panic!("not a proof"),
    }
}

#[test]
fn v2_export_with_nothing_to_send() {
    let (mut app, _) = make_app();
    send(&mut app, make_tx());
    match app.execute(100, 0, false, Command::read2(0)).payload {
        ExportReply::Checkpointed(c) => {
            assert!(c.blocks.is_empty());
            let p = c.proof.unwrap();
            assert!(p.quorum.is_none());
        }
        _ => panic!("not checkpointed blocks"),
    }
}

#[test]
fn range_read_without_stored_encodings_is_empty() {
    let (mut app, _) = make_app();
    send(&mut app, make_tx());
    match send(&mut app, Command::read0(5, 1)).payload {
        ExportReply::Checkpointed(c) => {
            assert!(c.blocks.is_empty());
            assert!(c.proof.is_none());
        }
        _ => panic!("not checkpointed blocks"),
    }
}

fn copy_blocks(blocks: &[Block]) -> Vec<Block> {
    blocks.iter().map(|b| b.copy()).collect()
}

#[test]
fn checkpoint_with_another_head_is_a_mismatch() {
    let (mut app, _) = make_app();
    for _ in 0..3usize {
        send(&mut app, make_tx());
    }
    let handle = app.take_checkpoint().into_owned();
    let data = app.resolve_checkpoint(handle);

    let (mut other, _) = make_app();
    send(&mut other, make_tx());
    let handle = other.take_checkpoint().into_owned();
    let cp = FullCheckpointData { base: None, blocks: copy_blocks(&data.blocks) };
    assert!(matches!(other.apply_checkpoint(handle, cp), Err(ApplyError::Mismatch)));
    assert_eq!(read_blocks(&mut other, 0).block.len(), 1);
}

#[test]
fn checkpoint_from_a_pruned_replica_is_applied() {
    // replica a: 5 blocks, pruned to block 2
    let (keys_a, signer) = make_keys();
    let mut a = make_app_with(keys_a, 1);
    for _ in 0..5usize {
        send(&mut a, make_tx());
    }
    let blocks = read_blocks(&mut a, 0).block;
    let base_header = copy_header(blocks[1].header.as_ref().unwrap());
    let signature = signer.sign_header(&base_header);
    send(&mut a, Command::delete(copy_header(&base_header), signature));
    let handle = a.take_checkpoint().into_owned();
    let data = a.resolve_checkpoint(handle);
    assert_eq!(data.blocks.len(), 3);
    let base = data.base.as_ref().unwrap().copy();

    // replica b holds the same first 3 blocks (it lags behind a)
    let (keys_b, _) = make_keys();
    let mut b = make_app_with(keys_b, 1);
    for _ in 0..3usize {
        send(&mut b, make_tx());
    }
    let handle = a.take_checkpoint().into_owned();
    let cp = FullCheckpointData { base: Some(base), blocks: copy_blocks(&data.blocks) };
    assert!(matches!(b.apply_checkpoint(handle, cp), Ok(())));

    let after = read_blocks(&mut b, 0);
    assert!(after.base.is_some());
    // blocks 3 to 5 are the checkpoint's, each under its number
    assert_eq!(after.block.len(), 3);
    assert_eq!(after.block[0].number(), 3);
    assert_eq!(after.block[1].number(), 4);
    assert_eq!(after.block[2].number(), 5);
    for (x, y) in after.block.iter().zip(data.blocks.iter()) {
        assert!(x.header().same(y.header()));
    }
}

#[test]
fn checkpoint_replaces_other_blocks_above_its_base() {
    // replica a: 5 blocks, pruned to block 2
    let (keys_a, signer) = make_keys();
    let mut a = make_app_with(keys_a, 1);
    for _ in 0..5usize {
        send(&mut a, make_tx());
    }
    let blocks = read_blocks(&mut a, 0).block;
    let base_header = copy_header(blocks[1].header.as_ref().unwrap());
    let signature = signer.sign_header(&base_header);
    send(&mut a, Command::delete(copy_header(&base_header), signature));
    let handle = a.take_checkpoint().into_owned();
    let data = a.resolve_checkpoint(handle);
    let base = data.base.as_ref().unwrap().copy();

    // replica b holds four other blocks
    let (keys_b, _) = make_keys();
    let mut b = make_app_with(keys_b, 1);
    for i in 0..4u8 {
        send(&mut b, Command::transaction(vec![9, i]));
    }
    let handle = a.take_checkpoint().into_owned();
    let cp = FullCheckpointData { base: Some(base), blocks: copy_blocks(&data.blocks) };
    assert!(matches!(b.apply_checkpoint(handle, cp), Ok(())));

    let mine = read_blocks(&mut a, 0).block;
    let theirs = read_blocks(&mut b, 0).block;
    assert_eq!(theirs.len(), 3);
    for (x, y) in mine.iter().zip(theirs.iter()) {
        assert_eq!(x.number(), y.number());
        assert!(x.header().same(y.header()));
    }
    assert_eq!(b.take_checkpoint().chain.head.get().number, 5);
}

#[test]
fn checkpoint_applied_at_its_base_gives_the_same_blocks() {
    // replica a: 5 blocks, pruned to block 2
    let (keys_a, signer) = make_keys();
    let mut a = make_app_with(keys_a, 1);
    for _ in 0..5usize {
        send(&mut a, make_tx());
    }
    let blocks = read_blocks(&mut a, 0).block;
    let base_header = copy_header(blocks[1].header.as_ref().unwrap());
    let signature = signer.sign_header(&base_header);
    send(&mut a, Command::delete(copy_header(&base_header), signature));
    let handle = a.take_checkpoint().into_owned();
    let data = a.resolve_checkpoint(handle);
    let base = data.base.as_ref().unwrap().copy();

    // replica b holds blocks 1 and 2, nothing past the checkpoint's base
    let (keys_b, _) = make_keys();
    let mut b = make_app_with(keys_b, 1);
    for _ in 0..2usize {
        send(&mut b, make_tx());
    }
    let handle = a.take_checkpoint().into_owned();
    let cp = FullCheckpointData { base: Some(base), blocks: copy_blocks(&data.blocks) };
    assert!(matches!(b.apply_checkpoint(handle, cp), Ok(())));

    let mine = read_blocks(&mut a, 0);
    let theirs = read_blocks(&mut b, 0);
    assert_eq!(theirs.block.len(), 3);
    for (x, y) in mine.block.iter().zip(theirs.block.iter()) {
        assert_eq!(x.number(), y.number());
        assert!(x.header().same(y.header()));
    }
    assert_eq!(theirs.block[0].number(), 3);
    assert_eq!(theirs.base.as_ref().unwrap().number(), 2);
}

#[test]
fn checkpoint_without_base_is_applied_on_genesis() {
    let (mut a, _) = make_app();
    send(&mut a, make_tx());
    send(&mut a, make_tx());
    let handle = a.take_checkpoint().into_owned();
    let data = a.resolve_checkpoint(handle);
    assert!(data.base.is_none());

    let (mut b, _) = make_app();
    let handle = a.take_checkpoint().into_owned();
    let cp = FullCheckpointData { base: None, blocks: copy_blocks(&data.blocks) };
    assert!(matches!(b.apply_checkpoint(handle, cp), Ok(())));
    let after = read_blocks(&mut b, 0);
    assert_eq!(after.block.len(), 2);
    assert!(after.base.is_none());
    let mine = read_blocks(&mut a, 0).block;
    assert!(after.block[1].header().same(mine[1].header()));
}

#[test]
fn unaccepted_checkpoint_without_base_is_a_mismatch() {
    let (mut app, _) = make_app();
    send(&mut app, make_tx());
    let handle = app.take_checkpoint().into_owned();
    let bad = Block {
        header: Some(copy_header(app.take_checkpoint().chain.head.get())),
        data: None,
        metadata: None,
    };
    let cp = FullCheckpointData { base: None, blocks: vec![bad] };
    assert!(matches!(app.apply_checkpoint(handle, cp), Err(ApplyError::Mismatch)));
}

#[test]
fn transaction_encoding_is_protobuf() {
    let t = Transaction { payload: vec![5, 5, 5], tx_type: TX_UNSPECIFIED };
    assert_eq!(railchain::blockchain::proto::encode_transaction(&t), vec![10, 3, 5, 5, 5]);
    let t = Transaction { payload: vec![], tx_type: 2 };
    assert_eq!(railchain::blockchain::proto::encode_transaction(&t), vec![16, 2]);
}

#[test]
fn keys_need_a_key_pair_document() {
    assert!(Keys::new(vec![1, 2, 3], vec![0; 32]).is_none());
    let (doc, pk) = make_keypair();
    let keys = Keys::new(doc, pk.clone()).unwrap();
    assert_eq!(keys.public_key(), pk);
    let h = BlockHeader { number: 1, previous_hash: vec![], data_hash: vec![] };
    let sig = keys.sign_header(&h);
    assert!(keys.verify_header(&h, &sig));
    assert!(!keys.verify_header(&h, &[0u8; 64]));
}

#[test]
fn appends_keep_every_transaction_in_order() {
    let (keys, _) = make_keys();
    let mut app = make_app_with(keys, 2);
    for i in 0..5u8 {
        send(&mut app, Command::transaction(vec![i]));
    }
    let blocks = read_blocks(&mut app, 0).block;
    assert_eq!(blocks.len(), 2);
    let mut seen: Vec<Vec<u8>> = Vec::new();
    for b in blocks.iter() {
        for d in b.data.as_ref().unwrap().data.iter() {
            seen.push(d.clone());
        }
    }
    let buffer = app.take_checkpoint().cutter.buffer.into_owned();
    for t in buffer.iter() {
        seen.push(railchain::blockchain::proto::encode_transaction(t));
    }
    let expected: Vec<Vec<u8>> = (0..5u8).map(|i| vec![10, 1, i]).collect();
    assert_eq!(seen, expected);
}
