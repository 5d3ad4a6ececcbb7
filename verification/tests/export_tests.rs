use railchain::application::crypto::Keys;
use railchain::application::chain::Blockchain;
use railchain::blockchain::genesis::genesis_head;
use railchain::blockchain::hashing::hash_header;
use railchain::blockchain::proto::{Block, BlockHeader, CheckpointProof, Delete, Transaction, TX_DATA};
use railchain::blockchain::storage::InMemory;
use railchain::export::{check_fetched, fetch_range, select_base, select_proof, ClientConfig, RailchainState, ResponseSet};
use railchain::osf::block::{GpsLocation, OsfBlock, OsfBlockCommon, OsfBlockSample, OsfSample, OsfValue, StringValue};
use railchain::osf::header::{Channel, OsfChannelType, OsfDataType};
use railchain::victoria::{block_to_victoria, channels_changed, VictoriaValue};
use ring::signature::{Ed25519KeyPair, KeyPair};

fn keys() -> (Keys, Vec<u8>) {
    let rng = ring::rand::SystemRandom::new();
    let doc = Ed25519KeyPair::generate_pkcs8(&rng).unwrap();
    let key = Ed25519KeyPair::from_pkcs8(doc.as_ref()).unwrap();
    let pk = key.public_key().as_ref().to_vec();
    (Keys::new(doc.as_ref().to_vec(), pk.clone()).unwrap(), pk)
}

fn header(n: u64) -> BlockHeader {
    BlockHeader { number: n, previous_hash: vec![n as u8], data_hash: vec![] }
}

fn proof_with_base(base: Option<Delete>) -> CheckpointProof {
    CheckpointProof { base, quorum: None, head: None }
}

fn chain_blocks(n: usize) -> Vec<Block> {
    let mut chain = Blockchain::new(InMemory::new());
    for i in 0..n {
        chain.create_block(vec![Transaction { payload: vec![i as u8], tx_type: TX_DATA }]);
    }
    (1..=n as u64).map(|i| chain.get_block(i).unwrap()).collect()
}

#[test]
fn trusted_base_is_the_highest_signed() {
    let (signer, pk) = keys();
    let signed = |n: u64| Delete { header: Some(header(n)), signature: signer.sign_header(&header(n)) };
    let set = ResponseSet {
        blocks: vec![],
        proof: vec![
            (0, proof_with_base(Some(signed(3)))),
            (1, proof_with_base(Some(Delete { header: Some(header(9)), signature: vec![0; 64] }))),
            (2, proof_with_base(Some(signed(5)))),
            (3, proof_with_base(None)),
        ],
    };
    let base = select_base(&pk, &set);
    assert_eq!(base.number, 5);
    assert_eq!(base.previous_hash, vec![5]);

    let none = ResponseSet { blocks: vec![], proof: vec![(0, proof_with_base(None))] };
    let g = select_base(&pk, &none);
    assert_eq!(g.number, genesis_head().number);
    assert!(g.previous_hash.is_empty());
}

#[test]
fn fetch_range_after_the_first_answers() {
    let blocks = chain_blocks(3);
    assert_eq!(fetch_range(10, 0, &blocks), Some((3, 10)));
    assert_eq!(fetch_range(3, 0, &blocks), None);
    assert_eq!(fetch_range(10, 6, &blocks), Some((6, 10)));
    assert_eq!(fetch_range(4, 0, &[]), Some((0, 4)));
    assert_eq!(fetch_range(0, 0, &[]), None);
}

#[test]
fn fetched_blocks_must_reach_the_head_from_the_base() {
    let blocks = chain_blocks(4);
    let genesis = genesis_head();
    assert!(check_fetched(&genesis, 4, &blocks));
    assert!(!check_fetched(&genesis, 5, &blocks));
    let base = blocks[1].header().copy();
    assert!(check_fetched(&base, 4, &blocks));
    assert!(check_fetched(&base, 4, &blocks[2..]));
    assert!(!check_fetched(&genesis, 4, &blocks[1..]));
    // nothing after the base is no chain
    assert!(!check_fetched(&blocks[3].header().copy(), 4, &blocks));
    assert_eq!(hash_header(&genesis).len(), 32);
}

#[test]
fn client_config_and_state() {
    let c = ClientConfig::new(7, "key".to_string(), None);
    assert_eq!(c.id, 7);
    assert_eq!(c.keyfile, "key");
    assert!(c.listen.is_none());
    let h = header(2);
    let s = RailchainState::at_head(&h);
    assert!(s.cutter.cutter.is_empty());
    assert_eq!(s.chain.header.number, 2);
}

fn channels() -> Vec<Channel> {
    vec![
        Channel { index: 0, name: "speed".to_string(), datatype: OsfDataType::Double, channeltype: OsfChannelType::Scalar, sizeoflengthvalue: 0 },
        Channel { index: 1, name: "pos".to_string(), datatype: OsfDataType::GpsLocation, channeltype: OsfChannelType::Scalar, sizeoflengthvalue: 0 },
    ]
}

fn common(ch: u16) -> OsfBlockCommon {
    OsfBlockCommon { channel_index: ch, block_length: 1, control_character: 8 }
}

#[test]
fn victoria_lines_in_milliseconds() {
    let chans = channels();
    let block = OsfBlock {
        common: common(0),
        data: OsfBlockSample::GenericSingleValue(OsfSample { timestamp: 2_500_000, value: OsfValue::Double(2.5f64.to_bits()) }),
    };
    let line = block_to_victoria("job", "train1", &chans, &block).unwrap();
    assert_eq!(line.metric.name, "speed");
    assert_eq!(line.metric.job, "job");
    assert_eq!(line.metric.instance, "train1");
    assert_eq!(line.timestamps, vec![2]);
    assert!(matches!(line.values[0], VictoriaValue::Float64(b) if f64::from_bits(b) == 2.5));

    let multi = OsfBlock {
        common: common(0),
        data: OsfBlockSample::GenericMultiValue(vec![
            OsfSample { timestamp: -1_500_000, value: OsfValue::Bool(true) },
            OsfSample { timestamp: 3_000_000, value: OsfValue::Int16(-3) },
        ]),
    };
    let line = block_to_victoria("j", "i", &chans, &multi).unwrap();
    assert_eq!(line.timestamps, vec![-1, 3]);
    assert!(matches!(line.values[0], VictoriaValue::Int(1)));
    assert!(matches!(line.values[1], VictoriaValue::Int(-3)));

    let text = OsfBlock {
        common: common(1),
        data: OsfBlockSample::String(StringValue { timestamp: 999_999, value: "open".to_string() }),
    };
    let line = block_to_victoria("j", "i", &chans, &text).unwrap();
    assert_eq!(line.metric.name, "pos");
    assert_eq!(line.timestamps, vec![0]);
    assert!(matches!(&line.values[0], VictoriaValue::Text(s) if s == "open"));

    let gps = OsfBlock {
        common: common(1),
        data: OsfBlockSample::GenericSingleValue(OsfSample {
            timestamp: 0,
            value: OsfValue::GpsLocation(GpsLocation { latitude: 1, longitude: 2, altitude: 3 }),
        }),
    };
    assert!(block_to_victoria("j", "i", &chans, &gps).is_none());
}

fn proof_at(n: u64) -> (u64, CheckpointProof) {
    (n, CheckpointProof { base: None, quorum: None, head: Some(header(n)) })
}

#[test]
fn trusted_proof_has_the_lowest_verified_head() {
    let proofs = vec![proof_at(7), proof_at(3), proof_at(5), proof_at(3)];
    assert_eq!(select_proof(&proofs, &[true, false, true, true]), Some(3));
    assert_eq!(select_proof(&proofs, &[true, true, true, true]), Some(1));
    assert_eq!(select_proof(&proofs, &[true, false, false, false]), Some(0));
    assert_eq!(select_proof(&proofs, &[false; 4]), None);
}

#[test]
fn channel_changes_are_seen_on_common_places() {
    let old = channels();
    let mut new = channels();
    assert!(!channels_changed(&old, &new));
    new.push(Channel { index: 2, name: "extra".to_string(), datatype: OsfDataType::Int8, channeltype: OsfChannelType::Scalar, sizeoflengthvalue: 0 });
    assert!(!channels_changed(&old, &new));
    new[1].name = "position".to_string();
    assert!(channels_changed(&old, &new));
    let mut typed = channels();
    typed[0].datatype = OsfDataType::Custom("x".to_string());
    assert!(channels_changed(&old, &typed));
}
