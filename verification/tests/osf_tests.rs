use railchain::application::osf::{PacketAction, UdpOsfReceiver};
use railchain::blockchain::proto::{Transaction, TX_CONFIG, TX_DATA};
use railchain::cli::osf_payloads;
use railchain::osf::block::{
    read_multi_value, read_string, read_value, BlockError, OsfBlock, OsfBlockCommon, OsfBlockSample, OsfValue,
    GENERIC_MULTI_VALUE, GENERIC_SINGLE_VALUE, STRING,
};
use railchain::osf::datagram::{ChunkedBuf, DatagramError, OsfBlockDecoder, OsfDatagramStream, OsfPacketId, OsfPacketInfo, Step};
use railchain::osf::header::{magic_header, read_header, Channel, HeaderError, OsfChannelType, OsfDataType};
use railchain::wire::{read_i16_le, read_i32_le, read_i64_le, read_i8, read_u16_be, read_u32_le, read_u64_be, read_u64_le};

fn channel(index: usize, name: &str, datatype: OsfDataType) -> Channel {
    Channel { index, name: name.to_string(), datatype, channeltype: OsfChannelType::Scalar, sizeoflengthvalue: 0 }
}

fn packet(kind: u8, ts: u64, rest: &[u8]) -> Vec<u8> {
    let mut p = vec![b'O', b'S', b'F', b'4', kind];
    p.extend_from_slice(&ts.to_be_bytes());
    p.extend_from_slice(&(rest.len() as u16).to_be_bytes());
    p.extend_from_slice(rest);
    p
}

fn header_start(ts: u64, count: u32) -> Vec<u8> {
    packet(b'0', ts, &count.to_be_bytes())
}

fn header_fragment(ts: u64, index: u32, fragment: &[u8]) -> Vec<u8> {
    let mut rest = index.to_be_bytes().to_vec();
    rest.extend_from_slice(fragment);
    packet(b'1', ts, &rest)
}

fn data(ts: u64, blocks: &[u8]) -> Vec<u8> {
    packet(b'2', ts, blocks)
}

#[test]
fn little_and_big_endian_reads() {
    let b = [0x01, 0x02, 0x03, 0x04, 0x05, 0x06, 0x07, 0x08, 0xff];
    assert_eq!(read_u64_le(&b, 0), 0x0807060504030201);
    assert_eq!(read_u64_be(&b, 0), 0x0102030405060708);
    assert_eq!(read_u32_le(&b, 1), 0x05040302);
    assert_eq!(read_u16_be(&b, 7), 0x08ff);
    assert_eq!(read_i8(&b, 8), -1);
    assert_eq!(read_i16_le(&[0xfe, 0xff], 0), -2);
    assert_eq!(read_i32_le(&[0x00, 0x00, 0x00, 0x80], 0), i32::MIN);
    assert_eq!(read_i64_le(&[0xff; 8], 0), -1);
}

#[test]
fn magic_line() {
    assert_eq!(magic_header(b"OCEAN_STREAM_FORMAT4 1234").ok(), Some(1234));
    assert_eq!(magic_header(b"  OCEAN_STREAM_FORMAT4   42\n").ok(), Some(42));
    assert!(matches!(magic_header(b"OCEAN_STREAM_FORMAT3 42"), Err(HeaderError::MagicHeader)));
    assert!(matches!(magic_header(b"OCEAN_STREAM_FORMAT4"), Err(HeaderError::MagicHeaderLength)));
    assert!(matches!(magic_header(b"OCEAN_STREAM_FORMAT4 4x2"), Err(HeaderError::MagicHeaderLength)));
    assert!(matches!(magic_header(b""), Err(HeaderError::MagicHeader)));
}

#[test]
fn header_text_after_the_magic_line() {
    let data = b"OCEAN_STREAM_FORMAT4 11\n<optimeas/>trailing";
    assert_eq!(read_header(data).ok().as_deref(), Some("<optimeas/>"));
    let short = b"OCEAN_STREAM_FORMAT4 100\n<a/>";
    assert_eq!(read_header(short).ok().as_deref(), Some("<a/>"));
    assert!(matches!(read_header(b"OCEAN 3\nabc"), Err(HeaderError::MagicHeader)));
    let bad = [b'O', b'C', b'E', b'A', b'N', b'_', b'S', b'T', b'R', b'E', b'A', b'M', b'_', b'F', b'O', b'R', b'M', b'A', b'T', b'4', b' ', b'2', b'\n', 0xff, 0xfe];
    assert!(matches!(read_header(&bad), Err(HeaderError::Io)));
}

#[test]
fn data_type_names() {
    assert_eq!(OsfDataType::Int32.to_string(), "int32");
    assert_eq!(OsfDataType::Float.to_string(), "double");
    assert_eq!(OsfDataType::Double.to_string(), "float");
    assert!(matches!(OsfDataType::from_str("double"), OsfDataType::Double));
    assert!(matches!(OsfDataType::from_str("gpslocation"), OsfDataType::GpsLocation));
    match OsfDataType::from_str("vec3") {
        OsfDataType::Custom(s) => assert_eq!(s, "vec3"),
        _ => panic!("not custom"),
    }
    assert_eq!(OsfChannelType::Scalar.to_string(), "scalar");
    assert!(OsfChannelType::from_str("scalar").is_ok());
    match OsfChannelType::from_str("vector") {
        Err(HeaderError::UnknownChannelType { channel_type }) => assert_eq!(channel_type, "vector"),
        _ => panic!("not refused"),
    }
}

#[test]
fn common_part_and_sizes() {
    let c = OsfBlockCommon::read(&[3, 0, 9, 0, 0, 0, GENERIC_SINGLE_VALUE]);
    assert_eq!(c.channel_index, 3);
    assert_eq!(c.block_length, 9);
    assert_eq!(c.control_character, GENERIC_SINGLE_VALUE);
    assert_eq!(c.data_size(), 8);
    assert_eq!(OsfBlockCommon::encoded_size(), 7);
    let empty = OsfBlockCommon { channel_index: 0, block_length: 0, control_character: 0 };
    assert_eq!(empty.data_size(), 0);
}

#[test]
fn single_values() {
    let mut b = 1000i64.to_le_bytes().to_vec();
    b.extend_from_slice(&(-7i32).to_le_bytes());
    let (s, next) = read_value(&channel(0, "x", OsfDataType::Int32), &b, 0).ok().unwrap();
    assert_eq!(next, 12);
    assert_eq!(s.timestamp, 1000);
    assert!(matches!(s.value, OsfValue::Int32(-7)));

    let mut f = 5i64.to_le_bytes().to_vec();
    f.extend_from_slice(&1.5f32.to_bits().to_le_bytes());
    let (s, _) = read_value(&channel(0, "f", OsfDataType::Float), &f, 0).ok().unwrap();
    match s.value {
        OsfValue::Float(bits) => assert_eq!(f32::from_bits(bits), 1.5),
        _ => panic!("not a float"),
    }

    match read_value(&channel(0, "s", OsfDataType::String), &f, 0) {
        Err(BlockError::UnsuportedType(OsfDataType::String)) => {}
        _ => panic!("not refused"),
    }
}

#[test]
fn multi_values_and_strings() {
    let mut b = 2u32.to_le_bytes().to_vec();
    for (ts, v) in [(1i64, 10i16), (2, -20)] {
        b.extend_from_slice(&ts.to_le_bytes());
        b.extend_from_slice(&v.to_le_bytes());
    }
    let (samples, next) = read_multi_value(&channel(0, "m", OsfDataType::Int16), &b, 0).ok().unwrap();
    assert_eq!(next, 4 + 2 * 10);
    assert_eq!(samples.len(), 2);
    assert!(matches!(samples[1].value, OsfValue::Int16(-20)));

    let mut s = 77i64.to_le_bytes().to_vec();
    s.extend_from_slice(&3u32.to_le_bytes());
    s.extend_from_slice(b"on");
    let v = read_string(&s, 0).ok().unwrap();
    assert_eq!(v.timestamp, 77);
    assert_eq!(v.value, "on");
}

#[test]
fn blocks_by_control_character() {
    let channels = vec![channel(0, "speed", OsfDataType::Int8), channel(1, "state", OsfDataType::String)];
    let mut b = 9i64.to_le_bytes().to_vec();
    b.push(0x80);
    let common = OsfBlockCommon { channel_index: 0, block_length: 10, control_character: GENERIC_SINGLE_VALUE };
    let (block, next) = OsfBlock::read(common, &channels, &b, 0).ok().unwrap();
    assert_eq!(next, 9);
    match block.data {
        OsfBlockSample::GenericSingleValue(s) => assert!(matches!(s.value, OsfValue::Int8(-128))),
        _ => panic!("not a single value"),
    }

    let common = OsfBlockCommon { channel_index: 5, block_length: 1, control_character: STRING };
    assert!(matches!(OsfBlock::read(common, &channels, &b, 0), Err(BlockError::ChannelNotFound)));
    let common = OsfBlockCommon { channel_index: 0, block_length: 1, control_character: 99 };
    assert!(matches!(OsfBlock::read(common, &channels, &b, 0), Err(BlockError::UnknownType)));
    let common = OsfBlockCommon { channel_index: 1, block_length: 1, control_character: GENERIC_MULTI_VALUE };
    let zero = 0u32.to_le_bytes();
    match OsfBlock::read(common, &channels, &zero, 0) {
        Ok((OsfBlock { data: OsfBlockSample::GenericMultiValue(v), .. }, 4)) => assert!(v.is_empty()),
        _ => panic!("not an empty list"),
    }
}

fn encode_block(channel: u16, control: u8, data: &[u8]) -> Vec<u8> {
    let mut b = channel.to_le_bytes().to_vec();
    b.extend_from_slice(&((data.len() + 1) as u32).to_le_bytes());
    b.push(control);
    b.extend_from_slice(data);
    b
}

#[test]
fn decoder_walks_the_blocks_of_a_packet() {
    let channels = vec![channel(0, "a", OsfDataType::Bool), channel(1, "b", OsfDataType::Int64)];
    let mut one = 1i64.to_le_bytes().to_vec();
    one.push(1);
    let mut two = 2i64.to_le_bytes().to_vec();
    two.extend_from_slice(&(-5i64).to_le_bytes());
    let mut payload = encode_block(0, GENERIC_SINGLE_VALUE, &one);
    payload.extend(encode_block(1, GENERIC_SINGLE_VALUE, &two));

    let mut decoder = OsfBlockDecoder::new(&payload, &channels);
    let mut values = Vec::new();
    loop {
        assert!(decoder.can_decode());
        match decoder.next() {
            None => break,
            Some(Ok(block)) => values.push(block),
            Some(Err(_)) => panic!("decode error"),
        }
    }
    assert_eq!(values.len(), 2);
    assert!(matches!(&values[0].data, OsfBlockSample::GenericSingleValue(s) if matches!(s.value, OsfValue::Bool(true))));
    assert!(matches!(&values[1].data, OsfBlockSample::GenericSingleValue(s) if matches!(s.value, OsfValue::Int64(-5))));

    let short = [0u8, 0, 9];
    let mut decoder = OsfBlockDecoder::new(&short, &channels);
    assert!(matches!(decoder.decode_block(), Err(DatagramError::NotEnoughForCommon)));
    let header = b"OCEAN_STREAM_FORMAT4 0\n";
    let mut decoder = OsfBlockDecoder::new(header, &channels);
    assert!(matches!(decoder.decode_block(), Err(DatagramError::UnexpectedHeader)));
}

#[test]
fn packet_ids_and_info() {
    let p = data(0x0102, &[1, 2, 3]);
    assert!(matches!(OsfPacketId::read(&p), Some(OsfPacketId::Data)));
    let info = OsfPacketInfo::read(&p).unwrap();
    assert_eq!(info.timestamp, 0x0102);
    assert_eq!(info.data_size, 3);
    assert!(OsfPacketId::read(b"OSF5xyz").is_none());
}

#[test]
fn header_fragments_in_any_order() {
    let mut stream = OsfDatagramStream::new();
    assert!(matches!(stream.feed(&header_start(10, 3)), Ok(Step::HeaderStart(3))));
    assert!(matches!(stream.feed(&data(10, &[1])), Err(DatagramError::EarlyData)));
    assert!(matches!(stream.feed(&header_fragment(10, 2, b"ef")), Ok(Step::HeaderFrame)));
    assert!(matches!(stream.feed(&header_fragment(10, 0, b"ab")), Ok(Step::HeaderFrame)));
    // a repeated fragment changes nothing
    assert!(matches!(stream.feed(&header_fragment(10, 0, b"zz")), Ok(Step::HeaderFrame)));
    match stream.feed(&header_fragment(10, 1, b"cd")) {
        Ok(Step::FullHeader { bytes }) => assert_eq!(bytes, b"abcdef".to_vec()),
        _ => panic!("header not complete"),
    }
    match stream.feed(&data(10, &[7, 8])) {
        Ok(Step::Blocks(b)) => assert_eq!(b, &[7, 8]),
        _ => panic!("no blocks"),
    }
    assert!(matches!(stream.feed(&data(9, &[7])), Err(DatagramError::StaleData { expected: 10, actual: 9 })));
    assert!(matches!(stream.feed(&header_start(10, 1)), Err(DatagramError::StaleHeader { expected: 10, actual: 10 })));
    assert!(matches!(stream.feed(&header_fragment(11, 0, b"x")), Err(DatagramError::StaleHeader { .. })));
    assert!(matches!(stream.feed(&header_start(11, 2)), Ok(Step::HeaderStart(2))));
    assert!(matches!(stream.feed(&header_fragment(11, 5, b"x")), Err(DatagramError::HeaderRange { found: 5 })));
}

#[test]
fn accepts_only_what_feed_handles() {
    let stream = OsfDatagramStream::new();
    assert!(!stream.accepts(b"OSF4"));
    assert!(!stream.accepts(&packet(b'9', 0, &[])));
    assert!(!stream.accepts(&packet(b'0', 0, &[])));
    assert!(stream.accepts(&header_start(1, 1)));
}

#[test]
fn chunked_reads() {
    let chunks = vec![vec![1u8, 2], vec![], vec![3, 4, 5]];
    let mut buf = ChunkedBuf::new(&chunks);
    assert_eq!(buf.remaining(), 5);
    assert_eq!(buf.chunk(), &[1, 2]);
    buf.advance(3);
    assert_eq!(buf.remaining(), 2);
    assert_eq!(buf.chunk(), &[4, 5]);
    buf.advance(10);
    assert_eq!(buf.remaining(), 0);
}

#[test]
fn receiver_gathers_a_burst() {
    let mut r = UdpOsfReceiver::new();
    assert!(matches!(r.on_packet(&header_start(4, 1)), PacketAction::EndBatch));
    match r.on_packet(&header_fragment(4, 0, b"<x/>")) {
        PacketAction::SendHeader(h) => assert_eq!(h, b"<x/>".to_vec()),
        _ => panic!("no header"),
    }
    assert!(r.take_batch().is_none());
    assert!(matches!(r.on_packet(&data(4, &[1, 2])), PacketAction::Continue));
    assert!(matches!(r.on_packet(&data(3, &[9])), PacketAction::Continue));
    assert!(matches!(r.on_packet(&data(4, &[3])), PacketAction::Continue));
    let t = r.take_batch().unwrap();
    assert_eq!(t.payload, vec![1, 2, 3]);
    assert_eq!(t.tx_type, TX_DATA);
    assert!(r.take_batch().is_none());
    assert!(r.accepts(&data(4, &[])));
    let h = railchain::application::osf::header_transaction(vec![1]);
    assert_eq!(h.tx_type, TX_CONFIG);
}

#[test]
fn osf_stream_of_a_chain_starts_at_the_first_header() {
    let txs = vec![
        Transaction { payload: vec![1], tx_type: TX_DATA },
        Transaction { payload: vec![2], tx_type: 0 },
        Transaction { payload: vec![3, 4], tx_type: TX_CONFIG },
        Transaction { payload: vec![5], tx_type: TX_DATA },
    ];
    assert_eq!(osf_payloads(&txs), vec![3, 4, 5]);
    assert!(osf_payloads(&txs[..2]).is_empty());
}
