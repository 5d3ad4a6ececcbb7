//! OSF data blocks.
//!
//! A block starts with a common part of seven bytes (channel index `u16`,
//! block length `u32`, control character `u8`, all little-endian), followed
//! by the sample data, whose layout depends on the control character and on
//! the data type of the channel. Floating-point samples are kept as their
//! IEEE-754 bit patterns.
use vstd::prelude::*;
use vstd::utf8::*;
use crate::osf::header::{Channel, DataTypeModel, OsfDataType};
use crate::text::utf8_decode;
use crate::wire::{bytes_le4, bytes_le8, i16_le_at, i32_le_at, i64_le_at, i8_at, lemma_le_at_4, lemma_le_at_8, le_at, read_i16_le, read_i32_le, read_i64_le, read_i8, read_u16_le, read_u32_le, read_u64_le};

verus! {

/// A GPS position; each coordinate is the bit pattern of an `f64`.
pub struct GpsLocation {
    pub latitude: u64,
    pub longitude: u64,
    pub altitude: u64,
}

/// One sample value. `Float` holds the bits of an `f32`, `Double` those of an `f64`.
pub enum OsfValue {
    Bool(bool),
    Float(u32),
    Double(u64),
    Int64(i64),
    Int32(i32),
    Int16(i16),
    Int8(i8),
    GpsLocation(GpsLocation),
}

pub struct OsfSample {
    pub timestamp: i64,
    pub value: OsfValue,
}

pub struct StringValue {
    pub timestamp: i64,
    pub value: String,
}

pub enum OsfBlockSample {
    GenericSingleValue(OsfSample),
    GenericMultiValue(Vec<OsfSample>),
    String(StringValue),
}

/// The seven bytes that open every block.
pub struct OsfBlockCommon {
    pub channel_index: u16,
    pub block_length: u32,
    pub control_character: u8,
}

pub struct OsfBlock {
    pub common: OsfBlockCommon,
    pub data: OsfBlockSample,
}

/// What can go wrong while decoding a block.
pub enum BlockError {
    /// The control character names no known block layout.
    UnknownType,
    /// The channel's data type has no sample layout.
    UnsuportedType(OsfDataType),
    /// The block names a channel that the header does not have.
    ChannelNotFound,
    /// A string block is not valid UTF-8.
    String,
}

/// Control character of a block that holds one sample.
pub const GENERIC_SINGLE_VALUE: u8 = 8;

/// Control character of a block that holds a counted list of samples.
pub const GENERIC_MULTI_VALUE: u8 = 136;

/// Control character of a block that holds a string.
pub const STRING: u8 = 4;

/// Size in bytes of the common part of a block.
pub const COMMON_SIZE: usize = 7;

impl OsfBlockCommon {
    /// The size of the data that follows the common part: the block length
    /// counts the control character too.
    pub fn data_size(&self) -> (r: u64)
        ensures
            r == (if self.block_length >= 1 { self.block_length - 1 } else { 0 }),
    {
        if self.block_length >= 1 {
            (self.block_length - 1) as u64
        } else {
            0
        }
    }

    /// The size of the common part.
    pub fn encoded_size() -> (r: usize)
        ensures
            r == 7,
    {
        COMMON_SIZE
    }

    /// Reads the common part from the start of `buf`.
    pub fn read(buf: &[u8]) -> (r: OsfBlockCommon)
        requires
            buf@.len() >= 7,
        ensures
            r == spec_common(buf@, 0),
    {
        let channel_index = read_u16_le(buf, 0);
        let block_length = read_u32_le(buf, 2);
        let control_character = buf[6];
        OsfBlockCommon { channel_index, block_length, control_character }
    }
}

/// The common part that starts at `pos`.
pub open spec fn spec_common(b: Seq<u8>, pos: int) -> OsfBlockCommon {
    OsfBlockCommon {
        channel_index: le_at(b, pos, 2) as u16,
        block_length: le_at(b, pos + 2, 4) as u32,
        control_character: b[pos + 6],
    }
}

/// The number of bytes of a sample value of type `t`, if `t` has a layout.
pub open spec fn sample_width(t: DataTypeModel) -> Option<nat> {
    match t {
        DataTypeModel::Bool => Some(1),
        DataTypeModel::Float => Some(4),
        DataTypeModel::Double => Some(8),
        DataTypeModel::Int64 => Some(8),
        DataTypeModel::Int32 => Some(4),
        DataTypeModel::Int16 => Some(2),
        DataTypeModel::Int8 => Some(1),
        DataTypeModel::GpsLocation => Some(24),
        _ => None,
    }
}

/// The bytes that reading one sample looks at: the timestamp and the value
/// (only the timestamp when the type has no layout).
pub open spec fn value_need(t: DataTypeModel) -> nat {
    match sample_width(t) {
        Some(w) => 8 + w,
        None => 8,
    }
}

/// The value of type `t` whose bytes start at `p`.
pub open spec fn spec_value(t: DataTypeModel, b: Seq<u8>, p: int) -> OsfValue {
    match t {
        DataTypeModel::Bool => OsfValue::Bool(b[p] > 0),
        DataTypeModel::Float => OsfValue::Float(le_at(b, p, 4) as u32),
        DataTypeModel::Double => OsfValue::Double(le_at(b, p, 8) as u64),
        DataTypeModel::Int64 => OsfValue::Int64(i64_le_at(b, p) as i64),
        DataTypeModel::Int32 => OsfValue::Int32(i32_le_at(b, p) as i32),
        DataTypeModel::Int16 => OsfValue::Int16(i16_le_at(b, p) as i16),
        DataTypeModel::Int8 => OsfValue::Int8(i8_at(b, p) as i8),
        DataTypeModel::GpsLocation => OsfValue::GpsLocation(
            GpsLocation {
                latitude: le_at(b, p, 8) as u64,
                longitude: le_at(b, p + 8, 8) as u64,
                altitude: le_at(b, p + 16, 8) as u64,
            },
        ),
        _ => OsfValue::Bool(false),
    }
}

/// The sample (timestamp, then value) of type `t` that starts at `pos`.
pub open spec fn spec_sample(t: DataTypeModel, b: Seq<u8>, pos: int) -> OsfSample {
    OsfSample { timestamp: i64_le_at(b, pos) as i64, value: spec_value(t, b, pos + 8) }
}

/// A GPS location is read in wire order, after the sample's eight-byte
/// timestamp: the latitude is the little-endian `u64` at the value's start,
/// the longitude the one eight bytes later, and the altitude the one eight
/// bytes after that.
pub proof fn lemma_gps_in_wire_order(b: Seq<u8>, pos: int)
    ensures
        spec_sample(DataTypeModel::GpsLocation, b, pos).value matches OsfValue::GpsLocation(g) && g.latitude
            == bytes_le8(b, pos + 8) && g.longitude == bytes_le8(b, pos + 16) && g.altitude == bytes_le8(b, pos + 24),
{
    lemma_le_at_8(b, pos + 8);
    lemma_le_at_8(b, pos + 16);
    lemma_le_at_8(b, pos + 24);
}

/// A sample's timestamp is the eight bytes at its start, read little-endian
/// as a signed 64-bit number; a value follows it. A double is the eight
/// bytes after the timestamp, a float the four, and a 32-bit integer the four
/// bytes read as a signed number; each type takes the bytes of its width
/// (one for a boolean or an 8-bit integer, two, four or eight for the wider
/// integers and floats, 24 for a GPS location).
pub proof fn lemma_sample_layout(b: Seq<u8>, pos: int, t: DataTypeModel)
    ensures
        (spec_sample(t, b, pos).timestamp - bytes_le8(b, pos)) % 0x1_0000_0000_0000_0000 == 0,
        t == DataTypeModel::Double ==> (spec_sample(t, b, pos).value matches OsfValue::Double(d) && d == bytes_le8(
            b,
            pos + 8,
        )),
        t == DataTypeModel::Float ==> (spec_sample(t, b, pos).value matches OsfValue::Float(f) && f == bytes_le4(
            b,
            pos + 8,
        )),
        t == DataTypeModel::Int32 ==> (spec_sample(t, b, pos).value matches OsfValue::Int32(v) && (v - bytes_le4(
            b,
            pos + 8,
        )) % 0x1_0000_0000 == 0),
        sample_width(DataTypeModel::Bool) == Some(1nat),
        sample_width(DataTypeModel::Int8) == Some(1nat),
        sample_width(DataTypeModel::Int16) == Some(2nat),
        sample_width(DataTypeModel::Int32) == Some(4nat),
        sample_width(DataTypeModel::Float) == Some(4nat),
        sample_width(DataTypeModel::Int64) == Some(8nat),
        sample_width(DataTypeModel::Double) == Some(8nat),
        sample_width(DataTypeModel::GpsLocation) == Some(24nat),
{
    lemma_le_at_8(b, pos);
    lemma_le_at_8(b, pos + 8);
    lemma_le_at_4(b, pos + 8);
}

/// Reads one sample of the channel's type at `pos`; returns it and the
/// position after it.
pub fn read_value(channel: &Channel, b: &[u8], pos: usize) -> (r: Result<(OsfSample, usize), BlockError>)
    requires
        pos + value_need(channel.datatype@) <= b@.len(),
    ensures
        match r {
            Ok((s, next)) => sample_width(channel.datatype@) matches Some(w)
                && next == pos + 8 + w
                && s == spec_sample(channel.datatype@, b@, pos as int),
            Err(e) => sample_width(channel.datatype@) is None
                && (e matches BlockError::UnsuportedType(t) && t@ == channel.datatype@),
        },
{
    let blen = b.len();
    let timestamp = read_i64_le(b, pos);
    let p = pos + 8;
    let (value, next) = match &channel.datatype {
        OsfDataType::Bool => (OsfValue::Bool(b[p] > 0), p + 1),
        OsfDataType::Double => (OsfValue::Double(read_u64_le(b, p)), p + 8),
        OsfDataType::Float => (OsfValue::Float(read_u32_le(b, p)), p + 4),
        OsfDataType::Int64 => (OsfValue::Int64(read_i64_le(b, p)), p + 8),
        OsfDataType::Int32 => (OsfValue::Int32(read_i32_le(b, p)), p + 4),
        OsfDataType::Int16 => (OsfValue::Int16(read_i16_le(b, p)), p + 2),
        OsfDataType::Int8 => (OsfValue::Int8(read_i8(b, p)), p + 1),
        OsfDataType::GpsLocation => {
            let latitude = read_u64_le(b, p);
            let longitude = read_u64_le(b, p + 8);
            let altitude = read_u64_le(b, p + 16);
            (OsfValue::GpsLocation(GpsLocation { latitude, longitude, altitude }), p + 24)
        },
        t => return Err(BlockError::UnsuportedType(t.clone_type())),
    };
    Ok((OsfSample { timestamp, value }, next))
}

/// The bytes that reading a list of `count` samples of type `t` looks at,
/// counting the four bytes of the count: with no layout, reading stops at the
/// first timestamp.
pub open spec fn multi_need(t: DataTypeModel, count: nat) -> nat {
    match sample_width(t) {
        Some(w) => 4 + count * (8 + w),
        None => if count == 0 { 4 } else { 12 },
    }
}

/// Whether a list of samples of type `t` can be read at `pos` without running
/// out of bytes.
pub open spec fn multi_readable(t: DataTypeModel, b: Seq<u8>, pos: int) -> bool {
    pos + 4 <= b.len() && pos + multi_need(t, le_at(b, pos, 4)) <= b.len()
}

/// Reads a `u32` count and then that many samples of the channel's type.
pub fn read_multi_value(channel: &Channel, b: &[u8], pos: usize) -> (r: Result<(Vec<OsfSample>, usize), BlockError>)
    requires
        multi_readable(channel.datatype@, b@, pos as int),
    ensures
        match r {
            Ok((samples, next)) => {
                &&& samples@.len() == le_at(b@, pos as int, 4)
                &&& next == pos + multi_need(channel.datatype@, le_at(b@, pos as int, 4))
                &&& (sample_width(channel.datatype@) is None ==> samples@.len() == 0)
                &&& forall|i: int| 0 <= i < samples@.len() ==> #[trigger] samples@[i]
                    == spec_sample(channel.datatype@, b@, pos + 4 + i * value_need(channel.datatype@))
            },
            Err(e) => sample_width(channel.datatype@) is None
                && le_at(b@, pos as int, 4) > 0
                && (e matches BlockError::UnsuportedType(t) && t@ == channel.datatype@),
        },
{
    let blen = b.len();
    let count = read_u32_le(b, pos);
    let ghost t = channel.datatype@;
    let mut buf: Vec<OsfSample> = Vec::new();
    let mut cur = pos + 4;
    let mut i: u32 = 0;
    while i < count
        invariant
            t == channel.datatype@,
            count == le_at(b@, pos as int, 4),
            multi_readable(t, b@, pos as int),
            i <= count,
            buf@.len() == i,
            sample_width(t) is Some || i == 0,
            sample_width(t) matches Some(w) ==> cur == pos + 4 + i * (8 + w),
            sample_width(t) is None ==> cur == pos + 4,
            forall|j: int| 0 <= j < i ==> #[trigger] buf@[j]
                == spec_sample(t, b@, pos + 4 + j * value_need(t)),
        decreases count - i,
    {
        proof {
            match sample_width(t) {
                Some(w) => {
                    assert((i + 1) * (8 + w) <= count * (8 + w)) by (nonlinear_arith)
                        requires i < count, w >= 0;
                    assert((i + 1) * (8 + w) == i * (8 + w) + (8 + w)) by (nonlinear_arith);
                },
                None => {},
            }
        }
        let (value, next) = match read_value(channel, b, cur) {
            Ok(v) => v,
            Err(e) => return Err(e),
        };
        buf.push(value);
        cur = next;
        i = i + 1;
    }
    proof {
        match sample_width(t) {
            Some(w) => {},
            None => {
                assert(count == 0);
            },
        }
    }
    Ok((buf, cur))
}

/// Reads a string block at `pos`: timestamp, a length that is not used, and
/// then all the remaining bytes as UTF-8.
pub fn read_string(b: &[u8], pos: usize) -> (r: Result<StringValue, BlockError>)
    requires
        pos + 12 <= b@.len(),
    ensures
        valid_utf8(b@.subrange(pos + 12, b@.len() as int)) ==> (r matches Ok(v)
            && v.timestamp == i64_le_at(b@, pos as int)
            && v.value@ == decode_utf8(b@.subrange(pos + 12, b@.len() as int))),
        !valid_utf8(b@.subrange(pos + 12, b@.len() as int)) ==> r matches Err(BlockError::String),
{
    let blen = b.len();
    let timestamp = read_i64_le(b, pos);
    let _len = read_u32_le(b, pos + 8);
    match utf8_decode(&b[pos + 12..b.len()]) {
        Some(value) => Ok(StringValue { timestamp, value }),
        None => Err(BlockError::String),
    }
}

/// Whether the block data at `pos` can be read for `common` without running
/// out of bytes.
pub open spec fn block_readable(common: OsfBlockCommon, channels: Seq<Channel>, b: Seq<u8>, pos: int) -> bool {
    common.channel_index < channels.len() ==> {
        let t = channels[common.channel_index as int].datatype@;
        if common.control_character == GENERIC_SINGLE_VALUE {
            pos + value_need(t) <= b.len()
        } else if common.control_character == GENERIC_MULTI_VALUE {
            multi_readable(t, b, pos)
        } else if common.control_character == STRING {
            pos + 12 <= b.len()
        } else {
            true
        }
    }
}

/// Computes `block_readable`.
pub fn is_block_readable(common: &OsfBlockCommon, channels: &[Channel], b: &[u8], pos: usize) -> (r: bool)
    requires
        pos <= b@.len(),
    ensures
        r == block_readable(*common, channels@, b@, pos as int),
{
    if common.channel_index as usize >= channels.len() {
        return true;
    }
    let channel = &channels[common.channel_index as usize];
    let rest = b.len() - pos;
    if common.control_character == GENERIC_SINGLE_VALUE {
        value_need_exec(&channel.datatype) <= rest
    } else if common.control_character == GENERIC_MULTI_VALUE {
        if rest < 4 {
            return false;
        }
        let count = read_u32_le(b, pos) as u64;
        match width_exec(&channel.datatype) {
            Some(w) => {
                let need = 8 + w as u64;
                assert(count * need <= 0xffff_ffff * 32) by (nonlinear_arith)
                    requires count <= 0xffff_ffff, need <= 32;
                4 + count * need <= rest as u64
            },
            None => if count == 0 { true } else { 12 <= rest },
        }
    } else if common.control_character == STRING {
        12 <= rest
    } else {
        true
    }
}

fn width_exec(t: &OsfDataType) -> (r: Option<usize>)
    ensures
        match sample_width(t@) {
            Some(w) => r == Some(w as usize),
            None => r is None,
        },
{
    match t {
        OsfDataType::Bool => Some(1),
        OsfDataType::Float => Some(4),
        OsfDataType::Double => Some(8),
        OsfDataType::Int64 => Some(8),
        OsfDataType::Int32 => Some(4),
        OsfDataType::Int16 => Some(2),
        OsfDataType::Int8 => Some(1),
        OsfDataType::GpsLocation => Some(24),
        _ => None,
    }
}

fn value_need_exec(t: &OsfDataType) -> (r: usize)
    ensures
        r == value_need(t@),
{
    match width_exec(t) {
        Some(w) => 8 + w,
        None => 8,
    }
}

/// What reading the block data at `pos` gives for `common`, and where the
/// reading stops: one sample, a list of samples, or a string; a string block
/// leaves the reading position 12 bytes before the end of the data.
pub open spec fn block_result_ok(
    common: OsfBlockCommon,
    channels: Seq<Channel>,
    b: Seq<u8>,
    pos: int,
    block: OsfBlock,
    next: int,
) -> bool {
    let t = channels[common.channel_index as int].datatype@;
    &&& common.channel_index < channels.len()
    &&& block.common == common
    &&& if common.control_character == GENERIC_SINGLE_VALUE {
        sample_width(t) matches Some(w) && next == pos + 8 + w
            && block.data == OsfBlockSample::GenericSingleValue(spec_sample(t, b, pos))
    } else if common.control_character == GENERIC_MULTI_VALUE {
        match block.data {
            OsfBlockSample::GenericMultiValue(samples) => {
                &&& next == pos + multi_need(t, le_at(b, pos, 4))
                &&& samples@.len() == le_at(b, pos, 4)
                &&& (sample_width(t) is None ==> samples@.len() == 0)
                &&& forall|i: int| 0 <= i < samples@.len() ==> #[trigger] samples@[i]
                    == spec_sample(t, b, pos + 4 + i * value_need(t))
            },
            _ => false,
        }
    } else {
        &&& common.control_character == STRING
        &&& next == b.len() - 12
        &&& valid_utf8(b.subrange(pos + 12, b.len() as int))
        &&& match block.data {
            OsfBlockSample::String(v) => {
                &&& v.timestamp == i64_le_at(b, pos)
                &&& v.value@ == decode_utf8(b.subrange(pos + 12, b.len() as int))
            },
            _ => false,
        }
    }
}

/// Why reading the block data at `pos` fails for `common`, if it does.
pub open spec fn block_result_err(common: OsfBlockCommon, channels: Seq<Channel>, b: Seq<u8>, pos: int, e: BlockError) -> bool {
    if common.channel_index >= channels.len() {
        e == BlockError::ChannelNotFound
    } else {
        let t = channels[common.channel_index as int].datatype@;
        if common.control_character == GENERIC_SINGLE_VALUE {
            sample_width(t) is None && (e matches BlockError::UnsuportedType(u) && u@ == t)
        } else if common.control_character == GENERIC_MULTI_VALUE {
            sample_width(t) is None && le_at(b, pos, 4) > 0
                && (e matches BlockError::UnsuportedType(u) && u@ == t)
        } else if common.control_character == STRING {
            !valid_utf8(b.subrange(pos + 12, b.len() as int)) && e == BlockError::String
        } else {
            e == BlockError::UnknownType
        }
    }
}

impl OsfBlock {
    /// Reads the data of a block whose common part is `common`, starting at
    /// `pos`; returns the block and the position where reading stopped.
    pub fn read(common: OsfBlockCommon, channels: &[Channel], b: &[u8], pos: usize) -> (r: Result<(OsfBlock, usize), BlockError>)
        requires
            pos <= b@.len(),
            block_readable(common, channels@, b@, pos as int),
        ensures
            match r {
                Ok((block, next)) => block_result_ok(common, channels@, b@, pos as int, block, next as int),
                Err(e) => block_result_err(common, channels@, b@, pos as int, e),
            },
    {
        if common.channel_index as usize >= channels.len() {
            return Err(BlockError::ChannelNotFound);
        }
        let channel = &channels[common.channel_index as usize];
        if common.control_character == GENERIC_SINGLE_VALUE {
            match read_value(channel, b, pos) {
                Ok((value, next)) => Ok((OsfBlock { common, data: OsfBlockSample::GenericSingleValue(value) }, next)),
                Err(e) => Err(e),
            }
        } else if common.control_character == GENERIC_MULTI_VALUE {
            match read_multi_value(channel, b, pos) {
                Ok((values, next)) => Ok((OsfBlock { common, data: OsfBlockSample::GenericMultiValue(values) }, next)),
                Err(e) => Err(e),
            }
        } else if common.control_character == STRING {
            match read_string(b, pos) {
                Ok(value) => {
                    let next = b.len() - 12;
                    Ok((OsfBlock { common, data: OsfBlockSample::String(value) }, next))
                },
                Err(e) => Err(e),
            }
        } else {
            Err(BlockError::UnknownType)
        }
    }
}

/// A decoder for a stream of blocks: the channels of the header, and the
/// buffer that holds the data of the block being decoded. Reading from the
/// stream itself is done outside this library.
pub struct OsfStream<R> {
    pub decode_buf: Vec<u8>,
    pub channels: Vec<Channel>,
    pub stream: R,
}

impl<R> OsfStream<R> {
    pub fn new(channels: Vec<Channel>, stream: R) -> (r: Self)
        ensures
            r.decode_buf@.len() == 0,
            r.channels@ == channels@,
            r.stream == stream,
    {
        OsfStream { decode_buf: Vec::new(), channels, stream }
    }

    pub fn make_async(self) -> (r: AsyncOsfStream<R>)
        ensures
            r.inner == self,
    {
        AsyncOsfStream::new(self)
    }

    pub fn channels(&self) -> (r: &[Channel])
        ensures
            r@ == self.channels@,
    {
        self.channels.as_slice()
    }

    pub fn channel(&self, index: u16) -> (r: Option<&Channel>)
        ensures
            index < self.channels@.len() ==> r == Some(&self.channels@[index as int]),
            index >= self.channels@.len() ==> r is None,
    {
        if (index as usize) < self.channels.len() {
            Some(&self.channels[index as usize])
        } else {
            None
        }
    }

    /// Decodes the block whose data `data` holds (the bytes that follow
    /// `common` in the stream), keeping `data` as the decode buffer.
    pub fn decode_block(&mut self, common: OsfBlockCommon, data: Vec<u8>) -> (r: Result<OsfBlock, BlockError>)
        requires
            block_readable(common, old(self).channels@, data@, 0),
        ensures
            final(self).decode_buf@ == data@,
            final(self).channels@ == old(self).channels@,
            final(self).stream == old(self).stream,
            match r {
                Ok(block) => exists|next: int| block_result_ok(common, old(self).channels@, data@, 0, block, next),
                Err(e) => block_result_err(common, old(self).channels@, data@, 0, e),
            },
    {
        self.decode_buf = data;
        match OsfBlock::read(common, self.channels.as_slice(), self.decode_buf.as_slice(), 0) {
            Ok((block, _next)) => Ok(block),
            Err(e) => Err(e),
        }
    }
}

/// A block stream for asynchronous readers.
pub struct AsyncOsfStream<R> {
    pub inner: OsfStream<R>,
}

impl<R> AsyncOsfStream<R> {
    pub fn new(inner: OsfStream<R>) -> (r: Self)
        ensures
            r.inner == inner,
    {
        AsyncOsfStream { inner }
    }
}

} // verus!
