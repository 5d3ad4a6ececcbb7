//! Export of OSF blocks as VictoriaMetrics import lines: one line per block,
//! named after the block's channel, with the block's values and their
//! timestamps in milliseconds.
use vstd::prelude::*;
use crate::osf::block::{OsfBlock, OsfBlockSample, OsfSample, OsfValue};
use crate::osf::header::{Channel, OsfDataType};
use crate::text::str_eq;

verus! {

/// Where blocks are exported to, and under which job and instance.
pub struct VicotriaOpts<'s> {
    pub job: &'s str,
    pub instance: &'s str,
    /// The base address of the VictoriaMetrics server.
    pub victoria: String,
    /// The file that holds the channel configuration.
    pub channel_file: String,
}

/// The labels of a line.
pub struct Metric {
    pub name: String,
    pub job: String,
    pub instance: String,
}

/// A value of a line. Floating-point values are carried by their bits:
/// `Float32` those of an `f32`, `Float64` those of an `f64`.
pub enum VictoriaValue {
    Int(i64),
    Float32(u32),
    Float64(u64),
    Text(String),
}

pub enum ValueModel {
    Int(int),
    Float32(u32),
    Float64(u64),
    Text(Seq<char>),
}

impl View for VictoriaValue {
    type V = ValueModel;

    open spec fn view(&self) -> ValueModel {
        match self {
            VictoriaValue::Int(i) => ValueModel::Int(*i as int),
            VictoriaValue::Float32(b) => ValueModel::Float32(*b),
            VictoriaValue::Float64(b) => ValueModel::Float64(*b),
            VictoriaValue::Text(s) => ValueModel::Text(s@),
        }
    }
}

/// One import line.
pub struct VictoriaLine {
    pub metric: Metric,
    pub values: Vec<VictoriaValue>,
    pub timestamps: Vec<i64>,
}

/// The value of a sample on a line; a GPS location has none.
pub open spec fn value_model(v: OsfValue) -> Option<ValueModel> {
    match v {
        OsfValue::Bool(b) => Some(ValueModel::Int(if b { 1 } else { 0 })),
        OsfValue::Float(bits) => Some(ValueModel::Float32(bits)),
        OsfValue::Double(bits) => Some(ValueModel::Float64(bits)),
        OsfValue::Int64(i) => Some(ValueModel::Int(i as int)),
        OsfValue::Int32(i) => Some(ValueModel::Int(i as int)),
        OsfValue::Int16(i) => Some(ValueModel::Int(i as int)),
        OsfValue::Int8(i) => Some(ValueModel::Int(i as int)),
        OsfValue::GpsLocation(_) => None,
    }
}

/// On a line, every integer sample keeps its value, sign included, whatever
/// its width (an `Int32` of -5 is -5), a boolean is 1 or 0, a float and a
/// double keep their bits in their own width, and a GPS location has no
/// value.
pub proof fn lemma_integer_samples_keep_their_value(a: i8, b: i16, c: i32, d: i64, x: bool, s: OsfSample)
    ensures
        value_model(OsfValue::Int8(a)) == Some(ValueModel::Int(a as int)),
        value_model(OsfValue::Int16(b)) == Some(ValueModel::Int(b as int)),
        value_model(OsfValue::Int32(c)) == Some(ValueModel::Int(c as int)),
        value_model(OsfValue::Int64(d)) == Some(ValueModel::Int(d as int)),
        value_model(OsfValue::Bool(x)) == Some(ValueModel::Int(if x {
            1int
        } else {
            0int
        })),
        c < 0 ==> (value_model(OsfValue::Int32(c)) matches Some(ValueModel::Int(v)) && v < 0),
        forall|f: u32| #[trigger] value_model(OsfValue::Float(f)) == Some(ValueModel::Float32(f)),
        forall|f: u64| #[trigger] value_model(OsfValue::Double(f)) == Some(ValueModel::Float64(f)),
        forall|g: crate::osf::block::GpsLocation| #[trigger] value_model(OsfValue::GpsLocation(g)) is None,
        s.value == OsfValue::Int32(c) ==> (block_line(OsfBlockSample::GenericSingleValue(s)) matches Some((vs, ts))
            && vs == seq![ValueModel::Int(c as int)]),
{
}

/// A timestamp in nanoseconds, in milliseconds: the quotient rounded
/// toward zero.
pub open spec fn millis(ns: i64) -> int {
    if ns >= 0 {
        ns as int / 1_000_000
    } else {
        -((-(ns as int)) / 1_000_000)
    }
}

pub open spec fn values_model(v: Seq<VictoriaValue>) -> Seq<ValueModel> {
    v.map_values(|x: VictoriaValue| x@)
}

/// Whether every sample has a value on a line.
pub open spec fn all_valued(s: Seq<OsfSample>) -> bool {
    forall|i: int| 0 <= i < s.len() ==> (#[trigger] value_model(s[i].value)) is Some
}

/// The values and timestamps of the line of a block's samples, if every
/// sample has a value on a line.
pub open spec fn block_line(data: OsfBlockSample) -> Option<(Seq<ValueModel>, Seq<i64>)> {
    match data {
        OsfBlockSample::GenericSingleValue(s) => match value_model(s.value) {
            Some(v) => Some((seq![v], seq![millis(s.timestamp) as i64])),
            None => None,
        },
        OsfBlockSample::GenericMultiValue(m) => if all_valued(m@) {
            Some(
                (
                    m@.map_values(|s: OsfSample| value_model(s.value)->0),
                    m@.map_values(|s: OsfSample| millis(s.timestamp) as i64),
                ),
            )
        } else {
            None
        },
        OsfBlockSample::String(s) => Some((seq![ValueModel::Text(s.value@)], seq![millis(s.timestamp) as i64])),
    }
}

/// The value of a sample on a line; a GPS location has none.
pub fn osf_value_to_victoria(sample: &OsfSample) -> (r: Option<VictoriaValue>)
    ensures
        match r {
            Some(v) => value_model(sample.value) == Some(v@),
            None => value_model(sample.value) is None,
        },
{
    match sample.value {
        OsfValue::Bool(v) => Some(VictoriaValue::Int(if v { 1 } else { 0 })),
        OsfValue::Float(v) => Some(VictoriaValue::Float32(v)),
        OsfValue::Double(v) => Some(VictoriaValue::Float64(v)),
        OsfValue::Int64(v) => Some(VictoriaValue::Int(v)),
        OsfValue::Int32(v) => Some(VictoriaValue::Int(v as i64)),
        OsfValue::Int16(v) => Some(VictoriaValue::Int(v as i64)),
        OsfValue::Int8(v) => Some(VictoriaValue::Int(v as i64)),
        OsfValue::GpsLocation(_) => None,
    }
}

fn to_millis(ns: i64) -> (r: i64)
    ensures
        r == millis(ns),
{
    if ns >= 0 {
        ns / 1_000_000
    } else if ns == i64::MIN {
        -9_223_372_036_854
    } else {
        -((-ns) / 1_000_000)
    }
}

/// The line of a block: named after its channel, with the job and instance
/// labels; its values and their timestamps in milliseconds. A block with a
/// value that has no place on a line (a GPS location) gives no line.
pub fn block_to_victoria(job: &str, instance: &str, channels: &[Channel], block: &OsfBlock) -> (r: Option<VictoriaLine>)
    requires
        (block.common.channel_index as int) < channels@.len(),
    ensures
        r matches Some(line) ==> {
            &&& line.metric.name@ == channels@[block.common.channel_index as int].name@
            &&& line.metric.job@ == job@
            &&& line.metric.instance@ == instance@
        },
        match block_line(block.data) {
            Some((vs, ts)) => r matches Some(line) && values_model(line.values@) == vs && line.timestamps@ == ts,
            None => r is None,
        },
{
    let channel = &channels[block.common.channel_index as usize];
    let metric = Metric { name: channel.name.clone(), job: job.to_owned(), instance: instance.to_owned() };
    match &block.data {
        OsfBlockSample::GenericSingleValue(sample) => {
            let value = match osf_value_to_victoria(sample) {
                Some(v) => v,
                None => return None,
            };
            let values = vec![value];
            let timestamps = vec![to_millis(sample.timestamp)];
            assert(values_model(values@) =~= seq![value_model(sample.value)->0]);
            assert(timestamps@ =~= seq![millis(sample.timestamp) as i64]);
            assert(block_line(block.data) == Some((values_model(values@), timestamps@)));
            Some(VictoriaLine { metric, values, timestamps })
        },
        OsfBlockSample::GenericMultiValue(multi) => {
            let mut values: Vec<VictoriaValue> = Vec::new();
            let mut timestamps: Vec<i64> = Vec::new();
            let mut i: usize = 0;
            while i < multi.len()
                invariant
                    block.data matches OsfBlockSample::GenericMultiValue(m) && m@ == multi@,
                    (block.common.channel_index as int) < channels@.len(),
                    channels@[block.common.channel_index as int].name@ == metric.name@,
                    metric.job@ == job@,
                    metric.instance@ == instance@,
                    i <= multi@.len(),
                    values@.len() == i,
                    timestamps@.len() == i,
                    forall|k: int| 0 <= k < i ==> value_model(multi@[k].value) == Some((#[trigger] values@[k])@),
                    forall|k: int| 0 <= k < i ==> #[trigger] timestamps@[k] == millis(multi@[k].timestamp),
                decreases multi@.len() - i,
            {
                match osf_value_to_victoria(&multi[i]) {
                    Some(v) => values.push(v),
                    None => {
                        assert(!all_valued(multi@));
                        return None;
                    },
                }
                timestamps.push(to_millis(multi[i].timestamp));
                i = i + 1;
            }
            assert(values_model(values@) =~= multi@.map_values(|s: OsfSample| value_model(s.value)->0));
            assert(timestamps@ =~= multi@.map_values(|s: OsfSample| millis(s.timestamp) as i64));
            assert forall|k: int| 0 <= k < multi@.len() implies (#[trigger] value_model(multi@[k].value)) is Some by {
                assert(value_model(multi@[k].value) == Some(values@[k]@));
            }
            assert(block_line(block.data) == Some((values_model(values@), timestamps@)));
            Some(VictoriaLine { metric, values, timestamps })
        },
        OsfBlockSample::String(string) => {
            let values = vec![VictoriaValue::Text(string.value.clone())];
            let timestamps = vec![to_millis(string.timestamp)];
            assert(values_model(values@) =~= seq![ValueModel::Text(string.value@)]);
            assert(timestamps@ =~= seq![millis(string.timestamp) as i64]);
            assert(block_line(block.data) == Some((values_model(values@), timestamps@)));
            Some(VictoriaLine { metric, values, timestamps })
        },
    }
}

/// Whether two channels are the same: index, name, type and length size.
pub open spec fn same_channel(a: Channel, b: Channel) -> bool {
    &&& a.index == b.index
    &&& a.name@ == b.name@
    &&& a.datatype@ == b.datatype@
    &&& a.sizeoflengthvalue == b.sizeoflengthvalue
}

fn same_type(a: &OsfDataType, b: &OsfDataType) -> (r: bool)
    ensures
        r == (a@ == b@),
{
    match (a, b) {
        (OsfDataType::Bool, OsfDataType::Bool) => true,
        (OsfDataType::Float, OsfDataType::Float) => true,
        (OsfDataType::Double, OsfDataType::Double) => true,
        (OsfDataType::Int64, OsfDataType::Int64) => true,
        (OsfDataType::Int32, OsfDataType::Int32) => true,
        (OsfDataType::Int16, OsfDataType::Int16) => true,
        (OsfDataType::Int8, OsfDataType::Int8) => true,
        (OsfDataType::String, OsfDataType::String) => true,
        (OsfDataType::GpsLocation, OsfDataType::GpsLocation) => true,
        (OsfDataType::CanData, OsfDataType::CanData) => true,
        (OsfDataType::Custom(x), OsfDataType::Custom(y)) => str_eq(x.as_str(), y.as_str()),
        _ => false,
    }
}

/// Whether a new header changes the channels: some channel differs from
/// the one at its place in the old list, comparing as many places as the
/// shorter list has.
pub fn channels_changed(old: &[Channel], new: &[Channel]) -> (r: bool)
    ensures
        r == exists|i: int| 0 <= i < old@.len() && i < new@.len() && !same_channel(old@[i], new@[i]),
{
    let mut i: usize = 0;
    while i < old.len() && i < new.len()
        invariant
            i <= old@.len(),
            i <= new@.len(),
            forall|j: int| 0 <= j < i ==> same_channel(old@[j], new@[j]),
        decreases old@.len() - i,
    {
        let a = &old[i];
        let b = &new[i];
        if !(a.index == b.index && str_eq(a.name.as_str(), b.name.as_str()) && same_type(&a.datatype, &b.datatype)
            && a.sizeoflengthvalue == b.sizeoflengthvalue) {
            assert(!same_channel(old@[i as int], new@[i as int]));
            return true;
        }
        i = i + 1;
    }
    false
}

} // verus!
