//! The OSF stream header: the magic line `OCEAN_STREAM_FORMAT4 <length>`,
//! followed by `<length>` bytes of XML that describe the channels.
//!
//! The XML document is handed out as text; turning it into `Channel`s is the
//! job of an XML deserializer outside this library.
use vstd::prelude::*;
use vstd::utf8::*;
use crate::text::{str_eq, utf8_decode};

verus! {

/// The value type that a channel carries.
pub enum OsfDataType {
    Bool,
    Float,
    Double,
    Int64,
    Int32,
    Int16,
    Int8,
    String,
    GpsLocation,
    CanData,
    Custom(String),
}

/// The mathematical model of an `OsfDataType`: a custom name is its characters.
pub enum DataTypeModel {
    Bool,
    Float,
    Double,
    Int64,
    Int32,
    Int16,
    Int8,
    String,
    GpsLocation,
    CanData,
    Custom(Seq<char>),
}

impl View for OsfDataType {
    type V = DataTypeModel;

    open spec fn view(&self) -> DataTypeModel {
        match self {
            OsfDataType::Bool => DataTypeModel::Bool,
            OsfDataType::Float => DataTypeModel::Float,
            OsfDataType::Double => DataTypeModel::Double,
            OsfDataType::Int64 => DataTypeModel::Int64,
            OsfDataType::Int32 => DataTypeModel::Int32,
            OsfDataType::Int16 => DataTypeModel::Int16,
            OsfDataType::Int8 => DataTypeModel::Int8,
            OsfDataType::String => DataTypeModel::String,
            OsfDataType::GpsLocation => DataTypeModel::GpsLocation,
            OsfDataType::CanData => DataTypeModel::CanData,
            OsfDataType::Custom(s) => DataTypeModel::Custom(s@),
        }
    }
}

/// The name under which a data type is written out. `Float` and `Double`
/// are written as each other's name.
pub open spec fn datatype_name(t: DataTypeModel) -> Seq<char> {
    match t {
        DataTypeModel::Bool => "bool"@,
        DataTypeModel::Float => "double"@,
        DataTypeModel::Double => "float"@,
        DataTypeModel::Int64 => "int64"@,
        DataTypeModel::Int32 => "int32"@,
        DataTypeModel::Int16 => "int16"@,
        DataTypeModel::Int8 => "int8"@,
        DataTypeModel::String => "string"@,
        DataTypeModel::GpsLocation => "gpslocation"@,
        DataTypeModel::CanData => "candata"@,
        DataTypeModel::Custom(s) => s,
    }
}

/// The data type that a name denotes; any other name is a custom type.
pub open spec fn datatype_from_name(s: Seq<char>) -> DataTypeModel {
    if s == "bool"@ {
        DataTypeModel::Bool
    } else if s == "double"@ {
        DataTypeModel::Double
    } else if s == "float"@ {
        DataTypeModel::Float
    } else if s == "int64"@ {
        DataTypeModel::Int64
    } else if s == "int32"@ {
        DataTypeModel::Int32
    } else if s == "int16"@ {
        DataTypeModel::Int16
    } else if s == "int8"@ {
        DataTypeModel::Int8
    } else if s == "string"@ {
        DataTypeModel::String
    } else if s == "gpslocation"@ {
        DataTypeModel::GpsLocation
    } else if s == "candata"@ {
        DataTypeModel::CanData
    } else {
        DataTypeModel::Custom(s)
    }
}

/// Whether `s` is one of the names of the built-in data types.
pub open spec fn is_builtin_name(s: Seq<char>) -> bool {
    datatype_from_name(s) != DataTypeModel::Custom(s)
}

impl OsfDataType {
    /// The name under which this data type is written out.
    pub fn to_string(&self) -> (r: String)
        ensures
            r@ == datatype_name(self@),
    {
        match self {
            OsfDataType::Bool => "bool".to_owned(),
            OsfDataType::Float => "double".to_owned(),
            OsfDataType::Double => "float".to_owned(),
            OsfDataType::Int64 => "int64".to_owned(),
            OsfDataType::Int32 => "int32".to_owned(),
            OsfDataType::Int16 => "int16".to_owned(),
            OsfDataType::Int8 => "int8".to_owned(),
            OsfDataType::String => "string".to_owned(),
            OsfDataType::GpsLocation => "gpslocation".to_owned(),
            OsfDataType::CanData => "candata".to_owned(),
            OsfDataType::Custom(s) => s.clone(),
        }
    }

    /// The data type that a name denotes; parsing never fails.
    pub fn from_str(s: &str) -> (r: OsfDataType)
        ensures
            r@ == datatype_from_name(s@),
    {
        if str_eq(s, "bool") {
            OsfDataType::Bool
        } else if str_eq(s, "double") {
            OsfDataType::Double
        } else if str_eq(s, "float") {
            OsfDataType::Float
        } else if str_eq(s, "int64") {
            OsfDataType::Int64
        } else if str_eq(s, "int32") {
            OsfDataType::Int32
        } else if str_eq(s, "int16") {
            OsfDataType::Int16
        } else if str_eq(s, "int8") {
            OsfDataType::Int8
        } else if str_eq(s, "string") {
            OsfDataType::String
        } else if str_eq(s, "gpslocation") {
            OsfDataType::GpsLocation
        } else if str_eq(s, "candata") {
            OsfDataType::CanData
        } else {
            OsfDataType::Custom(s.to_owned())
        }
    }

    pub fn clone_type(&self) -> (r: OsfDataType)
        ensures
            r@ == self@,
    {
        match self {
            OsfDataType::Bool => OsfDataType::Bool,
            OsfDataType::Float => OsfDataType::Float,
            OsfDataType::Double => OsfDataType::Double,
            OsfDataType::Int64 => OsfDataType::Int64,
            OsfDataType::Int32 => OsfDataType::Int32,
            OsfDataType::Int16 => OsfDataType::Int16,
            OsfDataType::Int8 => OsfDataType::Int8,
            OsfDataType::String => OsfDataType::String,
            OsfDataType::GpsLocation => OsfDataType::GpsLocation,
            OsfDataType::CanData => OsfDataType::CanData,
            OsfDataType::Custom(s) => OsfDataType::Custom(s.clone()),
        }
    }
}

/// Reading the written name of a data type gives the data type back, for
/// every built-in type but `Float` and `Double` (whose names are swapped) and
/// every custom type whose name is not a built-in name.
pub proof fn lemma_datatype_name_roundtrip(t: DataTypeModel)
    requires
        t != DataTypeModel::Float,
        t != DataTypeModel::Double,
        t matches DataTypeModel::Custom(s) ==> !is_builtin_name(s),
    ensures
        datatype_from_name(datatype_name(t)) == t,
{
    lemma_builtin_names_distinct();
}

proof fn lemma_builtin_names_distinct()
    ensures
        "bool"@.len() == 4 && "bool"@[0] == 'b',
        "double"@.len() == 6 && "double"@[0] == 'd',
        "float"@.len() == 5 && "float"@[0] == 'f',
        "int64"@.len() == 5 && "int64"@[0] == 'i' && "int64"@[3] == '6',
        "int32"@.len() == 5 && "int32"@[0] == 'i' && "int32"@[3] == '3',
        "int16"@.len() == 5 && "int16"@[0] == 'i' && "int16"@[3] == '1',
        "int8"@.len() == 4 && "int8"@[0] == 'i',
        "string"@.len() == 6 && "string"@[0] == 's',
        "gpslocation"@.len() == 11 && "gpslocation"@[0] == 'g',
        "candata"@.len() == 7 && "candata"@[0] == 'c',
{
    reveal_strlit("bool");
    reveal_strlit("double");
    reveal_strlit("float");
    reveal_strlit("int64");
    reveal_strlit("int32");
    reveal_strlit("int16");
    reveal_strlit("int8");
    reveal_strlit("string");
    reveal_strlit("gpslocation");
    reveal_strlit("candata");
}

/// Writing out the type that a name denotes gives the name back, for every
/// name but "double" and "float", which come back as each other.
pub proof fn lemma_datatype_parse_roundtrip(s: Seq<char>)
    ensures
        s != "double"@ && s != "float"@ ==> datatype_name(datatype_from_name(s)) == s,
        s == "double"@ ==> datatype_name(datatype_from_name(s)) == "float"@,
        s == "float"@ ==> datatype_name(datatype_from_name(s)) == "double"@,
{
    reveal_strlit("bool");
    reveal_strlit("double");
    reveal_strlit("float");
    reveal_strlit("int64");
    reveal_strlit("int32");
    reveal_strlit("int16");
    reveal_strlit("int8");
    reveal_strlit("string");
    reveal_strlit("gpslocation");
    reveal_strlit("candata");
}

/// How the samples of a channel are laid out; only scalars exist.
pub enum OsfChannelType {
    Scalar,
}

impl OsfChannelType {
    /// The name under which a channel type is written out.
    pub fn to_string(&self) -> (r: String)
        ensures
            r@ == "scalar"@,
    {
        "scalar".to_owned()
    }

    /// Parses a channel type; only "scalar" is known.
    pub fn from_str(s: &str) -> (r: Result<OsfChannelType, HeaderError>)
        ensures
            s@ == "scalar"@ ==> r matches Ok(OsfChannelType::Scalar),
            s@ != "scalar"@ ==> (r matches Err(HeaderError::UnknownChannelType { channel_type })
                && channel_type@ == s@),
    {
        if str_eq(s, "scalar") {
            Ok(OsfChannelType::Scalar)
        } else {
            Err(HeaderError::UnknownChannelType { channel_type: s.to_owned() })
        }
    }
}

/// One channel of an OSF stream, as the XML header describes it.
pub struct Channel {
    pub index: usize,
    pub name: String,
    pub datatype: OsfDataType,
    pub channeltype: OsfChannelType,
    pub sizeoflengthvalue: usize,
}

/// What can go wrong while reading a header.
pub enum HeaderError {
    /// The first line is not `OCEAN_STREAM_FORMAT4 ...` (or is not text).
    MagicHeader,
    /// The length after the magic word is missing or is not a number.
    MagicHeaderLength,
    /// The XML document is not valid UTF-8.
    Io,
    UnknownChannelType { channel_type: String },
}

/// The bytes that `char::is_ascii_whitespace` accepts: space, tab, line
/// feed, form feed and carriage return.
pub open spec fn is_ascii_ws(b: u8) -> bool {
    b == 32 || b == 9 || b == 10 || b == 12 || b == 13
}

/// The first position at or after `i` that holds no whitespace.
pub open spec fn skip_ws(s: Seq<u8>, i: int) -> int
    decreases s.len() - i,
{
    if 0 <= i < s.len() && is_ascii_ws(s[i]) {
        skip_ws(s, i + 1)
    } else {
        i
    }
}

/// The first position at or after `i` that holds whitespace.
pub open spec fn token_end(s: Seq<u8>, i: int) -> int
    decreases s.len() - i,
{
    if 0 <= i < s.len() && !is_ascii_ws(s[i]) {
        token_end(s, i + 1)
    } else {
        i
    }
}

/// The value of a string of decimal digits.
pub open spec fn decimal(s: Seq<u8>) -> nat
    decreases s.len(),
{
    if s.len() == 0 {
        0
    } else {
        (decimal(s.drop_last()) * 10 + (s.last() - 48)) as nat
    }
}

pub open spec fn all_digits(s: Seq<u8>) -> bool {
    forall|i: int| 0 <= i < s.len() ==> 48 <= #[trigger] s[i] <= 57
}

/// `u64::from_str`: an optional `+`, then one or more decimal digits whose
/// value fits in 64 bits.
pub open spec fn parse_u64(s: Seq<u8>) -> Option<u64> {
    let d = if s.len() > 0 && s[0] == 43 {
        s.drop_first()
    } else {
        s
    };
    if d.len() == 0 || !all_digits(d) || decimal(d) > u64::MAX {
        None
    } else {
        Some(decimal(d) as u64)
    }
}

pub open spec fn magic_word() -> Seq<u8> {
    seq![79u8, 67, 69, 65, 78, 95, 83, 84, 82, 69, 65, 77, 95, 70, 79, 82, 77, 65, 84, 52]
}

/// The magic line holds `OCEAN_STREAM_FORMAT4` as its first
/// whitespace-separated word and the XML length as its second.
pub open spec fn spec_magic_header(line: Seq<u8>) -> Result<u64, HeaderError> {
    let a = skip_ws(line, 0);
    let b = token_end(line, a);
    let c = skip_ws(line, b);
    let d = token_end(line, c);
    if a >= line.len() || line.subrange(a, b) != magic_word() {
        Err(HeaderError::MagicHeader)
    } else if c >= line.len() {
        Err(HeaderError::MagicHeaderLength)
    } else {
        match parse_u64(line.subrange(c, d)) {
            Some(v) => Ok(v),
            None => Err(HeaderError::MagicHeaderLength),
        }
    }
}

proof fn lemma_skip_ws_bounds(s: Seq<u8>, i: int)
    requires
        0 <= i <= s.len(),
    ensures
        i <= skip_ws(s, i) <= s.len(),
        forall|j: int| i <= j < skip_ws(s, i) ==> is_ascii_ws(#[trigger] s[j]),
        skip_ws(s, i) < s.len() ==> !is_ascii_ws(s[skip_ws(s, i)]),
    decreases s.len() - i,
{
    if i < s.len() && is_ascii_ws(s[i]) {
        lemma_skip_ws_bounds(s, i + 1);
    }
}

proof fn lemma_token_end_bounds(s: Seq<u8>, i: int)
    requires
        0 <= i <= s.len(),
    ensures
        i <= token_end(s, i) <= s.len(),
        forall|j: int| i <= j < token_end(s, i) ==> !is_ascii_ws(#[trigger] s[j]),
        token_end(s, i) < s.len() ==> is_ascii_ws(s[token_end(s, i)]),
    decreases s.len() - i,
{
    if i < s.len() && !is_ascii_ws(s[i]) {
        lemma_token_end_bounds(s, i + 1);
    }
}

fn is_ws(b: u8) -> (r: bool)
    ensures
        r == is_ascii_ws(b),
{
    b == 32 || b == 9 || b == 10 || b == 12 || b == 13
}

fn find_skip_ws(s: &[u8], i: usize) -> (r: usize)
    requires
        i <= s@.len(),
    ensures
        r == skip_ws(s@, i as int),
{
    let mut j = i;
    while j < s.len() && is_ws(s[j])
        invariant
            i <= j <= s@.len(),
            skip_ws(s@, j as int) == skip_ws(s@, i as int),
        decreases s@.len() - j,
    {
        j = j + 1;
    }
    j
}

fn find_token_end(s: &[u8], i: usize) -> (r: usize)
    requires
        i <= s@.len(),
    ensures
        r == token_end(s@, i as int),
{
    let mut j = i;
    while j < s.len() && !is_ws(s[j])
        invariant
            i <= j <= s@.len(),
            token_end(s@, j as int) == token_end(s@, i as int),
        decreases s@.len() - j,
    {
        j = j + 1;
    }
    j
}

proof fn lemma_decimal_grows(s: Seq<u8>, k: int)
    requires
        0 <= k <= s.len(),
        all_digits(s),
    ensures
        decimal(s.subrange(0, k)) <= decimal(s),
    decreases s.len() - k,
{
    if k < s.len() {
        lemma_decimal_grows(s, k + 1);
        assert(s.subrange(0, k + 1).drop_last() =~= s.subrange(0, k));
    } else {
        assert(s.subrange(0, k) =~= s);
    }
}

/// `u64::from_str` on the bytes `s[start..end]`.
fn parse_u64_range(s: &[u8], start: usize, end: usize) -> (r: Option<u64>)
    requires
        start <= end <= s@.len(),
    ensures
        r == parse_u64(s@.subrange(start as int, end as int)),
{
    let ghost t = s@.subrange(start as int, end as int);
    let mut i = start;
    if i < end && s[i] == 43 {
        i = i + 1;
    }
    let ghost d = s@.subrange(i as int, end as int);
    proof {
        if t.len() > 0 && t[0] == 43 {
            assert(d =~= t.drop_first());
        } else {
            assert(d =~= t);
        }
    }
    if i == end {
        return None;
    }
    let first = i;
    let mut v: u64 = 0;
    while i < end
        invariant
            start <= first <= i <= end <= s@.len(),
            first < end,
            t == s@.subrange(start as int, end as int),
            d == (if t.len() > 0 && t[0] == 43 { t.drop_first() } else { t }),
            d == s@.subrange(first as int, end as int),
            all_digits(s@.subrange(first as int, i as int)),
            v == decimal(s@.subrange(first as int, i as int)),
        decreases end - i,
    {
        let c = s[i];
        if c < 48 || c > 57 {
            assert(d[i - first] == c);
            return None;
        }
        let digit = (c - 48) as u64;
        let ghost prefix = s@.subrange(first as int, (i + 1) as int);
        assert(prefix.drop_last() =~= s@.subrange(first as int, i as int));
        assert(all_digits(prefix)) by {
            assert forall|j: int| 0 <= j < prefix.len() implies 48 <= #[trigger] prefix[j] <= 57 by {
                if j < prefix.len() - 1 {
                    assert(prefix[j] == s@.subrange(first as int, i as int)[j]);
                }
            }
        }
        if v > (0xffff_ffff_ffff_ffffu64 - digit) / 10 {
            proof {
                assert(decimal(prefix) > u64::MAX);
                if all_digits(d) {
                    assert(d.subrange(0, prefix.len() as int) =~= prefix);
                    lemma_decimal_grows(d, prefix.len() as int);
                }
            }
            return None;
        }
        v = v * 10 + digit;
        i = i + 1;
    }
    assert(s@.subrange(first as int, i as int) =~= d);
    Some(v)
}

/// Reads the magic line: the magic word, then the length of the XML header.
pub fn magic_header(line: &[u8]) -> (r: Result<u64, HeaderError>)
    ensures
        r == spec_magic_header(line@),
{
    proof {
        lemma_skip_ws_bounds(line@, 0);
    }
    let a = find_skip_ws(line, 0);
    proof {
        lemma_token_end_bounds(line@, a as int);
    }
    let b = find_token_end(line, a);
    proof {
        lemma_skip_ws_bounds(line@, b as int);
    }
    let c = find_skip_ws(line, b);
    proof {
        lemma_token_end_bounds(line@, c as int);
    }
    let d = find_token_end(line, c);
    let magic: [u8; 20] = [79, 67, 69, 65, 78, 95, 83, 84, 82, 69, 65, 77, 95, 70, 79, 82, 77, 65, 84, 52];
    assert(magic@ =~= magic_word());
    if a >= line.len() || !crate::text::bytes_eq(&line[a..b], magic.as_slice()) {
        return Err(HeaderError::MagicHeader);
    }
    if c >= line.len() {
        return Err(HeaderError::MagicHeaderLength);
    }
    match parse_u64_range(line, c, d) {
        Some(v) => Ok(v),
        None => Err(HeaderError::MagicHeaderLength),
    }
}

/// The end of the magic line: one past its line feed, or the end of the data.
pub open spec fn line_end(data: Seq<u8>) -> int {
    if exists|i: int| 0 <= i < data.len() && data[i] == 10 {
        (choose|i: int| 0 <= i < data.len() && data[i] == 10 && forall|j: int| 0 <= j < i ==> data[j] != 10) + 1
    } else {
        data.len() as int
    }
}

/// The bytes of the XML document that follow the magic line, when the line
/// is well formed; at most `length` of them.
pub open spec fn spec_read_header(data: Seq<u8>) -> Result<Seq<u8>, HeaderError> {
    let e = line_end(data);
    let line = data.subrange(0, e);
    if !valid_utf8(line) {
        Err(HeaderError::MagicHeader)
    } else {
        match spec_magic_header(line) {
            Err(err) => Err(err),
            Ok(len) => {
                let end = if len >= data.len() - e { data.len() as int } else { e + len };
                let xml = data.subrange(e, end);
                if valid_utf8(xml) {
                    Ok(xml)
                } else {
                    Err(HeaderError::Io)
                }
            },
        }
    }
}

fn find_line_end(data: &[u8]) -> (r: usize)
    ensures
        r == line_end(data@),
        r <= data@.len(),
{
    let mut i: usize = 0;
    while i < data.len()
        invariant
            i <= data@.len(),
            forall|j: int| 0 <= j < i ==> data@[j] != 10,
        decreases data@.len() - i,
    {
        if data[i] == 10 {
            proof {
                let k = choose|k: int| 0 <= k < data@.len() && data@[k] == 10 && forall|j: int| 0 <= j < k ==> data@[j] != 10;
                assert(k == i) by {
                    if k < i {
                    } else if k > i {
                        assert(data@[i as int] != 10);
                    }
                }
            }
            return i + 1;
        }
        i = i + 1;
    }
    i
}

/// Reads the magic line and returns the XML document of the header, as text.
pub fn read_header(data: &[u8]) -> (r: Result<String, HeaderError>)
    ensures
        match r {
            Ok(xml) => spec_read_header(data@) matches Ok(x) && xml@ == decode_utf8(x),
            Err(e) => spec_read_header(data@) == Err::<Seq<u8>, HeaderError>(e),
        },
{
    let e = find_line_end(data);
    let line = &data[0..e];
    if utf8_decode(line).is_none() {
        return Err(HeaderError::MagicHeader);
    }
    let len = match magic_header(line) {
        Ok(len) => len,
        Err(err) => return Err(err),
    };
    let end = if len >= (data.len() - e) as u64 {
        data.len()
    } else {
        e + len as usize
    };
    match utf8_decode(&data[e..end]) {
        Some(xml) => Ok(xml),
        None => Err(HeaderError::Io),
    }
}

} // verus!
