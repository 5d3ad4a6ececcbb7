//! OSF over UDP.
//!
//! Every datagram starts with a packet id (`OSF40` header start, `OSF41`
//! header fragment, `OSF42` data), a big-endian `u64` timestamp and a
//! big-endian `u16` size. The header start carries the number of header
//! fragments, each fragment carries its index; once all fragments are in, the
//! assembled header is handed out, and data packets with the header's
//! timestamp are accepted from then on.
use vstd::prelude::*;
use crate::osf::block::{
    block_readable, block_result_err, block_result_ok, is_block_readable, spec_common, BlockError,
    OsfBlock, OsfBlockCommon,
};
use crate::osf::header::{magic_word, Channel};
use crate::wire::{be_at, bytes_start_with, read_u32_be, read_u64_be, read_u16_be, starts_with};

verus! {

/// The kind of a datagram.
pub enum OsfPacketId {
    HeaderHeader,
    HeaderData,
    Data,
}

/// The fixed part of every datagram.
pub struct OsfPacketInfo {
    pub id: OsfPacketId,
    pub timestamp: u64,
    pub data_size: u16,
}

/// Size of the fixed part of a datagram.
pub const PACKET_INFO_SIZE: usize = 15;

pub open spec fn osf_id(last: u8) -> Seq<u8> {
    seq![79u8, 83, 70, 52, last]
}

/// The kind of datagram that `p` announces, if it starts with a known id.
pub open spec fn packet_id(p: Seq<u8>) -> Option<OsfPacketId> {
    if starts_with(p, osf_id(48)) {
        Some(OsfPacketId::HeaderHeader)
    } else if starts_with(p, osf_id(49)) {
        Some(OsfPacketId::HeaderData)
    } else if starts_with(p, osf_id(50)) {
        Some(OsfPacketId::Data)
    } else {
        None
    }
}

impl OsfPacketId {
    /// Reads the packet id at the start of `p`.
    pub fn read(p: &[u8]) -> (r: Option<OsfPacketId>)
        ensures
            r == packet_id(p@),
    {
        let h: [u8; 5] = [79, 83, 70, 52, 48];
        let d: [u8; 5] = [79, 83, 70, 52, 49];
        let x: [u8; 5] = [79, 83, 70, 52, 50];
        assert(h@ =~= osf_id(48));
        assert(d@ =~= osf_id(49));
        assert(x@ =~= osf_id(50));
        if bytes_start_with(p, h.as_slice()) {
            Some(OsfPacketId::HeaderHeader)
        } else if bytes_start_with(p, d.as_slice()) {
            Some(OsfPacketId::HeaderData)
        } else if bytes_start_with(p, x.as_slice()) {
            Some(OsfPacketId::Data)
        } else {
            None
        }
    }
}

impl OsfPacketInfo {
    /// Reads the fixed part of a datagram: nothing but the id when the id is
    /// unknown.
    pub fn read(p: &[u8]) -> (r: Option<OsfPacketInfo>)
        requires
            p@.len() >= 5,
            packet_id(p@) is Some ==> p@.len() >= 15,
        ensures
            match r {
                Some(info) => packet_id(p@) == Some(info.id)
                    && info.timestamp == be_at(p@, 5, 8)
                    && info.data_size == be_at(p@, 13, 2),
                None => packet_id(p@) is None,
            },
    {
        let id = match OsfPacketId::read(p) {
            Some(id) => id,
            None => return None,
        };
        let timestamp = read_u64_be(p, 5);
        let data_size = read_u16_be(p, 13);
        Some(OsfPacketInfo { id, timestamp, data_size })
    }
}

/// Where a datagram stream is: assembling a header from fragments, or
/// accepting data.
pub enum State {
    Header { current_header_packets: usize, channel_data: Vec<Vec<u8>> },
    Data,
}

pub enum StateModel {
    Header { count: nat, fragments: Seq<Seq<u8>> },
    Data,
}

pub struct DatagramModel {
    pub header_timestamp: u64,
    pub state: StateModel,
}

/// The reassembly of OSF datagrams.
pub struct OsfDatagramStream {
    header_timestamp: u64,
    state: State,
}

/// What a datagram brought.
pub enum Step<'data> {
    /// The block data of a data packet.
    Blocks(&'data [u8]),
    /// A header fragment that did not complete the header.
    HeaderFrame,
    /// The start of a new header, with the number of its fragments.
    HeaderStart(u32),
    /// The completed header.
    FullHeader { bytes: Vec<u8> },
}

pub enum StepModel {
    Blocks(Seq<u8>),
    HeaderFrame,
    HeaderStart(u32),
    FullHeader(Seq<u8>),
}

impl<'data> View for Step<'data> {
    type V = StepModel;

    open spec fn view(&self) -> StepModel {
        match self {
            Step::Blocks(b) => StepModel::Blocks(b@),
            Step::HeaderFrame => StepModel::HeaderFrame,
            Step::HeaderStart(n) => StepModel::HeaderStart(*n),
            Step::FullHeader { bytes } => StepModel::FullHeader(bytes@),
        }
    }
}

/// What can go wrong while reading datagrams and the blocks in them.
#[allow(inconsistent_fields)]
pub enum DatagramError {
    /// A data packet whose timestamp is not that of the current header.
    StaleData { expected: u64, actual: u64 },
    /// A header fragment index beyond the announced number of fragments.
    HeaderRange { found: usize },
    /// A header start that is not newer than the current header, or a
    /// fragment of another header.
    StaleHeader { expected: u64, actual: u64 },
    /// A data packet while the header is still incomplete.
    EarlyData,
    NotEnoughForCommon,
    NotEnoughForData { actual: u32, needed: u32 },
    Block(BlockError),
    UnexpectedHeader,
}

/// The concatenation of the fragments, in order.
pub open spec fn flatten(s: Seq<Seq<u8>>) -> Seq<u8>
    decreases s.len(),
{
    if s.len() == 0 {
        Seq::empty()
    } else {
        flatten(s.drop_last()) + s.last()
    }
}

/// Whether a model is one that a stream can be in: a header in assembly has
/// fewer pieces in than announced, unless it announced none.
pub open spec fn model_wf(m: DatagramModel) -> bool {
    match m.state {
        StateModel::Header { count, fragments } => count < fragments.len() || (count == 0
            && fragments.len() == 0),
        StateModel::Data => true,
    }
}

/// The part of a datagram after the fixed part.
pub open spec fn payload(p: Seq<u8>) -> Seq<u8> {
    p.subrange(15, p.len() as int)
}

/// Whether feeding `p` in state `m` is defined: the datagram has a known id
/// and a complete fixed part, a header start has its count, and a header
/// fragment that is read has its index, which is not one past the last.
pub open spec fn feed_defined(m: DatagramModel, p: Seq<u8>) -> bool {
    &&& p.len() >= 15
    &&& packet_id(p) is Some
    &&& packet_id(p) == Some(OsfPacketId::HeaderHeader) ==> p.len() >= 19
    &&& packet_id(p) == Some(OsfPacketId::HeaderData) && be_at(p, 5, 8) == m.header_timestamp ==> match m.state {
        StateModel::Header { count, fragments } => p.len() >= 19 && be_at(p, 15, 4) != fragments.len(),
        StateModel::Data => true,
    }
}

/// The state after a datagram, and what it brought.
pub open spec fn spec_feed(m: DatagramModel, p: Seq<u8>) -> (DatagramModel, Result<StepModel, DatagramError>) {
    let ts = be_at(p, 5, 8) as u64;
    match packet_id(p) {
        Some(OsfPacketId::HeaderHeader) => {
            let n = be_at(p, 15, 4);
            if ts > m.header_timestamp {
                (
                    DatagramModel {
                        header_timestamp: ts,
                        state: StateModel::Header {
                            count: 0,
                            fragments: Seq::new(n, |i: int| Seq::<u8>::empty()),
                        },
                    },
                    Ok(StepModel::HeaderStart(n as u32)),
                )
            } else {
                (m, Err(DatagramError::StaleHeader { expected: m.header_timestamp, actual: ts }))
            }
        },
        Some(OsfPacketId::HeaderData) => {
            if ts != m.header_timestamp {
                (m, Err(DatagramError::StaleHeader { expected: m.header_timestamp, actual: ts }))
            } else {
                match m.state {
                    StateModel::Header { count, fragments } => {
                        let index = be_at(p, 15, 4);
                        let fragment = p.subrange(19, p.len() as int);
                        if index > fragments.len() {
                            (m, Err(DatagramError::HeaderRange { found: index as usize }))
                        } else if fragments[index as int].len() != 0 {
                            (m, Ok(StepModel::HeaderFrame))
                        } else {
                            let fragments2 = fragments.update(index as int, fragment);
                            if count + 1 == fragments.len() {
                                (
                                    DatagramModel { header_timestamp: m.header_timestamp, state: StateModel::Data },
                                    Ok(StepModel::FullHeader(flatten(fragments2))),
                                )
                            } else {
                                (
                                    DatagramModel {
                                        header_timestamp: m.header_timestamp,
                                        state: StateModel::Header { count: count + 1, fragments: fragments2 },
                                    },
                                    Ok(StepModel::HeaderFrame),
                                )
                            }
                        }
                    },
                    StateModel::Data => (m, Ok(StepModel::HeaderFrame)),
                }
            }
        },
        _ => {
            if ts != m.header_timestamp {
                (m, Err(DatagramError::StaleData { expected: m.header_timestamp, actual: ts }))
            } else {
                match m.state {
                    StateModel::Data => (m, Ok(StepModel::Blocks(payload(p)))),
                    StateModel::Header { .. } => (m, Err(DatagramError::EarlyData)),
                }
            }
        },
    }
}

pub open spec fn result_view<'a>(r: Result<Step<'a>, DatagramError>) -> Result<StepModel, DatagramError> {
    match r {
        Ok(s) => Ok(s@),
        Err(e) => Err(e),
    }
}

impl View for OsfDatagramStream {
    type V = DatagramModel;

    closed spec fn view(&self) -> DatagramModel {
        DatagramModel {
            header_timestamp: self.header_timestamp,
            state: match self.state {
                State::Header { current_header_packets, channel_data } => StateModel::Header {
                    count: current_header_packets as nat,
                    fragments: channel_data@.map_values(|v: Vec<u8>| v@),
                },
                State::Data => StateModel::Data,
            },
        }
    }
}

impl OsfDatagramStream {
    /// A stream that waits for a header.
    pub fn new() -> (r: Self)
        ensures
            r@ == (DatagramModel {
                header_timestamp: 0,
                state: StateModel::Header { count: 0, fragments: Seq::empty() },
            }),
            model_wf(r@),
    {
        let r = OsfDatagramStream {
            header_timestamp: 0,
            state: State::Header { current_header_packets: 0, channel_data: Vec::new() },
        };
        assert(r@.state->fragments =~= Seq::<Seq<u8>>::empty());
        r
    }

    /// Computes `feed_defined`, so that a caller can refuse a datagram that
    /// `feed` is not defined on.
    pub fn accepts(&self, packet: &[u8]) -> (r: bool)
        ensures
            r == feed_defined(self@, packet@),
    {
        if packet.len() < 15 {
            return false;
        }
        let id = match OsfPacketId::read(packet) {
            Some(id) => id,
            None => return false,
        };
        match id {
            OsfPacketId::HeaderHeader => packet.len() >= 19,
            OsfPacketId::HeaderData => {
                let ts = read_u64_be(packet, 5);
                if ts != self.header_timestamp {
                    return true;
                }
                match &self.state {
                    State::Header { channel_data, .. } => {
                        if packet.len() < 19 {
                            return false;
                        }
                        let index = read_u32_be(packet, 15) as usize;
                        index != channel_data.len()
                    },
                    State::Data => true,
                }
            },
            OsfPacketId::Data => true,
        }
    }

    fn header_header(&mut self, info: OsfPacketInfo, packet: &[u8]) -> (r: Result<u32, DatagramError>)
        requires
            packet@.len() >= 4,
        ensures
            info.timestamp > old(self)@.header_timestamp ==> r == Ok::<u32, DatagramError>(
                be_at(packet@, 0, 4) as u32,
            ) && final(self)@ == (DatagramModel {
                header_timestamp: info.timestamp,
                state: StateModel::Header {
                    count: 0,
                    fragments: Seq::new(be_at(packet@, 0, 4), |i: int| Seq::<u8>::empty()),
                },
            }),
            info.timestamp <= old(self)@.header_timestamp ==> r == Err::<u32, DatagramError>(
                DatagramError::StaleHeader { expected: old(self)@.header_timestamp, actual: info.timestamp },
            ) && final(self)@ == old(self)@,
    {
        let header_packet_count = read_u32_be(packet, 0);
        if info.timestamp > self.header_timestamp {
            let mut channel_data: Vec<Vec<u8>> = Vec::new();
            let mut i: u32 = 0;
            while i < header_packet_count
                invariant
                    i <= header_packet_count,
                    channel_data@.len() == i,
                    forall|j: int| 0 <= j < i ==> (#[trigger] channel_data@[j])@ == Seq::<u8>::empty(),
                decreases header_packet_count - i,
            {
                channel_data.push(Vec::new());
                i = i + 1;
            }
            self.state = State::Header { current_header_packets: 0, channel_data };
            self.header_timestamp = info.timestamp;
            assert(self@.state->fragments =~= Seq::new(
                be_at(packet@, 0, 4),
                |i: int| Seq::<u8>::empty(),
            ));
            Ok(header_packet_count)
        } else {
            Err(DatagramError::StaleHeader { expected: self.header_timestamp, actual: info.timestamp })
        }
    }

    fn header_data<'data>(&mut self, info: OsfPacketInfo, packet: &'data [u8]) -> (r: Result<Step<'data>, DatagramError>)
        requires
            model_wf(old(self)@),
            info.timestamp == old(self)@.header_timestamp ==> match old(self)@.state {
                StateModel::Header { count, fragments } => packet@.len() >= 4 && be_at(packet@, 0, 4)
                    != fragments.len(),
                StateModel::Data => true,
            },
        ensures
            model_wf(final(self)@),
            (final(self)@, result_view(r)) == spec_header_data(old(self)@, info.timestamp, packet@),
    {
        if info.timestamp != self.header_timestamp {
            return Err(DatagramError::StaleHeader { actual: info.timestamp, expected: self.header_timestamp });
        }
        let mut st = State::Data;
        core::mem::swap(&mut st, &mut self.state);
        match st {
            State::Header { mut channel_data, current_header_packets } => {
                let ghost frags = channel_data@.map_values(|v: Vec<u8>| v@);
                let index = read_u32_be(packet, 0) as usize;
                if index > channel_data.len() {
                    self.state = State::Header { channel_data, current_header_packets };
                    return Err(DatagramError::HeaderRange { found: index });
                }
                if channel_data[index].len() == 0 {
                    let fragment = crate::wire::copy_range(packet, 4, packet.len());
                    channel_data.set(index, fragment);
                    let count = current_header_packets + 1;
                    assert(channel_data@.map_values(|v: Vec<u8>| v@) =~= frags.update(
                        index as int,
                        packet@.subrange(4, packet@.len() as int),
                    ));
                    if count == channel_data.len() {
                        let header_data = concat(&channel_data);
                        return Ok(Step::FullHeader { bytes: header_data });
                    }
                    self.state = State::Header { channel_data, current_header_packets: count };
                } else {
                    self.state = State::Header { channel_data, current_header_packets };
                }
                Ok(Step::HeaderFrame)
            },
            State::Data => {
                Ok(Step::HeaderFrame)
            },
        }
    }

    fn data<'d>(&mut self, info: OsfPacketInfo, packet: &'d [u8]) -> (r: Result<&'d [u8], DatagramError>)
        ensures
            final(self)@ == old(self)@,
            info.timestamp != old(self)@.header_timestamp ==> r == Err::<&[u8], DatagramError>(
                DatagramError::StaleData { expected: old(self)@.header_timestamp, actual: info.timestamp },
            ),
            info.timestamp == old(self)@.header_timestamp ==> match old(self)@.state {
                StateModel::Data => r matches Ok(b) && b@ == packet@,
                StateModel::Header { .. } => r == Err::<&[u8], DatagramError>(DatagramError::EarlyData),
            },
    {
        if info.timestamp != self.header_timestamp {
            return Err(DatagramError::StaleData { expected: self.header_timestamp, actual: info.timestamp });
        }
        match &self.state {
            State::Data => Ok(packet),
            State::Header { .. } => Err(DatagramError::EarlyData),
        }
    }

    /// Takes in one datagram.
    pub fn feed<'data>(&mut self, packet: &'data [u8]) -> (r: Result<Step<'data>, DatagramError>)
        requires
            model_wf(old(self)@),
            feed_defined(old(self)@, packet@),
        ensures
            model_wf(final(self)@),
            (final(self)@, result_view(r)) == spec_feed(old(self)@, packet@),
    {
        let info = OsfPacketInfo::read(packet).unwrap();
        let rest = &packet[15..packet.len()];
        proof {
            if packet@.len() >= 19 {
                assert forall|k: int| 0 <= k < 4 implies rest@[k] == packet@[15 + k] by {}
                lemma_be_at_shift(packet@, rest@, 15, 4);
            }
        }
        match info.id {
            OsfPacketId::HeaderHeader => {
                let packet_count = match self.header_header(info, rest) {
                    Ok(n) => n,
                    Err(e) => return Err(e),
                };
                Ok(Step::HeaderStart(packet_count))
            },
            OsfPacketId::HeaderData => {
                proof {
                    if packet@.len() >= 19 {
                        assert(rest@.subrange(4, rest@.len() as int) =~= packet@.subrange(19, packet@.len() as int));
                    }
                }
                self.header_data(info, rest)
            },
            OsfPacketId::Data => {
                match self.data(info, rest) {
                    Ok(blocks) => Ok(Step::Blocks(blocks)),
                    Err(e) => Err(e),
                }
            },
        }
    }
}

/// Taking in a header fragment: `spec_feed` for `OSF41`, on the datagram
/// without its fixed part.
pub open spec fn spec_header_data(m: DatagramModel, ts: u64, rest: Seq<u8>) -> (DatagramModel, Result<StepModel, DatagramError>) {
    if ts != m.header_timestamp {
        (m, Err(DatagramError::StaleHeader { expected: m.header_timestamp, actual: ts }))
    } else {
        match m.state {
            StateModel::Header { count, fragments } => {
                let index = be_at(rest, 0, 4);
                let fragment = rest.subrange(4, rest.len() as int);
                if index > fragments.len() {
                    (m, Err(DatagramError::HeaderRange { found: index as usize }))
                } else if fragments[index as int].len() != 0 {
                    (m, Ok(StepModel::HeaderFrame))
                } else {
                    let fragments2 = fragments.update(index as int, fragment);
                    if count + 1 == fragments.len() {
                        (
                            DatagramModel { header_timestamp: m.header_timestamp, state: StateModel::Data },
                            Ok(StepModel::FullHeader(flatten(fragments2))),
                        )
                    } else {
                        (
                            DatagramModel {
                                header_timestamp: m.header_timestamp,
                                state: StateModel::Header { count: count + 1, fragments: fragments2 },
                            },
                            Ok(StepModel::HeaderFrame),
                        )
                    }
                }
            },
            StateModel::Data => (m, Ok(StepModel::HeaderFrame)),
        }
    }
}

proof fn lemma_be_at_shift(p: Seq<u8>, r: Seq<u8>, off: int, n: nat)
    requires
        0 <= off,
        off + n <= p.len(),
        n <= r.len(),
        forall|k: int| 0 <= k < n ==> r[k] == p[off + k],
    ensures
        be_at(r, 0, n) == be_at(p, off, n),
    decreases n,
{
    if n > 0 {
        lemma_be_at_shift(p, r, off, (n - 1) as nat);
    }
}

/// The concatenation of the header fragments.
fn concat(fragments: &Vec<Vec<u8>>) -> (r: Vec<u8>)
    ensures
        r@ == flatten(fragments@.map_values(|v: Vec<u8>| v@)),
{
    let ghost all = fragments@.map_values(|v: Vec<u8>| v@);
    let mut out: Vec<u8> = Vec::new();
    let mut i: usize = 0;
    while i < fragments.len()
        invariant
            i <= fragments@.len(),
            all == fragments@.map_values(|v: Vec<u8>| v@),
            out@ == flatten(all.take(i as int)),
        decreases fragments@.len() - i,
    {
        let frag = &fragments[i];
        let mut j: usize = 0;
        let ghost before = out@;
        while j < frag.len()
            invariant
                j <= frag@.len(),
                out@ == before + frag@.take(j as int),
            decreases frag@.len() - j,
        {
            out.push(frag[j]);
            j = j + 1;
            assert(out@ =~= before + frag@.take(j as int));
        }
        assert(frag@.take(j as int) =~= frag@);
        assert(all.take(i + 1).drop_last() =~= all.take(i as int));
        i = i + 1;
    }
    assert(all.take(i as int) =~= all);
    out
}

/// The sum of the lengths of the chunks from `k` on.
pub open spec fn sum_from(d: Seq<Seq<u8>>, k: int) -> nat
    decreases d.len() - k,
{
    if k < 0 || k >= d.len() {
        0
    } else {
        d[k].len() + sum_from(d, k + 1)
    }
}

/// A reader over a list of byte chunks, as if they were one buffer.
pub struct ChunkedBuf<'a> {
    offset: usize,
    local_offset: usize,
    channel_data: &'a [Vec<u8>],
}

impl<'a> ChunkedBuf<'a> {
    /// The chunks, each by its bytes.
    pub closed spec fn chunks(&self) -> Seq<Seq<u8>> {
        self.channel_data@.map_values(|v: Vec<u8>| v@)
    }

    /// The number of bytes not yet read.
    pub closed spec fn rest(&self) -> nat {
        (sum_from(self.chunks(), self.offset as int) - self.local_offset) as nat
    }

    /// The bytes of the current chunk that are not yet read.
    pub closed spec fn current(&self) -> Seq<u8> {
        if self.offset >= self.channel_data@.len() {
            Seq::empty()
        } else {
            self.chunks()[self.offset as int].subrange(self.local_offset as int, self.chunks()[self.offset as int].len() as int)
        }
    }

    /// The bytes of the current chunk that were already read.
    pub closed spec fn local_bytes_read(&self) -> nat {
        self.local_offset as nat
    }

    pub closed spec fn wf(&self) -> bool {
        &&& self.offset <= self.channel_data@.len()
        &&& self.offset < self.channel_data@.len() ==> self.local_offset <= self.channel_data@[self.offset as int]@.len()
        &&& self.offset == self.channel_data@.len() ==> self.local_offset == 0
    }

    /// A reader at the start of the first chunk.
    pub fn new(channel_data: &'a [Vec<u8>]) -> (r: Self)
        ensures
            r.wf(),
            r.chunks() == channel_data@.map_values(|v: Vec<u8>| v@),
            r.rest() == sum_from(r.chunks(), 0),
    {
        ChunkedBuf { offset: 0, local_offset: 0, channel_data }
    }

    /// The number of bytes not yet read.
    pub fn remaining(&self) -> (r: usize)
        requires
            self.wf(),
            self.rest() + self.local_bytes_read() <= usize::MAX,
        ensures
            r == self.rest(),
    {
        if self.offset == self.channel_data.len() {
            return 0;
        }
        let mut total: usize = 0;
        let mut k = self.channel_data.len();
        while k > self.offset
            invariant
                self.offset < k <= self.channel_data@.len() || k == self.offset,
                self.offset <= k <= self.channel_data@.len(),
                total == sum_from(self.chunks(), k as int),
                sum_from(self.chunks(), self.offset as int) <= usize::MAX,
            decreases k,
        {
            k = k - 1;
            proof {
                lemma_sum_from_mono(self.chunks(), self.offset as int, k as int);
            }
            total = total + self.channel_data[k].len();
        }
        total - self.local_offset
    }

    /// The unread bytes of the current chunk.
    pub fn chunk(&self) -> (r: &[u8])
        requires
            self.wf(),
        ensures
            r@ == self.current(),
    {
        if self.offset == self.channel_data.len() {
            &[]
        } else {
            let c = &self.channel_data[self.offset];
            &c.as_slice()[self.local_offset..c.len()]
        }
    }

    /// Skips `cnt` bytes, or all that are left.
    pub fn advance(&mut self, cnt: usize)
        requires
            old(self).wf(),
        ensures
            final(self).wf(),
            final(self).chunks() == old(self).chunks(),
            final(self).rest() == (if cnt >= old(self).rest() { 0 } else { old(self).rest() - cnt }),
    {
        let mut left = cnt;
        let ghost start = self.rest();
        while left > 0
            invariant
                self.wf(),
                self.chunks() == old(self).chunks(),
                self.channel_data == old(self).channel_data,
                start == old(self).rest(),
                left <= cnt,
                self.rest() + cnt - left == start,
            decreases self.channel_data@.len() - self.offset, left,
        {
            if self.offset == self.channel_data.len() {
                proof {
                    assert(self.rest() == 0);
                }
                return;
            }
            let local_remaining = self.channel_data[self.offset].len() - self.local_offset;
            if local_remaining > left {
                self.local_offset = self.local_offset + left;
                left = 0;
            } else {
                left = left - local_remaining;
                self.local_offset = 0;
                self.offset = self.offset + 1;
            }
        }
    }
}

proof fn lemma_sum_from_mono(d: Seq<Seq<u8>>, i: int, k: int)
    requires
        0 <= i <= k,
    ensures
        sum_from(d, k) <= sum_from(d, i),
    decreases k - i,
{
    if i < k {
        lemma_sum_from_mono(d, i + 1, k);
    }
}

/// A decoder of the blocks in the data of a data packet.
pub struct OsfBlockDecoder<'a, 'b> {
    pub packet: &'a [u8],
    pub channels: &'b [Channel],
}

/// The data size that a common part announces.
pub open spec fn spec_data_size(c: OsfBlockCommon) -> nat {
    if c.block_length >= 1 {
        (c.block_length - 1) as nat
    } else {
        0
    }
}

/// The number of bytes that a failed block read took from the packet.
pub open spec fn error_consumed(c: OsfBlockCommon, e: BlockError) -> int {
    match e {
        BlockError::UnsuportedType(_) => if c.control_character == crate::osf::block::GENERIC_SINGLE_VALUE {
            8
        } else {
            12
        },
        _ => 0,
    }
}

/// Whether decoding the next block is defined: once the common part and the
/// announced data size are there, the block's samples must be there too.
pub open spec fn decode_defined(p: Seq<u8>, channels: Seq<Channel>) -> bool {
    (p.len() >= 7 && !starts_with(p, magic_word()) && p.len() - 7 >= spec_data_size(spec_common(p, 0)))
        ==> block_readable(spec_common(p, 0), channels, p.subrange(7, p.len() as int), 0)
}

/// What decoding the next block of `p` gives, and what is left of `p`
/// after it: nothing at the end; an error, without moving, for a header or
/// a short common part; an error after the common part when the announced
/// data is not there; otherwise the block and the rest after it, or the
/// block's error and the rest after the bytes its reading took.
pub open spec fn decode_step(
    p: Seq<u8>,
    channels: Seq<Channel>,
    r: Result<Option<OsfBlock>, DatagramError>,
    after: Seq<u8>,
) -> bool {
    let c = spec_common(p, 0);
    let rest = p.subrange(7, p.len() as int);
    if p.len() == 0 {
        r matches Ok(None) && after == p
    } else if starts_with(p, magic_word()) {
        r matches Err(DatagramError::UnexpectedHeader) && after == p
    } else if p.len() < 7 {
        r matches Err(DatagramError::NotEnoughForCommon) && after == p
    } else if rest.len() < spec_data_size(c) {
        r == Err::<Option<OsfBlock>, DatagramError>(
            DatagramError::NotEnoughForData { actual: rest.len() as u32, needed: spec_data_size(c) as u32 },
        ) && after == rest
    } else {
        match r {
            Ok(Some(block)) => exists|next: int|
                block_result_ok(c, channels, rest, 0, block, next) && #[trigger] rest.subrange(
                    next,
                    rest.len() as int,
                ) == after,
            Err(DatagramError::Block(e)) => block_result_err(c, channels, rest, 0, e) && after == rest.subrange(
                error_consumed(c, e),
                rest.len() as int,
            ),
            _ => false,
        }
    }
}

impl<'a, 'b> OsfBlockDecoder<'a, 'b> {
    pub fn new(packet: &'a [u8], channels: &'b [Channel]) -> (r: Self)
        ensures
            r.packet == packet,
            r.channels == channels,
    {
        OsfBlockDecoder { packet, channels }
    }

    /// Computes `decode_defined`, so that a caller can stop before a block
    /// that decoding is not defined on.
    pub fn can_decode(&self) -> (r: bool)
        ensures
            r == decode_defined(self.packet@, self.channels@),
    {
        let p = self.packet;
        let magic: [u8; 20] = [79, 67, 69, 65, 78, 95, 83, 84, 82, 69, 65, 77, 95, 70, 79, 82, 77, 65, 84, 52];
        assert(magic@ =~= magic_word());
        if p.len() < 7 || bytes_start_with(p, magic.as_slice()) {
            return true;
        }
        let common = OsfBlockCommon::read(p);
        let rest = &p[7..p.len()];
        if ((rest.len() as u64) < common.data_size()) {
            return true;
        }
        let r = is_block_readable(&common, self.channels, rest, 0);
        r
    }

    /// Decodes the next block and moves past it: `None` at the end of the
    /// packet.
    pub fn decode_block(&mut self) -> (r: Result<Option<OsfBlock>, DatagramError>)
        requires
            decode_defined(old(self).packet@, old(self).channels@),
        ensures
            final(self).channels == old(self).channels,
            decode_step(old(self).packet@, old(self).channels@, r, final(self).packet@),
    {
        let magic: [u8; 20] = [79, 67, 69, 65, 78, 95, 83, 84, 82, 69, 65, 77, 95, 70, 79, 82, 77, 65, 84, 52];
        assert(magic@ =~= magic_word());
        if self.packet.len() == 0 {
            return Ok(None);
        } else if bytes_start_with(self.packet, magic.as_slice()) {
            return Err(DatagramError::UnexpectedHeader);
        } else if self.packet.len() < OsfBlockCommon::encoded_size() {
            return Err(DatagramError::NotEnoughForCommon);
        }
        let common = OsfBlockCommon::read(self.packet);
        self.packet = &self.packet[7..self.packet.len()];
        if (self.packet.len() as u64) < common.data_size() {
            return Err(DatagramError::NotEnoughForData {
                actual: self.packet.len() as u32,
                needed: common.data_size() as u32,
            });
        }
        let rest = self.packet;
        let ghost cc = common;
        let control = common.control_character;
        match OsfBlock::read(common, self.channels, rest, 0) {
            Ok((block, next)) => {
                self.packet = &rest[next..rest.len()];
                Ok(Some(block))
            },
            Err(e) => {
                let consumed: usize = match &e {
                    BlockError::UnsuportedType(_) => if control == crate::osf::block::GENERIC_SINGLE_VALUE {
                        8
                    } else {
                        12
                    },
                    _ => 0,
                };
                self.packet = &rest[consumed..rest.len()];
                Err(DatagramError::Block(e))
            },
        }
    }

    /// The next block, as an iterator would hand it out.
    pub fn next(&mut self) -> (r: Option<Result<OsfBlock, DatagramError>>)
        requires
            decode_defined(old(self).packet@, old(self).channels@),
        ensures
            final(self).channels == old(self).channels,
            decode_step(
                old(self).packet@,
                old(self).channels@,
                match r {
                    None => Ok(None),
                    Some(Ok(b)) => Ok(Some(b)),
                    Some(Err(e)) => Err(e),
                },
                final(self).packet@,
            ),
    {
        match self.decode_block() {
            Ok(None) => None,
            Ok(Some(b)) => Some(Ok(b)),
            Err(e) => Some(Err(e)),
        }
    }
}

/// The header timestamp of a stream never goes back.
pub proof fn lemma_feed_timestamp_monotone(m: DatagramModel, p: Seq<u8>)
    ensures
        spec_feed(m, p).0.header_timestamp >= m.header_timestamp,
{
}

/// Block data comes only from a data datagram of the current header, once
/// that header is complete, and leaves the stream as it was.
pub proof fn lemma_blocks_only_after_header(m: DatagramModel, p: Seq<u8>)
    requires
        feed_defined(m, p),
    ensures
        spec_feed(m, p).1 matches Ok(StepModel::Blocks(b)) ==> {
            &&& packet_id(p) == Some(OsfPacketId::Data)
            &&& be_at(p, 5, 8) as u64 == m.header_timestamp
            &&& m.state is Data
            &&& b == payload(p)
            &&& spec_feed(m, p).0 == m
        },
{
}

/// A datagram that is refused leaves the stream as it was.
pub proof fn lemma_error_leaves_stream(m: DatagramModel, p: Seq<u8>)
    ensures
        spec_feed(m, p).1 is Err ==> spec_feed(m, p).0 == m,
{
}

/// Feeding datagrams one after another: the state after the last, and what
/// each brought.
pub open spec fn feed_all(m: DatagramModel, ps: Seq<Seq<u8>>) -> (DatagramModel, Seq<Result<StepModel, DatagramError>>)
    decreases ps.len(),
{
    if ps.len() == 0 {
        (m, Seq::empty())
    } else {
        let (mk, rs) = feed_all(m, ps.drop_last());
        let (m2, r) = spec_feed(mk, ps.last());
        (m2, rs.push(r))
    }
}

/// The state right after a header start with timestamp `ts` that announced
/// `n` fragments.
pub open spec fn header_started(ts: u64, n: nat) -> DatagramModel {
    DatagramModel {
        header_timestamp: ts,
        state: StateModel::Header { count: 0, fragments: Seq::new(n, |i: int| Seq::<u8>::empty()) },
    }
}

/// Whether `p` is fragment `index` of the header with timestamp `ts`, and
/// holds `fragment`.
pub open spec fn is_fragment(p: Seq<u8>, ts: u64, index: int, fragment: Seq<u8>) -> bool {
    &&& p.len() >= 19
    &&& packet_id(p) == Some(OsfPacketId::HeaderData)
    &&& be_at(p, 5, 8) == ts
    &&& be_at(p, 15, 4) == index
    &&& p.subrange(19, p.len() as int) == fragment
}

/// Whether some entry of `perm` is `i`.
pub open spec fn covered(perm: Seq<int>, i: int) -> bool {
    exists|j: int| 0 <= j < perm.len() && perm[j] == i
}

/// The fragments in place after the datagrams for `perm[0..k]` came in.
pub open spec fn filled(frags: Seq<Seq<u8>>, perm: Seq<int>, k: int) -> Seq<Seq<u8>>
    decreases k,
{
    if k <= 0 {
        Seq::new(frags.len(), |i: int| Seq::<u8>::empty())
    } else {
        filled(frags, perm, k - 1).update(perm[k - 1], frags[perm[k - 1]])
    }
}

proof fn lemma_filled(frags: Seq<Seq<u8>>, perm: Seq<int>, k: int)
    requires
        0 <= k <= perm.len(),
        forall|j: int| 0 <= j < perm.len() ==> 0 <= #[trigger] perm[j] < frags.len(),
    ensures
        filled(frags, perm, k).len() == frags.len(),
        forall|i: int| 0 <= i < frags.len() && (exists|j: int| 0 <= j < k && perm[j] == i) ==> #[trigger] filled(
            frags,
            perm,
            k,
        )[i] == frags[i],
        forall|i: int| 0 <= i < frags.len() && (forall|j: int| 0 <= j < k ==> perm[j] != i) ==> #[trigger] filled(
            frags,
            perm,
            k,
        )[i] == Seq::<u8>::empty(),
    decreases k,
{
    if k > 0 {
        lemma_filled(frags, perm, k - 1);
        let f = filled(frags, perm, k);
        assert forall|i: int| 0 <= i < frags.len() && (exists|j: int| 0 <= j < k && perm[j] == i) implies #[trigger] f[i]
            == frags[i] by {
            if i != perm[k - 1] {
                let j = choose|j: int| 0 <= j < k && perm[j] == i;
                assert(0 <= j < k - 1 && perm[j] == i);
            }
        }
    }
}

/// The stream after `k` fragments of a header in assembly, none repeated:
/// still assembling, with those fragments in place, each answered as a
/// fragment that did not complete the header.
proof fn lemma_fragments_prefix(ts: u64, frags: Seq<Seq<u8>>, perm: Seq<int>, ps: Seq<Seq<u8>>, k: int)
    requires
        frags.len() > 0,
        ps.len() == frags.len(),
        perm.len() == frags.len(),
        0 <= k < frags.len(),
        forall|i: int| 0 <= i < frags.len() ==> (#[trigger] frags[i]).len() > 0,
        forall|j: int| 0 <= j < perm.len() ==> 0 <= #[trigger] perm[j] < frags.len(),
        forall|j1: int, j2: int| 0 <= j1 < j2 < perm.len() ==> perm[j1] != perm[j2],
        forall|j: int| 0 <= j < ps.len() ==> is_fragment(#[trigger] ps[j], ts, perm[j], frags[perm[j]]),
    ensures
        feed_all(header_started(ts, frags.len()), ps.take(k)) == (
            DatagramModel {
                header_timestamp: ts,
                state: StateModel::Header { count: k as nat, fragments: filled(frags, perm, k) },
            },
            Seq::new(k as nat, |j: int| Ok::<StepModel, DatagramError>(StepModel::HeaderFrame)),
        ),
    decreases k,
{
    let n = frags.len();
    if k == 0 {
        assert(ps.take(0) =~= Seq::<Seq<u8>>::empty());
        assert(Seq::new(0, |j: int| Ok::<StepModel, DatagramError>(StepModel::HeaderFrame)) =~= Seq::<
            Result<StepModel, DatagramError>,
        >::empty());
        assert(filled(frags, perm, 0) =~= Seq::new(n, |i: int| Seq::<u8>::empty()));
    } else {
        lemma_fragments_prefix(ts, frags, perm, ps, k - 1);
        lemma_filled(frags, perm, k - 1);
        assert(ps.take(k).drop_last() =~= ps.take(k - 1));
        assert(ps.take(k).last() == ps[k - 1]);
        let p = ps[k - 1];
        assert(is_fragment(p, ts, perm[k - 1], frags[perm[k - 1]]));
        let g = filled(frags, perm, k - 1);
        assert forall|j: int| 0 <= j < k - 1 implies #[trigger] perm[j] != perm[k - 1] by {}
        assert(g[perm[k - 1]] == Seq::<u8>::empty());
        assert(Seq::new(k as nat, |j: int| Ok::<StepModel, DatagramError>(StepModel::HeaderFrame)) =~= Seq::new(
            (k - 1) as nat,
            |j: int| Ok::<StepModel, DatagramError>(StepModel::HeaderFrame),
        ).push(Ok(StepModel::HeaderFrame)));
    }
}

/// After a header start that announced `n` fragments, the `n` fragments,
/// each once and in any order, leave the stream accepting data and bring
/// the header exactly once, at the last fragment: the fragments joined in
/// the order of their indices.
pub proof fn lemma_header_reassembly(ts: u64, frags: Seq<Seq<u8>>, perm: Seq<int>, ps: Seq<Seq<u8>>)
    requires
        frags.len() > 0,
        ps.len() == frags.len(),
        perm.len() == frags.len(),
        forall|i: int| 0 <= i < frags.len() ==> (#[trigger] frags[i]).len() > 0,
        forall|j: int| 0 <= j < perm.len() ==> 0 <= #[trigger] perm[j] < frags.len(),
        forall|j1: int, j2: int| 0 <= j1 < j2 < perm.len() ==> perm[j1] != perm[j2],
        forall|i: int| 0 <= i < frags.len() ==> #[trigger] covered(perm, i),
        forall|j: int| 0 <= j < ps.len() ==> is_fragment(#[trigger] ps[j], ts, perm[j], frags[perm[j]]),
    ensures
        feed_all(header_started(ts, frags.len()), ps) == (
            DatagramModel { header_timestamp: ts, state: StateModel::Data },
            Seq::new(
                frags.len(),
                |j: int| if j < frags.len() - 1 {
                    Ok::<StepModel, DatagramError>(StepModel::HeaderFrame)
                } else {
                    Ok::<StepModel, DatagramError>(StepModel::FullHeader(flatten(frags)))
                },
            ),
        ),
{
    let n = frags.len() as int;
    lemma_fragments_prefix(ts, frags, perm, ps, n - 1);
    lemma_filled(frags, perm, n - 1);
    lemma_filled(frags, perm, n);
    assert(ps.take(n) =~= ps);
    assert(ps.take(n).drop_last() =~= ps.take(n - 1));
    let p = ps[n - 1];
    assert(is_fragment(p, ts, perm[n - 1], frags[perm[n - 1]]));
    let g = filled(frags, perm, n - 1);
    assert forall|j: int| 0 <= j < n - 1 implies #[trigger] perm[j] != perm[n - 1] by {}
    assert(g[perm[n - 1]] == Seq::<u8>::empty());
    assert(filled(frags, perm, n) =~= frags) by {
        assert forall|i: int| 0 <= i < n implies #[trigger] filled(frags, perm, n)[i] == frags[i] by {
            assert(covered(perm, i));
        }
    }
    assert(Seq::new(
        frags.len(),
        |j: int| if j < frags.len() - 1 {
            Ok::<StepModel, DatagramError>(StepModel::HeaderFrame)
        } else {
            Ok::<StepModel, DatagramError>(StepModel::FullHeader(flatten(frags)))
        },
    ) =~= Seq::new((n - 1) as nat, |j: int| Ok::<StepModel, DatagramError>(StepModel::HeaderFrame)).push(
        Ok(StepModel::FullHeader(flatten(frags))),
    ));
}

} // verus!
