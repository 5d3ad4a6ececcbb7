//! A replica's own load generator: it runs a test program, cycling through
//! its steps, and turns each step into the requests this replica submits.
use vstd::prelude::*;
use crate::broadcaster::program::Kind;

verus! {

/// Byte `k` (0 first) of the big-endian form of `x`.
pub open spec fn be_byte(x: u64, k: int) -> u8 {
    ((x >> (((7 - k) * 8) as u64)) & 0xff) as u8
}

/// Byte `k` (0 first) of the little-endian form of `x`.
pub open spec fn le_byte(x: u64, k: int) -> u8 {
    ((x >> ((k * 8) as u64)) & 0xff) as u8
}

/// The size of a generated payload: the configured size, but at least 16.
pub open spec fn payload_len(payload_size: usize) -> nat {
    if payload_size >= 16 {
        payload_size as nat
    } else {
        16
    }
}

/// The big-endian bytes of `sequence`, repeated to the payload's size.
pub open spec fn spec_payload(sequence: u64, payload_size: usize) -> Seq<u8> {
    Seq::new(payload_len(payload_size), |k: int| be_byte(sequence, k % 8))
}

/// The payload of an extra request: that of `sequence`, with bytes 8 to 15
/// the big-endian bytes of `i`.
pub open spec fn spec_apayload(sequence: u64, payload_size: usize, i: u64) -> Seq<u8> {
    Seq::new(
        payload_len(payload_size),
        |k: int| if 8 <= k < 16 {
            be_byte(i, k - 8)
        } else {
            be_byte(sequence, k % 8)
        },
    )
}

/// The payload of a corrupted request: the little-endian bytes of
/// `sequence`, repeated to the payload's size.
pub open spec fn spec_cpayload(sequence: u64, payload_size: usize) -> Seq<u8> {
    Seq::new(payload_len(payload_size), |k: int| le_byte(sequence, k % 8))
}

fn be_byte_at(x: u64, k: usize) -> (r: u8)
    requires
        k < 8,
    ensures
        r == be_byte(x, k as int),
{
    ((x >> ((7 - k as u64) * 8)) & 0xff) as u8
}

fn le_byte_at(x: u64, k: usize) -> (r: u8)
    requires
        k < 8,
    ensures
        r == le_byte(x, k as int),
{
    ((x >> ((k as u64) * 8)) & 0xff) as u8
}

fn payload_size_of(payload_size: usize) -> (r: usize)
    ensures
        r == payload_len(payload_size),
{
    if payload_size >= 16 {
        payload_size
    } else {
        16
    }
}

/// The payload of the request with sequence number `sequence`.
pub fn make_payload(sequence: u64, payload_size: usize) -> (r: Vec<u8>)
    ensures
        r@ == spec_payload(sequence, payload_size),
{
    let n = payload_size_of(payload_size);
    let mut v: Vec<u8> = Vec::new();
    let mut k: usize = 0;
    while k < n
        invariant
            k <= n,
            n == payload_len(payload_size),
            v@ == spec_payload(sequence, payload_size).take(k as int),
        decreases n - k,
    {
        v.push(be_byte_at(sequence, k % 8));
        k = k + 1;
        assert(v@ =~= spec_payload(sequence, payload_size).take(k as int));
    }
    assert(v@ =~= spec_payload(sequence, payload_size));
    v
}

/// The payload of the `i`-th extra request with sequence number `sequence`.
pub fn make_apayload(sequence: u64, payload_size: usize, i: u64) -> (r: Vec<u8>)
    ensures
        r@ == spec_apayload(sequence, payload_size, i),
{
    let n = payload_size_of(payload_size);
    let mut v: Vec<u8> = Vec::new();
    let mut k: usize = 0;
    while k < n
        invariant
            k <= n,
            n == payload_len(payload_size),
            v@ == spec_apayload(sequence, payload_size, i).take(k as int),
        decreases n - k,
    {
        let b = if 8 <= k && k < 16 { be_byte_at(i, k - 8) } else { be_byte_at(sequence, k % 8) };
        v.push(b);
        k = k + 1;
        assert(v@ =~= spec_apayload(sequence, payload_size, i).take(k as int));
    }
    assert(v@ =~= spec_apayload(sequence, payload_size, i));
    v
}

/// The corrupted payload of the request with sequence number `sequence`.
pub fn make_cpayload(sequence: u64, payload_size: usize) -> (r: Vec<u8>)
    ensures
        r@ == spec_cpayload(sequence, payload_size),
{
    let n = payload_size_of(payload_size);
    let mut v: Vec<u8> = Vec::new();
    let mut k: usize = 0;
    while k < n
        invariant
            k <= n,
            n == payload_len(payload_size),
            v@ == spec_cpayload(sequence, payload_size).take(k as int),
        decreases n - k,
    {
        v.push(le_byte_at(sequence, k % 8));
        k = k + 1;
        assert(v@ =~= spec_cpayload(sequence, payload_size).take(k as int));
    }
    assert(v@ =~= spec_cpayload(sequence, payload_size));
    v
}

/// The settings of the load generator.
pub struct Options {
    /// Milliseconds between two steps.
    pub interval: u64,
    pub payload_size: usize,
    /// The file that holds the program.
    pub program: String,
    /// How many steps to run; 0 runs the program forever.
    pub request_limit: usize,
    /// Whether requests come from this replica; otherwise from client 100.
    pub source_is_me: bool,
    /// Whether to wait for the go of the control port before starting.
    pub wait_control_port: bool,
}

impl Options {
    pub open spec fn is_default(&self) -> bool {
        &&& self.interval == 64
        &&& self.payload_size == 1024
        &&& self.program@ == "rc-broadcaster/programs/single.ron"@
        &&& self.request_limit == 0
        &&& self.source_is_me
        &&& self.wait_control_port
    }

    /// The client that the requests come from.
    pub fn source(&self, me: u64) -> (r: u64)
        ensures
            r == (if self.source_is_me { me } else { 100 }),
    {
        if self.source_is_me { me } else { 100 }
    }
}

impl Default for Options {
    fn default() -> (r: Self)
        ensures
            r.is_default(),
    {
        Options {
            interval: 64,
            payload_size: 1024,
            program: String::from_str("rc-broadcaster/programs/single.ron"),
            request_limit: 0,
            source_is_me: true,
            wait_control_port: true,
        }
    }
}

/// A request this replica submits: from `source` to itself, as a
/// transaction of `payload`, with sequence number `sequence` or, where
/// `fresh_sequence` is set, with the time it is sent.
pub struct Generated {
    pub source: u64,
    pub destination: u64,
    pub sequence: u64,
    pub fresh_sequence: bool,
    pub payload: Vec<u8>,
}

pub struct GeneratedModel {
    pub source: u64,
    pub destination: u64,
    pub sequence: u64,
    pub fresh_sequence: bool,
    pub payload: Seq<u8>,
}

impl View for Generated {
    type V = GeneratedModel;

    open spec fn view(&self) -> GeneratedModel {
        GeneratedModel {
            source: self.source,
            destination: self.destination,
            sequence: self.sequence,
            fresh_sequence: self.fresh_sequence,
            payload: self.payload@,
        }
    }
}

pub open spec fn generated_list(v: Seq<Generated>) -> Seq<GeneratedModel> {
    v.map_values(|g: Generated| g@)
}

/// The requests that replica `me` submits for step `i` of a program, from
/// `source`: the step's request, except where the step skips `me`, or
/// corrupts only another replica's request; a corrupted step for `me`
/// submits the corrupted payload; extra requests for `me` go first.
pub open spec fn step_requests(kind: Kind, i: u64, me: u64, source: u64, payload_size: usize) -> Seq<GeneratedModel> {
    let main = GeneratedModel {
        source,
        destination: me,
        sequence: i,
        fresh_sequence: false,
        payload: spec_payload(i, payload_size),
    };
    match kind {
        Kind::Normal => seq![main],
        Kind::Skip { to } => if to == me {
            Seq::empty()
        } else {
            seq![main]
        },
        Kind::Corrupt { to, .. } => if to != me {
            Seq::empty()
        } else {
            seq![GeneratedModel { payload: spec_cpayload(i, payload_size), ..main }]
        },
        Kind::Additional { to, n } => if to == me {
            Seq::new(
                n as nat,
                |j: int| GeneratedModel {
                    source,
                    destination: me,
                    sequence: 0,
                    fresh_sequence: true,
                    payload: spec_apayload(i, payload_size, j as u64),
                },
            ).push(main)
        } else {
            seq![main]
        },
    }
}

/// The requests that replica `me` submits for step `i` of a program.
pub fn requests_for_step(kind: &Kind, i: u64, me: u64, source: u64, payload_size: usize) -> (r: Vec<Generated>)
    ensures
        generated_list(r@) == step_requests(*kind, i, me, source, payload_size),
{
    let mut out: Vec<Generated> = Vec::new();
    match kind {
        Kind::Normal => {},
        Kind::Skip { to } => {
            if *to == me {
                assert(generated_list(out@) =~= step_requests(*kind, i, me, source, payload_size));
                return out;
            }
        },
        Kind::Corrupt { to, .. } => {
            if *to != me {
                assert(generated_list(out@) =~= step_requests(*kind, i, me, source, payload_size));
                return out;
            }
            let g = Generated {
                source,
                destination: me,
                sequence: i,
                fresh_sequence: false,
                payload: make_cpayload(i, payload_size),
            };
            out.push(g);
            assert(generated_list(out@) =~= step_requests(*kind, i, me, source, payload_size));
            return out;
        },
        Kind::Additional { to, n } => {
            if *to == me {
                let mut j: u64 = 0;
                while j < *n
                    invariant
                        j <= *n,
                        generated_list(out@) == Seq::new(
                            j as nat,
                            |k: int| GeneratedModel {
                                source,
                                destination: me,
                                sequence: 0,
                                fresh_sequence: true,
                                payload: spec_apayload(i, payload_size, k as u64),
                            },
                        ),
                    decreases *n - j,
                {
                    let g = Generated {
                        source,
                        destination: me,
                        sequence: 0,
                        fresh_sequence: true,
                        payload: make_apayload(i, payload_size, j),
                    };
                    let ghost before = out@;
                    let ghost gm = g@;
                    out.push(g);
                    assert(generated_list(out@) =~= generated_list(before).push(gm));
                    j = j + 1;
                    assert(generated_list(out@) =~= Seq::new(
                        j as nat,
                        |k: int| GeneratedModel {
                            source,
                            destination: me,
                            sequence: 0,
                            fresh_sequence: true,
                            payload: spec_apayload(i, payload_size, k as u64),
                        },
                    ));
                }
            }
        },
    }
    let ghost before = out@;
    let g = Generated { source, destination: me, sequence: i, fresh_sequence: false, payload: make_payload(i, payload_size) };
    out.push(g);
    assert(out@ =~= before.push(g));
    assert(generated_list(out@) =~= step_requests(*kind, i, me, source, payload_size));
    out
}

/// Which step of a program runs as the `i`-th: the program repeats.
pub fn step_at(program: &[Kind], i: usize) -> (r: &Kind)
    requires
        program@.len() > 0,
    ensures
        *r == program@[(i as int) % (program@.len() as int)],
{
    &program[i % program.len()]
}

/// Whether the `i`-th step runs: always where there is no limit, else
/// only before the limit.
pub fn runs_step(options: &Options, i: usize) -> (r: bool)
    ensures
        r == (options.request_limit == 0 || i < options.request_limit),
{
    options.request_limit == 0 || i < options.request_limit
}

} // verus!
