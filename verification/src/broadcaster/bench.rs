//! The requests of the benchmark modes: a steady stream of transactions,
//! and a stream that forces a view change at a fixed rate, moving the
//! primary round the four replicas.
use vstd::prelude::*;
use crate::application::request_generator::le_byte;

verus! {

/// The number of replicas a benchmark runs against.
pub const REPLICAS: u64 = 4;

/// The payload of a benchmark request: `payload_size` bytes of 1, the first
/// eight of which are the little-endian bytes of `sequence`.
pub open spec fn spec_request_payload(sequence: u64, payload_size: usize) -> Seq<u8> {
    Seq::new(payload_size as nat, |k: int| if k < 8 { le_byte(sequence, k) } else { 1u8 })
}

/// The payload of a request that forces a view change: 100 bytes of 0, the
/// first eight of which are the little-endian bytes of `sequence`.
pub open spec fn spec_vc_payload(sequence: u64) -> Seq<u8> {
    Seq::new(100, |k: int| if k < 8 { le_byte(sequence, k) } else { 0u8 })
}

/// The replicas that a view change request goes to: all but the primary.
pub open spec fn vc_destinations(primary: u64) -> Seq<u64> {
    Seq::new(REPLICAS as nat, |i: int| i as u64).filter(not_primary(primary))
}

pub open spec fn not_primary(primary: u64) -> spec_fn(u64) -> bool {
    |i: u64| i != primary
}

fn le_byte_at(x: u64, k: usize) -> (r: u8)
    requires
        k < 8,
    ensures
        r == le_byte(x, k as int),
{
    ((x >> ((k as u64) * 8)) & 0xff) as u8
}

/// `n` bytes of `fill`, the first eight the little-endian bytes of `sequence`.
fn stamped(sequence: u64, n: usize, fill: u8) -> (r: Vec<u8>)
    requires
        n >= 8,
    ensures
        r@ == Seq::new(n as nat, |k: int| if k < 8 { le_byte(sequence, k) } else { fill }),
{
    let mut v: Vec<u8> = Vec::new();
    let mut k: usize = 0;
    while k < n
        invariant
            k <= n,
            v@ == Seq::new(n as nat, |j: int| if j < 8 { le_byte(sequence, j) } else { fill }).take(k as int),
        decreases n - k,
    {
        let b = if k < 8 { le_byte_at(sequence, k) } else { fill };
        v.push(b);
        k = k + 1;
        assert(v@ =~= Seq::new(n as nat, |j: int| if j < 8 { le_byte(sequence, j) } else { fill }).take(k as int));
    }
    assert(v@ =~= Seq::new(n as nat, |j: int| if j < 8 { le_byte(sequence, j) } else { fill }));
    v
}

/// The payload of benchmark request `sequence`; it must hold the eight
/// bytes of the sequence number.
pub fn request_payload(sequence: u64, payload_size: usize) -> (r: Vec<u8>)
    requires
        payload_size >= 8,
    ensures
        r@ == spec_request_payload(sequence, payload_size),
{
    stamped(sequence, payload_size, 1)
}

/// The payload of a view change request with sequence number `sequence`.
pub fn vc_payload(sequence: u64) -> (r: Vec<u8>)
    ensures
        r@ == spec_vc_payload(sequence),
{
    stamped(sequence, 100, 0)
}

/// The replicas that a view change request goes to: all but `primary`.
pub fn vc_targets(primary: u64) -> (r: Vec<u64>)
    ensures
        r@ == vc_destinations(primary),
{
    let mut v: Vec<u64> = Vec::new();
    let mut i: u64 = 0;
    let ghost all = Seq::new(REPLICAS as nat, |j: int| j as u64);
    while i < REPLICAS
        invariant
            i <= REPLICAS,
            all == Seq::new(REPLICAS as nat, |j: int| j as u64),
            v@ == all.take(i as int).filter(not_primary(primary)),
        decreases REPLICAS - i,
    {
        proof {
            assert(all.take(i + 1) =~= all.take(i as int).push(i));
            all.take(i as int).lemma_filter_push(i, not_primary(primary));
        }
        if i != primary {
            v.push(i);
        }
        i = i + 1;
    }
    assert(all.take(REPLICAS as int) =~= all);
    v
}

/// What the view change benchmark sends next.
pub enum BenchStep {
    /// A request to every replica.
    Normal { sequence: u64 },
    /// A request to every replica but `primary`, which makes the others
    /// suspect it.
    ViewChange { sequence: u64, primary: u64 },
}

/// Step `seq` of the view change benchmark, after `offset` normal requests:
/// every `vc_freq`-th step forces a view change away from the current
/// primary, and the next replica becomes the one to suspect next.
pub fn view_change_step(seq: u64, offset: u64, vc_freq: u64, primary: &mut u64) -> (r: BenchStep)
    requires
        vc_freq > 0,
        seq + offset <= u64::MAX,
        *old(primary) < REPLICAS,
    ensures
        *final(primary) < REPLICAS,
        seq % vc_freq == 0 ==> r == (BenchStep::ViewChange { sequence: (seq + offset) as u64, primary: *old(primary) })
            && *final(primary) == (*old(primary) + 1) % (REPLICAS as int),
        seq % vc_freq != 0 ==> r == (BenchStep::Normal { sequence: (seq + offset) as u64 }) && *final(primary)
            == *old(primary),
{
    if seq % vc_freq == 0 {
        let p = *primary;
        *primary = (p + 1) % REPLICAS;
        BenchStep::ViewChange { sequence: seq + offset, primary: p }
    } else {
        BenchStep::Normal { sequence: seq + offset }
    }
}

} // verus!
