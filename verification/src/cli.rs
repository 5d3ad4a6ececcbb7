//! The configuration of the command line tool.
use vstd::prelude::*;
use crate::blockchain::proto::{Transaction, TxModel, TX_DATA, TX_UNSPECIFIED};
use crate::osf::datagram::flatten;

verus! {

/// The signals of the train network to read.
pub struct Config {
    pub read_signals: Vec<String>,
}

/// The whole configuration file.
pub struct AllConfig {
    pub tcn: Config,
}

impl Default for Config {
    fn default() -> (r: Self)
        ensures
            r.read_signals@.len() == 0,
    {
        Config { read_signals: Vec::new() }
    }
}

impl Default for AllConfig {
    fn default() -> (r: Self)
        ensures
            r.tcn.read_signals@.len() == 0,
    {
        AllConfig { tcn: Config::default() }
    }
}

/// Whether a transaction holds block data (or has no type), as opposed to a
/// header.
pub open spec fn is_data(t: TxModel) -> bool {
    t.tx_type == TX_DATA || t.tx_type == TX_UNSPECIFIED
}

/// The number of leading transactions that hold block data.
pub open spec fn leading_data(txs: Seq<TxModel>) -> int
    decreases txs.len(),
{
    if txs.len() > 0 && is_data(txs[0]) {
        1 + leading_data(txs.skip(1))
    } else {
        0
    }
}

/// The OSF stream that a chain's transactions hold: from the first header
/// on, every transaction's payload, in order.
pub open spec fn osf_stream(txs: Seq<TxModel>) -> Seq<u8> {
    flatten(txs.skip(leading_data(txs)).map_values(|t: TxModel| t.payload))
}

proof fn lemma_leading_data(txs: Seq<TxModel>, k: int)
    requires
        0 <= k <= txs.len(),
        forall|i: int| 0 <= i < k ==> is_data(#[trigger] txs[i]),
        k < txs.len() ==> !is_data(txs[k]),
    ensures
        leading_data(txs) == k,
    decreases k,
{
    if k > 0 {
        let t = txs.skip(1);
        assert forall|i: int| 0 <= i < k - 1 implies is_data(#[trigger] t[i]) by {
            assert(t[i] == txs[i + 1]);
        }
        if k < txs.len() {
            assert(t[k - 1] == txs[k]);
        }
        lemma_leading_data(t, k - 1);
        assert(is_data(txs[0]));
    }
}

/// The OSF stream that a chain's transactions hold (see `osf_stream`).
pub fn osf_payloads(txs: &[Transaction]) -> (r: Vec<u8>)
    ensures
        r@ == osf_stream(txs@.map_values(|t: Transaction| t@)),
{
    let ghost ms = txs@.map_values(|t: Transaction| t@);
    let mut k: usize = 0;
    while k < txs.len() && (txs[k].tx_type == TX_DATA || txs[k].tx_type == TX_UNSPECIFIED)
        invariant
            k <= txs@.len(),
            ms == txs@.map_values(|t: Transaction| t@),
            forall|i: int| 0 <= i < k ==> is_data(#[trigger] ms[i]),
        decreases txs@.len() - k,
    {
        assert(ms[k as int] == txs@[k as int]@);
        k = k + 1;
    }
    proof {
        if k < txs@.len() {
            assert(ms[k as int] == txs@[k as int]@);
        }
        lemma_leading_data(ms, k as int);
    }
    let ghost rest = ms.skip(k as int).map_values(|t: TxModel| t.payload);
    let mut out: Vec<u8> = Vec::new();
    let mut i = k;
    while i < txs.len()
        invariant
            k <= i <= txs@.len(),
            ms == txs@.map_values(|t: Transaction| t@),
            rest == ms.skip(k as int).map_values(|t: TxModel| t.payload),
            out@ == flatten(rest.take(i - k)),
        decreases txs@.len() - i,
    {
        let p = &txs[i].payload;
        let mut j: usize = 0;
        let ghost before = out@;
        while j < p.len()
            invariant
                j <= p@.len(),
                out@ == before + p@.take(j as int),
            decreases p@.len() - j,
        {
            out.push(p[j]);
            j = j + 1;
            assert(out@ =~= before + p@.take(j as int));
        }
        assert(p@.take(j as int) =~= p@);
        assert(rest.take(i + 1 - k).drop_last() =~= rest.take(i - k));
        assert(rest[i - k] == ms[i as int].payload);
        assert(ms[i as int] == txs@[i as int]@);
        i = i + 1;
    }
    assert(rest.take(i - k) =~= rest);
    out
}

} // verus!
