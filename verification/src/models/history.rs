//! A wallet's transaction history: every transaction of the chain that
//! pays to the wallet or spends from it, classified as received, sent or
//! sent back to itself, most recent block first.

use vstd::prelude::*;
use crate::codec::{bytes_eq, copy_string};
use crate::models::block::{Block, BlockView};
use crate::models::ledger::{
    blocks_view, chain_txs, insert_unspent_outputs, lemma_chain_txs_push, output_sum, output_total,
    unspent_outputs,
};
use crate::models::transaction::{OutPoint, OutPointView, OutputView, Transaction, TxView, is_coinbase_view};
use crate::models::utxo::UtxoSet;

verus! {

broadcast use {vstd::seq::group_seq_axioms, vstd::seq_lib::group_seq_properties};

#[derive(Clone, Copy, Debug, PartialEq, Eq, Structural)]
pub enum TxDirection {
    Received,
    Sent,
    Self_,
}

#[derive(Debug)]
pub struct TxRecord {
    pub tx_id: String,
    pub block_height: u64,
    pub confirmations: u64,
    pub direction: TxDirection,
    /// The change in the wallet's holdings: what came in for a receipt, what
    /// came back less what was spent for a payment, zero for a transfer to
    /// itself.
    pub net: i64,
    pub fee: u64,
    pub timestamp: u64,
}

pub struct RecordView {
    pub tx_id: Seq<char>,
    pub block_height: u64,
    pub confirmations: u64,
    pub direction: TxDirection,
    pub net: i64,
    pub fee: u64,
    pub timestamp: u64,
}

impl View for TxRecord {
    type V = RecordView;

    open spec fn view(&self) -> RecordView {
        RecordView {
            tx_id: self.tx_id@,
            block_height: self.block_height,
            confirmations: self.confirmations,
            direction: self.direction,
            net: self.net,
            fee: self.fee,
            timestamp: self.timestamp,
        }
    }
}

/// Every output of the chain by outpoint; a later output with the same
/// outpoint takes the place of an earlier one.
pub open spec fn all_outputs(bs: Seq<BlockView>) -> Map<OutPointView, OutputView> {
    unspent_outputs(chain_txs(bs), Seq::empty())
}

/// The value of the first `k` outputs of `t` locked to `pkh`.
pub open spec fn received_total(t: TxView, pkh: Seq<u8>, k: int) -> int
    decreases k,
{
    if k <= 0 {
        0
    } else {
        received_total(t, pkh, k - 1) + if t.vout[k - 1].pub_key_hash == pkh {
            t.vout[k - 1].value as int
        } else {
            0
        }
    }
}

/// The value of the outputs found in `outs` that the first `k` inputs of `t`
/// spend, counting only those locked to `pkh` when `only_pkh` is set.
pub open spec fn found_total(
    t: TxView,
    outs: Map<OutPointView, OutputView>,
    pkh: Seq<u8>,
    only_pkh: bool,
    k: int,
) -> int
    decreases k,
{
    if k <= 0 {
        0
    } else {
        let op = t.vin[k - 1].previous_output;
        found_total(t, outs, pkh, only_pkh, k - 1) + if outs.dom().contains(op) && (!only_pkh
            || outs[op].pub_key_hash == pkh) {
            outs[op].value as int
        } else {
            0
        }
    }
}

/// What the wallet received in `t`.
pub open spec fn received_of(t: TxView, pkh: Seq<u8>) -> int {
    received_total(t, pkh, t.vout.len() as int)
}

/// What the wallet spent in `t`; nothing for a coinbase.
pub open spec fn spent_of(t: TxView, outs: Map<OutPointView, OutputView>, pkh: Seq<u8>) -> int {
    if is_coinbase_view(t) {
        0
    } else {
        found_total(t, outs, pkh, true, t.vin.len() as int)
    }
}

/// The fee of `t`: the value of the outputs it spends that are found, less
/// its outputs, at least zero; nothing for a coinbase.
pub open spec fn fee_paid(t: TxView, outs: Map<OutPointView, OutputView>) -> int {
    if is_coinbase_view(t) {
        0
    } else {
        let total_in = found_total(t, outs, Seq::empty(), false, t.vin.len() as int);
        let total_out = output_total(t, t.vout.len() as int);
        if total_in >= total_out {
            total_in - total_out
        } else {
            0
        }
    }
}

/// How deep a block at `height` lies under a tip at `tip`, counting itself.
pub open spec fn confirmations_of(tip: u64, height: u64) -> int {
    (if tip >= height {
        tip - height
    } else {
        0
    }) + 1
}

/// Whether `t` only moves the wallet's coins back to the wallet: every
/// output pays `pkh`, and every input spends a known output of `pkh`.
pub open spec fn change_only(t: TxView, outs: Map<OutPointView, OutputView>, pkh: Seq<u8>) -> bool {
    &&& forall|k: int| 0 <= k < t.vout.len() ==> (#[trigger] t.vout[k]).pub_key_hash == pkh
    &&& forall|k: int|
        0 <= k < t.vin.len() ==> outs.dom().contains((#[trigger] t.vin[k]).previous_output)
            && outs[t.vin[k].previous_output].pub_key_hash == pkh
}

/// Received when nothing was spent, to itself when the transaction only
/// moves the wallet's coins back to it, sent otherwise.
pub open spec fn direction_of(received: int, spent: int, to_self: bool) -> TxDirection {
    if spent == 0 {
        TxDirection::Received
    } else if to_self {
        TxDirection::Self_
    } else {
        TxDirection::Sent
    }
}

/// The net change of a record: the value received (as `i64`) for a receipt,
/// that less the value spent for a payment, zero for a transfer to itself.
pub open spec fn net_of(received: int, spent: int, to_self: bool) -> int {
    match direction_of(received, spent, to_self) {
        TxDirection::Received => (received as i64) as int,
        TxDirection::Sent => (received as i64) - (spent as i64),
        TxDirection::Self_ => 0,
    }
}

/// The record of `t` in a block at `height` stamped `timestamp`, if it pays
/// to or spends from `pkh`.
pub open spec fn classify(
    t: TxView,
    height: u64,
    timestamp: u64,
    tip: u64,
    pkh: Seq<u8>,
    outs: Map<OutPointView, OutputView>,
) -> Option<RecordView> {
    let received = received_of(t, pkh);
    let spent = spent_of(t, outs, pkh);
    if received == 0 && spent == 0 {
        None
    } else {
        Some(
            RecordView {
                tx_id: t.id,
                block_height: height,
                confirmations: confirmations_of(tip, height) as u64,
                direction: direction_of(received, spent, change_only(t, outs, pkh)),
                net: net_of(received, spent, change_only(t, outs, pkh)) as i64,
                fee: fee_paid(t, outs) as u64,
                timestamp,
            },
        )
    }
}

/// Whether classifying `t` stays within the integer types: the sums that
/// are taken, the depth, and the net change of a payment.
pub open spec fn classify_fits(
    t: TxView,
    height: u64,
    tip: u64,
    pkh: Seq<u8>,
    outs: Map<OutPointView, OutputView>,
) -> bool {
    let received = received_of(t, pkh);
    let spent = spent_of(t, outs, pkh);
    &&& confirmations_of(tip, height) <= u64::MAX
    &&& received <= u64::MAX
    &&& spent <= u64::MAX
    &&& !(received == 0 && spent == 0) && !is_coinbase_view(t) ==> {
        &&& found_total(t, outs, Seq::empty(), false, t.vin.len() as int) <= u64::MAX
        &&& output_total(t, t.vout.len() as int) <= u64::MAX
    }
    &&& direction_of(received, spent, change_only(t, outs, pkh)) == TxDirection::Sent ==> i64::MIN
        <= net_of(received, spent, change_only(t, outs, pkh))
        <= i64::MAX
}

/// Each transaction of the chain with the index and time of its block.
pub open spec fn chain_entries(bs: Seq<BlockView>) -> Seq<(TxView, u64, u64)>
    decreases bs.len(),
{
    if bs.len() == 0 {
        Seq::empty()
    } else {
        chain_entries(bs.drop_last()) + bs.last().transactions.map_values(
            |t: TxView| (t, bs.last().index, bs.last().timestamp),
        )
    }
}

/// The records of the entries that concern `pkh`, in order.
pub open spec fn records_of(
    es: Seq<(TxView, u64, u64)>,
    tip: u64,
    pkh: Seq<u8>,
    outs: Map<OutPointView, OutputView>,
) -> Seq<RecordView>
    decreases es.len(),
{
    if es.len() == 0 {
        Seq::empty()
    } else {
        let rest = records_of(es.drop_last(), tip, pkh, outs);
        let e = es.last();
        match classify(e.0, e.1, e.2, tip, pkh, outs) {
            Some(r) => rest.push(r),
            None => rest,
        }
    }
}

/// Where a record at `height` goes in a list ordered by height, highest
/// first: after every record at least as high.
pub open spec fn desc_pos(s: Seq<RecordView>, height: u64) -> int
    decreases s.len(),
{
    if s.len() == 0 || s[0].block_height < height {
        0
    } else {
        1 + desc_pos(s.drop_first(), height)
    }
}

/// The records ordered by height, highest first; records at the same
/// height keep their order.
pub open spec fn sort_desc(s: Seq<RecordView>) -> Seq<RecordView>
    decreases s.len(),
{
    if s.len() == 0 {
        Seq::empty()
    } else {
        let sorted = sort_desc(s.drop_last());
        sorted.insert(desc_pos(sorted, s.last().block_height), s.last())
    }
}

/// Heights never increase along the list.
pub open spec fn descending(s: Seq<RecordView>) -> bool {
    forall|a: int, b: int| 0 <= a < b < s.len() ==> (#[trigger] s[a]).block_height >= (
    #[trigger] s[b]).block_height
}

/// The history of `pkh` on a chain whose tip is at `tip`.
pub open spec fn history_of(bs: Seq<BlockView>, pkh: Seq<u8>, tip: u64) -> Seq<RecordView> {
    sort_desc(records_of(chain_entries(bs), tip, pkh, all_outputs(bs)))
}

/// Whether building the history of `pkh` stays within the integer types.
pub open spec fn history_fits(bs: Seq<BlockView>, pkh: Seq<u8>, tip: u64) -> bool {
    forall|i: int|
        0 <= i < chain_entries(bs).len() ==> #[trigger] classify_fits(
            chain_entries(bs)[i].0,
            chain_entries(bs)[i].1,
            tip,
            pkh,
            all_outputs(bs),
        )
}

/// Whether the chain holds, in a block at `r.block_height` stamped
/// `r.timestamp`, a transaction with the record's id.
pub open spec fn recorded_in_chain(bs: Seq<BlockView>, r: RecordView) -> bool {
    exists|b: int, k: int|
        0 <= b < bs.len() && 0 <= k < bs[b].transactions.len() && #[trigger] bs[b].transactions[k].id
            == r.tx_id && bs[b].index == r.block_height && bs[b].timestamp == r.timestamp
}

/// The entry for transaction `k` of block `b`.
pub open spec fn entry_at(bs: Seq<BlockView>, b: int, k: int) -> (TxView, u64, u64) {
    (bs[b].transactions[k], bs[b].index, bs[b].timestamp)
}

/// Whether `e` is the entry for some transaction of some block of `bs`.
pub open spec fn entry_sourced(bs: Seq<BlockView>, e: (TxView, u64, u64)) -> bool {
    exists|b: int, k: int|
        0 <= b < bs.len() && 0 <= k < bs[b].transactions.len() && e == #[trigger] entry_at(bs, b, k)
}

proof fn lemma_chain_entry_source(bs: Seq<BlockView>)
    ensures
        forall|i: int|
            0 <= i < chain_entries(bs).len() ==> entry_sourced(bs, #[trigger] chain_entries(bs)[i]),
    decreases bs.len(),
{
    if bs.len() > 0 {
        let prev = bs.drop_last();
        lemma_chain_entry_source(prev);
        let last = bs.last();
        let m = last.transactions.map_values(|t: TxView| (t, last.index, last.timestamp));
        let ce = chain_entries(bs);
        assert(ce == chain_entries(prev) + m);
        let pl = chain_entries(prev).len() as int;
        assert forall|i: int| 0 <= i < ce.len() implies entry_sourced(bs, #[trigger] ce[i]) by {
            if i < pl {
                assert(ce[i] == chain_entries(prev)[i]);
                assert(entry_sourced(prev, chain_entries(prev)[i]));
                let (b, k) = choose|b: int, k: int|
                    0 <= b < prev.len() && 0 <= k < prev[b].transactions.len() && chain_entries(prev)[i]
                        == #[trigger] entry_at(prev, b, k);
                assert(prev[b] == bs[b]);
                assert(entry_at(prev, b, k) == entry_at(bs, b, k));
            } else {
                let k = i - pl;
                assert(ce[i] == m[k]);
                assert(bs[bs.len() - 1] == last);
                assert(m[k] == entry_at(bs, bs.len() - 1, k));
            }
        }
    }
}

proof fn lemma_records_source(
    es: Seq<(TxView, u64, u64)>,
    tip: u64,
    pkh: Seq<u8>,
    outs: Map<OutPointView, OutputView>,
)
    ensures
        forall|j: int|
            #![trigger records_of(es, tip, pkh, outs)[j]]
            0 <= j < records_of(es, tip, pkh, outs).len() ==> exists|i: int|
                0 <= i < es.len() && (#[trigger] es[i]).0.id == records_of(es, tip, pkh, outs)[j].tx_id
                    && es[i].1 == records_of(es, tip, pkh, outs)[j].block_height && es[i].2 == records_of(
                    es,
                    tip,
                    pkh,
                    outs,
                )[j].timestamp,
    decreases es.len(),
{
    if es.len() > 0 {
        let prev = es.drop_last();
        lemma_records_source(prev, tip, pkh, outs);
        let rest = records_of(prev, tip, pkh, outs);
        let rs = records_of(es, tip, pkh, outs);
        let e = es.last();
        assert forall|j: int| #![trigger rs[j]] 0 <= j < rs.len() implies exists|i: int|
            0 <= i < es.len() && (#[trigger] es[i]).0.id == rs[j].tx_id && es[i].1 == rs[j].block_height
                && es[i].2 == rs[j].timestamp by {
            if j < rest.len() {
                assert(rs[j] == rest[j]);
                let i = choose|i: int|
                    0 <= i < prev.len() && (#[trigger] prev[i]).0.id == rest[j].tx_id && prev[i].1
                        == rest[j].block_height && prev[i].2 == rest[j].timestamp;
                assert(es[i] == prev[i]);
            } else {
                assert(es[es.len() - 1] == e);
            }
        }
    }
}

proof fn lemma_desc_pos_range(s: Seq<RecordView>, height: u64)
    ensures
        0 <= desc_pos(s, height) <= s.len(),
    decreases s.len(),
{
    if s.len() > 0 && s[0].block_height >= height {
        lemma_desc_pos_range(s.drop_first(), height);
    }
}

proof fn lemma_sort_desc_members(s: Seq<RecordView>)
    ensures
        sort_desc(s).len() == s.len(),
        forall|j: int| 0 <= j < sort_desc(s).len() ==> s.contains(#[trigger] sort_desc(s)[j]),
    decreases s.len(),
{
    if s.len() > 0 {
        let prev = s.drop_last();
        lemma_sort_desc_members(prev);
        let sorted = sort_desc(prev);
        let p = desc_pos(sorted, s.last().block_height);
        lemma_desc_pos_range(sorted, s.last().block_height);
        let out = sorted.insert(p, s.last());
        assert forall|j: int| 0 <= j < out.len() implies s.contains(#[trigger] out[j]) by {
            if j < p {
                assert(out[j] == sorted[j]);
                let i = choose|i: int| 0 <= i < prev.len() && prev[i] == sorted[j];
                assert(s[i] == prev[i]);
            } else if j == p {
                assert(s[s.len() - 1] == s.last());
            } else {
                assert(out[j] == sorted[j - 1]);
                let i = choose|i: int| 0 <= i < prev.len() && prev[i] == sorted[j - 1];
                assert(s[i] == prev[i]);
            }
        }
    }
}

/// Every record of a history is for a transaction the chain holds, and
/// carries the index and the timestamp of the block that holds it.
pub proof fn law_history_records_from_blocks(bs: Seq<BlockView>, pkh: Seq<u8>, tip: u64)
    ensures
        forall|j: int|
            0 <= j < history_of(bs, pkh, tip).len() ==> recorded_in_chain(
                bs,
                #[trigger] history_of(bs, pkh, tip)[j],
            ),
{
    let es = chain_entries(bs);
    let outs = all_outputs(bs);
    let recs = records_of(es, tip, pkh, outs);
    lemma_chain_entry_source(bs);
    lemma_records_source(es, tip, pkh, outs);
    lemma_sort_desc_members(recs);
    assert forall|j: int| 0 <= j < history_of(bs, pkh, tip).len() implies recorded_in_chain(
        bs,
        #[trigger] history_of(bs, pkh, tip)[j],
    ) by {
        let r = history_of(bs, pkh, tip)[j];
        assert(recs.contains(r));
        let q = choose|q: int| 0 <= q < recs.len() && recs[q] == r;
        let i = choose|i: int|
            0 <= i < es.len() && (#[trigger] es[i]).0.id == recs[q].tx_id && es[i].1 == recs[q].block_height
                && es[i].2 == recs[q].timestamp;
        assert(entry_sourced(bs, es[i]));
        let (b, k) = choose|b: int, k: int|
            0 <= b < bs.len() && 0 <= k < bs[b].transactions.len() && es[i] == #[trigger] entry_at(bs, b, k);
        assert(bs[b].transactions[k].id == r.tx_id);
    }
}

proof fn lemma_desc_pos_bounds(s: Seq<RecordView>, height: u64)
    requires
        descending(s),
    ensures
        0 <= desc_pos(s, height) <= s.len(),
        forall|i: int| 0 <= i < desc_pos(s, height) ==> (#[trigger] s[i]).block_height >= height,
        forall|i: int| desc_pos(s, height) <= i < s.len() ==> (#[trigger] s[i]).block_height < height,
    decreases s.len(),
{
    if s.len() > 0 && s[0].block_height >= height {
        let t = s.drop_first();
        assert(descending(t)) by {
            assert forall|a: int, b: int| 0 <= a < b < t.len() implies (#[trigger] t[a]).block_height
                >= (#[trigger] t[b]).block_height by {
                assert(t[a] == s[a + 1] && t[b] == s[b + 1]);
            }
        }
        lemma_desc_pos_bounds(t, height);
        assert forall|i: int| 0 <= i < desc_pos(s, height) implies (#[trigger] s[i]).block_height
            >= height by {
            if i > 0 {
                assert(s[i] == t[i - 1]);
            }
        }
        assert forall|i: int| desc_pos(s, height) <= i < s.len() implies (#[trigger] s[i]).block_height
            < height by {
            assert(s[i] == t[i - 1]);
        }
    } else if s.len() > 0 {
        assert forall|i: int| 0 <= i < s.len() implies (#[trigger] s[i]).block_height < height by {
            if i > 0 {
                assert(s[0].block_height >= s[i].block_height);
            }
        }
    }
}

proof fn lemma_received_prefix(t: TxView, pkh: Seq<u8>, k: int, n: int)
    requires
        0 <= k <= n,
    ensures
        0 <= received_total(t, pkh, k) <= received_total(t, pkh, n),
    decreases n - k,
{
    lemma_received_nonneg(t, pkh, k);
    if k < n {
        lemma_received_prefix(t, pkh, k + 1, n);
    }
}

proof fn lemma_received_nonneg(t: TxView, pkh: Seq<u8>, k: int)
    ensures
        received_total(t, pkh, k) >= 0,
    decreases k,
{
    if k > 0 {
        lemma_received_nonneg(t, pkh, k - 1);
    }
}

proof fn lemma_found_prefix(
    t: TxView,
    outs: Map<OutPointView, OutputView>,
    pkh: Seq<u8>,
    only_pkh: bool,
    k: int,
    n: int,
)
    requires
        0 <= k <= n,
    ensures
        0 <= found_total(t, outs, pkh, only_pkh, k) <= found_total(t, outs, pkh, only_pkh, n),
    decreases n - k,
{
    lemma_found_nonneg(t, outs, pkh, only_pkh, k);
    if k < n {
        lemma_found_prefix(t, outs, pkh, only_pkh, k + 1, n);
    }
}

proof fn lemma_found_nonneg(
    t: TxView,
    outs: Map<OutPointView, OutputView>,
    pkh: Seq<u8>,
    only_pkh: bool,
    k: int,
)
    ensures
        found_total(t, outs, pkh, only_pkh, k) >= 0,
    decreases k,
{
    if k > 0 {
        lemma_found_nonneg(t, outs, pkh, only_pkh, k - 1);
    }
}

/// The value received by `pkh` in `tx`.
fn received_in(tx: &Transaction, pkh: &[u8]) -> (r: u64)
    requires
        received_of(tx@, pkh@) <= u64::MAX,
    ensures
        r == received_of(tx@, pkh@),
{
    let mut total: u64 = 0;
    let n = tx.vout.len();
    for k in 0..n
        invariant
            n == tx.vout@.len(),
            received_of(tx@, pkh@) <= u64::MAX,
            total == received_total(tx@, pkh@, k as int),
    {
        proof {
            lemma_received_prefix(tx@, pkh@, k + 1, n as int);
        }
        assert(tx@.vout[k as int] == tx.vout@[k as int]@);
        if bytes_eq(tx.vout[k].pub_key_hash.as_slice(), pkh) {
            total = total + tx.vout[k].value;
        }
    }
    total
}

/// The value of the outputs in `outs` that `tx` spends, only those locked to
/// `pkh` when `only_pkh` is set.
pub fn found_in(tx: &Transaction, outs: &UtxoSet, pkh: &[u8], only_pkh: bool) -> (r: u64)
    requires
        outs.wf(),
        found_total(tx@, outs@, pkh@, only_pkh, tx@.vin.len() as int) <= u64::MAX,
    ensures
        r == found_total(tx@, outs@, pkh@, only_pkh, tx@.vin.len() as int),
{
    let mut total: u64 = 0;
    let n = tx.vin.len();
    for k in 0..n
        invariant
            n == tx.vin@.len(),
            outs.wf(),
            found_total(tx@, outs@, pkh@, only_pkh, n as int) <= u64::MAX,
            total == found_total(tx@, outs@, pkh@, only_pkh, k as int),
    {
        proof {
            lemma_found_prefix(tx@, outs@, pkh@, only_pkh, k + 1, n as int);
        }
        assert(tx@.vin[k as int] == tx.vin@[k as int]@);
        match outs.get(&tx.vin[k].previous_output) {
            Some(o) => {
                if !only_pkh || bytes_eq(o.pub_key_hash.as_slice(), pkh) {
                    total = total + o.value;
                }
            },
            None => {},
        }
    }
    total
}

/// Whether `tx` only moves the coins of `pkh` back to `pkh`.
fn moves_to_self(tx: &Transaction, outs: &UtxoSet, pkh: &[u8]) -> (r: bool)
    requires
        outs.wf(),
    ensures
        r == change_only(tx@, outs@, pkh@),
{
    let n = tx.vout.len();
    for k in 0..n
        invariant
            n == tx.vout@.len(),
            forall|j: int| 0 <= j < k ==> (#[trigger] tx@.vout[j]).pub_key_hash == pkh@,
    {
        assert(tx@.vout[k as int] == tx.vout@[k as int]@);
        if !bytes_eq(tx.vout[k].pub_key_hash.as_slice(), pkh) {
            return false;
        }
    }
    let m = tx.vin.len();
    for k in 0..m
        invariant
            m == tx.vin@.len(),
            outs.wf(),
            forall|j: int| 0 <= j < k ==> outs@.dom().contains((#[trigger] tx@.vin[j]).previous_output)
                && outs@[tx@.vin[j].previous_output].pub_key_hash == pkh@,
    {
        assert(tx@.vin[k as int] == tx.vin@[k as int]@);
        match outs.get(&tx.vin[k].previous_output) {
            Some(o) => {
                if !bytes_eq(o.pub_key_hash.as_slice(), pkh) {
                    return false;
                }
            },
            None => {
                return false;
            },
        }
    }
    true
}

/// The record of `tx`, if it concerns `pkh`.
fn classify_tx(
    tx: &Transaction,
    block_height: u64,
    timestamp: u64,
    tip_height: u64,
    pkh: &[u8],
    all_outputs: &UtxoSet,
) -> (r: Option<TxRecord>)
    requires
        all_outputs.wf(),
        classify_fits(tx@, block_height, tip_height, pkh@, all_outputs@),
    ensures
        match classify(tx@, block_height, timestamp, tip_height, pkh@, all_outputs@) {
            Some(v) => r matches Some(x) && x@ == v,
            None => r is None,
        },
{
    let depth: u64 = if tip_height >= block_height {
        tip_height - block_height
    } else {
        0
    };
    let confirmations = depth + 1;
    let received = received_in(tx, pkh);
    let coinbase = tx.is_coinbase();
    let wallet_spent: u64 = if coinbase {
        0
    } else {
        found_in(tx, all_outputs, pkh, true)
    };
    if received == 0 && wallet_spent == 0 {
        return None;
    }
    let fee: u64 = if coinbase {
        0
    } else {
        proof {
            lemma_found_ignores_key(tx@, all_outputs@, pkh@, tx@.vin.len() as int);
        }
        let total_in = found_in(tx, all_outputs, pkh, false);
        let total_out = output_sum(tx) as u64;
        if total_in >= total_out {
            total_in - total_out
        } else {
            0
        }
    };
    let direction = if wallet_spent == 0 {
        TxDirection::Received
    } else if moves_to_self(tx, all_outputs, pkh) {
        TxDirection::Self_
    } else {
        TxDirection::Sent
    };
    let net: i64 = match direction {
        TxDirection::Received => #[verifier::truncate] (received as i64),
        TxDirection::Sent => (#[verifier::truncate] (received as i64)) - (#[verifier::truncate] (
        wallet_spent as i64)),
        TxDirection::Self_ => 0,
    };
    Some(
        TxRecord {
            tx_id: copy_string(&tx.id),
            block_height,
            confirmations,
            direction,
            net,
            fee,
            timestamp,
        },
    )
}

pub proof fn lemma_found_ignores_key(
    t: TxView,
    outs: Map<OutPointView, OutputView>,
    pkh: Seq<u8>,
    k: int,
)
    ensures
        found_total(t, outs, pkh, false, k) == found_total(t, outs, Seq::empty(), false, k),
    decreases k,
{
    if k > 0 {
        lemma_found_ignores_key(t, outs, pkh, k - 1);
    }
}

/// The entries of block `k` follow those of the blocks before it.
proof fn lemma_chain_entries_push(bs: Seq<BlockView>, k: int)
    requires
        0 <= k < bs.len(),
    ensures
        chain_entries(bs.take(k + 1)) == chain_entries(bs.take(k)) + bs[k].transactions.map_values(
            |t: TxView| (t, bs[k].index, bs[k].timestamp),
        ),
{
    assert(bs.take(k + 1).drop_last() =~= bs.take(k));
}

/// The entries of a prefix of blocks are a prefix of the entries.
proof fn lemma_chain_entries_prefix(bs: Seq<BlockView>, k: int)
    requires
        0 <= k <= bs.len(),
    ensures
        chain_entries(bs.take(k)).len() <= chain_entries(bs).len(),
        forall|i: int|
            0 <= i < chain_entries(bs.take(k)).len() ==> #[trigger] chain_entries(bs.take(k))[i]
                == chain_entries(bs)[i],
    decreases bs.len() - k,
{
    if k < bs.len() {
        lemma_chain_entries_prefix(bs, k + 1);
        lemma_chain_entries_push(bs, k);
        assert forall|i: int| 0 <= i < chain_entries(bs.take(k)).len() implies #[trigger] chain_entries(
            bs.take(k),
        )[i] == chain_entries(bs)[i] by {
            assert(chain_entries(bs.take(k + 1))[i] == chain_entries(bs.take(k))[i]);
        }
    } else {
        assert(bs.take(k) =~= bs);
    }
}

/// Every output of the chain by outpoint.
fn all_outputs_of(chain: &[Block]) -> (r: UtxoSet)
    ensures
        r.wf(),
        r@ == all_outputs(blocks_view(chain@)),
{
    let txs = crate::models::ledger::flatten_txs(chain);
    let ghost tv = crate::models::ledger::txs_view(txs@);
    let none: Vec<OutPoint> = Vec::new();
    assert(crate::models::mempool::ops_view(none@) =~= Seq::<OutPointView>::empty());
    let mut outs = UtxoSet::new();
    let n = txs.len();
    for j in 0..n
        invariant
            n == txs@.len(),
            tv == crate::models::ledger::txs_view(txs@),
            tv == chain_txs(blocks_view(chain@)),
            crate::models::mempool::ops_view(none@) == Seq::<OutPointView>::empty(),
            outs.wf(),
            outs@ == unspent_outputs(tv.take(j as int), Seq::empty()),
    {
        assert(tv[j as int] == txs@[j as int]@);
        insert_unspent_outputs(&mut outs, &txs[j], &none, Ghost(Seq::empty()));
        assert(tv.take(j + 1).drop_last() =~= tv.take(j as int));
    }
    assert(tv.take(n as int) =~= tv);
    outs
}

/// The views of a run of records.
pub open spec fn records_view(s: Seq<TxRecord>) -> Seq<RecordView> {
    s.map_values(|r: TxRecord| r@)
}

/// Every transaction of `chain` that pays to or spends from `pub_key_hash`,
/// as a record, highest block first; records from the same height keep the
/// order of the chain.
#[verifier::spinoff_prover]
pub fn build_history(chain: &[Block], pub_key_hash: &[u8], tip_height: u64) -> (r: Vec<TxRecord>)
    requires
        history_fits(blocks_view(chain@), pub_key_hash@, tip_height),
    ensures
        records_view(r@) == history_of(blocks_view(chain@), pub_key_hash@, tip_height),
        descending(records_view(r@)),
{
    let ghost bv = blocks_view(chain@);
    let ghost pkh = pub_key_hash@;
    let outs = all_outputs_of(chain);
    let ghost ov = outs@;
    let mut records: Vec<TxRecord> = Vec::new();
    let nb = chain.len();
    for b in 0..nb
        invariant
            nb == chain@.len(),
            bv == blocks_view(chain@),
            pkh == pub_key_hash@,
            outs.wf(),
            ov == outs@,
            ov == all_outputs(bv),
            history_fits(bv, pkh, tip_height),
            records_view(records@) == records_of(chain_entries(bv.take(b as int)), tip_height, pkh, ov),
    {
        let block = &chain[b];
        assert(bv[b as int] == block@);
        let ghost prefix = chain_entries(bv.take(b as int));
        let ghost bentries = block@.transactions.map_values(
            |t: TxView| (t, block@.index, block@.timestamp),
        );
        proof {
            lemma_chain_entries_push(bv, b as int);
            lemma_chain_entries_prefix(bv, b + 1);
        }
        let nt = block.transactions.len();
        for t in 0..nt
            invariant
                nt == block.transactions@.len(),
                bv[b as int] == block@,
                b < nb,
                nb == chain@.len(),
                bv == blocks_view(chain@),
                pkh == pub_key_hash@,
                outs.wf(),
                ov == outs@,
                ov == all_outputs(bv),
                history_fits(bv, pkh, tip_height),
                prefix == chain_entries(bv.take(b as int)),
                bentries == block@.transactions.map_values(
                    |t: TxView| (t, block@.index, block@.timestamp),
                ),
                chain_entries(bv.take(b + 1)) == prefix + bentries,
                chain_entries(bv.take(b + 1)).len() <= chain_entries(bv).len(),
                forall|i: int|
                    0 <= i < chain_entries(bv.take(b + 1)).len() ==> #[trigger] chain_entries(
                        bv.take(b + 1),
                    )[i] == chain_entries(bv)[i],
                records_view(records@) == records_of(prefix + bentries.take(t as int), tip_height, pkh, ov),
        {
            let tx = &block.transactions[t];
            assert(block@.transactions[t as int] == tx@);
            let ghost e = bentries[t as int];
            assert(e == (tx@, block.index, block.timestamp));
            let ghost idx = prefix.len() + t;
            assert((prefix + bentries)[idx] == e);
            assert(chain_entries(bv)[idx] == e);
            assert(classify_fits(e.0, e.1, tip_height, pkh, ov));
            let ghost before = records_view(records@);
            assert((prefix + bentries.take(t + 1)).drop_last() =~= prefix + bentries.take(t as int));
            assert((prefix + bentries.take(t + 1)).last() == e);
            match classify_tx(tx, block.index, block.timestamp, tip_height, pub_key_hash, &outs) {
                Some(rec) => {
                    records.push(rec);
                    assert(records_view(records@) =~= before.push(records@.last()@));
                },
                None => {},
            }
        }
        assert(bentries.take(nt as int) =~= bentries);
    }
    assert(bv.take(nb as int) =~= bv);
    let ghost rv = records_view(records@);
    let mut out: Vec<TxRecord> = Vec::new();
    let n = records.len();
    let mut remaining = records;
    let mut i: usize = 0;
    while remaining.len() > 0
        invariant
            i + remaining@.len() == n,
            n == rv.len(),
            records_view(remaining@) == rv.skip(i as int),
            records_view(out@) == sort_desc(rv.take(i as int)),
            descending(records_view(out@)),
        decreases remaining@.len(),
    {
        let rec = remaining.remove(0);
        let ghost ov_before = records_view(out@);
        assert(rv.skip(i as int)[0] == rec@);
        assert(records_view(remaining@) =~= rv.skip(i + 1));
        let h = rec.block_height;
        let mut p: usize = 0;
        while p < out.len() && out[p].block_height >= h
            invariant
                p <= out@.len(),
                ov_before == records_view(out@),
                forall|q: int| 0 <= q < p ==> (#[trigger] ov_before[q]).block_height >= h,
            decreases out@.len() - p,
        {
            assert(ov_before[p as int] == out@[p as int]@);
            p = p + 1;
        }
        proof {
            lemma_desc_pos_bounds(ov_before, h);
            let d = desc_pos(ov_before, h);
            if d < p {
                assert(ov_before[d].block_height >= h);
            }
            if p < d {
                assert(ov_before[p as int] == out@[p as int]@);
                assert(ov_before[p as int].block_height < h);
            }
            assert(d == p);
            assert(rv.take(i + 1).drop_last() =~= rv.take(i as int));
            assert(rv.take(i + 1).last() == rec@);
        }
        out.insert(p, rec);
        assert(records_view(out@) =~= ov_before.insert(p as int, out@[p as int]@));
        assert forall|a: int, b: int| 0 <= a < b < records_view(out@).len() implies (#[trigger] records_view(
            out@,
        )[a]).block_height >= (#[trigger] records_view(out@)[b]).block_height by {
            let w = records_view(out@);
            if b < p {
                assert(w[a] == ov_before[a] && w[b] == ov_before[b]);
            } else if b == p {
                assert(w[a] == ov_before[a]);
            } else if a < p {
                assert(w[a] == ov_before[a] && w[b] == ov_before[b - 1]);
            } else if a == p {
                assert(w[b] == ov_before[b - 1]);
            } else {
                assert(w[a] == ov_before[a - 1] && w[b] == ov_before[b - 1]);
            }
        }
        i = i + 1;
    }
    assert(rv.take(n as int) =~= rv);
    out
}


/// What the wallet received in `tx`, or `None` when that exceeds `u64`.
fn received_checked(tx: &Transaction, pkh: &[u8]) -> (r: Option<u64>)
    ensures
        match r {
            Some(v) => v == received_of(tx@, pkh@),
            None => received_of(tx@, pkh@) > u64::MAX,
        },
{
    let mut total: u128 = 0;
    let n = tx.vout.len();
    for k in 0..n
        invariant
            n == tx.vout@.len(),
            total == received_total(tx@, pkh@, k as int),
            total <= u64::MAX,
    {
        assert(tx@.vout[k as int] == tx.vout@[k as int]@);
        if bytes_eq(tx.vout[k].pub_key_hash.as_slice(), pkh) {
            total = total + tx.vout[k].value as u128;
            if total > u64::MAX as u128 {
                proof {
                    lemma_received_prefix(tx@, pkh@, k + 1, n as int);
                }
                return None;
            }
        }
    }
    Some(total as u64)
}

/// The value of the outputs in `outs` that `tx` spends (only those locked
/// to `pkh` when `only_pkh` is set), or `None` when that exceeds `u64`.
pub(crate) fn found_checked(tx: &Transaction, outs: &UtxoSet, pkh: &[u8], only_pkh: bool) -> (r: Option<u64>)
    requires
        outs.wf(),
    ensures
        match r {
            Some(v) => v == found_total(tx@, outs@, pkh@, only_pkh, tx@.vin.len() as int),
            None => found_total(tx@, outs@, pkh@, only_pkh, tx@.vin.len() as int) > u64::MAX,
        },
{
    let mut total: u128 = 0;
    let n = tx.vin.len();
    for k in 0..n
        invariant
            n == tx.vin@.len(),
            outs.wf(),
            total == found_total(tx@, outs@, pkh@, only_pkh, k as int),
            total <= u64::MAX,
    {
        assert(tx@.vin[k as int] == tx.vin@[k as int]@);
        match outs.get(&tx.vin[k].previous_output) {
            Some(o) => {
                if !only_pkh || bytes_eq(o.pub_key_hash.as_slice(), pkh) {
                    total = total + o.value as u128;
                    if total > u64::MAX as u128 {
                        proof {
                            lemma_found_prefix(tx@, outs@, pkh@, only_pkh, k + 1, n as int);
                        }
                        return None;
                    }
                }
            },
            None => {},
        }
    }
    Some(total as u64)
}

/// Whether classifying `tx` stays within the integer types.
fn classify_fits_check(tx: &Transaction, height: u64, tip: u64, pkh: &[u8], outs: &UtxoSet) -> (r: bool)
    requires
        outs.wf(),
    ensures
        r == classify_fits(tx@, height, tip, pkh@, outs@),
{
    if tip >= height && tip - height == u64::MAX {
        return false;
    }
    let received = match received_checked(tx, pkh) {
        Some(v) => v,
        None => {
            return false;
        },
    };
    let coinbase = tx.is_coinbase();
    let spent: u64 = if coinbase {
        0
    } else {
        match found_checked(tx, outs, pkh, true) {
            Some(v) => v,
            None => {
                return false;
            },
        }
    };
    if !(received == 0 && spent == 0) && !coinbase {
        proof {
            lemma_found_ignores_key(tx@, outs@, pkh@, tx@.vin.len() as int);
        }
        if found_checked(tx, outs, pkh, false).is_none() {
            return false;
        }
        if output_sum(tx) > u64::MAX as u128 {
            return false;
        }
    }
    if spent != 0 && !moves_to_self(tx, outs, pkh) {
        let net: i128 = (#[verifier::truncate] (received as i64)) as i128 - (#[verifier::truncate] (
        spent as i64)) as i128;
        if net < i64::MIN as i128 || net > i64::MAX as i128 {
            return false;
        }
    }
    true
}

/// Whether building the history of `pub_key_hash` on `chain` at tip height
/// `tip_height` stays within the integer types, as `build_history` needs.
pub fn history_sums_fit(chain: &[Block], pub_key_hash: &[u8], tip_height: u64) -> (r: bool)
    ensures
        r == history_fits(blocks_view(chain@), pub_key_hash@, tip_height),
{
    let ghost bv = blocks_view(chain@);
    let ghost pkh = pub_key_hash@;
    let outs = all_outputs_of(chain);
    let ghost ov = outs@;
    let nb = chain.len();
    for b in 0..nb
        invariant
            nb == chain@.len(),
            bv == blocks_view(chain@),
            pkh == pub_key_hash@,
            outs.wf(),
            ov == outs@,
            ov == all_outputs(bv),
            chain_entries(bv.take(b as int)).len() <= chain_entries(bv).len(),
            forall|i: int|
                0 <= i < chain_entries(bv.take(b as int)).len() ==> #[trigger] classify_fits(
                    chain_entries(bv)[i].0,
                    chain_entries(bv)[i].1,
                    tip_height,
                    pkh,
                    ov,
                ),
    {
        let block = &chain[b];
        assert(bv[b as int] == block@);
        let ghost prefix = chain_entries(bv.take(b as int));
        let ghost bentries = block@.transactions.map_values(
            |t: TxView| (t, block@.index, block@.timestamp),
        );
        proof {
            lemma_chain_entries_push(bv, b as int);
            lemma_chain_entries_prefix(bv, b + 1);
        }
        let nt = block.transactions.len();
        for t in 0..nt
            invariant
                nt == block.transactions@.len(),
                bv[b as int] == block@,
                b < nb,
                nb == chain@.len(),
                bv == blocks_view(chain@),
                pkh == pub_key_hash@,
                outs.wf(),
                ov == outs@,
                ov == all_outputs(bv),
                prefix == chain_entries(bv.take(b as int)),
                bentries == block@.transactions.map_values(
                    |t: TxView| (t, block@.index, block@.timestamp),
                ),
                chain_entries(bv.take(b + 1)) == prefix + bentries,
                chain_entries(bv.take(b + 1)).len() <= chain_entries(bv).len(),
                forall|i: int|
                    0 <= i < chain_entries(bv.take(b + 1)).len() ==> #[trigger] chain_entries(
                        bv.take(b + 1),
                    )[i] == chain_entries(bv)[i],
                forall|i: int|
                    0 <= i < prefix.len() + t ==> #[trigger] classify_fits(
                        chain_entries(bv)[i].0,
                        chain_entries(bv)[i].1,
                        tip_height,
                        pkh,
                        ov,
                    ),
        {
            let tx = &block.transactions[t];
            assert(block@.transactions[t as int] == tx@);
            let ghost e = bentries[t as int];
            assert(e == (tx@, block.index, block.timestamp));
            let ghost idx = prefix.len() + t;
            assert((prefix + bentries)[idx] == e);
            assert(chain_entries(bv)[idx] == e);
            if !classify_fits_check(tx, block.index, tip_height, pub_key_hash, &outs) {
                assert(!classify_fits(chain_entries(bv)[idx].0, chain_entries(bv)[idx].1, tip_height, pkh, ov));
                return false;
            }
        }
        assert(bentries.take(nt as int) =~= bentries);
    }
    assert(bv.take(nb as int) =~= bv);
    true
}

/// The sum of the changes that the records in direction `d` bring.
pub open spec fn direction_net(rs: Seq<RecordView>, d: TxDirection) -> int
    decreases rs.len(),
{
    if rs.len() == 0 {
        0
    } else {
        direction_net(rs.drop_last(), d) + if rs.last().direction == d {
            rs.last().net as int
        } else {
            0
        }
    }
}

/// The sum of the fees of the records.
pub open spec fn fees_paid(rs: Seq<RecordView>) -> int
    decreases rs.len(),
{
    if rs.len() == 0 {
        0
    } else {
        fees_paid(rs.drop_last()) + rs.last().fee
    }
}

/// What a history adds up to, exactly: the change from receipts, the change
/// from payments, and the fees.
pub fn history_totals(records: &Vec<TxRecord>) -> (r: (i128, i128, u128))
    ensures
        r.0 == direction_net(records_view(records@), TxDirection::Received),
        r.1 == direction_net(records_view(records@), TxDirection::Sent),
        r.2 == fees_paid(records_view(records@)),
{
    let ghost rv = records_view(records@);
    let mut received: i128 = 0;
    let mut sent: i128 = 0;
    let mut fees: u128 = 0;
    let n = records.len();
    for i in 0..n
        invariant
            n == records@.len(),
            rv == records_view(records@),
            received == direction_net(rv.take(i as int), TxDirection::Received),
            sent == direction_net(rv.take(i as int), TxDirection::Sent),
            fees == fees_paid(rv.take(i as int)),
            -(i as int) * 0x8000_0000_0000_0000 <= received <= (i as int) * 0x7fff_ffff_ffff_ffff,
            -(i as int) * 0x8000_0000_0000_0000 <= sent <= (i as int) * 0x7fff_ffff_ffff_ffff,
            0 <= fees <= (i as int) * 0xffff_ffff_ffff_ffff,
    {
        let rec = &records[i];
        assert(rv.take(i + 1).drop_last() =~= rv.take(i as int));
        assert(rv.take(i + 1).last() == rec@);
        if rec.direction == TxDirection::Received {
            received = received + rec.net as i128;
        }
        if rec.direction == TxDirection::Sent {
            sent = sent + rec.net as i128;
        }
        fees = fees + rec.fee as u128;
    }
    assert(rv.take(n as int) =~= rv);
    (received, sent, fees)
}

} // verus!
