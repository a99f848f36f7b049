//! The chain itself: blocks, the difficulty the next block must meet, the
//! mempool and the base mining reward; with the rules by which a block is
//! appended, a longer chain replaces this one, and transactions are built
//! and mined.

use vstd::prelude::*;
use vstd::utf8::encode_utf8;
use crate::codec::{
    bytes_eq, copy_bytes, copy_string, decimal_text, lemma_decimal_text_utf8, lemma_encode_utf8_concat,
    lemma_hex_roundtrip, push_decimal, push_text, str_eq, text_of_utf8,
};
use crate::crypto::sha256_digest;
use crate::models::block::{
    Block, BlockView, block_hash_of, has_zero_prefix, meets_target, mined_from, sealed, with_work,
};
use crate::models::difficulty::{
    calculate_next_difficulty, is_retarget_block, next_difficulty, retarget_fits,
    RETARGET_INTERVAL, TARGET_BLOCK_TIME_SECS, TARGET_TIMESPAN,
};
use crate::models::genesis;
use crate::models::genesis::{GENESIS_DIFFICULTY, is_genesis};
use crate::models::ledger::{
    accept_txs, applied, blocks_view, input_owned, inputs_distinct, outpoint_listed, chain_txs, input_total, lemma_accept_concat,
    lemma_chain_txs_push, output_sum, output_total, tx_valid_against, txs_accepted, txs_view,
    utxo_map, utxo_set_of, validate_against,
};
use crate::models::history::{
    TxRecord, build_history, history_fits, history_of, records_view,
};
use crate::models::mempool::{
    EntryView, has_id, ops_view, Mempool, confirmed_spends, fee_sum, lemma_fee_sum_prefix, spends, spends_reserved,
    strings_view, unconfirmed,
};
use crate::models::transaction::{
    InputView, OutPoint, OutPointView, OutputView, TXOutput, Transaction, TxView, content_hash_of,
    basic_ok, coinbase_id, coinbase_view, is_coinbase_view, json_tx, signatures_ok, unsigned_form, unsigned_inputs,
};
use crate::models::utxo::{
    UtxoSet, lemma_pairs_map_insert_at, lemma_seq_value_sum_is_map_sum, map_value_sum, pair_keys,
    pairs_map, seq_value_sum,
};
use crate::models::wallet::{Wallet, pub_key_hash_of};

verus! {

broadcast use {vstd::seq::group_seq_axioms, vstd::seq_lib::group_seq_properties};

/// At most this many mempool transactions go into a mined block.
pub const MAX_TXS_PER_BLOCK: usize = 500;

/// The base reward of a new chain.
pub const INITIAL_MINING_REWARD: u64 = 50;

/// The base reward halves each time the chain length reaches a multiple of
/// this.
pub const HALVING_INTERVAL: usize = 210;

#[derive(Debug)]
pub struct Blockchain {
    pub chain: Vec<Block>,
    pub difficulty: usize,
    pub mempool: Mempool,
    pub mining_reward: u64,
}

/// The hash of the last block, or the empty text for no blocks.
pub open spec fn tip_hash_of(bs: Seq<BlockView>) -> Seq<char> {
    if bs.len() == 0 {
        Seq::empty()
    } else {
        bs.last().hash
    }
}

/// The index of the last block, or 0 for no blocks.
pub open spec fn height_of(bs: Seq<BlockView>) -> u64 {
    if bs.len() == 0 {
        0
    } else {
        bs.last().index
    }
}

/// Whether the block at height `h` starts a new difficulty window.
pub open spec fn retarget_at(h: int) -> bool {
    h > 0 && h % (RETARGET_INTERVAL as int) == 0
}

/// The seconds the last window took: from the first block of the window to
/// the last block of the chain, at least one.
pub open spec fn window_timespan(bs: Seq<BlockView>) -> int {
    let first = bs[bs.len() - RETARGET_INTERVAL].timestamp;
    let last = bs.last().timestamp;
    let span: int = if last >= first {
        last - first
    } else {
        0
    };
    if span < 1 {
        1
    } else {
        span
    }
}

/// The difficulty the next block must meet: the current one, retargeted
/// when the next height starts a window.
pub open spec fn current_difficulty(bs: Seq<BlockView>, d: usize) -> int {
    if retarget_at(bs.len() as int) {
        next_difficulty(d as int, window_timespan(bs))
    } else {
        d as int
    }
}

/// Whether the next block's difficulty can be worked out within `u64`: a
/// retarget is due only at a multiple of the retarget interval, and its
/// arithmetic must fit there.
pub open spec fn retarget_safe(bs: Seq<BlockView>, d: usize) -> bool {
    retarget_at(bs.len() as int) ==> retarget_fits(d as int)
}

/// Block `i` carries the hash of its own content and, past the first,
/// links to its predecessor and meets its own difficulty.
pub open spec fn header_ok(bs: Seq<BlockView>, i: int) -> bool {
    &&& bs[i].hash == block_hash_of(bs[i])
    &&& i > 0 ==> {
        &&& bs[i].previous_hash == bs[i - 1].hash
        &&& meets_target(bs[i].hash, bs[i].difficulty as int)
    }
}

/// Every block is sealed and linked, and the first has no parent.
pub open spec fn chain_valid(bs: Seq<BlockView>) -> bool {
    &&& forall|i: int| 0 <= i < bs.len() ==> #[trigger] header_ok(bs, i)
    &&& bs.len() > 0 ==> bs[0].previous_hash.len() == 0
}

/// Whether `b` may follow `bs` when the current difficulty is `d`: the next
/// index, the tip as parent, its own hash meeting its difficulty, the
/// difficulty that is due, and transactions valid in turn against the
/// unspent outputs of `bs`.
pub open spec fn appendable(bs: Seq<BlockView>, d: usize, b: BlockView) -> bool {
    &&& b.index == bs.len()
    &&& b.previous_hash == tip_hash_of(bs)
    &&& b.hash == block_hash_of(b)
    &&& meets_target(b.hash, b.difficulty as int)
    &&& b.difficulty == current_difficulty(bs, d)
    &&& txs_accepted(utxo_map(bs), b.transactions)
}

/// Whether `cand` replaces `bs`: longer, the same first block, every block
/// sealed and linked, and every transaction valid in turn from an empty
/// unspent set.
pub open spec fn replaceable(bs: Seq<BlockView>, cand: Seq<BlockView>) -> bool {
    &&& cand.len() > bs.len()
    &&& cand[0].hash == bs[0].hash
    &&& forall|i: int| 0 <= i < cand.len() ==> #[trigger] header_ok(cand, i)
    &&& txs_accepted(Map::empty(), chain_txs(cand))
}

/// The fee of `t` against `u`: none for a coinbase; otherwise the inputs'
/// value less the outputs', if every input is found and that is not
/// negative.
pub open spec fn fee_of(t: TxView, u: Map<OutPointView, OutputView>) -> Option<int> {
    if is_coinbase_view(t) {
        Some(0)
    } else if !inputs_present(t, u, t.vin.len() as int) {
        None
    } else if input_total(t, u, t.vin.len() as int) >= output_total(t, t.vout.len() as int) {
        Some(input_total(t, u, t.vin.len() as int) - output_total(t, t.vout.len() as int))
    } else {
        None
    }
}

/// Whether `u` holds the outputs that the first `k` inputs of `t` spend.
pub open spec fn inputs_present(t: TxView, u: Map<OutPointView, OutputView>, k: int) -> bool {
    forall|j: int| 0 <= j < k ==> u.dom().contains(#[trigger] t.vin[j].previous_output)
}

/// Whether the running sums that a fee is computed with stay within `u64`:
/// the inputs' value up to the first one not found, and the outputs' value
/// when all are found.
pub open spec fn fee_fits(t: TxView, u: Map<OutPointView, OutputView>) -> bool {
    !is_coinbase_view(t) ==> {
        &&& forall|k: int|
            0 <= k <= t.vin.len() && inputs_present(t, u, k) ==> #[trigger] input_total(t, u, k)
                <= u64::MAX
        &&& inputs_present(t, u, t.vin.len() as int) ==> output_total(t, t.vout.len() as int)
            <= u64::MAX
    }
}

/// The outputs of `m` locked to `pkh` whose outpoints are not reserved.
pub open spec fn spendable(
    m: Map<OutPointView, OutputView>,
    reserved: Seq<OutPointView>,
    pkh: Seq<u8>,
) -> Map<OutPointView, OutputView> {
    Map::new(
        |op: OutPointView| m.dom().contains(op) && m[op].pub_key_hash == pkh && !reserved.contains(op),
        |op: OutPointView| m[op],
    )
}

/// A total of values along a prefix never exceeds the whole.
proof fn lemma_seq_value_sum_prefix(s: Seq<(OutPoint, TXOutput)>, k: int)
    requires
        0 <= k <= s.len(),
    ensures
        seq_value_sum(s.take(k)) <= seq_value_sum(s),
        seq_value_sum(s.take(k)) >= 0,
    decreases s.len() - k,
{
    if k < s.len() {
        lemma_seq_value_sum_prefix(s, k + 1);
        assert(s.take(k + 1).drop_last() =~= s.take(k));
    } else {
        assert(s.take(k) =~= s);
    }
    lemma_seq_value_sum_nonneg(s.take(k));
}

proof fn lemma_seq_value_sum_nonneg(s: Seq<(OutPoint, TXOutput)>)
    ensures
        seq_value_sum(s) >= 0,
    decreases s.len(),
{
    if s.len() > 0 {
        lemma_seq_value_sum_nonneg(s.drop_last());
    }
}

/// Values never decrease along the list.
pub open spec fn ascending(s: Seq<(OutPoint, TXOutput)>) -> bool {
    forall|a: int, b: int| 0 <= a < b < s.len() ==> (#[trigger] s[a]).1.value <= (#[trigger] s[b]).1.value
}

/// `c` outputs from the front of `s` are what the greedy selection takes to
/// cover `needed`: at least one when there is one, stopping at the first
/// prefix whose total reaches `needed`, or all of them.
pub open spec fn greedy_count(s: Seq<(OutPoint, TXOutput)>, needed: int, c: int) -> bool {
    &&& 0 <= c <= s.len()
    &&& s.len() > 0 ==> c >= 1
    &&& c == s.len() || seq_value_sum(s.take(c)) >= needed
    &&& forall|c2: int| 1 <= c2 < c ==> seq_value_sum(#[trigger] s.take(c2)) < needed
}

/// `picked` is a coin selection from `avail` for `needed`: the outputs of
/// `avail` in ascending order of value, as many from the front as the
/// greedy selection takes.
pub open spec fn coin_selection(
    avail: Map<OutPointView, OutputView>,
    needed: int,
    picked: Seq<OutPointView>,
) -> bool {
    exists|order: Seq<(OutPoint, TXOutput)>, c: int|
        #![trigger pairs_map(order), order.take(c)]
        {
            &&& pair_keys(order).no_duplicates()
            &&& pairs_map(order) == avail
            &&& ascending(order)
            &&& greedy_count(order, needed, c)
            &&& picked == pair_keys(order.take(c))
        }
}

/// The outpoints that the inputs of `t` spend.
pub open spec fn spent_outpoints_of(t: TxView) -> Seq<OutPointView> {
    t.vin.map_values(|i: InputView| i.previous_output)
}

/// The message of a refusal for want of funds.
pub open spec fn insufficient_funds_text(have: nat, need: nat, amount: nat, fee: nat) -> Seq<char> {
    "Insufficient funds: have="@ + decimal_text(have) + " need="@ + decimal_text(need)
        + " (amount="@ + decimal_text(amount) + " + fee="@ + decimal_text(fee) + ")"@
}

/// The outputs of `order` in ascending order of value.
fn sort_by_value(v: &Vec<(OutPoint, TXOutput)>) -> (r: Vec<(OutPoint, TXOutput)>)
    requires
        pair_keys(v@).no_duplicates(),
    ensures
        pair_keys(r@).no_duplicates(),
        pairs_map(r@) == pairs_map(v@),
        ascending(r@),
{
    let mut out: Vec<(OutPoint, TXOutput)> = Vec::new();
    assert(pair_keys(out@) =~= Seq::<OutPointView>::empty());
    assert(pairs_map(out@) =~= pairs_map(v@.take(0)));
    let n = v.len();
    for i in 0..n
        invariant
            n == v@.len(),
            pair_keys(v@).no_duplicates(),
            pair_keys(out@).no_duplicates(),
            pairs_map(out@) == pairs_map(v@.take(i as int)),
            ascending(out@),
    {
        let e = (v[i].0.clone(), v[i].1.clone());
        let ev = e.1.value;
        let mut p: usize = 0;
        while p < out.len() && out[p].1.value <= ev
            invariant
                p <= out@.len(),
                forall|q: int| 0 <= q < p ==> (#[trigger] out@[q]).1.value <= ev,
            decreases out@.len() - p,
        {
            p = p + 1;
        }
        let ghost before = out@;
        proof {
            assert(pair_keys(v@.take(i as int)) =~= pair_keys(v@).take(i as int));
            assert(!pair_keys(v@.take(i as int)).contains(v@[i as int].0@)) by {
                if pair_keys(v@.take(i as int)).contains(v@[i as int].0@) {
                    let j = pair_keys(v@.take(i as int)).index_of(v@[i as int].0@);
                    assert(pair_keys(v@)[j] == pair_keys(v@)[i as int]);
                }
            }
            assert(v@.take(i as int).insert(i as int, v@[i as int]) =~= v@.take(i + 1));
            lemma_pairs_map_insert_at(v@.take(i as int), i as int, v@[i as int]);
            assert(!pair_keys(before).contains(e.0@)) by {
                if pair_keys(before).contains(e.0@) {
                    assert(pairs_map(before).dom().contains(e.0@));
                }
            }
            lemma_pairs_map_insert_at(before, p as int, e);
        }
        out.insert(p, e);
        assert(out@ == before.insert(p as int, e));
        assert(pairs_map(out@) =~= pairs_map(v@.take(i + 1)));
        assert forall|a: int, b: int| 0 <= a < b < out@.len() implies (#[trigger] out@[a]).1.value
            <= (#[trigger] out@[b]).1.value by {
            if b < p {
                assert(out@[a] == before[a] && out@[b] == before[b]);
            } else if b == p {
                assert(out@[a] == before[a]);
            } else if a < p {
                assert(out@[a] == before[a] && out@[b] == before[b - 1]);
                if a < b - 1 {
                    assert(before[a].1.value <= before[b - 1].1.value);
                }
            } else if a == p {
                assert(out@[b] == before[b - 1]);
                assert(before[p as int].1.value > ev);
                if p < b - 1 {
                    assert(before[p as int].1.value <= before[b - 1].1.value);
                }
            } else {
                assert(out@[a] == before[a - 1] && out@[b] == before[b - 1]);
            }
        }
    }
    assert(v@.take(n as int) =~= v@);
    out
}

/// How many outputs from the front of `sorted` the greedy selection takes
/// to cover `needed`, and their total.
fn count_to_cover(sorted: &Vec<(OutPoint, TXOutput)>, needed: u64) -> (r: (usize, u128))
    ensures
        greedy_count(sorted@, needed as int, r.0 as int),
        r.1 == seq_value_sum(sorted@.take(r.0 as int)),
{
    let n = sorted.len();
    let mut count: usize = 0;
    let mut total: u128 = 0;
    while count < n && (count == 0 || total < needed as u128)
        invariant
            n == sorted@.len(),
            count <= n,
            total == seq_value_sum(sorted@.take(count as int)),
            total <= count * (u64::MAX as int),
            forall|c2: int| 1 <= c2 < count ==> seq_value_sum(#[trigger] sorted@.take(c2)) < needed,
        decreases n - count,
    {
        proof {
            assert(sorted@.take(count + 1).drop_last() =~= sorted@.take(count as int));
            assert((count + 1) * (u64::MAX as int) <= u128::MAX) by (nonlinear_arith)
                requires
                    count + 1 <= usize::MAX,
                    usize::MAX <= u64::MAX,
            ;
            assert((count + 1) * (u64::MAX as int) == count * (u64::MAX as int) + u64::MAX) by (nonlinear_arith);
        }
        total = total + sorted[count].1.value as u128;
        count = count + 1;
    }
    (count, total)
}

/// When the inputs of `t` spend the outpoints of `order` in turn and `u`
/// holds their outputs, the input total is the total of `order`.
proof fn lemma_input_total_matches(
    t: TxView,
    u: Map<OutPointView, OutputView>,
    order: Seq<(OutPoint, TXOutput)>,
    k: int,
)
    requires
        0 <= k <= t.vin.len(),
        k <= order.len(),
        forall|j: int|
            0 <= j < k ==> (#[trigger] t.vin[j]).previous_output == order[j].0@ && u[order[j].0@]
                == order[j].1@,
    ensures
        input_total(t, u, k) == seq_value_sum(order.take(k)),
    decreases k,
{
    if k > 0 {
        lemma_input_total_matches(t, u, order, k - 1);
        assert(order.take(k).drop_last() =~= order.take(k - 1));
        assert(t.vin[k - 1].previous_output == order[k - 1].0@);
    }
}

/// A prefix of a list with distinct outpoints has distinct outpoints.
proof fn lemma_prefix_keys(order: Seq<(OutPoint, TXOutput)>, c: int)
    requires
        pair_keys(order).no_duplicates(),
        0 <= c <= order.len(),
    ensures
        pair_keys(order.take(c)) == pair_keys(order).take(c),
        pair_keys(order.take(c)).no_duplicates(),
{
    assert(pair_keys(order.take(c)) =~= pair_keys(order).take(c));
}

/// How many pending transactions a mined block takes.
pub open spec fn block_take(n: int) -> int {
    if n < MAX_TXS_PER_BLOCK {
        n
    } else {
        MAX_TXS_PER_BLOCK as int
    }
}

/// The pending transactions a mined block takes, highest fee first.
pub open spec fn block_pending(es: Seq<EntryView>) -> Seq<TxView> {
    es.take(block_take(es.len() as int)).map_values(|e: EntryView| e.tx)
}

/// The fees of the pending transactions a mined block takes.
pub open spec fn block_fees(es: Seq<EntryView>) -> int {
    fee_sum(es.take(block_take(es.len() as int)))
}

/// The ids of a run of transactions.
pub open spec fn tx_ids(txs: Seq<TxView>) -> Seq<Seq<char>> {
    txs.map_values(|t: TxView| t.id)
}

/// The block that mining on `bs` at difficulty `d` starts from: the next
/// index, the tip as parent, a coinbase paying `value` to `pkh` followed by
/// `pending`, nonce 0 and the hash of that content, at time `timestamp`;
/// the coinbase id covers the time `nanos`.
pub open spec fn mining_template(
    bs: Seq<BlockView>,
    d: usize,
    pkh: Seq<u8>,
    value: u64,
    pending: Seq<TxView>,
    timestamp: u64,
    nanos: u128,
) -> BlockView {
    sealed(
        BlockView {
            index: bs.len() as u64,
            timestamp,
            proof_of_work: 0,
            previous_hash: tip_hash_of(bs),
            hash: Seq::empty(),
            transactions: seq![coinbase_view(coinbase_id(pkh, value, nanos), pkh, value)] + pending,
            reward: value,
            difficulty: d,
        },
    )
}

/// The base reward after the chain has grown to `len` blocks.
pub open spec fn reward_after(reward: u64, len: int) -> u64 {
    if len % (HALVING_INTERVAL as int) == 0 && reward > 1 {
        (reward / 2) as u64
    } else {
        reward
    }
}

/// A chain whose transactions are accepted has the transactions of every
/// prefix of blocks accepted.
proof fn lemma_chain_txs_prefix_accepted(cv: Seq<BlockView>, k: int)
    requires
        0 <= k <= cv.len(),
        txs_accepted(Map::empty(), chain_txs(cv)),
    ensures
        txs_accepted(Map::empty(), chain_txs(cv.take(k))),
    decreases cv.len() - k,
{
    if k < cv.len() {
        lemma_chain_txs_prefix_accepted(cv, k + 1);
        lemma_chain_txs_push(cv, k);
        lemma_accept_concat(Map::empty(), chain_txs(cv.take(k)), cv[k].transactions);
    } else {
        assert(cv.take(k) =~= cv);
    }
}

/// What the node reports of its difficulty.
#[derive(Debug)]
pub struct DifficultyInfo {
    pub current: usize,
    pub height: u64,
    pub blocks_until_retarget: u64,
    pub avg_block_time_secs: u64,
    pub target_block_time_secs: u64,
}

/// Blocks left until the next retarget, counting from a chain of `len`
/// blocks; a full window when the length is itself a retarget height.
pub open spec fn blocks_until_retarget_of(len: int) -> int {
    let since = len % (RETARGET_INTERVAL as int);
    if since == 0 {
        RETARGET_INTERVAL as int
    } else {
        RETARGET_INTERVAL - since
    }
}

/// The mean seconds between the last blocks, over at most the last ten
/// intervals and never reaching back to the first block; zero for chains of
/// up to two blocks.
pub open spec fn avg_block_time_of(bs: Seq<BlockView>) -> int {
    if bs.len() > 2 {
        let window: int = if bs.len() - 1 < 10 {
            bs.len() - 1
        } else {
            10
        };
        let first = bs[bs.len() - window].timestamp;
        let last = bs.last().timestamp;
        let elapsed: int = if last >= first {
            last - first
        } else {
            0
        };
        elapsed / (window - 1)
    } else {
        0
    }
}

/// The outputs of `utxos` locked to `pkh` whose outpoints `reserved` does
/// not list, each once.
pub fn owned_outputs(utxos: &UtxoSet, pkh: &[u8], reserved: &Vec<OutPoint>) -> (r: Vec<(OutPoint, TXOutput)>)
    requires
        utxos.wf(),
    ensures
        pair_keys(r@).no_duplicates(),
        pairs_map(r@) == spendable(utxos@, ops_view(reserved@), pkh@),
{
    let ghost es = utxos.entries@;
    let ghost rv = ops_view(reserved@);
    let mut out: Vec<(OutPoint, TXOutput)> = Vec::new();
    let n = utxos.entries.len();
    for i in 0..n
        invariant
            n == es.len(),
            es == utxos.entries@,
            utxos.wf(),
            rv == ops_view(reserved@),
            pair_keys(out@).no_duplicates(),
            pairs_map(out@) == spendable(pairs_map(es.take(i as int)), rv, pkh@),
    {
        let entry = &utxos.entries[i];
        let ghost k = entry.0@;
        proof {
            assert(pair_keys(es.take(i as int)) =~= pair_keys(es).take(i as int));
            assert(!pair_keys(es.take(i as int)).contains(k)) by {
                if pair_keys(es.take(i as int)).contains(k) {
                    let j = pair_keys(es.take(i as int)).index_of(k);
                    assert(pair_keys(es)[j] == pair_keys(es)[i as int]);
                }
            }
            assert(es.take(i as int).insert(i as int, es[i as int]) =~= es.take(i + 1));
            lemma_pairs_map_insert_at(es.take(i as int), i as int, es[i as int]);
        }
        let keep = bytes_eq(entry.1.pub_key_hash.as_slice(), pkh) && !outpoint_listed(reserved, &entry.0);
        if keep {
            let ghost before = out@;
            assert(!pair_keys(before).contains(k)) by {
                if pair_keys(before).contains(k) {
                    assert(pairs_map(before).dom().contains(k));
                }
            }
            out.push((entry.0.clone(), entry.1.clone()));
            proof {
                let e = out@.last();
                assert(e.0@ == k);
                assert(before.insert(before.len() as int, e) =~= out@);
                lemma_pairs_map_insert_at(before, before.len() as int, e);
            }
            assert(pairs_map(out@) =~= spendable(pairs_map(es.take(i + 1)), rv, pkh@));
        } else {
            assert(pairs_map(out@) =~= spendable(pairs_map(es.take(i + 1)), rv, pkh@));
        }
    }
    assert(es.take(n as int) =~= es);
    out
}

/// The total value of a list of outputs with distinct outpoints: the total
/// of the map they stand for.
/// Whether the value of the listed outputs fits in `u64`.
pub fn values_fit(v: &Vec<(OutPoint, TXOutput)>) -> (r: bool)
    requires
        pair_keys(v@).no_duplicates(),
    ensures
        r == (map_value_sum(pairs_map(v@)) <= u64::MAX),
{
    proof {
        lemma_seq_value_sum_is_map_sum(v@);
    }
    let mut total: u128 = 0;
    let n = v.len();
    for i in 0..n
        invariant
            n == v@.len(),
            seq_value_sum(v@) == map_value_sum(pairs_map(v@)),
            total == seq_value_sum(v@.take(i as int)),
            total <= u64::MAX,
    {
        assert(v@.take(i + 1).drop_last() =~= v@.take(i as int));
        total = total + v[i].1.value as u128;
        if total > u64::MAX as u128 {
            proof {
                lemma_seq_value_sum_prefix(v@, i + 1);
            }
            return false;
        }
    }
    assert(v@.take(n as int) =~= v@);
    true
}

pub fn sum_values(v: &Vec<(OutPoint, TXOutput)>) -> (r: u64)
    requires
        pair_keys(v@).no_duplicates(),
        map_value_sum(pairs_map(v@)) <= u64::MAX,
    ensures
        r == map_value_sum(pairs_map(v@)),
{
    proof {
        lemma_seq_value_sum_is_map_sum(v@);
    }
    let mut total: u64 = 0;
    let n = v.len();
    for i in 0..n
        invariant
            n == v@.len(),
            seq_value_sum(v@) <= u64::MAX,
            total == seq_value_sum(v@.take(i as int)),
    {
        proof {
            lemma_seq_value_sum_prefix(v@, i + 1);
            assert(v@.take(i + 1).drop_last() =~= v@.take(i as int));
        }
        total = total + v[i].1.value;
    }
    assert(v@.take(n as int) =~= v@);
    total
}

/// A chain from a peer replaces ours only if it is longer, starts from our
/// first block, every block is sealed and linked, and every transaction
/// other than a coinbase is valid against the unspent outputs left by the
/// transactions before it, starting from none; so a candidate holding a
/// transaction that spends more than it has is refused.
pub proof fn law_replacement_is_validated(ours: Seq<BlockView>, cand: Seq<BlockView>)
    requires
        replaceable(ours, cand),
    ensures
        cand.len() > ours.len(),
        cand[0].hash == ours[0].hash,
        forall|i: int| 0 <= i < cand.len() ==> #[trigger] header_ok(cand, i),
        txs_accepted(Map::empty(), chain_txs(cand)),
{
}

/// A block follows the tip only with the difficulty due after the chain:
/// the current one between retargets, the retargeted one at a retarget
/// height; so a block whose difficulty differs is never appended.
pub proof fn law_appended_difficulty_is_due(bs: Seq<BlockView>, d: usize, b: BlockView)
    requires
        appendable(bs, d, b),
    ensures
        b.difficulty == current_difficulty(bs, d),
        !retarget_at(bs.len() as int) ==> b.difficulty == d,
        b.index == bs.len(),
        b.previous_hash == tip_hash_of(bs),
        txs_accepted(utxo_map(bs), b.transactions),
{
}

/// Each halving halves the base reward as it stands: when the chain length
/// reaches a multiple of `HALVING_INTERVAL` and the reward is above 1, it
/// becomes half of itself, rounded down; otherwise it stays. So it never
/// grows, and it strictly shrinks at each halving while above 1.
pub proof fn law_halving_halves_current_reward(reward: u64, len: int)
    ensures
        len % (HALVING_INTERVAL as int) == 0 && reward > 1 ==> reward_after(reward, len) == reward / 2
            && reward_after(reward, len) < reward,
        !(len % (HALVING_INTERVAL as int) == 0 && reward > 1) ==> reward_after(reward, len) == reward,
        reward_after(reward, len) <= reward,
{
}

/// At a retarget height the difficulty due is the current one scaled by the
/// time the last `RETARGET_INTERVAL` blocks took: from the first block of
/// that window to the tip, at least one second.
pub proof fn law_retarget_uses_last_window(bs: Seq<BlockView>, d: usize)
    requires
        retarget_at(bs.len() as int),
    ensures
        ({
            let n = bs.len() as int;
            let first = bs[n - RETARGET_INTERVAL as int].timestamp as int;
            let last = bs[n - 1].timestamp as int;
            let span = if last - first < 1 {
                1
            } else {
                last - first
            };
            current_difficulty(bs, d) == next_difficulty(d as int, span)
        }),
{
    assert(bs.last() == bs[bs.len() - 1]);
}

/// The retarget depends on the timestamps of the last window alone: two
/// chains of the same retarget length whose last `RETARGET_INTERVAL` blocks
/// carry the same timestamps are due the same difficulty, whatever the
/// blocks before the window.
pub proof fn law_retarget_ignores_older_blocks(bs1: Seq<BlockView>, bs2: Seq<BlockView>, d: usize)
    requires
        bs1.len() == bs2.len(),
        retarget_at(bs1.len() as int),
        forall|i: int|
            bs1.len() - RETARGET_INTERVAL <= i < bs1.len() ==> (#[trigger] bs1[i]).timestamp
                == bs2[i].timestamp,
    ensures
        current_difficulty(bs1, d) == current_difficulty(bs2, d),
{
    let n = bs1.len() as int;
    assert(bs1[n - RETARGET_INTERVAL as int].timestamp == bs2[n - RETARGET_INTERVAL as int].timestamp);
    assert(bs1[n - 1].timestamp == bs2[n - 1].timestamp);
    assert(bs1.last() == bs1[n - 1] && bs2.last() == bs2[n - 1]);
}

/// A valid chain stays valid when a block that may follow it is appended.
pub proof fn law_append_keeps_chain_valid(bs: Seq<BlockView>, d: usize, b: BlockView)
    requires
        chain_valid(bs),
        appendable(bs, d, b),
    ensures
        chain_valid(bs.push(b)),
{
    let nb = bs.push(b);
    assert forall|i: int| 0 <= i < nb.len() implies #[trigger] header_ok(nb, i) by {
        if i < bs.len() {
            assert(header_ok(bs, i));
            assert(nb[i] == bs[i]);
            if i > 0 {
                assert(nb[i - 1] == bs[i - 1]);
            }
        } else if i > 0 {
            assert(nb[i - 1] == bs.last());
        }
    }
}

/// A mined block whose hash meets its difficulty keeps a valid chain valid.
pub proof fn law_mining_keeps_chain_valid(
    bs: Seq<BlockView>,
    d: usize,
    pkh: Seq<u8>,
    value: u64,
    pending: Seq<TxView>,
    timestamp: u64,
    nanos: u128,
    r: BlockView,
)
    requires
        chain_valid(bs),
        mined_from(mining_template(bs, d, pkh, value, pending, timestamp, nanos), d, r),
        meets_target(r.hash, d as int),
    ensures
        chain_valid(bs.push(r)),
{
    let start = mining_template(bs, d, pkh, value, pending, timestamp, nanos);
    assert(r.previous_hash == tip_hash_of(bs));
    assert(r.difficulty == d);
    if meets_target(start.hash, d as int) || start.proof_of_work == u64::MAX {
        assert(r == start);
        let bare = BlockView { hash: Seq::empty(), ..start };
        crate::models::block::lemma_hash_ignores_stored_hash(bare, start.hash);
        assert(r.hash == block_hash_of(r));
    } else {
        let w = with_work(BlockView { difficulty: d, ..start }, r.proof_of_work, d);
        crate::models::block::lemma_hash_ignores_stored_hash(w, block_hash_of(w));
        assert(r.hash == block_hash_of(r));
    }
    let nb = bs.push(r);
    assert forall|i: int| 0 <= i < nb.len() implies #[trigger] header_ok(nb, i) by {
        if i < bs.len() {
            assert(header_ok(bs, i));
            assert(nb[i] == bs[i]);
            if i > 0 {
                assert(nb[i - 1] == bs[i - 1]);
            }
        } else if i > 0 {
            assert(nb[i - 1] == bs.last());
        }
    }
}

/// A valid transaction other than a coinbase has a fee: the value of the
/// outputs it spends less the value of its own outputs.
pub proof fn law_valid_tx_has_fee(t: TxView, u: Map<OutPointView, OutputView>)
    requires
        !is_coinbase_view(t),
        tx_valid_against(t, u),
    ensures
        fee_of(t, u) == Some(input_total(t, u, t.vin.len() as int) - output_total(t, t.vout.len() as int)),
        input_total(t, u, t.vin.len() as int) >= output_total(t, t.vout.len() as int),
{
    assert forall|j: int| 0 <= j < t.vin.len() implies u.dom().contains(
        #[trigger] t.vin[j].previous_output,
    ) by {
        assert(input_owned(t, j, u));
    }
}

/// A chain holding only the genesis block is valid.
pub proof fn law_genesis_chain_valid(b: BlockView)
    requires
        is_genesis(b),
    ensures
        chain_valid(seq![b]),
{
    let t = genesis::genesis_template();
    assert(!meets_target(t.hash, GENESIS_DIFFICULTY as int));
    let w = with_work(BlockView { difficulty: GENESIS_DIFFICULTY, ..t }, b.proof_of_work, GENESIS_DIFFICULTY);
    crate::models::block::lemma_hash_ignores_stored_hash(w, block_hash_of(w));
    assert(header_ok(seq![b], 0));
}

impl Blockchain {
    /// The blocks as they stand.
    pub open spec fn blocks(&self) -> Seq<BlockView> {
        blocks_view(self.chain@)
    }

    /// There is a first block, a retarget from the current difficulty stays
    /// within `u64`, and the mempool is ordered.
    pub open spec fn wf(&self) -> bool {
        &&& self.chain@.len() > 0
        &&& self.mempool.wf()
    }

    /// A chain resumed from the blocks that were persisted, or one holding
    /// only the genesis block when there are none. The app stores the
    /// genesis block in that case.
    pub fn new(persisted: Vec<Block>) -> (r: Blockchain)
        ensures
            r.wf(),
            persisted@.len() == 0 ==> {
                &&& r.chain@.len() == 1
                &&& is_genesis(r.blocks()[0])
                &&& r.difficulty == GENESIS_DIFFICULTY
            },
            persisted@.len() > 0 ==> {
                &&& r.chain@ == persisted@
                &&& r.difficulty == persisted@.last().difficulty
            },
            r.mempool.entries_view() == Seq::<EntryView>::empty(),
            r.mempool.reserved_view() == Seq::<OutPointView>::empty(),
            r.mining_reward == INITIAL_MINING_REWARD,
    {
        if persisted.len() == 0 {
            let g = genesis::build();
            let diff = g.difficulty;
            let mut chain: Vec<Block> = Vec::new();
            chain.push(g);
            assert(blocks_view(chain@)[0] == chain@[0]@);
            Blockchain {
                chain,
                difficulty: diff,
                mempool: Mempool::new(),
                mining_reward: INITIAL_MINING_REWARD,
            }
        } else {
            let diff = persisted[persisted.len() - 1].difficulty;
            Blockchain {
                chain: persisted,
                difficulty: diff,
                mempool: Mempool::new(),
                mining_reward: INITIAL_MINING_REWARD,
            }
        }
    }

    pub fn height(&self) -> (r: u64)
        ensures
            r == height_of(self.blocks()),
    {
        let n = self.chain.len();
        if n == 0 {
            0
        } else {
            assert(self.blocks().last() == self.chain@[n - 1]@);
            self.chain[n - 1].index
        }
    }

    pub fn tip_hash(&self) -> (r: String)
        ensures
            r@ == tip_hash_of(self.blocks()),
    {
        let n = self.chain.len();
        if n == 0 {
            String::new()
        } else {
            assert(self.blocks().last() == self.chain@[n - 1]@);
            copy_string(&self.chain[n - 1].hash)
        }
    }

    /// Whether the difficulty of the next block can be worked out: no
    /// retarget is due, or its arithmetic fits in `u64`.
    pub fn next_difficulty_fits(&self) -> (r: bool)
        ensures
            r == retarget_safe(self.blocks(), self.difficulty),
    {
        let next_height = self.chain.len() as u64;
        if !is_retarget_block(next_height) {
            return true;
        }
        let d = self.difficulty as u128;
        assert(d * 1000 * (TARGET_TIMESPAN as u128) <= 0xffff_ffff_ffff_ffff * 1000 * 1209600) by (nonlinear_arith)
            requires
                d <= 0xffff_ffff_ffff_ffff,
                TARGET_TIMESPAN == 1209600,
        ;
        d * 1000 * (TARGET_TIMESPAN as u128) <= u64::MAX as u128
    }

    /// The difficulty the next block must meet.
    fn compute_current_difficulty(&self) -> (r: usize)
        requires
            self.wf(),
            retarget_safe(self.blocks(), self.difficulty),
        ensures
            r == current_difficulty(self.blocks(), self.difficulty),
    {
        let next_height = self.chain.len() as u64;
        if !is_retarget_block(next_height) {
            return self.difficulty;
        }
        let n = self.chain.len();
        let window_start_idx = n - RETARGET_INTERVAL as usize;
        let first = self.chain[window_start_idx].timestamp;
        let last = self.chain[n - 1].timestamp;
        assert(self.blocks()[window_start_idx as int] == self.chain@[window_start_idx as int]@);
        assert(self.blocks().last() == self.chain@[n - 1]@);
        let span: u64 = if last >= first {
            last - first
        } else {
            0
        };
        let actual_timespan: u64 = if span < 1 {
            1
        } else {
            span
        };
        calculate_next_difficulty(self.difficulty, actual_timespan)
    }

    /// The unspent outputs of the chain.
    pub fn build_utxo_set(&self) -> (r: UtxoSet)
        ensures
            r.wf(),
            r@ == utxo_map(self.blocks()),
    {
        utxo_set_of(&self.chain)
    }

    /// Whether `tx` may spend from the chain's unspent outputs.
    pub fn validate_transaction(&self, tx: &Transaction) -> (r: bool)
        ensures
            r == tx_valid_against(tx@, utxo_map(self.blocks())),
    {
        let utxos = self.build_utxo_set();
        validate_against(tx, &utxos)
    }

    /// Whether the sums that the fee of `tx` is computed with fit in `u64`,
    /// as `calculate_fee` needs.
    pub fn fee_sums_ok(&self, tx: &Transaction) -> (r: bool)
        ensures
            r == fee_fits(tx@, utxo_map(self.blocks())),
    {
        if tx.is_coinbase() {
            return true;
        }
        let utxos = self.build_utxo_set();
        let ghost t = tx@;
        let ghost u = utxos@;
        let mut total: u128 = 0;
        let n = tx.vin.len();
        for i in 0..n
            invariant
                n == tx.vin@.len(),
                t == tx@,
                u == utxos@,
                u == utxo_map(self.blocks()),
                utxos.wf(),
                !is_coinbase_view(t),
                inputs_present(t, u, i as int),
                total == input_total(t, u, i as int),
                forall|k: int| 0 <= k <= i ==> #[trigger] input_total(t, u, k) <= u64::MAX,
        {
            assert(t.vin[i as int] == tx.vin@[i as int]@);
            match utxos.get(&tx.vin[i].previous_output) {
                Some(o) => {
                    assert(inputs_present(t, u, i + 1));
                    total = total + o.value as u128;
                    if total > u64::MAX as u128 {
                        assert(input_total(t, u, i + 1) > u64::MAX);
                        return false;
                    }
                },
                None => {
                    assert(!u.dom().contains(t.vin[i as int].previous_output));
                    assert forall|k: int|
                        0 <= k <= t.vin.len() && inputs_present(t, u, k) implies #[trigger] input_total(
                            t,
                            u,
                            k,
                        ) <= u64::MAX by {
                        if k > i {
                            assert(!u.dom().contains(t.vin[i as int].previous_output));
                        }
                    }
                    assert(!inputs_present(t, u, t.vin.len() as int));
                    return true;
                },
            }
        }
        output_sum(tx) <= u64::MAX as u128
    }

    /// The fee `tx` pays against the chain's unspent outputs.
    pub fn calculate_fee(&self, tx: &Transaction) -> (r: Option<u64>)
        requires
            fee_fits(tx@, utxo_map(self.blocks())),
        ensures
            r matches Some(f) ==> fee_of(tx@, utxo_map(self.blocks())) == Some(f as int),
            r is None ==> fee_of(tx@, utxo_map(self.blocks())) is None,
    {
        if tx.is_coinbase() {
            return Some(0);
        }
        let utxos = self.build_utxo_set();
        let ghost t = tx@;
        let ghost u = utxos@;
        let mut input_total_acc: u64 = 0;
        let n = tx.vin.len();
        for i in 0..n
            invariant
                n == tx.vin@.len(),
                t == tx@,
                u == utxos@,
                u == utxo_map(self.blocks()),
                utxos.wf(),
                !is_coinbase_view(t),
                fee_fits(t, u),
                inputs_present(t, u, i as int),
                input_total_acc == input_total(t, u, i as int),
        {
            assert(t.vin[i as int] == tx.vin@[i as int]@);
            match utxos.get(&tx.vin[i].previous_output) {
                Some(o) => {
                    assert(inputs_present(t, u, i + 1));
                    assert(input_total(t, u, i + 1) <= u64::MAX);
                    input_total_acc = input_total_acc + o.value;
                },
                None => {
                    assert(!u.dom().contains(t.vin[i as int].previous_output));
                    assert(!inputs_present(t, u, t.vin.len() as int));
                    return None;
                },
            }
        }
        let output_total_sum = output_sum(tx);
        if input_total_acc as u128 >= output_total_sum {
            Some(input_total_acc - output_total_sum as u64)
        } else {
            None
        }
    }

    /// Appends `block` if it may follow the chain; otherwise nothing
    /// changes. The app persists an appended block.
    pub fn try_append_block(&mut self, block: Block) -> (r: bool)
        requires
            old(self).wf(),
            retarget_safe(old(self).blocks(), old(self).difficulty),
        ensures
            final(self).wf(),
            r == appendable(old(self).blocks(), old(self).difficulty, block@),
            r ==> {
                &&& final(self).chain@ == old(self).chain@.push(block)
                &&& final(self).difficulty == block.difficulty
                &&& final(self).mempool == old(self).mempool
                &&& final(self).mining_reward == old(self).mining_reward
            },
            !r ==> *final(self) == *old(self),
    {
        if block.index != self.chain.len() as u64 {
            return false;
        }
        let tip = self.tip_hash();
        if !str_eq(block.previous_hash.as_str(), tip.as_str()) {
            return false;
        }
        let computed = block.calculate_hash();
        if !str_eq(block.hash.as_str(), computed.as_str()) {
            return false;
        }
        if !has_zero_prefix(block.hash.as_str(), block.difficulty) {
            return false;
        }
        let expected_diff = self.compute_current_difficulty();
        if block.difficulty != expected_diff {
            return false;
        }
        let mut utxos = self.build_utxo_set();
        if !accept_txs(&mut utxos, &block.transactions) {
            return false;
        }
        self.difficulty = block.difficulty;
        self.chain.push(block);
        true
    }

    /// Replaces the chain with `candidate` if it is longer, starts from the
    /// same block, and is valid throughout; otherwise nothing changes. The
    /// difficulty becomes that of the candidate's last block. The app
    /// persists the blocks past the old length.
    pub fn try_replace_chain(&mut self, candidate: Vec<Block>) -> (r: bool)
        requires
            old(self).wf(),
        ensures
            final(self).wf(),
            r == replaceable(old(self).blocks(), blocks_view(candidate@)),
            r ==> {
                &&& final(self).chain@ == candidate@
                &&& final(self).difficulty == candidate@.last().difficulty
                &&& final(self).mempool == old(self).mempool
                &&& final(self).mining_reward == old(self).mining_reward
            },
            !r ==> *final(self) == *old(self),
    {
        let ghost bs = self.blocks();
        let ghost cv = blocks_view(candidate@);
        if candidate.len() <= self.chain.len() {
            return false;
        }
        assert(cv[0] == candidate@[0]@);
        assert(bs[0] == self.chain@[0]@);
        if !str_eq(candidate[0].hash.as_str(), self.chain[0].hash.as_str()) {
            return false;
        }
        let mut utxos = UtxoSet::new();
        let n = candidate.len();
        for i in 0..n
            invariant
                n == candidate@.len(),
                n >= 2,
                cv == blocks_view(candidate@),
                self.wf(),
                *self == *old(self),
                bs == old(self).blocks(),
                n > bs.len(),
                cv[0].hash == bs[0].hash,
                utxos.wf(),
                forall|j: int| 0 <= j < i ==> #[trigger] header_ok(cv, j),
                txs_accepted(Map::empty(), chain_txs(cv.take(i as int))),
                utxos@ == applied(Map::empty(), chain_txs(cv.take(i as int))),
                i > 1 ==> cv[i - 1].difficulty <= 64,
        {
            let block = &candidate[i];
            assert(cv[i as int] == block@);
            let computed = block.calculate_hash();
            if !str_eq(block.hash.as_str(), computed.as_str()) {
                assert(!header_ok(cv, i as int));
                return false;
            }
            if i > 0 {
                assert(cv[i - 1] == candidate@[i - 1]@);
                if !str_eq(block.previous_hash.as_str(), candidate[i - 1].hash.as_str()) {
                    assert(!header_ok(cv, i as int));
                    return false;
                }
                if !has_zero_prefix(block.hash.as_str(), block.difficulty) {
                    assert(!header_ok(cv, i as int));
                    return false;
                }
            }
            assert(header_ok(cv, i as int));
            assert(i > 0 ==> cv[i as int].difficulty <= 64);
            let ok = accept_txs(&mut utxos, &block.transactions);
            proof {
                lemma_chain_txs_push(cv, i as int);
                lemma_accept_concat(Map::empty(), chain_txs(cv.take(i as int)), cv[i as int].transactions);
                assert(txs_view(block.transactions@) == cv[i as int].transactions);
            }
            if !ok {
                proof {
                    if txs_accepted(Map::empty(), chain_txs(cv)) {
                        assert(cv.take(n as int) =~= cv);
                        lemma_chain_txs_prefix_accepted(cv, i + 1);
                    }
                }
                return false;
            }
        }
        assert(cv.take(n as int) =~= cv);
        assert(cv[n - 1] == candidate@[n - 1]@);
        let current_diff = candidate[n - 1].difficulty;
        self.chain = candidate;
        self.difficulty = current_diff;
        true
    }

    /// The unspent outputs locked to the wallet's key hash and not reserved
    /// by a pending transaction, each once.
    pub fn get_wallet_utxos(&self, wallet: &Wallet) -> (r: Vec<(OutPoint, TXOutput)>)
        ensures
            pair_keys(r@).no_duplicates(),
            pairs_map(r@) == spendable(
                utxo_map(self.blocks()),
                self.mempool.reserved_view(),
                pub_key_hash_of(wallet.public_key@),
            ),
            // What `get_balance` returns is the value of these outputs.
            seq_value_sum(r@) == map_value_sum(
                spendable(
                    utxo_map(self.blocks()),
                    self.mempool.reserved_view(),
                    pub_key_hash_of(wallet.public_key@),
                ),
            ),
    {
        let wallet_hash = wallet.pub_key_hash();
        let utxos = self.build_utxo_set();
        let r = owned_outputs(&utxos, wallet_hash.as_slice(), &self.mempool.reserved_inputs);
        proof {
            lemma_seq_value_sum_is_map_sum(r@);
        }
        r
    }

    /// Whether the value the wallet can spend fits in `u64`, as
    /// `get_balance` needs.
    pub fn balance_fits(&self, wallet: &Wallet) -> (r: bool)
        ensures
            r == (map_value_sum(
                spendable(
                    utxo_map(self.blocks()),
                    self.mempool.reserved_view(),
                    pub_key_hash_of(wallet.public_key@),
                ),
            ) <= u64::MAX),
    {
        let owned = self.get_wallet_utxos(wallet);
        values_fit(&owned)
    }

    /// Whether the value locked to `pkh` among the unspent outputs, pending
    /// spends not counted, fits in `u64`, as the explorer's address view
    /// needs.
    pub fn unreserved_balance_fits(&self, pkh: &[u8]) -> (r: bool)
        ensures
            r == (map_value_sum(spendable(utxo_map(self.blocks()), Seq::empty(), pkh@)) <= u64::MAX),
    {
        let utxos = self.build_utxo_set();
        let none: Vec<OutPoint> = Vec::new();
        assert(ops_view(none@) =~= Seq::<OutPointView>::empty());
        let owned = owned_outputs(&utxos, pkh, &none);
        values_fit(&owned)
    }

    /// The total value the wallet can spend.
    pub fn get_balance(&self, wallet: &Wallet) -> (r: u64)
        requires
            map_value_sum(
                spendable(
                    utxo_map(self.blocks()),
                    self.mempool.reserved_view(),
                    pub_key_hash_of(wallet.public_key@),
                ),
            ) <= u64::MAX,
        ensures
            r == map_value_sum(
                spendable(
                    utxo_map(self.blocks()),
                    self.mempool.reserved_view(),
                    pub_key_hash_of(wallet.public_key@),
                ),
            ),
    {
        let owned = self.get_wallet_utxos(wallet);
        sum_values(&owned)
    }

    /// Pays `amount` to `to_pub_key_hash` from the wallet's spendable
    /// outputs with `fee` left to the miner, and admits the transaction to
    /// the mempool. Outputs are taken smallest first until they cover
    /// `amount + fee`; any excess comes back to the wallet as change. The
    /// fee returned is `fee`.
    pub fn create_transaction(
        &mut self,
        from: &Wallet,
        to_pub_key_hash: &[u8],
        amount: u64,
        fee: u64,
    ) -> (r: Result<(Transaction, u64), String>)
        requires
            old(self).wf(),
            from.wf(),
        ensures
            final(self).wf(),
            final(self).chain@ == old(self).chain@,
            final(self).difficulty == old(self).difficulty,
            final(self).mining_reward == old(self).mining_reward,
            r is Err ==> *final(self) == *old(self),
            amount + fee > u64::MAX ==> (r matches Err(e) && e@ == "Overflow"@),
            ({
                let avail = spendable(
                    utxo_map(old(self).blocks()),
                    old(self).mempool.reserved_view(),
                    pub_key_hash_of(from.public_key@),
                );
                let have = map_value_sum(avail);
                let need = amount + fee;
                &&& need <= u64::MAX && have < need ==> (r matches Err(e) && e@
                    == insufficient_funds_text(have as nat, need as nat, amount as nat, fee as nat))
                &&& need <= u64::MAX && need <= have <= u64::MAX && amount == 0 ==> (r matches Err(e)
                    && e@ == "Transaction failed validation"@)
                // A payment that the funds cover goes through, unless a pending
                // transaction already has the id of the one built.
                &&& need <= u64::MAX && need <= have <= u64::MAX && amount > 0 ==> (r is Ok || (r matches Err(
                    e,
                ) && e@ == "Duplicate TX"@ && exists|t: TxView|
                    #[trigger] has_id(old(self).mempool.entries_view(), t.id)
                        && coin_selection(avail, need, spent_outpoints_of(t))
                        && t.vout[0] == (OutputView { value: amount, pub_key_hash: to_pub_key_hash@ })
                        && t.id == content_hash_of(t)))
                &&& r matches Ok((t, f)) ==> {
                    &&& f == fee
                    &&& coin_selection(avail, need, spent_outpoints_of(t@))
                    &&& forall|i: int| 0 <= i < t@.vin.len() ==> (#[trigger] t@.vin[i]).pub_key == from.public_key@
                    &&& t@.vout[0] == (OutputView { value: amount, pub_key_hash: to_pub_key_hash@ })
                    &&& {
                        let total = input_total(t@, utxo_map(old(self).blocks()), t@.vin.len() as int);
                        ||| total == need && t@.vout.len() == 1
                        ||| total > need && t@.vout.len() == 2 && t@.vout[1] == (OutputView {
                            value: (total - need) as u64,
                            pub_key_hash: pub_key_hash_of(from.public_key@),
                        })
                    }
                    &&& t@.id == content_hash_of(t@)
                    &&& signatures_ok(t@)
                    &&& tx_valid_against(t@, utxo_map(old(self).blocks()))
                    &&& exists|p: int|
                        0 <= p <= old(self).mempool.entries_view().len() && final(self).mempool.entries_view()
                            == old(self).mempool.entries_view().insert(p, EntryView { tx: t@, fee })
                    &&& forall|op: OutPointView|
                        #[trigger] final(self).mempool.reserved_view().contains(op) <==> old(
                            self,
                        ).mempool.reserved_view().contains(op) || spends(t@, op)
                }
            }),
    {
        let ghost m = utxo_map(self.blocks());
        let ghost avail = spendable(m, self.mempool.reserved_view(), pub_key_hash_of(from.public_key@));
        let total_needed = match amount.checked_add(fee) {
            Some(t) => t,
            None => {
                return Err("Overflow".to_string());
            },
        };
        let available = self.get_wallet_utxos(from);
        let sorted = sort_by_value(&available);
        let (count, total_in) = count_to_cover(&sorted, total_needed);
        let ghost order = sorted@;
        proof {
            lemma_seq_value_sum_is_map_sum(order);
            lemma_prefix_keys(order, count as int);
            crate::models::utxo::lemma_pairs_map_finite(order);
            lemma_seq_value_sum_prefix(order, count as int);
            assert(total_in <= map_value_sum(avail));
        }
        if total_in < total_needed as u128 {
            proof {
                assert(count == order.len());
                assert(order.take(count as int) =~= order);
            }
            let mut msg: Vec<u8> = Vec::new();
            push_text(&mut msg, "Insufficient funds: have=");
            push_decimal(&mut msg, total_in as u64);
            push_text(&mut msg, " need=");
            push_decimal(&mut msg, total_needed);
            push_text(&mut msg, " (amount=");
            push_decimal(&mut msg, amount);
            push_text(&mut msg, " + fee=");
            push_decimal(&mut msg, fee);
            push_text(&mut msg, ")");
            let ghost text = insufficient_funds_text(
                total_in as nat,
                total_needed as nat,
                amount as nat,
                fee as nat,
            );
            proof {
                lemma_decimal_text_utf8(total_in as nat);
                lemma_decimal_text_utf8(total_needed as nat);
                lemma_decimal_text_utf8(amount as nat);
                lemma_decimal_text_utf8(fee as nat);
                lemma_encode_utf8_concat("Insufficient funds: have="@, decimal_text(total_in as nat));
                let t1 = "Insufficient funds: have="@ + decimal_text(total_in as nat);
                lemma_encode_utf8_concat(t1, " need="@);
                let t2 = t1 + " need="@;
                lemma_encode_utf8_concat(t2, decimal_text(total_needed as nat));
                let t3 = t2 + decimal_text(total_needed as nat);
                lemma_encode_utf8_concat(t3, " (amount="@);
                let t4 = t3 + " (amount="@;
                lemma_encode_utf8_concat(t4, decimal_text(amount as nat));
                let t5 = t4 + decimal_text(amount as nat);
                lemma_encode_utf8_concat(t5, " + fee="@);
                let t6 = t5 + " + fee="@;
                lemma_encode_utf8_concat(t6, decimal_text(fee as nat));
                let t7 = t6 + decimal_text(fee as nat);
                lemma_encode_utf8_concat(t7, ")"@);
                assert(msg@ =~= encode_utf8(text));
            }
            return Err(text_of_utf8(msg, Ghost(text)));
        }
        if total_in > u64::MAX as u128 {
            return Err("Overflow".to_string());
        }
        let mut inputs: Vec<(OutPoint, Vec<u8>)> = Vec::new();
        for i in 0..count
            invariant
                count <= sorted@.len(),
                order == sorted@,
                inputs@.len() == i,
                forall|j: int|
                    0 <= j < i ==> (#[trigger] inputs@[j]).0@ == order[j].0@ && inputs@[j].1@
                        == from.public_key@,
        {
            inputs.push((sorted[i].0.clone(), copy_bytes(&from.public_key)));
        }
        let mut outputs: Vec<TXOutput> = Vec::new();
        let mut to_hash: Vec<u8> = Vec::new();
        to_hash.extend_from_slice(to_pub_key_hash);
        assert(to_hash@ =~= to_pub_key_hash@);
        outputs.push(TXOutput { value: amount, pub_key_hash: to_hash });
        let change: u64 = (total_in - total_needed as u128) as u64;
        if change > 0 {
            outputs.push(TXOutput { value: change, pub_key_hash: from.pub_key_hash() });
        }
        let actual_fee = (total_in as u64) - amount - change;
        let mut tx = Transaction::new_unsigned(inputs, outputs);
        let ghost unsigned = tx@;
        proof {
            lemma_hex_roundtrip(sha256_digest(json_tx(unsigned_form(unsigned))));
            assert forall|i: int| 0 <= i < unsigned.vin.len() implies (#[trigger] unsigned.vin[i]).pub_key
                == from.public_key@ by {
                assert(unsigned.vin[i] == unsigned_inputs(inputs@)[i]);
            }
        }
        tx.sign_inputs(from);
        let ghost t = tx@;
        proof {
            // The inputs spend the selected outpoints in order.
            assert forall|j: int| 0 <= j < t.vin.len() implies (#[trigger] t.vin[j]).previous_output
                == order[j].0@ && m[order[j].0@] == order[j].1@ && avail.dom().contains(order[j].0@) by {
                assert(t.vin[j].previous_output == unsigned.vin[j].previous_output);
                assert(unsigned.vin[j] == unsigned_inputs(inputs@)[j]);
                crate::models::utxo::lemma_pairs_map_at(order, j);
            }
            assert(spent_outpoints_of(t) =~= pair_keys(order.take(count as int)));
            lemma_input_total_matches(t, m, order, count as int);
            assert(input_total(t, m, t.vin.len() as int) == total_in);
            assert(pairs_map(order) == avail);
            assert(order.take(count as int) == order.take(count as int));
            assert(coin_selection(avail, total_needed as int, spent_outpoints_of(t)));
            // What the outputs are.
            assert(t.vout == unsigned.vout);
            assert(t.vout[0] == (OutputView { value: amount, pub_key_hash: to_pub_key_hash@ }));
            assert(change > 0 ==> t.vout.len() == 2 && t.vout[1] == (OutputView {
                value: change,
                pub_key_hash: pub_key_hash_of(from.public_key@),
            }));
            assert(change == 0 ==> t.vout.len() == 1);
            // None of the inputs is reserved.
            assert(!spends_reserved(t, self.mempool.reserved_view())) by {
                if spends_reserved(t, self.mempool.reserved_view()) {
                    let k = choose|k: int|
                        0 <= k < t.vin.len() && self.mempool.reserved_view().contains(
                            (#[trigger] t.vin[k]).previous_output,
                        );
                    assert(avail.dom().contains(t.vin[k].previous_output));
                }
            }
            if amount == 0 {
                assert(!basic_ok(t));
                assert(!tx_valid_against(t, m));
            } else if map_value_sum(avail) <= u64::MAX {
                assert(order.len() > 0) by {
                    if order.len() == 0 {
                        assert(seq_value_sum(order) == 0);
                    }
                }
                assert(t.vin.len() > 0);
                assert(basic_ok(t)) by {
                    assert forall|i: int| 0 <= i < t.vout.len() implies (#[trigger] t.vout[i]).value > 0 by {
                        if i == 1 {
                            assert(change > 0);
                        }
                    }
                }
                assert(inputs_distinct(t)) by {
                    assert forall|a: int, b: int| 0 <= a < b < t.vin.len() implies (#[trigger] t.vin[a]).previous_output
                        != (#[trigger] t.vin[b]).previous_output by {
                        assert(spent_outpoints_of(t)[a] == t.vin[a].previous_output);
                        assert(spent_outpoints_of(t)[b] == t.vin[b].previous_output);
                    }
                }
                assert forall|k: int| 0 <= k < t.vin.len() implies #[trigger] input_owned(t, k, m) by {
                    assert(t.vin[k].pub_key == from.public_key@);
                    assert(avail.dom().contains(t.vin[k].previous_output));
                }
                assert(signatures_ok(t));
                assert(output_total(t, 0) == 0);
                assert(output_total(t, 1) == amount);
                if change > 0 {
                    assert(output_total(t, 2) == amount + change);
                }
                assert(output_total(t, t.vout.len() as int) <= total_in);
                assert(tx_valid_against(t, m));
            }
        }
        let valid = self.validate_transaction(&tx);
        if !valid {
            return Err("Transaction failed validation".to_string());
        }
        match self.mempool.add(tx.clone(), actual_fee) {
            Ok(()) => {},
            Err(e) => {
                assert(has_id(old(self).mempool.entries_view(), tx@.id));
                return Err(e);
            },
        }
        Ok((tx, actual_fee))
    }

    /// Mines the next block: the difficulty is brought up to date, the
    /// block pays the base reward plus the fees of the pending transactions
    /// it takes (at most `MAX_TXS_PER_BLOCK`, highest fee first) to the
    /// miner, it is appended, its transactions leave the mempool, and the
    /// base reward halves when the chain length reaches a multiple of
    /// `HALVING_INTERVAL`. Returns the block, which the app persists.
    #[verifier::spinoff_prover]
    pub fn mine_pending_transactions(&mut self, miner_wallet: &Wallet) -> (r: Block)
        requires
            old(self).wf(),
            retarget_safe(old(self).blocks(), old(self).difficulty),
            old(self).mining_reward + block_fees(old(self).mempool.entries_view()) <= u64::MAX,
            old(self).chain@.len() < u64::MAX,
        ensures
            final(self).wf(),
            final(self).blocks() == old(self).blocks().push(r@),
            final(self).difficulty == current_difficulty(old(self).blocks(), old(self).difficulty),
            exists|timestamp: u64, nanos: u128|
                #![trigger coinbase_id(pub_key_hash_of(miner_wallet.public_key@), (old(self).mining_reward + block_fees(old(self).mempool.entries_view())) as u64, nanos), mining_template(old(self).blocks(), final(self).difficulty, pub_key_hash_of(miner_wallet.public_key@), (old(self).mining_reward + block_fees(old(self).mempool.entries_view())) as u64, block_pending(old(self).mempool.entries_view()), timestamp, nanos)]
                mined_from(
                    mining_template(
                        old(self).blocks(),
                        final(self).difficulty,
                        pub_key_hash_of(miner_wallet.public_key@),
                        (old(self).mining_reward + block_fees(old(self).mempool.entries_view())) as u64,
                        block_pending(old(self).mempool.entries_view()),
                        timestamp,
                        nanos,
                    ),
                    final(self).difficulty,
                    r@,
                ),
            final(self).mempool.entries_view() == unconfirmed(
                old(self).mempool.entries_view(),
                tx_ids(block_pending(old(self).mempool.entries_view())),
            ),
            forall|op: OutPointView|
                #[trigger] final(self).mempool.reserved_view().contains(op) <==> old(
                    self,
                ).mempool.reserved_view().contains(op) && !confirmed_spends(
                    old(self).mempool.entries_view(),
                    tx_ids(block_pending(old(self).mempool.entries_view())),
                    op,
                ),
            final(self).mining_reward == reward_after(old(self).mining_reward, final(self).chain@.len() as int),
    {
        let ghost es = self.mempool.entries_view();
        let ghost bs = self.blocks();
        let next_difficulty = self.compute_current_difficulty();
        self.difficulty = next_difficulty;
        let pending = self.mempool.collect_for_block(MAX_TXS_PER_BLOCK);
        let k = pending.len();
        let mut total_fees: u64 = 0;
        for i in 0..k
            invariant
                k == block_take(es.len() as int),
                k <= self.mempool.entries@.len(),
                es == self.mempool.entries_view(),
                self.mining_reward + fee_sum(es.take(k as int)) <= u64::MAX,
                total_fees == fee_sum(es.take(i as int)),
        {
            proof {
                assert(es.take(k as int).take(i + 1) =~= es.take(i + 1));
                lemma_fee_sum_prefix(es.take(k as int), i + 1);
                assert(es.take(i + 1).drop_last() =~= es.take(i as int));
                assert(es[i as int] == self.mempool.entries@[i as int]@);
            }
            total_fees = total_fees + self.mempool.entries[i].fee;
        }
        let coinbase_value = self.mining_reward + total_fees;
        let miner_hash = miner_wallet.pub_key_hash();
        let reward_tx = Transaction::coinbase(miner_hash.as_slice(), coinbase_value);
        let ghost pend = block_pending(es);
        let ghost cb = reward_tx@;
        assert(pend.len() == k);
        let mut transactions: Vec<Transaction> = Vec::new();
        transactions.push(reward_tx);
        for i in 0..k
            invariant
                k == pending@.len(),
                k == block_take(es.len() as int),
                pend == block_pending(es),
                pend.len() == k,
                es == self.mempool.entries_view(),
                forall|j: int| 0 <= j < k ==> (#[trigger] pending@[j])@ == es[j].tx,
                transactions@.len() == i + 1,
                transactions@[0]@ == cb,
                forall|j: int| 1 <= j <= i ==> (#[trigger] transactions@[j])@ == pend[j - 1],
        {
            transactions.push(pending[i].clone());
        }
        let ghost txs_v = transactions@.map_values(|t: Transaction| t@);
        assert(txs_v =~= seq![cb] + pend) by {
            assert forall|j: int| 0 <= j < txs_v.len() implies txs_v[j] == (seq![cb] + pend)[j] by {
                if j > 0 {
                    assert(transactions@[j]@ == pend[j - 1]);
                }
            }
        }
        let tip = self.tip_hash();
        let mut block = Block::new(self.chain.len() as u64, tip, transactions, coinbase_value, next_difficulty);
        let ghost start = block@;
        block.mine(next_difficulty);
        let mined = block.clone();
        self.chain.push(block);
        assert(self.blocks() =~= bs.push(mined@));
        let mut confirmed: Vec<String> = Vec::new();
        for i in 0..k
            invariant
                k == pending@.len(),
                pend == block_pending(es),
                pend.len() == k,
                forall|j: int| 0 <= j < k ==> (#[trigger] pending@[j])@ == pend[j],
                confirmed@.len() == i,
                forall|j: int| 0 <= j < i ==> (#[trigger] confirmed@[j])@ == pend[j].id,
        {
            confirmed.push(copy_string(&pending[i].id));
        }
        assert(strings_view(confirmed@) =~= tx_ids(pend));
        self.mempool.purge_confirmed(confirmed.as_slice());
        if self.chain.len() % HALVING_INTERVAL == 0 && self.mining_reward > 1 {
            self.mining_reward = self.mining_reward / 2;
        }
        proof {
            let nanos = choose|nanos: u128|
                reward_tx@ == coinbase_view(
                    #[trigger] coinbase_id(miner_hash@, coinbase_value, nanos),
                    miner_hash@,
                    coinbase_value,
                );
            let tmpl = mining_template(bs, next_difficulty, miner_hash@, coinbase_value, pend, start.timestamp, nanos);
            let bare = BlockView {
                index: bs.len() as u64,
                timestamp: start.timestamp,
                proof_of_work: 0,
                previous_hash: tip_hash_of(bs),
                hash: Seq::empty(),
                transactions: seq![cb] + pend,
                reward: coinbase_value,
                difficulty: next_difficulty,
            };
            crate::models::block::lemma_hash_ignores_stored_hash(bare, start.hash);
            assert(start == tmpl);
            assert(mined_from(tmpl, next_difficulty, mined@));
        }
        mined
    }

    /// The current difficulty, the height, blocks to the next retarget, the
    /// recent mean block time and the target block time.
    pub fn difficulty_info(&self) -> (r: DifficultyInfo)
        ensures
            r.current == self.difficulty,
            r.height == height_of(self.blocks()),
            r.blocks_until_retarget == blocks_until_retarget_of(self.chain@.len() as int),
            r.avg_block_time_secs == avg_block_time_of(self.blocks()),
            r.target_block_time_secs == TARGET_BLOCK_TIME_SECS,
    {
        let n = self.chain.len();
        let h = n as u64;
        let blocks_since = h % RETARGET_INTERVAL;
        let blocks_until_retarget = if blocks_since == 0 {
            RETARGET_INTERVAL
        } else {
            RETARGET_INTERVAL - blocks_since
        };
        let avg_block_time: u64 = if n > 2 {
            let window: usize = if n - 1 < 10 {
                n - 1
            } else {
                10
            };
            let start_idx = n - window;
            let first = self.chain[start_idx].timestamp;
            let last = self.chain[n - 1].timestamp;
            assert(self.blocks()[start_idx as int] == self.chain@[start_idx as int]@);
            assert(self.blocks().last() == self.chain@[n - 1]@);
            let elapsed: u64 = if last >= first {
                last - first
            } else {
                0
            };
            elapsed / (window as u64 - 1)
        } else {
            0
        };
        DifficultyInfo {
            current: self.difficulty,
            height: self.height(),
            blocks_until_retarget,
            avg_block_time_secs: avg_block_time,
            target_block_time_secs: TARGET_BLOCK_TIME_SECS,
        }
    }

    /// The wallet's transaction history, highest block first.
    pub fn get_history(&self, wallet: &Wallet) -> (r: Vec<TxRecord>)
        requires
            history_fits(self.blocks(), pub_key_hash_of(wallet.public_key@), height_of(self.blocks())),
        ensures
            records_view(r@) == history_of(
                self.blocks(),
                pub_key_hash_of(wallet.public_key@),
                height_of(self.blocks()),
            ),
    {
        let pkh = wallet.pub_key_hash();
        let tip = self.height();
        build_history(self.chain.as_slice(), pkh.as_slice(), tip)
    }

    /// Whether every block is sealed and linked and the first has no
    /// parent; an empty chain is valid.
    pub fn is_valid(&self) -> (r: bool)
        ensures
            r == chain_valid(self.blocks()),
    {
        let ghost bs = self.blocks();
        let n = self.chain.len();
        for i in 0..n
            invariant
                n == self.chain@.len(),
                bs == self.blocks(),
                forall|j: int| 0 <= j < i ==> #[trigger] header_ok(bs, j),
                i > 0 ==> bs[0].previous_hash.len() == 0,
        {
            let block = &self.chain[i];
            assert(bs[i as int] == block@);
            let computed = block.calculate_hash();
            if !str_eq(block.hash.as_str(), computed.as_str()) {
                assert(!header_ok(bs, i as int));
                return false;
            }
            if i == 0 {
                if !block.previous_hash.as_str().is_empty() {
                    return false;
                }
            } else {
                assert(bs[i - 1] == self.chain@[i - 1]@);
                if !str_eq(block.previous_hash.as_str(), self.chain[i - 1].hash.as_str()) {
                    assert(!header_ok(bs, i as int));
                    return false;
                }
                if !has_zero_prefix(block.hash.as_str(), block.difficulty) {
                    assert(!header_ok(bs, i as int));
                    return false;
                }
            }
            assert(header_ok(bs, i as int));
        }
        true
    }
}

} // verus!
