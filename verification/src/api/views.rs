//! How the chain is shown through the explorer: blocks, transactions, the
//! mempool, a summary of the chain and the history of an address.

use vstd::prelude::*;
use crate::api::types::{
    ApiAddressInfo, ApiAddressTx, ApiBlock, ApiChainInfo, ApiInput, ApiMempool, ApiOutput, ApiTx,
};
use crate::codec::{copy_string, hex_decodable, hex_decoded, hex_lower, str_eq};
use crate::crypto::{hex_decode, hex_encode};
use crate::models::block::{Block, BlockView};
use crate::models::blockchain::{
    Blockchain, chain_valid, height_of, owned_outputs, spendable, sum_values,
};
use crate::models::history::{
    RecordView, TxDirection, build_history, fee_paid, found_total, history_fits, history_of,
    records_view,
};
use crate::models::ledger::{blocks_view, chain_txs, flatten_txs, output_sum, output_total, txs_view, utxo_map};
use crate::models::mempool::{EntryView, fee_sum, ops_view};
use crate::models::transaction::{
    InputView, OutPoint, OutPointView, OutputView, Transaction, TxView, is_coinbase_view,
};
use crate::models::utxo::{map_value_sum, pairs_map};

verus! {

broadcast use {vstd::seq::group_seq_axioms, vstd::seq_lib::group_seq_properties};

/// How an input is shown: the outpoint it spends.
pub open spec fn input_shown(a: ApiInput, i: InputView) -> bool {
    a.tx_id@ == i.previous_output.tx_id && a.out_index == i.previous_output.out_index
}

/// How an output is shown: its value and the hex of its key hash.
pub open spec fn output_shown(a: ApiOutput, o: OutputView) -> bool {
    a.value == o.value && a.address@ == hex_lower(o.pub_key_hash)
}

/// Whether `a` shows `t` with the fee `fee`.
pub open spec fn tx_shown(a: ApiTx, t: TxView, fee: u64) -> bool {
    &&& a.id@ == t.id
    &&& a.is_coinbase == is_coinbase_view(t)
    &&& a.inputs@.len() == t.vin.len()
    &&& forall|i: int| 0 <= i < t.vin.len() ==> input_shown(#[trigger] a.inputs@[i], t.vin[i])
    &&& a.outputs@.len() == t.vout.len()
    &&& forall|i: int| 0 <= i < t.vout.len() ==> output_shown(#[trigger] a.outputs@[i], t.vout[i])
    &&& a.fee == fee
}

/// A transaction as the explorer shows it.
pub fn tx_to_api(tx: &Transaction, fee: u64) -> (r: ApiTx)
    ensures
        tx_shown(r, tx@, fee),
{
    let mut inputs: Vec<ApiInput> = Vec::new();
    let n = tx.vin.len();
    for i in 0..n
        invariant
            n == tx.vin@.len(),
            inputs@.len() == i,
            forall|j: int| 0 <= j < i ==> input_shown(#[trigger] inputs@[j], tx@.vin[j]),
    {
        assert(tx@.vin[i as int] == tx.vin@[i as int]@);
        inputs.push(
            ApiInput {
                tx_id: copy_string(&tx.vin[i].previous_output.tx_id),
                out_index: tx.vin[i].previous_output.out_index,
            },
        );
    }
    let mut outputs: Vec<ApiOutput> = Vec::new();
    let m = tx.vout.len();
    for i in 0..m
        invariant
            m == tx.vout@.len(),
            outputs@.len() == i,
            forall|j: int| 0 <= j < i ==> output_shown(#[trigger] outputs@[j], tx@.vout[j]),
    {
        assert(tx@.vout[i as int] == tx.vout@[i as int]@);
        outputs.push(
            ApiOutput {
                value: tx.vout[i].value,
                address: hex_encode(tx.vout[i].pub_key_hash.as_slice()),
            },
        );
    }
    ApiTx { id: copy_string(&tx.id), is_coinbase: tx.is_coinbase(), inputs, outputs, fee }
}

/// The position of the first coinbase, or the length when there is none.
pub open spec fn first_coinbase(txs: Seq<TxView>) -> int
    decreases txs.len(),
{
    if txs.len() == 0 || is_coinbase_view(txs[0]) {
        0
    } else {
        1 + first_coinbase(txs.drop_first())
    }
}

/// Who mined a block: the hex key hash of the first output of its first
/// coinbase, or nothing.
pub open spec fn miner_of(txs: Seq<TxView>) -> Seq<char> {
    let k = first_coinbase(txs);
    if k < txs.len() && txs[k].vout.len() > 0 {
        hex_lower(txs[k].vout[0].pub_key_hash)
    } else {
        Seq::empty()
    }
}

/// Whether `a` shows `b`; its transactions are shown without fees.
pub open spec fn block_shown(a: ApiBlock, b: BlockView) -> bool {
    &&& a.index == b.index
    &&& a.hash@ == b.hash
    &&& a.previous_hash@ == b.previous_hash
    &&& a.timestamp == b.timestamp
    &&& a.nonce == b.proof_of_work
    &&& a.difficulty == b.difficulty
    &&& a.reward == b.reward
    &&& a.tx_count == b.transactions.len()
    &&& a.transactions@.len() == b.transactions.len()
    &&& forall|i: int|
        0 <= i < b.transactions.len() ==> tx_shown(#[trigger] a.transactions@[i], b.transactions[i], 0)
    &&& a.miner@ == miner_of(b.transactions)
}

proof fn lemma_first_coinbase(txs: Seq<TxView>, k: int)
    requires
        0 <= k <= txs.len(),
        forall|j: int| 0 <= j < k ==> !is_coinbase_view(#[trigger] txs[j]),
        k == txs.len() || is_coinbase_view(txs[k]),
    ensures
        first_coinbase(txs) == k,
    decreases k,
{
    if k > 0 {
        let t = txs.drop_first();
        assert forall|j: int| 0 <= j < k - 1 implies !is_coinbase_view(#[trigger] t[j]) by {
            assert(t[j] == txs[j + 1]);
        }
        if k < txs.len() {
            assert(t[k - 1] == txs[k]);
        }
        assert(!is_coinbase_view(txs[0]));
        lemma_first_coinbase(t, k - 1);
    }
}

/// A block as the explorer shows it.
pub fn block_to_api(block: &Block) -> (r: ApiBlock)
    ensures
        block_shown(r, block@),
{
    let ghost tv = block@.transactions;
    let n = block.transactions.len();
    let mut k: usize = 0;
    while k < n && !block.transactions[k].is_coinbase()
        invariant
            k <= n,
            n == tv.len(),
            tv == block@.transactions,
            forall|j: int| 0 <= j < k ==> !is_coinbase_view(#[trigger] tv[j]),
        decreases n - k,
    {
        assert(tv[k as int] == block.transactions@[k as int]@);
        k = k + 1;
    }
    proof {
        if k < n {
            assert(tv[k as int] == block.transactions@[k as int]@);
        }
        lemma_first_coinbase(tv, k as int);
    }
    let miner = if k < n && block.transactions[k].vout.len() > 0 {
        assert(tv[k as int] == block.transactions@[k as int]@);
        assert(tv[k as int].vout[0] == block.transactions@[k as int].vout@[0]@);
        hex_encode(block.transactions[k].vout[0].pub_key_hash.as_slice())
    } else {
        proof {
            if k < n {
                assert(tv[k as int] == block.transactions@[k as int]@);
            }
        }
        String::new()
    };
    let mut transactions: Vec<ApiTx> = Vec::new();
    for i in 0..n
        invariant
            n == tv.len(),
            tv == block@.transactions,
            transactions@.len() == i,
            forall|j: int| 0 <= j < i ==> tx_shown(#[trigger] transactions@[j], tv[j], 0),
    {
        assert(tv[i as int] == block.transactions@[i as int]@);
        transactions.push(tx_to_api(&block.transactions[i], 0));
    }
    ApiBlock {
        index: block.index,
        hash: copy_string(&block.hash),
        previous_hash: copy_string(&block.previous_hash),
        timestamp: block.timestamp,
        nonce: block.proof_of_work,
        difficulty: block.difficulty,
        reward: block.reward,
        tx_count: n,
        transactions,
        miner,
    }
}

/// Every block, the tip first.
pub fn chain_to_api(chain: &Blockchain) -> (r: Vec<ApiBlock>)
    ensures
        r@.len() == chain.chain@.len(),
        forall|i: int|
            0 <= i < r@.len() ==> block_shown(#[trigger] r@[i], chain.blocks()[r@.len() - 1 - i]),
{
    let n = chain.chain.len();
    let mut out: Vec<ApiBlock> = Vec::new();
    for i in 0..n
        invariant
            n == chain.chain@.len(),
            out@.len() == i,
            forall|j: int| 0 <= j < i ==> block_shown(#[trigger] out@[j], chain.blocks()[n - 1 - j]),
    {
        assert(chain.blocks()[n - 1 - i] == chain.chain@[n - 1 - i]@);
        out.push(block_to_api(&chain.chain[n - 1 - i]));
    }
    out
}

/// The position of the first block that `matches` picks, or the length.
pub open spec fn first_block_where(bs: Seq<BlockView>, pick: spec_fn(BlockView) -> bool) -> int
    decreases bs.len(),
{
    if bs.len() == 0 || pick(bs[0]) {
        0
    } else {
        1 + first_block_where(bs.drop_first(), pick)
    }
}

proof fn lemma_first_block_where(bs: Seq<BlockView>, pick: spec_fn(BlockView) -> bool, k: int)
    requires
        0 <= k <= bs.len(),
        forall|j: int| 0 <= j < k ==> !pick(#[trigger] bs[j]),
        k == bs.len() || pick(bs[k]),
    ensures
        first_block_where(bs, pick) == k,
    decreases k,
{
    if k > 0 {
        let t = bs.drop_first();
        assert forall|j: int| 0 <= j < k - 1 implies !pick(#[trigger] t[j]) by {
            assert(t[j] == bs[j + 1]);
        }
        if k < bs.len() {
            assert(t[k - 1] == bs[k]);
        }
        assert(!pick(bs[0]));
        lemma_first_block_where(t, pick, k - 1);
    }
}

/// The block with the given hash, the first if several have it.
pub fn block_by_hash(chain: &Blockchain, hash: &str) -> (r: Option<ApiBlock>)
    ensures
        ({
            let pick = |b: BlockView| b.hash == hash@;
            let k = first_block_where(chain.blocks(), pick);
            &&& k < chain.blocks().len() ==> (r matches Some(a) && block_shown(a, chain.blocks()[k]))
            &&& k >= chain.blocks().len() ==> r is None
        }),
{
    let ghost bs = chain.blocks();
    let ghost pick = |b: BlockView| b.hash == hash@;
    let n = chain.chain.len();
    let mut k: usize = 0;
    while k < n && !str_eq(chain.chain[k].hash.as_str(), hash)
        invariant
            k <= n,
            n == bs.len(),
            bs == chain.blocks(),
            pick == (|b: BlockView| b.hash == hash@),
            forall|j: int| 0 <= j < k ==> !pick(#[trigger] bs[j]),
        decreases n - k,
    {
        assert(bs[k as int] == chain.chain@[k as int]@);
        k = k + 1;
    }
    proof {
        if k < n {
            assert(bs[k as int] == chain.chain@[k as int]@);
        }
        lemma_first_block_where(bs, pick, k as int);
    }
    if k < n {
        assert(bs[k as int] == chain.chain@[k as int]@);
        Some(block_to_api(&chain.chain[k]))
    } else {
        None
    }
}

/// The block with the given index, the first if several have it.
pub fn block_by_height(chain: &Blockchain, height: u64) -> (r: Option<ApiBlock>)
    ensures
        ({
            let pick = |b: BlockView| b.index == height;
            let k = first_block_where(chain.blocks(), pick);
            &&& k < chain.blocks().len() ==> (r matches Some(a) && block_shown(a, chain.blocks()[k]))
            &&& k >= chain.blocks().len() ==> r is None
        }),
{
    let ghost bs = chain.blocks();
    let ghost pick = |b: BlockView| b.index == height;
    let n = chain.chain.len();
    let mut k: usize = 0;
    while k < n && chain.chain[k].index != height
        invariant
            k <= n,
            n == bs.len(),
            bs == chain.blocks(),
            pick == (|b: BlockView| b.index == height),
            forall|j: int| 0 <= j < k ==> !pick(#[trigger] bs[j]),
        decreases n - k,
    {
        assert(bs[k as int] == chain.chain@[k as int]@);
        k = k + 1;
    }
    proof {
        if k < n {
            assert(bs[k as int] == chain.chain@[k as int]@);
        }
        lemma_first_block_where(bs, pick, k as int);
    }
    if k < n {
        assert(bs[k as int] == chain.chain@[k as int]@);
        Some(block_to_api(&chain.chain[k]))
    } else {
        None
    }
}

/// The value minted by the coinbases among `txs`.
pub open spec fn coinbase_supply(txs: Seq<TxView>) -> int
    decreases txs.len(),
{
    if txs.len() == 0 {
        0
    } else {
        coinbase_supply(txs.drop_last()) + if is_coinbase_view(txs.last()) {
            output_total(txs.last(), txs.last().vout.len() as int)
        } else {
            0
        }
    }
}

proof fn lemma_output_total_nonneg(t: TxView, k: int)
    ensures
        output_total(t, k) >= 0,
    decreases k,
{
    if k > 0 {
        lemma_output_total_nonneg(t, k - 1);
    }
}

proof fn lemma_coinbase_supply_prefix(txs: Seq<TxView>, k: int)
    requires
        0 <= k <= txs.len(),
    ensures
        0 <= coinbase_supply(txs.take(k)) <= coinbase_supply(txs),
    decreases txs.len() - k,
{
    lemma_coinbase_supply_nonneg(txs.take(k));
    if k < txs.len() {
        lemma_coinbase_supply_prefix(txs, k + 1);
        assert(txs.take(k + 1).drop_last() =~= txs.take(k));
        assert(txs.take(k + 1).last() == txs[k]);
        lemma_output_total_nonneg(txs[k], txs[k].vout.len() as int);
    } else {
        assert(txs.take(k) =~= txs);
        lemma_coinbase_supply_nonneg(txs);
    }
}

proof fn lemma_coinbase_supply_nonneg(txs: Seq<TxView>)
    ensures
        coinbase_supply(txs) >= 0,
    decreases txs.len(),
{
    if txs.len() > 0 {
        lemma_coinbase_supply_nonneg(txs.drop_last());
        lemma_output_total_nonneg(txs.last(), txs.last().vout.len() as int);
    }
}

/// Whether the value minted on the chain and the pending fees each fit in
/// `u64`, as `chain_info` needs.
pub fn chain_sums_fit(chain: &Blockchain) -> (r: bool)
    ensures
        r == (coinbase_supply(chain_txs(chain.blocks())) <= u64::MAX && fee_sum(
            chain.mempool.entries_view(),
        ) <= u64::MAX),
{
    let txs = flatten_txs(chain.chain.as_slice());
    let ghost tv = txs_view(txs@);
    let mut total: u128 = 0;
    let n = txs.len();
    for j in 0..n
        invariant
            n == txs@.len(),
            tv == txs_view(txs@),
            tv == chain_txs(chain.blocks()),
            total == coinbase_supply(tv.take(j as int)),
            total <= u64::MAX,
    {
        assert(tv[j as int] == txs@[j as int]@);
        assert(tv.take(j + 1).drop_last() =~= tv.take(j as int));
        if txs[j].is_coinbase() {
            let minted = output_sum(&txs[j]);
            if minted > u64::MAX as u128 - total {
                proof {
                    lemma_coinbase_supply_prefix(tv, j + 1);
                }
                return false;
            }
            total = total + minted;
        }
    }
    assert(tv.take(n as int) =~= tv);
    let m = chain.mempool.size();
    assert(chain.mempool.entries_view().take(m as int) =~= chain.mempool.entries_view());
    chain.mempool.prefix_fees_fit(m, 0)
}

/// A summary of the chain: height, difficulty, the value minted so far,
/// the pending transactions and their fees, and whether it is valid.
pub fn chain_info(chain: &Blockchain) -> (r: ApiChainInfo)
    requires
        coinbase_supply(chain_txs(chain.blocks())) <= u64::MAX,
        fee_sum(chain.mempool.entries_view()) <= u64::MAX,
    ensures
        r.height == height_of(chain.blocks()),
        r.difficulty == chain.difficulty,
        r.total_supply == coinbase_supply(chain_txs(chain.blocks())),
        r.pending_txs == chain.mempool.entries@.len(),
        r.total_fees_pending == fee_sum(chain.mempool.entries_view()),
        r.is_valid == chain_valid(chain.blocks()),
{
    let txs = flatten_txs(chain.chain.as_slice());
    let ghost tv = txs_view(txs@);
    let mut total_supply: u64 = 0;
    let n = txs.len();
    for j in 0..n
        invariant
            n == txs@.len(),
            tv == txs_view(txs@),
            tv == chain_txs(chain.blocks()),
            coinbase_supply(tv) <= u64::MAX,
            total_supply == coinbase_supply(tv.take(j as int)),
    {
        assert(tv[j as int] == txs@[j as int]@);
        assert(tv.take(j + 1).drop_last() =~= tv.take(j as int));
        proof {
            lemma_coinbase_supply_prefix(tv, j + 1);
        }
        if txs[j].is_coinbase() {
            let minted = output_sum(&txs[j]);
            total_supply = total_supply + minted as u64;
        }
    }
    assert(tv.take(n as int) =~= tv);
    ApiChainInfo {
        height: chain.height(),
        difficulty: chain.difficulty,
        total_supply,
        pending_txs: chain.mempool.size(),
        total_fees_pending: chain.mempool.total_fees(),
        is_valid: chain.is_valid(),
    }
}

/// The pending transactions with their fees.
pub fn mempool_to_api(chain: &Blockchain) -> (r: ApiMempool)
    requires
        fee_sum(chain.mempool.entries_view()) <= u64::MAX,
    ensures
        r.count == chain.mempool.entries@.len(),
        r.total_fees == fee_sum(chain.mempool.entries_view()),
        r.transactions@.len() == chain.mempool.entries@.len(),
        forall|i: int|
            0 <= i < r.transactions@.len() ==> tx_shown(
                #[trigger] r.transactions@[i],
                chain.mempool.entries_view()[i].tx,
                chain.mempool.entries_view()[i].fee,
            ),
{
    let mut transactions: Vec<ApiTx> = Vec::new();
    let n = chain.mempool.entries.len();
    for i in 0..n
        invariant
            n == chain.mempool.entries@.len(),
            transactions@.len() == i,
            forall|j: int|
                0 <= j < i ==> tx_shown(
                    #[trigger] transactions@[j],
                    chain.mempool.entries_view()[j].tx,
                    chain.mempool.entries_view()[j].fee,
                ),
    {
        assert(chain.mempool.entries_view()[i as int] == chain.mempool.entries@[i as int]@);
        transactions.push(tx_to_api(&chain.mempool.entries[i].tx, chain.mempool.entries[i].fee));
    }
    ApiMempool { count: chain.mempool.size(), total_fees: chain.mempool.total_fees(), transactions }
}

/// The position of the first transaction with the id, or the length.
pub open spec fn first_with_id(txs: Seq<TxView>, id: Seq<char>) -> int
    decreases txs.len(),
{
    if txs.len() == 0 || txs[0].id == id {
        0
    } else {
        1 + first_with_id(txs.drop_first(), id)
    }
}

proof fn lemma_first_with_id(txs: Seq<TxView>, id: Seq<char>, k: int)
    requires
        0 <= k <= txs.len(),
        forall|j: int| 0 <= j < k ==> (#[trigger] txs[j]).id != id,
        k == txs.len() || txs[k].id == id,
    ensures
        first_with_id(txs, id) == k,
    decreases k,
{
    if k > 0 {
        let t = txs.drop_first();
        assert forall|j: int| 0 <= j < k - 1 implies (#[trigger] t[j]).id != id by {
            assert(t[j] == txs[j + 1]);
        }
        if k < txs.len() {
            assert(t[k - 1] == txs[k]);
        }
        assert(txs[0].id != id);
        lemma_first_with_id(t, id, k - 1);
    }
}

/// The pending transactions of a mempool.
pub open spec fn entry_txs(es: Seq<EntryView>) -> Seq<TxView> {
    es.map_values(|e: EntryView| e.tx)
}

/// Whether the sums that the fee of `t` is computed with stay within `u64`.
pub open spec fn fee_sums_fit(t: TxView, u: Map<OutPointView, OutputView>) -> bool {
    !is_coinbase_view(t) ==> {
        &&& found_total(t, u, Seq::empty(), false, t.vin.len() as int) <= u64::MAX
        &&& output_total(t, t.vout.len() as int) <= u64::MAX
    }
}

/// Whether the sums behind the fee of the first transaction on the chain
/// with the given id fit in `u64`, as `tx_details` needs.
pub fn tx_lookup_fits(chain: &Blockchain, id: &str) -> (r: bool)
    ensures
        r == ({
            let txs = chain_txs(chain.blocks());
            let k = first_with_id(txs, id@);
            k < txs.len() ==> fee_sums_fit(txs[k], utxo_map(chain.blocks()))
        }),
{
    let utxos = chain.build_utxo_set();
    let txs = flatten_txs(chain.chain.as_slice());
    let ghost tv = txs_view(txs@);
    let n = txs.len();
    let mut k: usize = 0;
    while k < n && !str_eq(txs[k].id.as_str(), id)
        invariant
            k <= n,
            n == tv.len(),
            tv == txs_view(txs@),
            forall|j: int| 0 <= j < k ==> (#[trigger] tv[j]).id != id@,
        decreases n - k,
    {
        assert(tv[k as int] == txs@[k as int]@);
        k = k + 1;
    }
    proof {
        if k < n {
            assert(tv[k as int] == txs@[k as int]@);
        }
        lemma_first_with_id(tv, id@, k as int);
    }
    if k < n {
        let tx = &txs[k];
        assert(tv[k as int] == tx@);
        if tx.is_coinbase() {
            return true;
        }
        let empty: Vec<u8> = Vec::new();
        assert(empty@ =~= Seq::<u8>::empty());
        match crate::models::history::found_checked(tx, &utxos, empty.as_slice(), false) {
            Some(_) => output_sum(tx) <= u64::MAX as u128,
            None => false,
        }
    } else {
        true
    }
}

/// The transaction with the given id: the first on the chain, its fee taken
/// against the unspent outputs; otherwise the first pending one, with the
/// fee it was admitted with.
pub fn tx_details(chain: &Blockchain, id: &str) -> (r: Option<ApiTx>)
    requires
        ({
            let txs = chain_txs(chain.blocks());
            let k = first_with_id(txs, id@);
            k < txs.len() ==> fee_sums_fit(txs[k], utxo_map(chain.blocks()))
        }),
    ensures
        ({
            let txs = chain_txs(chain.blocks());
            let k = first_with_id(txs, id@);
            let es = chain.mempool.entries_view();
            let p = first_with_id(entry_txs(es), id@);
            &&& k < txs.len() ==> (r matches Some(a) && tx_shown(
                a,
                txs[k],
                fee_paid(txs[k], utxo_map(chain.blocks())) as u64,
            ))
            &&& k >= txs.len() && p < es.len() ==> (r matches Some(a) && tx_shown(a, es[p].tx, es[p].fee))
            &&& k >= txs.len() && p >= es.len() ==> r is None
        }),
{
    let utxos = chain.build_utxo_set();
    let txs = flatten_txs(chain.chain.as_slice());
    let ghost tv = txs_view(txs@);
    let n = txs.len();
    let mut k: usize = 0;
    while k < n && !str_eq(txs[k].id.as_str(), id)
        invariant
            k <= n,
            n == tv.len(),
            tv == txs_view(txs@),
            forall|j: int| 0 <= j < k ==> (#[trigger] tv[j]).id != id@,
        decreases n - k,
    {
        assert(tv[k as int] == txs@[k as int]@);
        k = k + 1;
    }
    proof {
        if k < n {
            assert(tv[k as int] == txs@[k as int]@);
        }
        lemma_first_with_id(tv, id@, k as int);
    }
    if k < n {
        let tx = &txs[k];
        assert(tv[k as int] == tx@);
        let fee: u64 = if tx.is_coinbase() {
            0
        } else {
            proof {
                crate::models::history::lemma_found_ignores_key(tx@, utxos@, Seq::empty(), tx@.vin.len() as int);
            }
            let empty: Vec<u8> = Vec::new();
            let in_val = crate::models::history::found_in(tx, &utxos, empty.as_slice(), false);
            let out_val = output_sum(tx) as u64;
            if in_val >= out_val {
                in_val - out_val
            } else {
                0
            }
        };
        return Some(tx_to_api(tx, fee));
    }
    let ghost es = chain.mempool.entries_view();
    let ghost et = entry_txs(es);
    let m = chain.mempool.entries.len();
    let mut p: usize = 0;
    while p < m && !str_eq(chain.mempool.entries[p].tx.id.as_str(), id)
        invariant
            p <= m,
            m == es.len(),
            es == chain.mempool.entries_view(),
            et == entry_txs(es),
            forall|j: int| 0 <= j < p ==> (#[trigger] et[j]).id != id@,
        decreases m - p,
    {
        assert(et[p as int] == chain.mempool.entries@[p as int]@.tx);
        p = p + 1;
    }
    proof {
        if p < m {
            assert(et[p as int] == chain.mempool.entries@[p as int]@.tx);
        }
        lemma_first_with_id(et, id@, p as int);
    }
    if p < m {
        assert(es[p as int] == chain.mempool.entries@[p as int]@);
        Some(tx_to_api(&chain.mempool.entries[p].tx, chain.mempool.entries[p].fee))
    } else {
        None
    }
}

/// How a direction is named: `in`, `out` or `self`.
pub open spec fn direction_name(d: TxDirection) -> Seq<char> {
    match d {
        TxDirection::Received => "in"@,
        TxDirection::Sent => "out"@,
        TxDirection::Self_ => "self"@,
    }
}

/// Whether `a` shows the history record `v`.
pub open spec fn record_shown(a: ApiAddressTx, v: RecordView) -> bool {
    &&& a.tx_id@ == v.tx_id
    &&& a.block == v.block_height
    &&& a.confirmations == v.confirmations
    &&& a.net == v.net
    &&& a.fee == v.fee
    &&& a.direction@ == direction_name(v.direction)
}

/// The key hash that an address names, if it is 64 hex digits.
pub open spec fn address_hash(addr: Seq<char>) -> Option<Seq<u8>> {
    if hex_decodable(addr) && hex_decoded(addr).len() == 32 {
        Some(hex_decoded(addr))
    } else {
        None
    }
}

/// What the explorer shows of an address: the value locked to it (pending
/// spends not counted) and its history, most recent first.
pub fn address_info(chain: &Blockchain, addr: &str) -> (r: Result<ApiAddressInfo, String>)
    requires
        address_hash(addr@) matches Some(pkh) ==> {
            &&& history_fits(chain.blocks(), pkh, height_of(chain.blocks()))
            &&& map_value_sum(spendable(utxo_map(chain.blocks()), Seq::empty(), pkh)) <= u64::MAX
        },
    ensures
        match address_hash(addr@) {
            None => r matches Err(e) && e@ == "Invalid address (expected 64-char hex)"@,
            Some(pkh) => r matches Ok(a) && {
                let h = history_of(chain.blocks(), pkh, height_of(chain.blocks()));
                &&& a.address@ == addr@
                &&& a.balance == map_value_sum(spendable(utxo_map(chain.blocks()), Seq::empty(), pkh))
                &&& a.tx_count == h.len()
                &&& a.transactions@.len() == h.len()
                &&& forall|i: int| 0 <= i < h.len() ==> record_shown(#[trigger] a.transactions@[i], h[i])
            },
        },
{
    let pub_key_hash = match hex_decode(addr) {
        Some(h) => h,
        None => {
            return Err("Invalid address (expected 64-char hex)".to_string());
        },
    };
    if pub_key_hash.len() != 32 {
        return Err("Invalid address (expected 64-char hex)".to_string());
    }
    let records = build_history(chain.chain.as_slice(), pub_key_hash.as_slice(), chain.height());
    let utxos = chain.build_utxo_set();
    let none: Vec<OutPoint> = Vec::new();
    assert(ops_view(none@) =~= Seq::<OutPointView>::empty());
    let owned = owned_outputs(&utxos, pub_key_hash.as_slice(), &none);
    let balance = sum_values(&owned);
    let ghost h = records_view(records@);
    let mut transactions: Vec<ApiAddressTx> = Vec::new();
    let n = records.len();
    for i in 0..n
        invariant
            n == records@.len(),
            h == records_view(records@),
            transactions@.len() == i,
            forall|j: int| 0 <= j < i ==> record_shown(#[trigger] transactions@[j], h[j]),
    {
        let rec = &records[i];
        assert(h[i as int] == rec@);
        let direction = match rec.direction {
            TxDirection::Received => "in".to_string(),
            TxDirection::Sent => "out".to_string(),
            TxDirection::Self_ => "self".to_string(),
        };
        transactions.push(
            ApiAddressTx {
                tx_id: copy_string(&rec.tx_id),
                block: rec.block_height,
                confirmations: rec.confirmations,
                net: rec.net,
                fee: rec.fee,
                direction,
            },
        );
    }
    Ok(
        ApiAddressInfo {
            address: addr.to_string(),
            balance,
            tx_count: n,
            transactions,
        },
    )
}

} // verus!
