//! The meaning of a chain of blocks as a ledger: which outputs stand
//! unspent, when a transaction may spend them, and how a run of
//! transactions moves the unspent set forward.

use vstd::prelude::*;
use crate::codec::{bytes_eq, copy_string};
use crate::crypto::sha256;
use crate::models::block::{Block, BlockView};
use crate::models::mempool::{ops_view, spends, spends_prefix};
use crate::models::transaction::{
    OutPoint, OutPointView, OutputView, Transaction, TxView, basic_ok, is_coinbase_view,
    signatures_ok,
};
use crate::models::utxo::UtxoSet;
use crate::models::wallet::pub_key_hash_of;

verus! {

broadcast use {vstd::seq::group_seq_axioms, vstd::seq_lib::group_seq_properties};

/// The views of a run of blocks.
pub open spec fn blocks_view(s: Seq<Block>) -> Seq<BlockView> {
    s.map_values(|b: Block| b@)
}

/// The views of a run of transactions.
pub open spec fn txs_view(s: Seq<Transaction>) -> Seq<TxView> {
    s.map_values(|t: Transaction| t@)
}

/// Every transaction of the chain, block by block, in order.
pub open spec fn chain_txs(bs: Seq<BlockView>) -> Seq<TxView>
    decreases bs.len(),
{
    if bs.len() == 0 {
        Seq::empty()
    } else {
        chain_txs(bs.drop_last()) + bs.last().transactions
    }
}

/// The outpoint of output `k` of `t`; the index is kept as a `u32`.
pub open spec fn outpoint_at(t: TxView, k: int) -> OutPointView {
    OutPointView { tx_id: t.id, out_index: k as u32 }
}

/// Whether a transaction of `txs` other than a coinbase spends `op`.
pub open spec fn spent_in(txs: Seq<TxView>, op: OutPointView) -> bool {
    exists|j: int| 0 <= j < txs.len() && !is_coinbase_view(#[trigger] txs[j]) && spends(txs[j], op)
}

/// The first `k` outputs of `t` put into `m` in order, leaving out those
/// that a transaction of `all` spends.
pub open spec fn insert_outputs(
    m: Map<OutPointView, OutputView>,
    t: TxView,
    k: int,
    all: Seq<TxView>,
) -> Map<OutPointView, OutputView>
    decreases k,
{
    if k <= 0 {
        m
    } else {
        let prev = insert_outputs(m, t, k - 1, all);
        let op = outpoint_at(t, k - 1);
        if spent_in(all, op) {
            prev
        } else {
            prev.insert(op, t.vout[k - 1])
        }
    }
}

/// The outputs of `txs`, in order, that no transaction of `all` spends.
pub open spec fn unspent_outputs(txs: Seq<TxView>, all: Seq<TxView>) -> Map<
    OutPointView,
    OutputView,
>
    decreases txs.len(),
{
    if txs.len() == 0 {
        Map::empty()
    } else {
        insert_outputs(
            unspent_outputs(txs.drop_last(), all),
            txs.last(),
            txs.last().vout.len() as int,
            all,
        )
    }
}

/// The unspent outputs of a chain: every output of every transaction that
/// no transaction of the chain (other than a coinbase) spends.
pub open spec fn utxo_map(bs: Seq<BlockView>) -> Map<OutPointView, OutputView> {
    unspent_outputs(chain_txs(bs), chain_txs(bs))
}

/// `m` without the outpoints that the first `k` inputs of `t` spend.
pub open spec fn remove_inputs(m: Map<OutPointView, OutputView>, t: TxView, k: int) -> Map<
    OutPointView,
    OutputView,
>
    decreases k,
{
    if k <= 0 {
        m
    } else {
        remove_inputs(m, t, k - 1).remove(t.vin[k - 1].previous_output)
    }
}

/// The unspent set after `t`: its inputs taken out, its outputs put in.
pub open spec fn apply_tx(m: Map<OutPointView, OutputView>, t: TxView) -> Map<
    OutPointView,
    OutputView,
> {
    insert_outputs(remove_inputs(m, t, t.vin.len() as int), t, t.vout.len() as int, Seq::empty())
}

/// The unspent set after each of `txs` in turn.
pub open spec fn applied(m: Map<OutPointView, OutputView>, txs: Seq<TxView>) -> Map<
    OutPointView,
    OutputView,
>
    decreases txs.len(),
{
    if txs.len() == 0 {
        m
    } else {
        apply_tx(applied(m, txs.drop_last()), txs.last())
    }
}

/// The value of the outputs that the first `k` inputs of `t` spend in `u`.
pub open spec fn input_total(t: TxView, u: Map<OutPointView, OutputView>, k: int) -> int
    decreases k,
{
    if k <= 0 {
        0
    } else {
        input_total(t, u, k - 1) + u[t.vin[k - 1].previous_output].value
    }
}

/// The value of the first `k` outputs of `t`.
pub open spec fn output_total(t: TxView, k: int) -> int
    decreases k,
{
    if k <= 0 {
        0
    } else {
        output_total(t, k - 1) + t.vout[k - 1].value
    }
}

/// No two inputs of `t` spend the same outpoint.
pub open spec fn inputs_distinct(t: TxView) -> bool {
    forall|i: int, j: int|
        0 <= i < j < t.vin.len() ==> (#[trigger] t.vin[i]).previous_output != (
        #[trigger] t.vin[j]).previous_output
}

/// Whether `u` holds the output that input `k` of `t` spends, locked to the
/// hash of the key the input presents.
pub open spec fn input_owned(t: TxView, k: int, u: Map<OutPointView, OutputView>) -> bool {
    &&& u.dom().contains(t.vin[k].previous_output)
    &&& u[t.vin[k].previous_output].pub_key_hash == pub_key_hash_of(t.vin[k].pub_key)
}

/// Whether `t` may be applied to the unspent set `u`. A coinbase needs only
/// its outputs to carry value; any other transaction needs inputs, valid
/// signatures, distinct inputs that each spend an output of `u` locked to
/// the key presented, and no more value out than in.
pub open spec fn tx_valid_against(t: TxView, u: Map<OutPointView, OutputView>) -> bool {
    if is_coinbase_view(t) {
        basic_ok(t)
    } else {
        &&& t.vin.len() > 0
        &&& basic_ok(t)
        &&& signatures_ok(t)
        &&& inputs_distinct(t)
        &&& forall|k: int| 0 <= k < t.vin.len() ==> #[trigger] input_owned(t, k, u)
        &&& input_total(t, u, t.vin.len() as int) >= output_total(t, t.vout.len() as int)
    }
}

/// Whether each transaction of `txs` other than a coinbase is valid against
/// the unspent set left by those before it, starting from `u`.
pub open spec fn txs_accepted(u: Map<OutPointView, OutputView>, txs: Seq<TxView>) -> bool
    decreases txs.len(),
{
    if txs.len() == 0 {
        true
    } else {
        &&& txs_accepted(u, txs.drop_last())
        &&& (is_coinbase_view(txs.last()) || tx_valid_against(txs.last(), applied(u, txs.drop_last())))
    }
}

/// Appending `b` to a run of transactions steps the fold once.
pub proof fn lemma_chain_txs_push(bs: Seq<BlockView>, k: int)
    requires
        0 <= k < bs.len(),
    ensures
        chain_txs(bs.take(k + 1)) == chain_txs(bs.take(k)) + bs[k].transactions,
{
    assert(bs.take(k + 1).drop_last() =~= bs.take(k));
}

/// Acceptance and application split over a concatenation.
pub proof fn lemma_accept_concat(u: Map<OutPointView, OutputView>, a: Seq<TxView>, b: Seq<TxView>)
    ensures
        applied(u, a + b) == applied(applied(u, a), b),
        txs_accepted(u, a + b) == (txs_accepted(u, a) && txs_accepted(applied(u, a), b)),
    decreases b.len(),
{
    if b.len() == 0 {
        assert(a + b =~= a);
    } else {
        lemma_accept_concat(u, a, b.drop_last());
        assert((a + b).drop_last() =~= a + b.drop_last());
        assert((a + b).last() == b.last());
    }
}

/// A run that is accepted has every prefix accepted.
pub proof fn lemma_accepted_prefix(u: Map<OutPointView, OutputView>, s: Seq<TxView>, k: int)
    requires
        0 <= k <= s.len(),
        txs_accepted(u, s),
    ensures
        txs_accepted(u, s.take(k)),
    decreases s.len() - k,
{
    if k < s.len() {
        lemma_accepted_prefix(u, s, k + 1);
        assert(s.take(k + 1).drop_last() =~= s.take(k));
    } else {
        assert(s.take(k) =~= s);
    }
}

proof fn lemma_spent_in_step(txs: Seq<TxView>, j: int, op: OutPointView)
    requires
        0 <= j < txs.len(),
    ensures
        spent_in(txs.take(j + 1), op) == (spent_in(txs.take(j), op) || (!is_coinbase_view(txs[j])
            && spends(txs[j], op))),
{
    let a = txs.take(j);
    let b = txs.take(j + 1);
    if spent_in(b, op) {
        let q = choose|q: int| 0 <= q < b.len() && !is_coinbase_view(#[trigger] b[q]) && spends(b[q], op);
        if q < j {
            assert(a[q] == b[q]);
        }
    }
    if spent_in(a, op) {
        let q = choose|q: int| 0 <= q < a.len() && !is_coinbase_view(#[trigger] a[q]) && spends(a[q], op);
        assert(b[q] == a[q]);
    }
    if !is_coinbase_view(txs[j]) && spends(txs[j], op) {
        assert(b[j] == txs[j]);
    }
}

/// Every transaction of a chain, copied out block by block.
pub fn flatten_txs(chain: &[Block]) -> (r: Vec<Transaction>)
    ensures
        txs_view(r@) == chain_txs(blocks_view(chain@)),
{
    let ghost bv = blocks_view(chain@);
    let mut out: Vec<Transaction> = Vec::new();
    let n = chain.len();
    for b in 0..n
        invariant
            n == chain@.len(),
            bv == blocks_view(chain@),
            txs_view(out@) == chain_txs(bv.take(b as int)),
    {
        let block = &chain[b];
        assert(bv[b as int] == block@);
        let m = block.transactions.len();
        let ghost before = txs_view(out@);
        for t in 0..m
            invariant
                m == block.transactions@.len(),
                bv[b as int] == block@,
                txs_view(out@) == before + block@.transactions.take(t as int),
        {
            let ghost prev = txs_view(out@);
            out.push(block.transactions[t].clone());
            assert(block@.transactions[t as int] == block.transactions@[t as int]@);
            assert(txs_view(out@) =~= prev.push(block.transactions@[t as int]@));
            assert(block@.transactions.take(t + 1) =~= block@.transactions.take(t as int).push(
                block@.transactions[t as int],
            ));
        }
        assert(block@.transactions.take(m as int) =~= block@.transactions);
        proof {
            lemma_chain_txs_push(bv, b as int);
        }
    }
    assert(bv.take(n as int) =~= bv);
    out
}

/// Whether `op` occurs in `list`.
pub fn outpoint_listed(list: &Vec<OutPoint>, op: &OutPoint) -> (r: bool)
    ensures
        r == ops_view(list@).contains(op@),
{
    let ghost ls = ops_view(list@);
    let n = list.len();
    for i in 0..n
        invariant
            n == list@.len(),
            ls == ops_view(list@),
            forall|j: int| 0 <= j < i ==> ls[j] != op@,
    {
        assert(ls[i as int] == list@[i as int]@);
        if list[i].out_index == op.out_index && crate::codec::str_eq(
            list[i].tx_id.as_str(),
            op.tx_id.as_str(),
        ) {
            assert(ls.contains(op@));
            return true;
        }
    }
    false
}

/// The outpoints that the transactions of `txs` other than coinbases spend.
fn spent_outpoints(txs: &Vec<Transaction>) -> (r: Vec<OutPoint>)
    ensures
        forall|op: OutPointView| #[trigger] ops_view(r@).contains(op) == spent_in(txs_view(txs@), op),
{
    let ghost tv = txs_view(txs@);
    let mut spent: Vec<OutPoint> = Vec::new();
    let n = txs.len();
    for j in 0..n
        invariant
            n == txs@.len(),
            tv == txs_view(txs@),
            forall|op: OutPointView| #[trigger] ops_view(spent@).contains(op) == spent_in(tv.take(j as int), op),
    {
        let tx = &txs[j];
        assert(tv[j as int] == tx@);
        let ghost before = ops_view(spent@);
        if !tx.is_coinbase() {
            let m = tx.vin.len();
            for i in 0..m
                invariant
                    m == tx.vin@.len(),
                    tv[j as int] == tx@,
                    forall|op: OutPointView| #[trigger] ops_view(spent@).contains(op) == (before.contains(op)
                        || spends_prefix(tx@, i as int, op)),
            {
                let ghost prev = ops_view(spent@);
                let p = tx.vin[i].previous_output.clone();
                assert(tx@.vin[i as int] == tx.vin@[i as int]@);
                spent.push(p);
                assert(ops_view(spent@) =~= prev.push(tx@.vin[i as int].previous_output));
                assert forall|op: OutPointView| #[trigger] ops_view(spent@).contains(op) == (before.contains(op)
                    || spends_prefix(tx@, i + 1, op)) by {
                    if spends_prefix(tx@, i + 1, op) && !spends_prefix(tx@, i as int, op) {
                        let q = choose|q: int| 0 <= q < i + 1 && (#[trigger] tx@.vin[q]).previous_output == op;
                        assert(q == i);
                        assert(ops_view(spent@)[prev.len() as int] == op);
                    }
                    if spends_prefix(tx@, i as int, op) {
                        let q = choose|q: int| 0 <= q < i && (#[trigger] tx@.vin[q]).previous_output == op;
                        assert(tx@.vin[q].previous_output == op);
                    }
                    if ops_view(spent@).contains(op) && !prev.contains(op) {
                        let q = choose|q: int| 0 <= q < ops_view(spent@).len() && #[trigger] ops_view(spent@)[q] == op;
                        if q < prev.len() {
                            assert(prev[q] == op);
                        }
                        assert(tx@.vin[i as int].previous_output == op);
                    }
                }
            }
            assert forall|op: OutPointView| #[trigger] ops_view(spent@).contains(op) == spent_in(
                tv.take(j + 1),
                op,
            ) by {
                lemma_spent_in_step(tv, j as int, op);
                if spends(tx@, op) {
                    let q = choose|q: int| 0 <= q < tx@.vin.len() && (#[trigger] tx@.vin[q]).previous_output == op;
                    assert(spends_prefix(tx@, m as int, op));
                }
                if spends_prefix(tx@, m as int, op) {
                    let q = choose|q: int| 0 <= q < m && (#[trigger] tx@.vin[q]).previous_output == op;
                    assert(spends(tx@, op));
                }
            }
        } else {
            assert forall|op: OutPointView| #[trigger] ops_view(spent@).contains(op) == spent_in(
                tv.take(j + 1),
                op,
            ) by {
                lemma_spent_in_step(tv, j as int, op);
            }
        }
    }
    assert(tv.take(n as int) =~= tv);
    spent
}

/// Puts every output of `tx` whose outpoint `skip` does not list into
/// `utxos`, in order.
pub fn insert_unspent_outputs(
    utxos: &mut UtxoSet,
    tx: &Transaction,
    skip: &Vec<OutPoint>,
    Ghost(all): Ghost<Seq<TxView>>,
)
    requires
        old(utxos).wf(),
        forall|op: OutPointView| #[trigger] ops_view(skip@).contains(op) == spent_in(all, op),
    ensures
        final(utxos).wf(),
        final(utxos)@ == insert_outputs(old(utxos)@, tx@, tx@.vout.len() as int, all),
{
    let n = tx.vout.len();
    for k in 0..n
        invariant
            n == tx.vout@.len(),
            utxos.wf(),
            forall|op: OutPointView| #[trigger] ops_view(skip@).contains(op) == spent_in(all, op),
            utxos@ == insert_outputs(old(utxos)@, tx@, k as int, all),
    {
        let op = OutPoint { tx_id: copy_string(&tx.id), out_index: k as u32 };
        assert(op@ == outpoint_at(tx@, k as int));
        if !outpoint_listed(skip, &op) {
            assert(tx@.vout[k as int] == tx.vout@[k as int]@);
            utxos.insert(op, tx.vout[k].clone());
        }
    }
}

/// The unspent outputs of a chain.
pub fn utxo_set_of(chain: &Vec<Block>) -> (r: UtxoSet)
    ensures
        r.wf(),
        r@ == utxo_map(blocks_view(chain@)),
{
    let txs = flatten_txs(chain.as_slice());
    let ghost tv = txs_view(txs@);
    let spent = spent_outpoints(&txs);
    let mut utxos = UtxoSet::new();
    let n = txs.len();
    for j in 0..n
        invariant
            n == txs@.len(),
            tv == txs_view(txs@),
            utxos.wf(),
            forall|op: OutPointView| #[trigger] ops_view(spent@).contains(op) == spent_in(tv, op),
            utxos@ == unspent_outputs(tv.take(j as int), tv),
    {
        assert(tv[j as int] == txs@[j as int]@);
        insert_unspent_outputs(&mut utxos, &txs[j], &spent, Ghost(tv));
        assert(tv.take(j + 1).drop_last() =~= tv.take(j as int));
    }
    assert(tv.take(n as int) =~= tv);
    utxos
}

proof fn lemma_output_total_bound(t: TxView, k: int)
    requires
        0 <= k <= t.vout.len(),
    ensures
        0 <= output_total(t, k) <= k * (u64::MAX as int),
    decreases k,
{
    if k > 0 {
        lemma_output_total_bound(t, k - 1);
    }
}

/// The value of all outputs of `tx`, exactly.
pub fn output_sum(tx: &Transaction) -> (r: u128)
    ensures
        r == output_total(tx@, tx@.vout.len() as int),
{
    let mut total: u128 = 0;
    let n = tx.vout.len();
    for k in 0..n
        invariant
            n == tx.vout@.len(),
            n <= usize::MAX,
            total == output_total(tx@, k as int),
    {
        proof {
            lemma_output_total_bound(tx@, k + 1);
            assert((k + 1) * (u64::MAX as int) <= u128::MAX) by (nonlinear_arith)
                requires
                    k + 1 <= usize::MAX,
                    usize::MAX <= u64::MAX,
            ;
        }
        assert(tx@.vout[k as int] == tx.vout@[k as int]@);
        total = total + tx.vout[k].value as u128;
    }
    total
}

/// Whether `tx` may be applied to `utxos`.
pub fn validate_against(tx: &Transaction, utxos: &UtxoSet) -> (r: bool)
    requires
        utxos.wf(),
    ensures
        r == tx_valid_against(tx@, utxos@),
{
    if tx.is_coinbase() {
        return tx.verify_basic();
    }
    if tx.vin.len() == 0 || !tx.verify_basic() {
        return false;
    }
    if !tx.verify_signatures() {
        return false;
    }
    let ghost t = tx@;
    let ghost u = utxos@;
    let mut seen: Vec<OutPoint> = Vec::new();
    let mut input_total_acc: u128 = 0;
    let n = tx.vin.len();
    for i in 0..n
        invariant
            n == tx.vin@.len(),
            t == tx@,
            u == utxos@,
            utxos.wf(),
            !is_coinbase_view(t),
            ops_view(seen@) == t.vin.take(i as int).map_values(|x: crate::models::transaction::InputView| x.previous_output),
            forall|a: int, b: int|
                0 <= a < b < i ==> (#[trigger] t.vin[a]).previous_output != (#[trigger] t.vin[b]).previous_output,
            forall|k: int| 0 <= k < i ==> #[trigger] input_owned(t, k, u),
            input_total_acc == input_total(t, u, i as int),
            input_total_acc <= i * (u64::MAX as int),
    {
        let prev = &tx.vin[i].previous_output;
        assert(t.vin[i as int] == tx.vin@[i as int]@);
        if outpoint_listed(&seen, prev) {
            proof {
                let q = choose|q: int| 0 <= q < ops_view(seen@).len() && #[trigger] ops_view(seen@)[q] == prev@;
                assert(t.vin[q].previous_output == prev@);
                assert(!inputs_distinct(t));
            }
            return false;
        }
        let ghost seen_before = ops_view(seen@);
        seen.push(prev.clone());
        assert(ops_view(seen@) =~= seen_before.push(prev@));
        assert(t.vin.take(i + 1).map_values(|x: crate::models::transaction::InputView| x.previous_output)
            =~= seen_before.push(prev@));
        let referenced = match utxos.get(prev) {
            Some(o) => o,
            None => {
                assert(!input_owned(t, i as int, u));
                return false;
            },
        };
        let key_digest = sha256(tx.vin[i].pub_key.as_slice());
        let key_hash = sha256(key_digest.as_slice());
        if !bytes_eq(key_hash.as_slice(), referenced.pub_key_hash.as_slice()) {
            assert(!input_owned(t, i as int, u));
            return false;
        }
        assert forall|a: int, b: int|
            0 <= a < b < i + 1 implies (#[trigger] t.vin[a]).previous_output != (
            #[trigger] t.vin[b]).previous_output by {
            if b == i {
                assert(seen_before[a] == t.vin[a].previous_output);
                assert(seen_before.contains(t.vin[a].previous_output));
            }
        }
        proof {
            assert((i + 1) * (u64::MAX as int) <= u128::MAX) by (nonlinear_arith)
                requires
                    i + 1 <= usize::MAX,
                    usize::MAX <= u64::MAX,
            ;
            assert((i + 1) * (u64::MAX as int) == i * (u64::MAX as int) + u64::MAX) by (nonlinear_arith);
        }
        input_total_acc = input_total_acc + referenced.value as u128;
    }
    let output_total_sum = output_sum(tx);
    input_total_acc >= output_total_sum
}

/// Takes the outputs that `tx` spends out of `utxos` and puts its own in.
pub fn apply_tx_to(utxos: &mut UtxoSet, tx: &Transaction)
    requires
        old(utxos).wf(),
    ensures
        final(utxos).wf(),
        final(utxos)@ == apply_tx(old(utxos)@, tx@),
{
    let n = tx.vin.len();
    for i in 0..n
        invariant
            n == tx.vin@.len(),
            utxos.wf(),
            utxos@ == remove_inputs(old(utxos)@, tx@, i as int),
    {
        assert(tx@.vin[i as int] == tx.vin@[i as int]@);
        utxos.remove(&tx.vin[i].previous_output);
    }
    let ghost removed = utxos@;
    let m = tx.vout.len();
    for k in 0..m
        invariant
            m == tx.vout@.len(),
            utxos.wf(),
            utxos@ == insert_outputs(removed, tx@, k as int, Seq::empty()),
    {
        let op = OutPoint { tx_id: copy_string(&tx.id), out_index: k as u32 };
        assert(op@ == outpoint_at(tx@, k as int));
        assert(!spent_in(Seq::<TxView>::empty(), op@));
        assert(tx@.vout[k as int] == tx.vout@[k as int]@);
        utxos.insert(op, tx.vout[k].clone());
    }
}

/// Checks each transaction of `txs` other than a coinbase against the
/// unspent set left by those before it, and applies each in turn. On
/// success `utxos` is the set after all of them.
pub fn accept_txs(utxos: &mut UtxoSet, txs: &Vec<Transaction>) -> (r: bool)
    requires
        old(utxos).wf(),
    ensures
        final(utxos).wf(),
        r == txs_accepted(old(utxos)@, txs_view(txs@)),
        r ==> final(utxos)@ == applied(old(utxos)@, txs_view(txs@)),
{
    let ghost u0 = utxos@;
    let ghost tv = txs_view(txs@);
    let n = txs.len();
    for j in 0..n
        invariant
            n == txs@.len(),
            tv == txs_view(txs@),
            u0 == old(utxos)@,
            utxos.wf(),
            utxos@ == applied(u0, tv.take(j as int)),
            txs_accepted(u0, tv.take(j as int)),
    {
        let tx = &txs[j];
        assert(tv[j as int] == tx@);
        assert(tv.take(j + 1).drop_last() =~= tv.take(j as int));
        if !tx.is_coinbase() && !validate_against(tx, utxos) {
            proof {
                if txs_accepted(u0, tv) {
                    lemma_accepted_prefix(u0, tv, j + 1);
                }
            }
            return false;
        }
        apply_tx_to(utxos, tx);
    }
    assert(tv.take(n as int) =~= tv);
    true
}

} // verus!
