//! The mempool: pending transactions ordered by fee, highest first, and the
//! outpoints that they spend, so that no two pending transactions spend the
//! same output.

use vstd::prelude::*;
use crate::codec::str_eq;
use crate::models::transaction::{OutPoint, OutPointView, Transaction, TxView};

verus! {

broadcast use {vstd::seq::group_seq_axioms, vstd::seq_lib::group_seq_properties};

#[derive(Debug)]
pub struct MempoolEntry {
    pub tx: Transaction,
    pub fee: u64,
}

#[derive(Debug)]
pub struct Mempool {
    pub entries: Vec<MempoolEntry>,
    pub reserved_inputs: Vec<OutPoint>,
}

/// A pending transaction and the fee it pays.
pub struct EntryView {
    pub tx: TxView,
    pub fee: u64,
}

impl View for MempoolEntry {
    type V = EntryView;

    open spec fn view(&self) -> EntryView {
        EntryView { tx: self.tx@, fee: self.fee }
    }
}

/// The outpoints that a sequence holds.
pub open spec fn ops_view(s: Seq<OutPoint>) -> Seq<OutPointView> {
    s.map_values(|o: OutPoint| o@)
}

/// The entries that a sequence holds.
pub open spec fn entries_of(s: Seq<MempoolEntry>) -> Seq<EntryView> {
    s.map_values(|e: MempoolEntry| e@)
}

/// The texts of a sequence of strings.
pub open spec fn strings_view(s: Seq<String>) -> Seq<Seq<char>> {
    s.map_values(|x: String| x@)
}

/// Fees never increase along the sequence.
pub open spec fn sorted_by_fee(es: Seq<EntryView>) -> bool {
    forall|i: int, j: int| 0 <= i < j < es.len() ==> es[i].fee >= es[j].fee
}

/// Whether some entry has the id `id`.
pub open spec fn has_id(es: Seq<EntryView>, id: Seq<char>) -> bool {
    exists|i: int| 0 <= i < es.len() && (#[trigger] es[i]).tx.id == id
}

/// Whether some input of `t` spends an outpoint in `reserved`.
pub open spec fn spends_reserved(t: TxView, reserved: Seq<OutPointView>) -> bool {
    exists|k: int| 0 <= k < t.vin.len() && reserved.contains((#[trigger] t.vin[k]).previous_output)
}

/// Whether one of the first `k` inputs of `t` spends `op`.
pub open spec fn spends_prefix(t: TxView, k: int, op: OutPointView) -> bool {
    exists|j: int| 0 <= j < k && (#[trigger] t.vin[j]).previous_output == op
}

/// Whether some input of `t` spends `op`.
pub open spec fn spends(t: TxView, op: OutPointView) -> bool {
    exists|k: int| 0 <= k < t.vin.len() && (#[trigger] t.vin[k]).previous_output == op
}

/// The entries whose ids are not among `ids`, in order.
pub open spec fn unconfirmed(es: Seq<EntryView>, ids: Seq<Seq<char>>) -> Seq<EntryView>
    decreases es.len(),
{
    if es.len() == 0 {
        Seq::empty()
    } else {
        let rest = unconfirmed(es.drop_last(), ids);
        if ids.contains(es.last().tx.id) {
            rest
        } else {
            rest.push(es.last())
        }
    }
}

/// Whether an entry with id among `ids` spends `op`.
pub open spec fn confirmed_spends(es: Seq<EntryView>, ids: Seq<Seq<char>>, op: OutPointView) -> bool {
    exists|i: int| 0 <= i < es.len() && ids.contains((#[trigger] es[i]).tx.id) && spends(es[i].tx, op)
}

/// No two entries share an id.
pub open spec fn ids_distinct(es: Seq<EntryView>) -> bool {
    forall|i: int, j: int|
        0 <= i < es.len() && 0 <= j < es.len() && i != j ==> (#[trigger] es[i]).tx.id != (
        #[trigger] es[j]).tx.id
}

/// Whether some entry spends `op`.
pub open spec fn pending_spend(es: Seq<EntryView>, op: OutPointView) -> bool {
    exists|i: int| 0 <= i < es.len() && #[trigger] spends(es[i].tx, op)
}

/// No outpoint is spent by two different entries.
pub open spec fn inputs_disjoint(es: Seq<EntryView>) -> bool {
    forall|i: int, j: int, op: OutPointView|
        0 <= i < es.len() && 0 <= j < es.len() && i != j && #[trigger] spends(es[i].tx, op)
            ==> !#[trigger] spends(es[j].tx, op)
}

/// The reserved outpoints are exactly those that the entries spend.
pub open spec fn reserved_matches(es: Seq<EntryView>, rs: Seq<OutPointView>) -> bool {
    forall|op: OutPointView|
        #![trigger rs.contains(op)]
        #![trigger pending_spend(es, op)]
        rs.contains(op) <==> pending_spend(es, op)
}

proof fn lemma_spends_witness(t: TxView, op: OutPointView, rs: Seq<OutPointView>)
    requires
        spends(t, op),
        rs.contains(op),
    ensures
        spends_reserved(t, rs),
{
    let k = choose|k: int| 0 <= k < t.vin.len() && (#[trigger] t.vin[k]).previous_output == op;
    assert(rs.contains(t.vin[k].previous_output));
}

/// Placing an entry whose id is new and whose inputs are free keeps the
/// entries' ids distinct, their inputs disjoint, and the reserved outpoints
/// those that the entries spend.
proof fn lemma_insert_keeps_pending(
    es: Seq<EntryView>,
    rs: Seq<OutPointView>,
    rs2: Seq<OutPointView>,
    p: int,
    e: EntryView,
)
    requires
        0 <= p <= es.len(),
        ids_distinct(es),
        inputs_disjoint(es),
        reserved_matches(es, rs),
        !has_id(es, e.tx.id),
        !spends_reserved(e.tx, rs),
        forall|op: OutPointView| #[trigger] rs2.contains(op) <==> rs.contains(op) || spends(e.tx, op),
    ensures
        ids_distinct(es.insert(p, e)),
        inputs_disjoint(es.insert(p, e)),
        reserved_matches(es.insert(p, e), rs2),
{
    let n = es.insert(p, e);
    assert forall|i: int| 0 <= i < n.len() implies #[trigger] n[i] == if i < p {
        es[i]
    } else if i == p {
        e
    } else {
        es[i - 1]
    } by {}
    assert forall|i: int, j: int|
        0 <= i < n.len() && 0 <= j < n.len() && i != j implies (#[trigger] n[i]).tx.id != (
        #[trigger] n[j]).tx.id by {
        if i == p {
            let jj = if j < p { j } else { j - 1 };
            assert(n[j] == es[jj]);
        } else if j == p {
            let ii = if i < p { i } else { i - 1 };
            assert(n[i] == es[ii]);
        } else {
            let ii = if i < p { i } else { i - 1 };
            let jj = if j < p { j } else { j - 1 };
            assert(n[i] == es[ii] && n[j] == es[jj]);
        }
    }
    assert forall|i: int, j: int, op: OutPointView|
        0 <= i < n.len() && 0 <= j < n.len() && i != j && #[trigger] spends(n[i].tx, op) implies !#[trigger] spends(
        n[j].tx,
        op,
    ) by {
        if spends(n[j].tx, op) {
            if i == p {
                let jj = if j < p { j } else { j - 1 };
                assert(n[j] == es[jj]);
                assert(pending_spend(es, op));
                lemma_spends_witness(e.tx, op, rs);
            } else if j == p {
                let ii = if i < p { i } else { i - 1 };
                assert(n[i] == es[ii]);
                assert(pending_spend(es, op));
                lemma_spends_witness(e.tx, op, rs);
            } else {
                let ii = if i < p { i } else { i - 1 };
                let jj = if j < p { j } else { j - 1 };
                assert(n[i] == es[ii] && n[j] == es[jj]);
            }
        }
    }
    assert forall|op: OutPointView| rs2.contains(op) <==> pending_spend(n, op) by {
        if pending_spend(n, op) {
            let i = choose|i: int| 0 <= i < n.len() && #[trigger] spends(n[i].tx, op);
            if i != p {
                let ii = if i < p { i } else { i - 1 };
                assert(n[i] == es[ii]);
                assert(pending_spend(es, op));
            }
        }
        if rs2.contains(op) {
            if rs.contains(op) {
                assert(pending_spend(es, op));
                let i = choose|i: int| 0 <= i < es.len() && #[trigger] spends(es[i].tx, op);
                let ni = if i < p { i } else { i + 1 };
                assert(n[ni] == es[i]);
            } else {
                assert(spends(n[p].tx, op));
            }
        }
    }
}

/// Whether `new` is `old` with `e` placed after every entry whose fee is at
/// least its own and before the others.
pub open spec fn inserted_by_fee(old: Seq<EntryView>, new: Seq<EntryView>, e: EntryView) -> bool {
    exists|p: int|
        #![trigger old.insert(p, e)]
        0 <= p <= old.len() && new == old.insert(p, e) && (forall|i: int|
            0 <= i < p ==> (#[trigger] old[i]).fee >= e.fee) && (forall|i: int|
            p <= i < old.len() ==> (#[trigger] old[i]).fee < e.fee)
}

/// The total of the fees.
pub open spec fn fee_sum(es: Seq<EntryView>) -> int
    decreases es.len(),
{
    if es.len() == 0 {
        0
    } else {
        fee_sum(es.drop_last()) + es.last().fee
    }
}

proof fn lemma_unconfirmed_sorted(es: Seq<EntryView>, ids: Seq<Seq<char>>)
    requires
        sorted_by_fee(es),
    ensures
        sorted_by_fee(unconfirmed(es, ids)),
        forall|i: int|
            0 <= i < unconfirmed(es, ids).len() ==> es.contains(#[trigger] unconfirmed(es, ids)[i]),
    decreases es.len(),
{
    if es.len() > 0 {
        let prev = es.drop_last();
        assert(sorted_by_fee(prev));
        lemma_unconfirmed_sorted(prev, ids);
        let rest = unconfirmed(prev, ids);
        assert forall|i: int| 0 <= i < rest.len() implies es.contains(#[trigger] rest[i]) by {
            assert(prev.contains(rest[i]));
            let j = choose|j: int| 0 <= j < prev.len() && prev[j] == rest[i];
            assert(es[j] == rest[i]);
        }
        if !ids.contains(es.last().tx.id) {
            let r = rest.push(es.last());
            assert forall|i: int, j: int| 0 <= i < j < r.len() implies r[i].fee >= r[j].fee by {
                if j == r.len() - 1 {
                    assert(prev.contains(r[i]));
                    let k = choose|k: int| 0 <= k < prev.len() && prev[k] == r[i];
                    assert(es[k].fee >= es[es.len() - 1].fee);
                }
            }
            assert forall|i: int| 0 <= i < r.len() implies es.contains(#[trigger] r[i]) by {
                if i == r.len() - 1 {
                    assert(es[es.len() - 1] == r[i]);
                } else {
                    assert(rest[i] == r[i]);
                }
            }
        }
    }
}

/// The entries kept are entries of `es` whose ids are not among `ids`, and
/// every such entry is kept; distinct ids and disjoint inputs carry over.
proof fn lemma_unconfirmed_members(es: Seq<EntryView>, ids: Seq<Seq<char>>)
    ensures
        forall|j: int|
            0 <= j < unconfirmed(es, ids).len() ==> es.contains(#[trigger] unconfirmed(es, ids)[j])
                && !ids.contains(unconfirmed(es, ids)[j].tx.id),
        forall|i: int|
            0 <= i < es.len() && !ids.contains(es[i].tx.id) ==> unconfirmed(es, ids).contains(
                #[trigger] es[i],
            ),
        ids_distinct(es) ==> ids_distinct(unconfirmed(es, ids)),
        inputs_disjoint(es) ==> inputs_disjoint(unconfirmed(es, ids)),
    decreases es.len(),
{
    if es.len() > 0 {
        let prev = es.drop_last();
        let last = es.last();
        let n = es.len() - 1;
        lemma_unconfirmed_members(prev, ids);
        let rest = unconfirmed(prev, ids);
        let u = unconfirmed(es, ids);
        // Entries of `rest` sit before the last entry.
        assert forall|j: int| 0 <= j < rest.len() implies exists|k: int|
            0 <= k < n && es[k] == #[trigger] rest[j] by {
            assert(prev.contains(rest[j]));
            let k = choose|k: int| 0 <= k < prev.len() && prev[k] == rest[j];
            assert(es[k] == prev[k]);
        }
        assert forall|j: int|
            0 <= j < u.len() implies es.contains(#[trigger] u[j]) && !ids.contains(u[j].tx.id) by {
            if j < rest.len() {
                assert(u[j] == rest[j]);
                let k = choose|k: int| 0 <= k < n && es[k] == rest[j];
            } else {
                assert(u[j] == last);
                assert(es[n] == last);
            }
        }
        assert forall|i: int|
            0 <= i < es.len() && !ids.contains(es[i].tx.id) implies u.contains(#[trigger] es[i]) by {
            if i < n {
                assert(prev[i] == es[i]);
                assert(rest.contains(prev[i]));
                let j = choose|j: int| 0 <= j < rest.len() && rest[j] == prev[i];
                assert(u[j] == rest[j]);
            } else {
                assert(u[u.len() - 1] == last);
            }
        }
        if ids_distinct(es) {
            assert(ids_distinct(prev)) by {
                assert forall|i: int, j: int|
                    0 <= i < prev.len() && 0 <= j < prev.len() && i != j implies (#[trigger] prev[i]).tx.id
                        != (#[trigger] prev[j]).tx.id by {
                    assert(prev[i] == es[i] && prev[j] == es[j]);
                }
            }
            assert forall|i: int, j: int|
                0 <= i < u.len() && 0 <= j < u.len() && i != j implies (#[trigger] u[i]).tx.id != (
                #[trigger] u[j]).tx.id by {
                if i < rest.len() && j < rest.len() {
                    assert(u[i] == rest[i] && u[j] == rest[j]);
                } else if i < rest.len() {
                    assert(u[i] == rest[i] && u[j] == last);
                    let k = choose|k: int| 0 <= k < n && es[k] == rest[i];
                    assert(es[k].tx.id != es[n].tx.id);
                } else {
                    assert(u[j] == rest[j] && u[i] == last);
                    let k = choose|k: int| 0 <= k < n && es[k] == rest[j];
                    assert(es[k].tx.id != es[n].tx.id);
                }
            }
        }
        if inputs_disjoint(es) {
            assert(inputs_disjoint(prev)) by {
                assert forall|i: int, j: int, op: OutPointView|
                    0 <= i < prev.len() && 0 <= j < prev.len() && i != j && #[trigger] spends(prev[i].tx, op)
                        implies !#[trigger] spends(prev[j].tx, op) by {
                    assert(prev[i] == es[i] && prev[j] == es[j]);
                }
            }
            assert forall|i: int, j: int, op: OutPointView|
                0 <= i < u.len() && 0 <= j < u.len() && i != j && #[trigger] spends(u[i].tx, op)
                    implies !#[trigger] spends(u[j].tx, op) by {
                if i < rest.len() && j < rest.len() {
                    assert(u[i] == rest[i] && u[j] == rest[j]);
                } else if i < rest.len() {
                    assert(u[i] == rest[i] && u[j] == last);
                    let k = choose|k: int| 0 <= k < n && es[k] == rest[i];
                    assert(spends(es[k].tx, op) ==> !spends(es[n].tx, op));
                } else {
                    assert(u[j] == rest[j] && u[i] == last);
                    let k = choose|k: int| 0 <= k < n && es[k] == rest[j];
                    assert(spends(es[n].tx, op) ==> !spends(es[k].tx, op));
                }
            }
        }
    }
}

/// Dropping the confirmed entries and releasing what they spent keeps the
/// reserved outpoints those that the remaining entries spend.
proof fn lemma_purge_keeps_pending(
    es: Seq<EntryView>,
    ids: Seq<Seq<char>>,
    rs: Seq<OutPointView>,
    rs2: Seq<OutPointView>,
)
    requires
        ids_distinct(es),
        inputs_disjoint(es),
        reserved_matches(es, rs),
        forall|op: OutPointView|
            #[trigger] rs2.contains(op) <==> rs.contains(op) && !confirmed_spends(es, ids, op),
    ensures
        ids_distinct(unconfirmed(es, ids)),
        inputs_disjoint(unconfirmed(es, ids)),
        reserved_matches(unconfirmed(es, ids), rs2),
{
    lemma_unconfirmed_members(es, ids);
    let u = unconfirmed(es, ids);
    assert forall|op: OutPointView| rs2.contains(op) <==> pending_spend(u, op) by {
        if pending_spend(u, op) {
            let j = choose|j: int| 0 <= j < u.len() && #[trigger] spends(u[j].tx, op);
            assert(es.contains(u[j]) && !ids.contains(u[j].tx.id));
            let i = choose|i: int| 0 <= i < es.len() && es[i] == u[j];
            assert(spends(es[i].tx, op));
            assert(pending_spend(es, op));
            if confirmed_spends(es, ids, op) {
                let i2 = choose|i2: int|
                    0 <= i2 < es.len() && ids.contains((#[trigger] es[i2]).tx.id) && spends(es[i2].tx, op);
                assert(i2 != i);
                assert(spends(es[i2].tx, op));
            }
        }
        if rs2.contains(op) {
            assert(pending_spend(es, op));
            let i = choose|i: int| 0 <= i < es.len() && #[trigger] spends(es[i].tx, op);
            if ids.contains(es[i].tx.id) {
                assert(confirmed_spends(es, ids, op));
            }
            assert(u.contains(es[i]));
            let j = choose|j: int| 0 <= j < u.len() && u[j] == es[i];
            assert(spends(u[j].tx, op));
        }
    }
}

/// Whether `id` is among `ids`.
fn id_listed(ids: &[String], id: &str) -> (r: bool)
    ensures
        r == strings_view(ids@).contains(id@),
{
    let n = ids.len();
    for j in 0..n
        invariant
            n == ids@.len(),
            forall|q: int| 0 <= q < j ==> strings_view(ids@)[q] != id@,
    {
        if str_eq(ids[j].as_str(), id) {
            assert(strings_view(ids@)[j as int] == id@);
            return true;
        }
    }
    false
}

/// Whether an entry whose id is among `ids` spends `op`.
fn confirmed_spender(entries: &Vec<MempoolEntry>, ids: &[String], op: &OutPoint) -> (r: bool)
    ensures
        r == confirmed_spends(entries_of(entries@), strings_view(ids@), op@),
{
    let ghost es = entries_of(entries@);
    let n = entries.len();
    for i in 0..n
        invariant
            n == entries@.len(),
            es == entries_of(entries@),
            forall|q: int|
                0 <= q < i ==> !(strings_view(ids@).contains((#[trigger] es[q]).tx.id) && spends(es[q].tx, op@)),
    {
        let entry = &entries[i];
        assert(es[i as int] == entry@);
        if id_listed(ids, entry.tx.id.as_str()) {
            let m = entry.tx.vin.len();
            for k in 0..m
                invariant
                    m == entry.tx.vin@.len(),
                    es == entries_of(entries@),
                    0 <= i < es.len(),
                    es[i as int] == entry@,
                    strings_view(ids@).contains(entry@.tx.id),
                    forall|q: int| 0 <= q < k ==> (#[trigger] entry@.tx.vin[q]).previous_output != op@,
            {
                let prev = &entry.tx.vin[k].previous_output;
                assert(entry@.tx.vin[k as int] == entry.tx.vin@[k as int]@);
                if prev.out_index == op.out_index && str_eq(prev.tx_id.as_str(), op.tx_id.as_str()) {
                    assert(entry@.tx.vin[k as int].previous_output == op@);
                    assert(spends(es[i as int].tx, op@));
                    assert(confirmed_spends(es, strings_view(ids@), op@));
                    return true;
                }
            }
            assert(!spends(es[i as int].tx, op@));
        }
    }
    false
}

impl Mempool {
    /// The entries as they stand.
    pub open spec fn entries_view(&self) -> Seq<EntryView> {
        entries_of(self.entries@)
    }

    /// The reserved outpoints.
    pub open spec fn reserved_view(&self) -> Seq<OutPointView> {
        ops_view(self.reserved_inputs@)
    }

    /// Entries ordered by fee, highest first, with distinct ids and no
    /// outpoint spent by two of them; the reserved outpoints are exactly
    /// those that the entries spend.
    pub open spec fn wf(&self) -> bool {
        &&& sorted_by_fee(self.entries_view())
        &&& ids_distinct(self.entries_view())
        &&& inputs_disjoint(self.entries_view())
        &&& reserved_matches(self.entries_view(), self.reserved_view())
    }

    pub fn new() -> (m: Mempool)
        ensures
            m.wf(),
            m.entries_view() == Seq::<EntryView>::empty(),
            m.reserved_view() == Seq::<OutPointView>::empty(),
    {
        let m = Mempool { entries: Vec::new(), reserved_inputs: Vec::new() };
        assert(m.entries_view() =~= Seq::<EntryView>::empty());
        assert(m.reserved_view() =~= Seq::<OutPointView>::empty());
        m
    }

    pub fn contains(&self, tx_id: &str) -> (r: bool)
        ensures
            r == has_id(self.entries_view(), tx_id@),
    {
        let ghost es = self.entries_view();
        let n = self.entries.len();
        for i in 0..n
            invariant
                n == self.entries@.len(),
                es == self.entries_view(),
                forall|j: int| 0 <= j < i ==> (#[trigger] es[j]).tx.id != tx_id@,
        {
            assert(es[i as int] == self.entries@[i as int]@);
            if str_eq(self.entries[i].tx.id.as_str(), tx_id) {
                return true;
            }
        }
        false
    }

    fn is_reserved(&self, op: &OutPoint) -> (r: bool)
        ensures
            r == self.reserved_view().contains(op@),
    {
        let ghost rs = self.reserved_view();
        let n = self.reserved_inputs.len();
        for i in 0..n
            invariant
                n == self.reserved_inputs@.len(),
                rs == self.reserved_view(),
                forall|j: int| 0 <= j < i ==> rs[j] != op@,
        {
            assert(rs[i as int] == self.reserved_inputs@[i as int]@);
            if self.reserved_inputs[i].out_index == op.out_index && str_eq(
                self.reserved_inputs[i].tx_id.as_str(),
                op.tx_id.as_str(),
            ) {
                assert(rs.contains(op@));
                return true;
            }
        }
        false
    }

    /// Admits a transaction with its fee: refused if its id is already
    /// pending, or if an input spends an outpoint that a pending transaction
    /// spends. Otherwise its inputs are reserved and it is placed after every
    /// entry whose fee is at least its own.
    pub fn add(&mut self, tx: Transaction, fee: u64) -> (r: Result<(), String>)
        requires
            old(self).wf(),
        ensures
            final(self).wf(),
            has_id(old(self).entries_view(), tx@.id) ==> (r matches Err(e) && e@ == "Duplicate TX"@),
            !has_id(old(self).entries_view(), tx@.id) && spends_reserved(tx@, old(self).reserved_view())
                ==> (r matches Err(e) && e@ == "Double-spend detected"@),
            r is Err ==> *final(self) == *old(self),
            r is Ok <==> !has_id(old(self).entries_view(), tx@.id) && !spends_reserved(
                tx@,
                old(self).reserved_view(),
            ),
            r is Ok ==> exists|p: int|
                0 <= p <= old(self).entries_view().len() && final(self).entries_view()
                    == old(self).entries_view().insert(p, EntryView { tx: tx@, fee })
                    && (forall|i: int| 0 <= i < p ==> (#[trigger] old(self).entries_view()[i]).fee >= fee)
                    && (forall|i: int|
                    p <= i < old(self).entries_view().len() ==> (#[trigger] old(
                        self,
                    ).entries_view()[i]).fee < fee),
            r is Ok ==> forall|op: OutPointView|
                #[trigger] final(self).reserved_view().contains(op) <==> old(self).reserved_view().contains(op)
                    || spends(tx@, op),
            r is Ok ==> inserted_by_fee(
                old(self).entries_view(),
                final(self).entries_view(),
                EntryView { tx: tx@, fee },
            ),
    {
        if self.contains(tx.id.as_str()) {
            return Err("Duplicate TX".to_string());
        }
        let n = tx.vin.len();
        for k in 0..n
            invariant
                n == tx.vin@.len(),
                forall|j: int|
                    0 <= j < k ==> !old(self).reserved_view().contains(
                        (#[trigger] tx@.vin[j]).previous_output,
                    ),
                *self == *old(self),
                old(self).wf(),
                !has_id(old(self).entries_view(), tx@.id),
        {
            assert(tx@.vin[k as int] == tx.vin@[k as int]@);
            if self.is_reserved(&tx.vin[k].previous_output) {
                return Err("Double-spend detected".to_string());
            }
        }
        let ghost old_reserved = self.reserved_view();
        for k in 0..n
            invariant
                n == tx.vin@.len(),
                self.entries == old(self).entries,
                old_reserved == old(self).reserved_view(),
                forall|op: OutPointView|
                    #[trigger] self.reserved_view().contains(op) <==> old_reserved.contains(op)
                        || spends_prefix(tx@, k as int, op),
        {
            assert(tx@.vin[k as int] == tx.vin@[k as int]@);
            let ghost before = self.reserved_view();
            let ghost x = tx@.vin[k as int].previous_output;
            if !self.is_reserved(&tx.vin[k].previous_output) {
                self.reserved_inputs.push(tx.vin[k].previous_output.clone());
                assert(self.reserved_view() =~= before.push(x));
            }
            assert(forall|op: OutPointView| #[trigger] self.reserved_view().contains(op) <==> before.contains(op) || op == x);
            assert forall|op: OutPointView|
                #[trigger] self.reserved_view().contains(op) <==> old_reserved.contains(op)
                    || spends_prefix(tx@, k + 1, op) by {
                assert(before.contains(op) <==> old_reserved.contains(op) || spends_prefix(tx@, k as int, op));
                if spends_prefix(tx@, k + 1, op) && !spends_prefix(tx@, k as int, op) {
                    let j = choose|j: int| 0 <= j < k + 1 && (#[trigger] tx@.vin[j]).previous_output == op;
                    assert(j == k);
                }
                if op == x {
                    assert(spends_prefix(tx@, k + 1, op));
                }
            }
        }
        let ghost rv = self.reserved_view();
        assert forall|op: OutPointView|
            #[trigger] rv.contains(op) <==> old(self).reserved_view().contains(op) || spends(tx@, op) by {
            assert(spends_prefix(tx@, n as int, op) == spends(tx@, op));
        }
        let ghost es = self.entries_view();
        let m = self.entries.len();
        let mut p: usize = 0;
        while p < m && self.entries[p].fee >= fee
            invariant
                p <= m,
                m == self.entries@.len(),
                es == self.entries_view(),
                sorted_by_fee(es),
                forall|i: int| 0 <= i < p ==> (#[trigger] es[i]).fee >= fee,
            decreases m - p,
        {
            assert(es[p as int] == self.entries@[p as int]@);
            p = p + 1;
        }
        if p < m {
            assert(es[p as int] == self.entries@[p as int]@);
        }
        self.entries.insert(p, MempoolEntry { tx, fee });
        assert(self.entries_view() =~= es.insert(p as int, EntryView { tx: tx@, fee }));
        assert(forall|i: int| p <= i < es.len() ==> (#[trigger] es[i]).fee < fee);
        assert(self.reserved_view() == rv);
        assert(inserted_by_fee(es, self.entries_view(), EntryView { tx: tx@, fee }));
        proof {
            lemma_insert_keeps_pending(
                es,
                old(self).reserved_view(),
                rv,
                p as int,
                EntryView { tx: tx@, fee },
            );
        }
        Ok(())
    }

    /// Up to `limit` transactions from the front, that is the highest-fee ones.
    pub fn collect_for_block(&self, limit: usize) -> (r: Vec<Transaction>)
        ensures
            r@.len() == if limit < self.entries@.len() {
                limit as int
            } else {
                self.entries@.len() as int
            },
            forall|i: int| 0 <= i < r@.len() ==> (#[trigger] r@[i])@ == self.entries_view()[i].tx,
    {
        let n = if limit < self.entries.len() {
            limit
        } else {
            self.entries.len()
        };
        let mut out: Vec<Transaction> = Vec::new();
        for i in 0..n
            invariant
                n <= self.entries@.len(),
                out@.len() == i,
                forall|j: int| 0 <= j < i ==> (#[trigger] out@[j])@ == self.entries_view()[j].tx,
        {
            out.push(self.entries[i].tx.clone());
        }
        out
    }

    /// Drops the entries whose ids are among `confirmed_ids`, keeping the
    /// others in order, and releases the outpoints those entries spent.
    pub fn purge_confirmed(&mut self, confirmed_ids: &[String])
        requires
            old(self).wf(),
        ensures
            final(self).wf(),
            final(self).entries_view() == unconfirmed(
                old(self).entries_view(),
                strings_view(confirmed_ids@),
            ),
            forall|op: OutPointView|
                #[trigger] final(self).reserved_view().contains(op) <==> old(self).reserved_view().contains(op)
                    && !confirmed_spends(old(self).entries_view(), strings_view(confirmed_ids@), op),
    {
        let ghost ids = strings_view(confirmed_ids@);
        let ghost es = self.entries_view();
        let ghost rs = self.reserved_view();
        let mut reserved: Vec<OutPoint> = Vec::new();
        let r = self.reserved_inputs.len();
        for i in 0..r
            invariant
                r == self.reserved_inputs@.len(),
                rs == self.reserved_view(),
                es == self.entries_view(),
                ids == strings_view(confirmed_ids@),
                forall|x: OutPointView|
                    #[trigger] ops_view(reserved@).contains(x) <==> rs.take(i as int).contains(x)
                        && !confirmed_spends(es, ids, x),
        {
            let op = &self.reserved_inputs[i];
            assert(rs[i as int] == op@);
            let ghost before = ops_view(reserved@);
            let spent = confirmed_spender(&self.entries, confirmed_ids, op);
            if !spent {
                reserved.push(op.clone());
                assert(ops_view(reserved@) =~= before.push(op@));
            }
            assert(rs.take(i + 1) =~= rs.take(i as int).push(op@));
            assert forall|x: OutPointView|
                #[trigger] ops_view(reserved@).contains(x) <==> rs.take(i + 1).contains(x)
                    && !confirmed_spends(es, ids, x) by {
                assert(before.contains(x) <==> rs.take(i as int).contains(x) && !confirmed_spends(es, ids, x));
                if ops_view(reserved@).contains(x) && !spent {
                    let t = choose|t: int| 0 <= t < ops_view(reserved@).len() && #[trigger] ops_view(reserved@)[t] == x;
                    if t < before.len() {
                        assert(before[t] == x);
                        assert(before.contains(x));
                    }
                }
                if rs.take(i + 1).contains(x) && !rs.take(i as int).contains(x) {
                    let t = choose|t: int| 0 <= t < i + 1 && #[trigger] rs.take(i + 1)[t] == x;
                    if t < i {
                        assert(rs.take(i as int)[t] == x);
                    }
                }
                if rs.take(i as int).contains(x) {
                    let t = choose|t: int| 0 <= t < i && #[trigger] rs.take(i as int)[t] == x;
                    assert(rs.take(i + 1)[t] == x);
                }
                if !spent && x == op@ {
                    assert(ops_view(reserved@)[before.len() as int] == x);
                }
            }
        }
        assert(rs.take(r as int) =~= rs);
        let mut kept: Vec<MempoolEntry> = Vec::new();
        let n = self.entries.len();
        for i in 0..n
            invariant
                n == self.entries@.len(),
                es == self.entries_view(),
                ids == strings_view(confirmed_ids@),
                entries_of(kept@) == unconfirmed(es.take(i as int), ids),
        {
            let entry = &self.entries[i];
            assert(es[i as int] == entry@);
            assert(es.take(i + 1).drop_last() =~= es.take(i as int));
            let ghost kept_before = entries_of(kept@);
            if !id_listed(confirmed_ids, entry.tx.id.as_str()) {
                kept.push(MempoolEntry { tx: entry.tx.clone(), fee: entry.fee });
                assert(entries_of(kept@) =~= kept_before.push(entry@));
            }
        }
        assert(es.take(n as int) =~= es);
        self.entries = kept;
        self.reserved_inputs = reserved;
        proof {
            lemma_unconfirmed_sorted(es, ids);
            lemma_purge_keeps_pending(es, ids, rs, self.reserved_view());
        }
    }

    pub fn size(&self) -> (r: usize)
        ensures
            r == self.entries@.len(),
    {
        self.entries.len()
    }

    /// The sum of the pending fees.
    pub fn total_fees(&self) -> (r: u64)
        requires
            fee_sum(self.entries_view()) <= u64::MAX,
        ensures
            r == fee_sum(self.entries_view()),
    {
        let ghost es = self.entries_view();
        let mut total: u64 = 0;
        let n = self.entries.len();
        for i in 0..n
            invariant
                n == self.entries@.len(),
                es == self.entries_view(),
                fee_sum(es) <= u64::MAX,
                total == fee_sum(es.take(i as int)),
        {
            assert(es.take(i + 1).drop_last() =~= es.take(i as int));
            assert(es[i as int] == self.entries@[i as int]@);
            proof {
                lemma_fee_sum_prefix(es, i + 1);
            }
            total = total + self.entries[i].fee;
        }
        assert(es.take(n as int) =~= es);
        total
    }

    /// Whether `base` plus the fees of the first `k` entries fits in `u64`.
    pub fn prefix_fees_fit(&self, k: usize, base: u64) -> (r: bool)
        requires
            k <= self.entries@.len(),
        ensures
            r == (base + fee_sum(self.entries_view().take(k as int)) <= u64::MAX),
    {
        let ghost es = self.entries_view().take(k as int);
        let mut total: u128 = base as u128;
        for i in 0..k
            invariant
                k <= self.entries@.len(),
                es == self.entries_view().take(k as int),
                total == base + fee_sum(es.take(i as int)),
                total <= u64::MAX,
        {
            assert(es.take(i + 1).drop_last() =~= es.take(i as int));
            assert(es[i as int] == self.entries@[i as int]@);
            total = total + self.entries[i].fee as u128;
            if total > u64::MAX as u128 {
                proof {
                    lemma_fee_sum_prefix(es, i + 1);
                }
                return false;
            }
        }
        assert(es.take(k as int) =~= es);
        true
    }

    /// Every pending transaction, in order.
    pub fn pending_txs(&self) -> (r: Vec<Transaction>)
        ensures
            r@.len() == self.entries@.len(),
            forall|i: int| 0 <= i < r@.len() ==> (#[trigger] r@[i])@ == self.entries_view()[i].tx,
    {
        self.collect_for_block(self.entries.len())
    }
}

pub proof fn lemma_fee_sum_prefix(es: Seq<EntryView>, k: int)
    requires
        0 <= k <= es.len(),
    ensures
        fee_sum(es.take(k)) <= fee_sum(es),
    decreases es.len() - k,
{
    if k < es.len() {
        lemma_fee_sum_prefix(es, k + 1);
        assert(es.take(k + 1).drop_last() =~= es.take(k));
    } else {
        assert(es.take(k) =~= es);
    }
}

} // verus!
