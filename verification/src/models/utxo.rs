//! A set of unspent outputs keyed by outpoint: a finite map from outpoint to
//! output, held as a list of pairs in which no outpoint occurs twice.

use vstd::prelude::*;
use crate::codec::str_eq;
use crate::models::transaction::{OutPoint, OutPointView, OutputView, TXOutput};

verus! {

broadcast use {vstd::seq::group_seq_axioms, vstd::seq_lib::group_seq_properties};

#[derive(Debug)]
pub struct UtxoSet {
    pub entries: Vec<(OutPoint, TXOutput)>,
}

/// The outpoints of a list of pairs.
pub open spec fn pair_keys(s: Seq<(OutPoint, TXOutput)>) -> Seq<OutPointView> {
    s.map_values(|e: (OutPoint, TXOutput)| e.0@)
}

/// The map that a list of pairs with distinct outpoints stands for.
pub open spec fn pairs_map(s: Seq<(OutPoint, TXOutput)>) -> Map<OutPointView, OutputView> {
    Map::new(
        |k: OutPointView| pair_keys(s).contains(k),
        |k: OutPointView| s[pair_keys(s).index_of(k)].1@,
    )
}

pub proof fn lemma_pairs_map_at(s: Seq<(OutPoint, TXOutput)>, j: int)
    requires
        pair_keys(s).no_duplicates(),
        0 <= j < s.len(),
    ensures
        pairs_map(s).dom().contains(s[j].0@),
        pairs_map(s)[s[j].0@] == s[j].1@,
{
    let ks = pair_keys(s);
    assert(ks[j] == s[j].0@);
    assert(ks.contains(s[j].0@));
    let i = ks.index_of(s[j].0@);
    assert(ks[i] == ks[j]);
}

impl View for UtxoSet {
    type V = Map<OutPointView, OutputView>;

    open spec fn view(&self) -> Map<OutPointView, OutputView> {
        pairs_map(self.entries@)
    }
}

impl UtxoSet {
    /// No outpoint occurs twice.
    pub open spec fn wf(&self) -> bool {
        pair_keys(self.entries@).no_duplicates()
    }

    pub fn new() -> (r: UtxoSet)
        ensures
            r.wf(),
            r@ == Map::<OutPointView, OutputView>::empty(),
    {
        let r = UtxoSet { entries: Vec::new() };
        assert(r@ =~= Map::<OutPointView, OutputView>::empty());
        r
    }

    /// The number of unspent outputs.
    pub fn len(&self) -> (r: usize)
        requires
            self.wf(),
        ensures
            r == self@.dom().len(),
    {
        proof {
            let ks = pair_keys(self.entries@);
            ks.unique_seq_to_set();
            assert(self@.dom() =~= ks.to_set());
        }
        self.entries.len()
    }

    /// The position of `op`, if present.
    fn find(&self, op: &OutPoint) -> (r: Option<usize>)
        requires
            self.wf(),
        ensures
            r is None <==> !self@.dom().contains(op@),
            r matches Some(j) ==> j < self.entries@.len() && self.entries@[j as int].0@ == op@,
    {
        let ghost ks = pair_keys(self.entries@);
        let n = self.entries.len();
        for i in 0..n
            invariant
                n == self.entries@.len(),
                ks == pair_keys(self.entries@),
                forall|j: int| 0 <= j < i ==> ks[j] != op@,
        {
            let k = &self.entries[i].0;
            assert(ks[i as int] == k@);
            if k.out_index == op.out_index && str_eq(k.tx_id.as_str(), op.tx_id.as_str()) {
                return Some(i);
            }
        }
        proof {
            false_is_absent(ks, op@);
        }
        None
    }

    pub fn contains(&self, op: &OutPoint) -> (r: bool)
        requires
            self.wf(),
        ensures
            r == self@.dom().contains(op@),
    {
        self.find(op).is_some()
    }

    pub fn get(&self, op: &OutPoint) -> (r: Option<&TXOutput>)
        requires
            self.wf(),
        ensures
            r is Some <==> self@.dom().contains(op@),
            r matches Some(o) ==> o@ == self@[op@],
    {
        match self.find(op) {
            Some(j) => {
                proof {
                    lemma_pairs_map_at(self.entries@, j as int);
                }
                Some(&self.entries[j].1)
            },
            None => None,
        }
    }

    /// Sets the output at `op`, replacing any earlier one.
    pub fn insert(&mut self, op: OutPoint, output: TXOutput)
        requires
            old(self).wf(),
        ensures
            final(self).wf(),
            final(self)@ == old(self)@.insert(op@, output@),
    {
        let ghost s0 = self.entries@;
        let ghost k = op@;
        let ghost v = output@;
        match self.find(&op) {
            Some(j) => {
                self.entries.set(j, (op, output));
                proof {
                    let s1 = self.entries@;
                    assert(pair_keys(s1) =~= pair_keys(s0));
                    assert forall|q: OutPointView| #[trigger] pairs_map(s1).dom().contains(q) implies pairs_map(s1)[q]
                        == pairs_map(s0).insert(k, v)[q] by {
                        let i = pair_keys(s1).index_of(q);
                        assert(pair_keys(s1)[i] == q);
                        lemma_pairs_map_at(s1, i);
                        if i == j {
                            assert(q == k);
                        } else {
                            assert(s1[i] == s0[i]);
                            assert(pair_keys(s0)[i] == q);
                            assert(q != k) by {
                                assert(pair_keys(s0)[j as int] == k);
                            }
                            lemma_pairs_map_at(s0, i);
                        }
                    }
                    assert(pairs_map(s1) =~= pairs_map(s0).insert(k, v));
                }
            },
            None => {
                self.entries.push((op, output));
                proof {
                    let s1 = self.entries@;
                    assert(pair_keys(s1) =~= pair_keys(s0).push(k));
                    assert forall|q: OutPointView| #[trigger] pairs_map(s1).dom().contains(q) implies pairs_map(s1)[q]
                        == pairs_map(s0).insert(k, v)[q] by {
                        let i = pair_keys(s1).index_of(q);
                        lemma_pairs_map_at(s1, i);
                        if i < s0.len() {
                            lemma_pairs_map_at(s0, i);
                        }
                    }
                    assert(pairs_map(s1) =~= pairs_map(s0).insert(k, v));
                }
            },
        }
    }

    /// Drops the output at `op`, if any.
    pub fn remove(&mut self, op: &OutPoint)
        requires
            old(self).wf(),
        ensures
            final(self).wf(),
            final(self)@ == old(self)@.remove(op@),
    {
        let ghost s0 = self.entries@;
        let ghost k = op@;
        match self.find(op) {
            Some(j) => {
                self.entries.remove(j);
                proof {
                    let s1 = self.entries@;
                    assert(pair_keys(s1) =~= pair_keys(s0).remove(j as int));
                    assert forall|q: OutPointView| #[trigger] pairs_map(s1).dom().contains(q) <==> pairs_map(
                        s0,
                    ).remove(k).dom().contains(q) by {
                        if pair_keys(s1).contains(q) {
                            let i = pair_keys(s1).index_of(q);
                            assert(pair_keys(s1)[i] == q);
                            if i < j {
                                assert(pair_keys(s0)[i] == q);
                                assert(i != j);
                            } else {
                                assert(pair_keys(s0)[i + 1] == q);
                                assert(i + 1 != j);
                            }
                            assert(pair_keys(s0)[j as int] == k);
                            assert(pair_keys(s0).contains(q));
                            assert(q != k);
                        }
                        if pair_keys(s0).contains(q) && q != k {
                            let i = pair_keys(s0).index_of(q);
                            assert(pair_keys(s0)[i] == q);
                            assert(pair_keys(s0)[j as int] == k);
                            if i < j {
                                assert(pair_keys(s1)[i] == q);
                            } else {
                                assert(i != j);
                                assert(pair_keys(s1)[i - 1] == q);
                            }
                        }
                    }
                    assert forall|q: OutPointView| #[trigger] pairs_map(s1).dom().contains(q) implies pairs_map(s1)[q]
                        == pairs_map(s0)[q] by {
                        let i = pair_keys(s1).index_of(q);
                        lemma_pairs_map_at(s1, i);
                        if i < j {
                            lemma_pairs_map_at(s0, i);
                        } else {
                            lemma_pairs_map_at(s0, i + 1);
                        }
                    }
                    assert(pairs_map(s1) =~= pairs_map(s0).remove(k));
                }
            },
            None => {
                assert(pairs_map(s0) =~= pairs_map(s0).remove(k));
            },
        }
    }
}

proof fn false_is_absent(ks: Seq<OutPointView>, op: OutPointView)
    requires
        forall|j: int| 0 <= j < ks.len() ==> ks[j] != op,
    ensures
        !ks.contains(op),
{
}

/// The total value of the outputs of a list of pairs.
pub open spec fn seq_value_sum(s: Seq<(OutPoint, TXOutput)>) -> int
    decreases s.len(),
{
    if s.len() == 0 {
        0
    } else {
        seq_value_sum(s.drop_last()) + s.last().1.value
    }
}

/// The total value of the outputs of a finite map.
pub open spec fn map_value_sum(m: Map<OutPointView, OutputView>) -> int
    decreases m.dom().len(),
    when m.dom().finite()
{
    if m.dom().len() == 0 {
        0
    } else {
        let k = m.dom().choose();
        m[k].value + map_value_sum(m.remove(k))
    }
}

/// The total of a finite map may be taken apart at any key.
pub proof fn lemma_map_value_sum_remove(m: Map<OutPointView, OutputView>, k: OutPointView)
    requires
        m.dom().finite(),
        m.dom().contains(k),
    ensures
        map_value_sum(m) == m[k].value + map_value_sum(m.remove(k)),
    decreases m.dom().len(),
{
    let c = m.dom().choose();
    if c != k {
        lemma_map_value_sum_remove(m.remove(c), k);
        lemma_map_value_sum_remove(m.remove(k), c);
        assert(m.remove(c).remove(k) =~= m.remove(k).remove(c));
    }
}

/// Adding a fresh key adds its value to the total.
pub proof fn lemma_map_value_sum_insert(m: Map<OutPointView, OutputView>, k: OutPointView, v: OutputView)
    requires
        m.dom().finite(),
        !m.dom().contains(k),
    ensures
        map_value_sum(m.insert(k, v)) == map_value_sum(m) + v.value,
{
    lemma_map_value_sum_remove(m.insert(k, v), k);
    assert(m.insert(k, v).remove(k) =~= m);
}

/// A list of pairs with distinct outpoints stands for a finite map.
pub proof fn lemma_pairs_map_finite(s: Seq<(OutPoint, TXOutput)>)
    ensures
        pairs_map(s).dom().finite(),
        pairs_map(s).dom() == pair_keys(s).to_set(),
{
    assert(pairs_map(s).dom() =~= pair_keys(s).to_set());
    vstd::seq_lib::seq_to_set_is_finite(pair_keys(s));
}

/// Putting a pair with a fresh outpoint anywhere in the list adds it to the
/// map and keeps the outpoints distinct.
pub proof fn lemma_pairs_map_insert_at(s: Seq<(OutPoint, TXOutput)>, p: int, e: (OutPoint, TXOutput))
    requires
        pair_keys(s).no_duplicates(),
        !pair_keys(s).contains(e.0@),
        0 <= p <= s.len(),
    ensures
        pair_keys(s.insert(p, e)).no_duplicates(),
        pairs_map(s.insert(p, e)) == pairs_map(s).insert(e.0@, e.1@),
{
    let s1 = s.insert(p, e);
    let k0 = pair_keys(s);
    let k1 = pair_keys(s1);
    assert(k1 =~= k0.insert(p, e.0@));
    assert forall|a: int, b: int| 0 <= a < b < k1.len() implies k1[a] != k1[b] by {
        if a == p {
            if b > p {
                assert(k0[b - 1] == k1[b]);
            }
        } else if b == p {
            assert(k0[a] == k1[a]);
        } else {
            let a0 = if a < p { a } else { a - 1 };
            let b0 = if b < p { b } else { b - 1 };
            assert(k0[a0] == k1[a]);
            assert(k0[b0] == k1[b]);
        }
    }
    let target = pairs_map(s).insert(e.0@, e.1@);
    assert forall|q: OutPointView| #[trigger] pairs_map(s1).dom().contains(q) <==> target.dom().contains(q) by {
        if k1.contains(q) {
            let i = k1.index_of(q);
            if i != p {
                let i0 = if i < p { i } else { i - 1 };
                assert(k0[i0] == q);
            }
        }
        if k0.contains(q) {
            let i = k0.index_of(q);
            let i1 = if i < p { i } else { i + 1 };
            assert(k1[i1] == q);
        }
        if q == e.0@ {
            assert(k1[p] == q);
        }
    }
    assert forall|q: OutPointView| #[trigger] pairs_map(s1).dom().contains(q) implies pairs_map(s1)[q]
        == target[q] by {
        let i = k1.index_of(q);
        lemma_pairs_map_at(s1, i);
        if i != p {
            let i0 = if i < p { i } else { i - 1 };
            assert(s[i0] == s1[i]);
            lemma_pairs_map_at(s, i0);
        }
    }
    assert(pairs_map(s1) =~= target);
}

/// The total of a list of pairs with distinct outpoints is the total of the
/// map it stands for.
pub proof fn lemma_seq_value_sum_is_map_sum(s: Seq<(OutPoint, TXOutput)>)
    requires
        pair_keys(s).no_duplicates(),
    ensures
        seq_value_sum(s) == map_value_sum(pairs_map(s)),
    decreases s.len(),
{
    if s.len() == 0 {
        assert(pairs_map(s) =~= Map::<OutPointView, OutputView>::empty());
        assert(pairs_map(s).dom() =~= Set::<OutPointView>::empty());
    } else {
        let prev = s.drop_last();
        let e = s.last();
        assert(pair_keys(prev) =~= pair_keys(s).drop_last());
        assert(pair_keys(prev).no_duplicates());
        lemma_seq_value_sum_is_map_sum(prev);
        assert(!pair_keys(prev).contains(e.0@)) by {
            if pair_keys(prev).contains(e.0@) {
                let i = pair_keys(prev).index_of(e.0@);
                assert(pair_keys(s)[i] == pair_keys(s)[s.len() - 1]);
            }
        }
        assert(prev.insert(prev.len() as int, e) =~= s);
        lemma_pairs_map_insert_at(prev, prev.len() as int, e);
        lemma_pairs_map_finite(prev);
        assert(!pairs_map(prev).dom().contains(e.0@));
        lemma_map_value_sum_insert(pairs_map(prev), e.0@, e.1@);
    }
}

} // verus!
