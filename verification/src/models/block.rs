//! Blocks: a batch of transactions linked to the previous block by its hash
//! and sealed by proof of work (a hash that starts with `difficulty` zero
//! hex digits).

use vstd::prelude::*;
use vstd::string::StrSliceExecFns;
use crate::codec::{
    decimal, json_array, json_join, json_key, json_str, lemma_json_join_step, push_decimal,
    push_json_key, push_json_str,
};
use crate::crypto::{hex_encode, now_secs, sha256};
use crate::models::transaction::{
    Transaction, TxView, hex_digest, json_tx, push_json_tx,
};

verus! {

broadcast use vstd::seq::group_seq_axioms;

#[derive(Debug)]
pub struct Block {
    pub index: u64,
    pub timestamp: u64,
    pub proof_of_work: u64,
    pub previous_hash: String,
    pub hash: String,
    pub transactions: Vec<Transaction>,
    pub reward: u64,
    pub difficulty: usize,
}

pub struct BlockView {
    pub index: u64,
    pub timestamp: u64,
    pub proof_of_work: u64,
    pub previous_hash: Seq<char>,
    pub hash: Seq<char>,
    pub transactions: Seq<TxView>,
    pub reward: u64,
    pub difficulty: usize,
}

impl View for Block {
    type V = BlockView;

    open spec fn view(&self) -> BlockView {
        BlockView {
            index: self.index,
            timestamp: self.timestamp,
            proof_of_work: self.proof_of_work,
            previous_hash: self.previous_hash@,
            hash: self.hash@,
            transactions: self.transactions@.map_values(|t: Transaction| t@),
            reward: self.reward,
            difficulty: self.difficulty,
        }
    }
}

impl Clone for Block {
    fn clone(&self) -> (r: Self)
        ensures
            r@ == self@,
    {
        let mut transactions: Vec<Transaction> = Vec::new();
        let n = self.transactions.len();
        for i in 0..n
            invariant
                n == self.transactions@.len(),
                transactions@.len() == i,
                forall|j: int|
                    0 <= j < i ==> (#[trigger] transactions@[j])@ == self.transactions@[j]@,
        {
            transactions.push(self.transactions[i].clone());
        }
        let r = Block {
            index: self.index,
            timestamp: self.timestamp,
            proof_of_work: self.proof_of_work,
            previous_hash: self.previous_hash.clone(),
            hash: self.hash.clone(),
            transactions,
            reward: self.reward,
            difficulty: self.difficulty,
        };
        assert(r@.transactions =~= self@.transactions);
        r
    }
}

/// The difficulty that a stored block without one is read with.
pub open spec fn spec_default_difficulty() -> usize {
    2
}

pub fn default_difficulty() -> (r: usize)
    ensures
        r == spec_default_difficulty(),
{
    2
}

/// The JSON text that a block's hash covers: every field but the hash, in
/// declaration order.
#[verifier::opaque]
pub open spec fn json_block_hashable(b: BlockView) -> Seq<u8> {
    seq![123u8] + json_key("index"@) + decimal(b.index as nat) + seq![44u8] + json_key(
        "timestamp"@,
    ) + decimal(b.timestamp as nat) + seq![44u8] + json_key("proof_of_work"@) + decimal(
        b.proof_of_work as nat,
    ) + seq![44u8] + json_key("previous_hash"@) + json_str(b.previous_hash) + seq![44u8]
        + json_key("transactions"@) + json_array(b.transactions.map_values(|t: TxView| json_tx(t)))
        + seq![44u8] + json_key("reward"@) + decimal(b.reward as nat) + seq![44u8] + json_key(
        "difficulty"@,
    ) + decimal(b.difficulty as nat) + seq![125u8]
}

/// The hash of a block: lowercase hex of the SHA-256 digest of its JSON text.
pub open spec fn block_hash_of(b: BlockView) -> Seq<char> {
    hex_digest(json_block_hashable(b))
}

/// The stored hash is not part of what the hash covers.
pub proof fn lemma_hash_ignores_stored_hash(b: BlockView, h: Seq<char>)
    ensures
        block_hash_of(BlockView { hash: h, ..b }) == block_hash_of(b),
{
    reveal(json_block_hashable);
    assert(json_block_hashable(BlockView { hash: h, ..b }) =~= json_block_hashable(b));
}

/// Whether `hash` starts with `difficulty` zero digits.
pub open spec fn meets_target(hash: Seq<char>, difficulty: int) -> bool {
    &&& difficulty <= hash.len()
    &&& forall|i: int| 0 <= i < difficulty ==> hash[i] == '0'
}

/// `b` with the given nonce and difficulty.
pub open spec fn with_work(b: BlockView, proof_of_work: u64, difficulty: usize) -> BlockView {
    BlockView { proof_of_work, difficulty, ..b }
}

/// `b` with its hash replaced by the hash of its content.
pub open spec fn sealed(b: BlockView) -> BlockView {
    BlockView { hash: block_hash_of(b), ..b }
}

/// What mining `start` at `difficulty` yields, as `r`: the difficulty is set;
/// if the stored hash already meets it (or the nonce is already at
/// `u64::MAX`) nothing else changes; otherwise the
/// nonce is the first one above the start whose hash meets it (the search
/// stops at `u64::MAX`), and the hash is recomputed for it.
pub open spec fn mined_from(start: BlockView, difficulty: usize, r: BlockView) -> bool {
    let b0 = BlockView { difficulty, ..start };
    if meets_target(start.hash, difficulty as int) || start.proof_of_work == u64::MAX {
        r == b0
    } else {
        &&& r == sealed(with_work(b0, r.proof_of_work, difficulty))
        &&& r.proof_of_work > start.proof_of_work
        &&& meets_target(r.hash, difficulty as int) || r.proof_of_work == u64::MAX
        &&& forall|q: u64|
            start.proof_of_work < q < r.proof_of_work ==> !meets_target(
                #[trigger] block_hash_of(with_work(b0, q, difficulty)),
                difficulty as int,
            )
    }
}

/// Mining is deterministic: from the same block and difficulty there is only
/// one outcome.
pub proof fn law_mining_deterministic(start: BlockView, difficulty: usize, r1: BlockView, r2: BlockView)
    requires
        mined_from(start, difficulty, r1),
        mined_from(start, difficulty, r2),
    ensures
        r1 == r2,
{
    let b0 = BlockView { difficulty, ..start };
    if !meets_target(start.hash, difficulty as int) && start.proof_of_work != u64::MAX {
        let p1 = r1.proof_of_work;
        let p2 = r2.proof_of_work;
        if p1 < p2 {
            assert(!meets_target(block_hash_of(with_work(b0, p1, difficulty)), difficulty as int));
        } else if p2 < p1 {
            assert(!meets_target(block_hash_of(with_work(b0, p2, difficulty)), difficulty as int));
        }
    }
}

/// Whether the text of `s` starts with `difficulty` zero digits.
pub fn has_zero_prefix(s: &str, difficulty: usize) -> (r: bool)
    ensures
        r == meets_target(s@, difficulty as int),
{
    let n = s.unicode_len();
    if difficulty > n {
        return false;
    }
    for i in 0..difficulty
        invariant
            difficulty <= n,
            n == s@.len(),
            forall|j: int| 0 <= j < i ==> s@[j] == '0',
    {
        if s.get_char(i) != '0' {
            return false;
        }
    }
    true
}

fn push_json_transactions(buf: &mut Vec<u8>, txs: &Vec<Transaction>)
    ensures
        final(buf)@ == old(buf)@ + json_array(txs@.map_values(|t: Transaction| json_tx(t@))),
{
    let ghost start = buf@;
    let ghost items = txs@.map_values(|t: Transaction| json_tx(t@));
    buf.push(91u8);
    let n = txs.len();
    for i in 0..n
        invariant
            n == txs@.len(),
            items == txs@.map_values(|t: Transaction| json_tx(t@)),
            buf@ == start + seq![91u8] + json_join(items.take(i as int)),
    {
        proof {
            lemma_json_join_step(items, i as int);
        }
        if i > 0 {
            buf.push(44u8);
        }
        push_json_tx(buf, &txs[i]);
        assert(buf@ =~= start + seq![91u8] + json_join(items.take(i + 1)));
    }
    assert(items.take(n as int) =~= items);
    buf.push(93u8);
    assert(buf@ =~= start + json_array(items));
}

impl Block {
    /// A block with nonce 0 stamped with the given time, its hash computed.
    pub fn new_at(
        index: u64,
        previous_hash: String,
        transactions: Vec<Transaction>,
        reward: u64,
        difficulty: usize,
        timestamp: u64,
    ) -> (b: Block)
        ensures
            b@ == sealed(
                BlockView {
                    index,
                    timestamp,
                    proof_of_work: 0,
                    previous_hash: previous_hash@,
                    hash: b@.hash,
                    transactions: transactions@.map_values(|t: Transaction| t@),
                    reward,
                    difficulty,
                },
            ),
    {
        let mut block = Block {
            index,
            timestamp,
            proof_of_work: 0,
            previous_hash,
            hash: String::new(),
            transactions,
            reward,
            difficulty,
        };
        let h = block.calculate_hash();
        proof {
            lemma_hash_ignores_stored_hash(block@, h@);
        }
        block.hash = h;
        block
    }

    /// A block with nonce 0 stamped with the current time, its hash computed.
    pub fn new(
        index: u64,
        previous_hash: String,
        transactions: Vec<Transaction>,
        reward: u64,
        difficulty: usize,
    ) -> (b: Block)
        ensures
            b@ == sealed(
                BlockView {
                    index,
                    timestamp: b@.timestamp,
                    proof_of_work: 0,
                    previous_hash: previous_hash@,
                    hash: b@.hash,
                    transactions: transactions@.map_values(|t: Transaction| t@),
                    reward,
                    difficulty,
                },
            ),
    {
        let timestamp = now_secs();
        Block::new_at(index, previous_hash, transactions, reward, difficulty, timestamp)
    }

    #[verifier::rlimit(80)]
    pub fn calculate_hash(&self) -> (r: String)
        ensures
            r@ == block_hash_of(self@),
            r@.len() == 64,
    {
        reveal(json_block_hashable);
        let mut buf: Vec<u8> = Vec::new();
        buf.push(123u8);
        push_json_key(&mut buf, "index");
        push_decimal(&mut buf, self.index);
        buf.push(44u8);
        push_json_key(&mut buf, "timestamp");
        push_decimal(&mut buf, self.timestamp);
        buf.push(44u8);
        push_json_key(&mut buf, "proof_of_work");
        push_decimal(&mut buf, self.proof_of_work);
        buf.push(44u8);
        push_json_key(&mut buf, "previous_hash");
        push_json_str(&mut buf, self.previous_hash.as_str());
        buf.push(44u8);
        push_json_key(&mut buf, "transactions");
        push_json_transactions(&mut buf, &self.transactions);
        buf.push(44u8);
        push_json_key(&mut buf, "reward");
        push_decimal(&mut buf, self.reward);
        buf.push(44u8);
        push_json_key(&mut buf, "difficulty");
        push_decimal(&mut buf, self.difficulty as u64);
        buf.push(125u8);
        assert(self@.transactions.map_values(|t: TxView| json_tx(t)) =~= self.transactions@.map_values(
            |t: Transaction| json_tx(t@),
        ));
        assert(buf@ =~= json_block_hashable(self@));
        let digest = sha256(buf.as_slice());
        proof {
            crate::codec::lemma_hex_lower_len(digest@);
        }
        hex_encode(digest.as_slice())
    }

    /// Searches nonces upward until the hash starts with `difficulty` zeros.
    pub fn mine(&mut self, difficulty: usize)
        ensures
            mined_from(old(self)@, difficulty, final(self)@),
    {
        let ghost start = self@;
        let ghost b0 = BlockView { difficulty, ..start };
        self.difficulty = difficulty;
        assert(self@ =~= b0);
        if has_zero_prefix(self.hash.as_str(), difficulty) || self.proof_of_work == u64::MAX {
            return;
        }
        self.proof_of_work = self.proof_of_work + 1;
        let h = self.calculate_hash();
        proof {
            let w = with_work(b0, self.proof_of_work, difficulty);
            lemma_hash_ignores_stored_hash(w, self@.hash);
            assert(self@ == (BlockView { hash: self@.hash, ..w }));
        }
        self.hash = h;
        while !has_zero_prefix(self.hash.as_str(), difficulty) && self.proof_of_work < u64::MAX
            invariant
                b0 == (BlockView { difficulty, ..start }),
                !meets_target(start.hash, difficulty as int),
                start.proof_of_work < u64::MAX,
                self@ == sealed(with_work(b0, self@.proof_of_work, difficulty)),
                self@.proof_of_work > start.proof_of_work,
                forall|q: u64|
                    start.proof_of_work < q < self@.proof_of_work ==> !meets_target(
                        #[trigger] block_hash_of(with_work(b0, q, difficulty)),
                        difficulty as int,
                    ),
            decreases u64::MAX - self.proof_of_work,
        {
            self.proof_of_work = self.proof_of_work + 1;
            let h = self.calculate_hash();
            proof {
                let w = with_work(b0, self.proof_of_work, difficulty);
                lemma_hash_ignores_stored_hash(w, self@.hash);
                assert(self@ == (BlockView { hash: self@.hash, ..w }));
            }
            self.hash = h;
        }
    }
}

} // verus!
