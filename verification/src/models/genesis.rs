//! The genesis block: fixed content, so that every node mines the same one.

use vstd::prelude::*;
use crate::models::block::{Block, BlockView, mined_from, sealed};
use crate::models::transaction::{
    Transaction, TxView, coinbase_view, genesis_coinbase_id,
};

verus! {

pub const GENESIS_PUB_KEY_HASH: [u8; 32] = [
    0x4d, 0x69, 0x73, 0x65, 0x73, 0x41, 0x75, 0x73, 0x74, 0x72, 0x6f, 0x46, 0x6f, 0x75, 0x6e,
    0x64, 0x69, 0x6e, 0x67, 0x42, 0x6c, 0x6f, 0x63, 0x6b, 0x30, 0x30, 0x30, 0x30, 0x30, 0x30,
    0x30, 0x31,
];

pub const GENESIS_REWARD: u64 = 50;

pub const GENESIS_DIFFICULTY: usize = 2;

pub const GENESIS_TIMESTAMP: u64 = 1741564800;

/// The genesis coinbase.
pub open spec fn genesis_coinbase() -> TxView {
    coinbase_view(
        genesis_coinbase_id(GENESIS_PUB_KEY_HASH@, GENESIS_REWARD),
        GENESIS_PUB_KEY_HASH@,
        GENESIS_REWARD,
    )
}

/// The genesis block before mining: height 0, fixed time, no parent, the
/// genesis coinbase alone, nonce 0 and an empty hash.
pub open spec fn genesis_template() -> BlockView {
    BlockView {
        index: 0,
        timestamp: GENESIS_TIMESTAMP,
        proof_of_work: 0,
        previous_hash: Seq::empty(),
        hash: Seq::empty(),
        transactions: seq![genesis_coinbase()],
        reward: GENESIS_REWARD,
        difficulty: GENESIS_DIFFICULTY,
    }
}

/// A genesis block: the template mined at the genesis difficulty.
pub open spec fn is_genesis(b: BlockView) -> bool {
    mined_from(genesis_template(), GENESIS_DIFFICULTY, b)
}

/// There is exactly one genesis block: every node builds the same.
pub proof fn law_genesis_unique(b1: BlockView, b2: BlockView)
    requires
        is_genesis(b1),
        is_genesis(b2),
    ensures
        b1 == b2,
{
    crate::models::block::law_mining_deterministic(genesis_template(), GENESIS_DIFFICULTY, b1, b2);
}

pub fn build() -> (b: Block)
    ensures
        is_genesis(b@),
{
    let key_hash: [u8; 32] = GENESIS_PUB_KEY_HASH;
    let coinbase = Transaction::coinbase_genesis(&key_hash, GENESIS_REWARD);
    let mut transactions: Vec<Transaction> = Vec::new();
    transactions.push(coinbase);
    let mut block = Block {
        index: 0,
        timestamp: GENESIS_TIMESTAMP,
        proof_of_work: 0,
        previous_hash: String::new(),
        hash: String::new(),
        transactions,
        reward: GENESIS_REWARD,
        difficulty: GENESIS_DIFFICULTY,
    };
    assert(block@.transactions =~= seq![genesis_coinbase()]);
    assert(block@ == genesis_template());
    block.mine(GENESIS_DIFFICULTY);
    block
}

} // verus!
