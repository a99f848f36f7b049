//! What the explorer's HTTP interface answers with. The app gives each a
//! JSON form.

use vstd::prelude::*;

verus! {

#[derive(Debug)]
pub struct ApiBlock {
    pub index: u64,
    pub hash: String,
    pub previous_hash: String,
    pub timestamp: u64,
    pub nonce: u64,
    pub difficulty: usize,
    pub reward: u64,
    pub tx_count: usize,
    pub transactions: Vec<ApiTx>,
    pub miner: String,
}

#[derive(Debug)]
pub struct ApiTx {
    pub id: String,
    pub is_coinbase: bool,
    pub inputs: Vec<ApiInput>,
    pub outputs: Vec<ApiOutput>,
    pub fee: u64,
}

#[derive(Debug)]
pub struct ApiInput {
    pub tx_id: String,
    pub out_index: u32,
}

#[derive(Debug)]
pub struct ApiOutput {
    pub value: u64,
    pub address: String,
}

#[derive(Debug)]
pub struct ApiChainInfo {
    pub height: u64,
    pub difficulty: usize,
    pub total_supply: u64,
    pub pending_txs: usize,
    pub total_fees_pending: u64,
    pub is_valid: bool,
}

#[derive(Debug)]
pub struct ApiMempool {
    pub count: usize,
    pub total_fees: u64,
    pub transactions: Vec<ApiTx>,
}

#[derive(Debug)]
pub struct ApiAddressInfo {
    pub address: String,
    pub balance: u64,
    pub tx_count: usize,
    pub transactions: Vec<ApiAddressTx>,
}

#[derive(Debug)]
pub struct ApiAddressTx {
    pub tx_id: String,
    pub block: u64,
    pub confirmations: u64,
    pub net: i64,
    pub fee: u64,
    pub direction: String,
}

#[derive(Debug)]
pub struct ApiError {
    pub error: String,
}

} // verus!
