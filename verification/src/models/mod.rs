pub mod block;
pub mod blockchain;
pub mod difficulty;
pub mod genesis;
pub mod history;
pub mod ledger;
pub mod mempool;
pub mod transaction;
pub mod utxo;
pub mod wallet;
pub mod wallet_store;
