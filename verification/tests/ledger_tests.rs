use austro::models::block::Block;
use austro::models::blockchain::Blockchain;
use austro::models::genesis::{self, GENESIS_DIFFICULTY, GENESIS_REWARD};
use austro::models::history::{build_history, history_totals, TxDirection};
use austro::models::mempool::Mempool;
use austro::models::transaction::{OutPoint, TXInput, TXOutput, Transaction};
use austro::models::wallet::Wallet;

fn fresh_chain() -> Blockchain {
    Blockchain::new(Vec::new())
}

fn mine_block(chain: &mut Blockchain, wallet: &Wallet) {
    chain.mine_pending_transactions(wallet);
}

fn funded_chain() -> (Blockchain, Wallet) {
    let mut chain = fresh_chain();
    let miner = Wallet::new();
    mine_block(&mut chain, &miner);
    (chain, miner)
}

// ── transactions ────────────────────────────────────────────────────────────

#[test]
fn coinbase_is_detected() {
    let w = Wallet::new();
    let tx = Transaction::coinbase(&w.pub_key_hash(), 50);
    assert!(tx.is_coinbase());
}

#[test]
fn genesis_coinbase_is_deterministic() {
    let tx1 = Transaction::coinbase_genesis(&[0u8; 32], 50);
    let tx2 = Transaction::coinbase_genesis(&[0u8; 32], 50);
    assert_eq!(tx1.id, tx2.id);
}

#[test]
fn regular_coinbase_ids_differ_over_time() {
    let w = Wallet::new();
    let tx1 = Transaction::coinbase(&w.pub_key_hash(), 50);
    let start = std::time::Instant::now();
    while start.elapsed() < std::time::Duration::from_millis(2) {}
    let tx2 = Transaction::coinbase(&w.pub_key_hash(), 50);
    assert_ne!(tx1.id, tx2.id);
}

#[test]
fn coinbase_verify_basic() {
    let w = Wallet::new();
    let tx = Transaction::coinbase(&w.pub_key_hash(), 50);
    assert!(tx.verify_basic());
}

#[test]
fn coinbase_signatures_always_valid() {
    let w = Wallet::new();
    let tx = Transaction::coinbase(&w.pub_key_hash(), 50);
    assert!(tx.verify_signatures());
}

#[test]
fn signing_hash_excludes_signatures() {
    let (mut chain, miner) = funded_chain();
    let receiver = Wallet::new();
    let (tx, _) = chain
        .create_transaction(&miner, &receiver.pub_key_hash(), 10, 1)
        .expect("create tx");
    let hash_a = tx.signing_hash();
    let hash_b = tx.signing_hash();
    assert_eq!(hash_a, hash_b);
}

#[test]
fn signed_transaction_verifies() {
    let (mut chain, miner) = funded_chain();
    let receiver = Wallet::new();
    let (tx, _) = chain
        .create_transaction(&miner, &receiver.pub_key_hash(), 10, 1)
        .expect("create tx");
    assert!(tx.verify_signatures());
}

#[test]
fn tampered_signature_fails_verification() {
    let (mut chain, miner) = funded_chain();
    let receiver = Wallet::new();
    let (mut tx, _) = chain
        .create_transaction(&miner, &receiver.pub_key_hash(), 10, 1)
        .expect("create tx");
    tx.vin[0].signature[0] ^= 0xff;
    assert!(!tx.verify_signatures());
}

// ── blocks ──────────────────────────────────────────────────────────────────

#[test]
fn mine_produces_valid_hash() {
    let w = Wallet::new();
    let coinbase = Transaction::coinbase(&w.pub_key_hash(), 50);
    let mut block = Block::new(1, "prev".to_string(), vec![coinbase], 50, 1);
    block.mine(1);
    assert!(block.hash.starts_with('0'));
    assert_eq!(block.hash, block.calculate_hash());
}

#[test]
fn calculate_hash_is_deterministic() {
    let w = Wallet::new();
    let coinbase = Transaction::coinbase(&w.pub_key_hash(), 50);
    let block = Block::new(1, "prev".to_string(), vec![coinbase], 50, 1);
    assert_eq!(block.calculate_hash(), block.calculate_hash());
}

#[test]
fn mutated_block_hash_changes() {
    let w = Wallet::new();
    let coinbase = Transaction::coinbase(&w.pub_key_hash(), 50);
    let mut block = Block::new(1, "prev".to_string(), vec![coinbase], 50, 1);
    let before = block.calculate_hash();
    block.proof_of_work += 1;
    assert_ne!(block.calculate_hash(), before);
}

// ── mempool ─────────────────────────────────────────────────────────────────

fn unique_coinbase(n: u64) -> Transaction {
    let w = Wallet::new();
    let mut tx = Transaction::coinbase(&w.pub_key_hash(), 10 + n);
    tx.vin[0].previous_output.out_index = n as u32;
    tx
}

#[test]
fn add_and_contains() {
    let mut pool = Mempool::new();
    let tx = unique_coinbase(0);
    let id = tx.id.clone();
    pool.add(tx, 5).expect("add ok");
    assert!(pool.contains(&id));
}

#[test]
fn duplicate_rejected() {
    let mut pool = Mempool::new();
    let tx = unique_coinbase(1);
    pool.add(tx.clone(), 5).expect("first add ok");
    assert!(pool.add(tx, 5).is_err());
}

#[test]
fn sorted_by_fee_descending() {
    let mut pool = Mempool::new();
    pool.add(unique_coinbase(10), 1).unwrap();
    pool.add(unique_coinbase(20), 9).unwrap();
    pool.add(unique_coinbase(30), 5).unwrap();
    let fees: Vec<u64> = pool.entries.iter().map(|e| e.fee).collect();
    assert!(fees.windows(2).all(|w| w[0] >= w[1]));
    assert_eq!(pool.entries[0].fee, 9);
}

#[test]
fn collect_for_block_respects_limit() {
    let mut pool = Mempool::new();
    for i in 0..10u64 {
        pool.add(unique_coinbase(i * 100), i).unwrap();
    }
    assert_eq!(pool.collect_for_block(3).len(), 3);
}

#[test]
fn purge_confirmed_removes_txs() {
    let mut pool = Mempool::new();
    let tx = unique_coinbase(99);
    let id = tx.id.clone();
    pool.add(tx, 5).unwrap();
    pool.purge_confirmed(&[id.clone()]);
    assert!(!pool.contains(&id));
    assert_eq!(pool.size(), 0);
}

#[test]
fn total_fees_sums_correctly() {
    let mut pool = Mempool::new();
    pool.add(unique_coinbase(200), 3).unwrap();
    pool.add(unique_coinbase(201), 7).unwrap();
    assert_eq!(pool.total_fees(), 10);
}

#[test]
fn double_spend_via_reserved_inputs_rejected() {
    let w = Wallet::new();
    let op = OutPoint { tx_id: "shared_utxo".to_string(), out_index: 0 };

    let make_tx = |id: &str| {
        let mut tx = Transaction::new_unsigned(
            vec![(op.clone(), w.public_key.clone())],
            vec![TXOutput { value: 5, pub_key_hash: w.pub_key_hash() }],
        );
        tx.id = id.to_string();
        tx
    };

    let mut pool = Mempool::new();
    pool.add(make_tx("spend1"), 1).expect("first spend ok");
    assert!(pool.add(make_tx("spend2"), 1).is_err());
}

#[test]
fn mempool_errors_name_the_reason() {
    let w = Wallet::new();
    let op = OutPoint { tx_id: "shared".to_string(), out_index: 3 };
    let make_tx = |id: &str| {
        let mut tx = Transaction::new_unsigned(
            vec![(op.clone(), w.public_key.clone())],
            vec![TXOutput { value: 5, pub_key_hash: w.pub_key_hash() }],
        );
        tx.id = id.to_string();
        tx
    };
    let mut pool = Mempool::new();
    pool.add(make_tx("a"), 1).unwrap();
    assert_eq!(pool.add(make_tx("a"), 1), Err("Duplicate TX".to_string()));
    assert_eq!(pool.add(make_tx("b"), 1), Err("Double-spend detected".to_string()));
    pool.purge_confirmed(&["a".to_string()]);
    assert!(pool.reserved_inputs.is_empty());
    assert!(pool.add(make_tx("b"), 1).is_ok());
}

#[test]
fn equal_fees_keep_arrival_order() {
    let mut pool = Mempool::new();
    let a = unique_coinbase(1);
    let b = unique_coinbase(2);
    let c = unique_coinbase(3);
    let (ia, ib, ic) = (a.id.clone(), b.id.clone(), c.id.clone());
    pool.add(a, 4).unwrap();
    pool.add(b, 4).unwrap();
    pool.add(c, 7).unwrap();
    let ids: Vec<String> = pool.pending_txs().iter().map(|t| t.id.clone()).collect();
    assert_eq!(ids, vec![ic, ia, ib]);
}

// ── genesis ─────────────────────────────────────────────────────────────────

#[test]
fn genesis_hash_satisfies_difficulty() {
    let g = genesis::build();
    let target = "0".repeat(GENESIS_DIFFICULTY);
    assert!(g.hash.starts_with(&target));
}

#[test]
fn genesis_is_deterministic() {
    let g1 = genesis::build();
    let g2 = genesis::build();
    assert_eq!(g1.hash, g2.hash);
}

#[test]
fn genesis_reward_matches_constant() {
    let g = genesis::build();
    assert_eq!(g.reward, GENESIS_REWARD);
}

#[test]
fn genesis_has_single_coinbase_tx() {
    let g = genesis::build();
    assert_eq!(g.transactions.len(), 1);
    assert!(g.transactions[0].is_coinbase());
}

#[test]
fn genesis_previous_hash_is_empty() {
    let g = genesis::build();
    assert!(g.previous_hash.is_empty());
}

// ── chain ───────────────────────────────────────────────────────────────────

#[test]
fn new_chain_starts_at_height_zero() {
    let chain = fresh_chain();
    assert_eq!(chain.height(), 0);
}

#[test]
fn new_chain_is_valid() {
    let chain = fresh_chain();
    assert!(chain.is_valid());
}

#[test]
fn genesis_block_is_deterministic_across_instances() {
    let c1 = fresh_chain();
    let c2 = fresh_chain();
    assert_eq!(c1.chain[0].hash, c2.chain[0].hash);
}

#[test]
fn tip_hash_matches_last_block() {
    let chain = fresh_chain();
    assert_eq!(chain.tip_hash(), chain.chain.last().unwrap().hash);
}

#[test]
fn utxo_set_includes_genesis_output() {
    let chain = fresh_chain();
    assert_eq!(chain.build_utxo_set().len(), 1);
}

#[test]
fn mine_increases_height() {
    let mut chain = fresh_chain();
    let w = Wallet::new();
    mine_block(&mut chain, &w);
    assert_eq!(chain.height(), 1);
}

#[test]
fn chain_remains_valid_after_mining() {
    let mut chain = fresh_chain();
    let w = Wallet::new();
    for _ in 0..3 {
        mine_block(&mut chain, &w);
    }
    assert!(chain.is_valid());
}

#[test]
fn miner_receives_coinbase_reward() {
    let mut chain = fresh_chain();
    let w = Wallet::new();
    mine_block(&mut chain, &w);
    assert_eq!(chain.get_balance(&w), 50);
}

#[test]
fn mined_block_satisfies_pow() {
    let mut chain = fresh_chain();
    let w = Wallet::new();
    mine_block(&mut chain, &w);
    let block = chain.chain.last().unwrap();
    let target = "0".repeat(block.difficulty);
    assert!(block.hash.starts_with(&target));
}

#[test]
fn tampered_block_invalidates_chain() {
    let mut chain = fresh_chain();
    let w = Wallet::new();
    mine_block(&mut chain, &w);
    chain.chain[1].proof_of_work += 1;
    assert!(!chain.is_valid());
}

#[test]
fn resumed_chain_keeps_blocks_and_difficulty() {
    let mut chain = fresh_chain();
    let w = Wallet::new();
    for _ in 0..3 {
        mine_block(&mut chain, &w);
    }
    let tip = chain.tip_hash();
    let resumed = Blockchain::new(chain.chain.clone());
    assert_eq!(resumed.height(), 3);
    assert_eq!(resumed.tip_hash(), tip);
    assert_eq!(resumed.difficulty, chain.chain[3].difficulty);
    assert!(resumed.is_valid());
}

// ── spending ────────────────────────────────────────────────────────────────

#[test]
fn create_transaction_adds_to_mempool() {
    let (mut chain, miner) = funded_chain();
    let receiver = Wallet::new();
    chain.create_transaction(&miner, &receiver.pub_key_hash(), 10, 1).expect("create tx");
    assert_eq!(chain.mempool.size(), 1);
}

#[test]
fn create_transaction_returns_correct_fee() {
    let (mut chain, miner) = funded_chain();
    let receiver = Wallet::new();
    let (_, fee) = chain
        .create_transaction(&miner, &receiver.pub_key_hash(), 10, 3)
        .expect("create tx");
    assert_eq!(fee, 3);
}

#[test]
fn insufficient_funds_returns_error() {
    let (mut chain, miner) = funded_chain();
    let receiver = Wallet::new();
    assert!(chain.create_transaction(&miner, &receiver.pub_key_hash(), 9999, 1).is_err());
}

#[test]
fn insufficient_funds_message_states_the_amounts() {
    let (mut chain, miner) = funded_chain();
    let receiver = Wallet::new();
    let e = chain.create_transaction(&miner, &receiver.pub_key_hash(), 9999, 1).unwrap_err();
    assert_eq!(e, "Insufficient funds: have=50 need=10000 (amount=9999 + fee=1)");
}

#[test]
fn overflowing_amount_is_refused() {
    let (mut chain, miner) = funded_chain();
    let receiver = Wallet::new();
    let e = chain.create_transaction(&miner, &receiver.pub_key_hash(), u64::MAX, 1).unwrap_err();
    assert_eq!(e, "Overflow");
    assert_eq!(chain.mempool.size(), 0);
}

#[test]
fn zero_amount_fails_validation() {
    let (mut chain, miner) = funded_chain();
    let receiver = Wallet::new();
    let e = chain.create_transaction(&miner, &receiver.pub_key_hash(), 0, 1).unwrap_err();
    assert_eq!(e, "Transaction failed validation");
}

#[test]
fn exact_amount_leaves_no_change() {
    let (mut chain, miner) = funded_chain();
    let receiver = Wallet::new();
    let (tx, fee) = chain.create_transaction(&miner, &receiver.pub_key_hash(), 45, 5).unwrap();
    assert_eq!(fee, 5);
    assert_eq!(tx.vout.len(), 1);
    assert_eq!(tx.vout[0].value, 45);
    assert!(chain.validate_transaction(&tx));
}

#[test]
fn change_output_goes_back_to_sender() {
    let (mut chain, miner) = funded_chain();
    let receiver = Wallet::new();
    let (tx, _) = chain.create_transaction(&miner, &receiver.pub_key_hash(), 10, 1).unwrap();
    assert_eq!(tx.vout.len(), 2);
    assert_eq!(tx.vout[0].value, 10);
    assert_eq!(tx.vout[0].pub_key_hash, receiver.pub_key_hash());
    assert_eq!(tx.vout[1].value, 39);
    assert_eq!(tx.vout[1].pub_key_hash, miner.pub_key_hash());
    assert_eq!(chain.calculate_fee(&tx), Some(1));
}

#[test]
fn transaction_cleared_from_mempool_after_mining() {
    let (mut chain, miner) = funded_chain();
    let receiver = Wallet::new();
    chain.create_transaction(&miner, &receiver.pub_key_hash(), 10, 1).expect("create tx");
    mine_block(&mut chain, &miner);
    assert_eq!(chain.mempool.size(), 0);
}

#[test]
fn receiver_balance_updated_after_confirmation() {
    let (mut chain, miner) = funded_chain();
    let receiver = Wallet::new();
    chain.create_transaction(&miner, &receiver.pub_key_hash(), 10, 1).expect("create tx");
    mine_block(&mut chain, &miner);
    assert_eq!(chain.get_balance(&receiver), 10);
}

#[test]
fn sender_balance_reduced_after_confirmation() {
    let (mut chain, miner) = funded_chain();
    let receiver = Wallet::new();
    let before = chain.get_balance(&miner);
    chain.create_transaction(&miner, &receiver.pub_key_hash(), 10, 1).expect("create tx");
    let miner2 = Wallet::new();
    mine_block(&mut chain, &miner2);
    assert!(chain.get_balance(&miner) < before);
}

#[test]
fn miner_collects_transaction_fee() {
    let (mut chain, miner) = funded_chain();
    let receiver = Wallet::new();
    let miner2 = Wallet::new();
    let fee = 5u64;
    let amount = 10u64;

    chain.create_transaction(&miner, &receiver.pub_key_hash(), amount, fee).expect("create tx");
    mine_block(&mut chain, &miner2);

    assert_eq!(chain.get_balance(&receiver), amount, "receiver must get exact amount");
    assert_eq!(chain.get_balance(&miner2), 50 + fee, "miner2 must collect base reward plus fee");
    assert!(chain.is_valid());
}

#[test]
fn change_is_returned_to_sender() {
    let (mut chain, miner) = funded_chain();
    let receiver = Wallet::new();
    chain.create_transaction(&miner, &receiver.pub_key_hash(), 10, 1).expect("create tx");
    mine_block(&mut chain, &miner);
    let change: u64 = chain.get_wallet_utxos(&miner).iter().map(|(_, o)| o.value).sum();
    assert!(change > 0);
}

#[test]
fn double_spend_same_utxo_rejected() {
    let (mut chain, miner) = funded_chain();
    let r1 = Wallet::new();
    let r2 = Wallet::new();
    chain.create_transaction(&miner, &r1.pub_key_hash(), 10, 1).expect("first tx ok");
    assert!(chain.create_transaction(&miner, &r2.pub_key_hash(), 10, 1).is_err());
}

#[test]
fn invalid_transaction_rejected_by_validate() {
    let chain = fresh_chain();
    let sender = Wallet::new();
    let receiver = Wallet::new();
    let fake = OutPoint { tx_id: "nonexistent".to_string(), out_index: 0 };
    let mut tx = Transaction::new_unsigned(
        vec![(fake, sender.public_key.clone())],
        vec![TXOutput { value: 10, pub_key_hash: receiver.pub_key_hash() }],
    );
    tx.sign_inputs(&sender);
    assert!(!chain.validate_transaction(&tx));
    assert_eq!(chain.calculate_fee(&tx), None);
}

#[test]
fn spending_someone_elses_output_is_invalid() {
    let (chain, miner) = funded_chain();
    let thief = Wallet::new();
    let (op, _) = chain.get_wallet_utxos(&miner).into_iter().next().unwrap();
    let mut tx = Transaction::new_unsigned(
        vec![(op, thief.public_key.clone())],
        vec![TXOutput { value: 10, pub_key_hash: thief.pub_key_hash() }],
    );
    tx.sign_inputs(&thief);
    assert!(tx.verify_signatures());
    assert!(!chain.validate_transaction(&tx));
}

#[test]
fn multi_hop_transfer() {
    let (mut chain, miner) = funded_chain();
    let alice = Wallet::new();
    let bob = Wallet::new();

    chain.create_transaction(&miner, &alice.pub_key_hash(), 20, 1).unwrap();
    mine_block(&mut chain, &miner);
    assert_eq!(chain.get_balance(&alice), 20);

    chain.create_transaction(&alice, &bob.pub_key_hash(), 10, 1).unwrap();
    mine_block(&mut chain, &miner);
    assert_eq!(chain.get_balance(&bob), 10);
    assert_eq!(chain.get_balance(&alice), 9);
}

#[test]
fn coin_selection_takes_smallest_outputs_first() {
    let mut chain = fresh_chain();
    let miner = Wallet::new();
    mine_block(&mut chain, &miner);
    let spender = Wallet::new();
    chain.create_transaction(&miner, &spender.pub_key_hash(), 30, 1).unwrap();
    mine_block(&mut chain, &miner);
    chain.create_transaction(&miner, &spender.pub_key_hash(), 5, 1).unwrap();
    mine_block(&mut chain, &miner);
    // The spender holds outputs of 30 and 5; paying 4 + 1 needs only the 5.
    let (tx, _) = chain.create_transaction(&spender, &miner.pub_key_hash(), 4, 1).unwrap();
    assert_eq!(tx.vin.len(), 1);
    assert_eq!(tx.vout.len(), 1);
}

// ── sync ────────────────────────────────────────────────────────────────────

#[test]
fn longer_valid_chain_replaces_shorter() {
    let w = Wallet::new();
    let mut short_chain = fresh_chain();
    mine_block(&mut short_chain, &w);

    let mut long_chain = fresh_chain();
    for _ in 0..3 {
        mine_block(&mut long_chain, &w);
    }

    let candidate = long_chain.chain.clone();
    assert!(short_chain.try_replace_chain(candidate));
    assert_eq!(short_chain.height(), 3);
    assert!(short_chain.is_valid());
}

#[test]
fn shorter_chain_does_not_replace_longer() {
    let w = Wallet::new();
    let mut long_chain = fresh_chain();
    for _ in 0..3 {
        mine_block(&mut long_chain, &w);
    }

    let mut short_chain = fresh_chain();
    mine_block(&mut short_chain, &w);

    let candidate = short_chain.chain.clone();
    let tip_before = long_chain.tip_hash();
    assert!(!long_chain.try_replace_chain(candidate));
    assert_eq!(long_chain.tip_hash(), tip_before);
}

#[test]
fn chain_with_wrong_genesis_rejected() {
    let w = Wallet::new();
    let mut chain_a = fresh_chain();
    for _ in 0..3 {
        mine_block(&mut chain_a, &w);
    }

    let mut chain_b = fresh_chain();
    for _ in 0..5 {
        mine_block(&mut chain_b, &w);
    }
    chain_b.chain[0].proof_of_work += 999;

    assert!(!chain_a.try_replace_chain(chain_b.chain.clone()));
}

#[test]
fn append_block_with_wrong_height_rejected() {
    let mut chain = fresh_chain();
    let w = Wallet::new();
    let coinbase = Transaction::coinbase(&w.pub_key_hash(), 50);
    let mut block = Block::new(99, chain.tip_hash(), vec![coinbase], 50, chain.difficulty);
    block.mine(chain.difficulty);
    assert!(!chain.try_append_block(block));
}

#[test]
fn append_block_with_wrong_prev_hash_rejected() {
    let mut chain = fresh_chain();
    let w = Wallet::new();
    let coinbase = Transaction::coinbase(&w.pub_key_hash(), 50);
    let mut block = Block::new(1, "wrong_prev".to_string(), vec![coinbase], 50, chain.difficulty);
    block.mine(chain.difficulty);
    assert!(!chain.try_append_block(block));
}

#[test]
fn well_formed_block_is_appended() {
    let mut chain = fresh_chain();
    let w = Wallet::new();
    let coinbase = Transaction::coinbase(&w.pub_key_hash(), 50);
    let mut block = Block::new(1, chain.tip_hash(), vec![coinbase], 50, chain.difficulty);
    block.mine(chain.difficulty);
    assert!(chain.try_append_block(block.clone()));
    assert_eq!(chain.height(), 1);
    assert_eq!(chain.tip_hash(), block.hash);
    assert!(chain.is_valid());
    assert_eq!(chain.get_balance(&w), 50);
}

#[test]
fn equal_length_chain_does_not_replace() {
    let w = Wallet::new();
    let mut chain_a = fresh_chain();
    mine_block(&mut chain_a, &w);

    let mut chain_b = fresh_chain();
    mine_block(&mut chain_b, &w);

    let tip_before = chain_a.tip_hash();
    assert!(!chain_a.try_replace_chain(chain_b.chain.clone()));
    assert_eq!(chain_a.tip_hash(), tip_before);
}

#[test]
fn node_syncs_via_chain_replacement() {
    let w = Wallet::new();
    let mut node_a = fresh_chain();
    for _ in 0..5 {
        mine_block(&mut node_a, &w);
    }

    let mut node_b = fresh_chain();
    mine_block(&mut node_b, &w);

    let candidate = node_a.chain.clone();
    assert!(node_b.try_replace_chain(candidate));
    assert_eq!(node_b.height(), 5);
    assert!(node_b.is_valid());
    assert_eq!(node_b.tip_hash(), node_a.tip_hash());
}

// ── rewards and difficulty ──────────────────────────────────────────────────

#[test]
fn mining_reward_halves_at_210_blocks() {
    let mut chain = fresh_chain();
    let w = Wallet::new();
    assert_eq!(chain.mining_reward, 50);
    for _ in 0..210 {
        mine_block(&mut chain, &w);
    }
    assert_eq!(chain.mining_reward, 25);
}

#[test]
fn reward_does_not_halve_before_210() {
    let mut chain = fresh_chain();
    let w = Wallet::new();
    for _ in 0..208 {
        mine_block(&mut chain, &w);
    }
    assert_eq!(chain.mining_reward, 50, "reward must still be 50 before block 210");
}

#[test]
fn total_supply_tracks_coinbase_emissions() {
    let mut chain = fresh_chain();
    let w = Wallet::new();
    for _ in 0..5 {
        mine_block(&mut chain, &w);
    }
    let supply: u64 = chain
        .chain
        .iter()
        .flat_map(|b| b.transactions.iter().filter(|tx: &&Transaction| tx.is_coinbase()))
        .flat_map(|tx| tx.vout.iter())
        .map(|o| o.value)
        .sum();
    assert_eq!(supply, 50 * 6);
}

#[test]
fn difficulty_info_returns_sensible_values() {
    let mut chain = fresh_chain();
    let w = Wallet::new();
    for _ in 0..3 {
        mine_block(&mut chain, &w);
    }
    let info = chain.difficulty_info();
    assert!(info.current >= 1);
    assert_eq!(info.height, 3);
    assert!(info.blocks_until_retarget > 0);
    assert!(info.target_block_time_secs > 0);
}

#[test]
fn difficulty_info_on_fresh_chain() {
    let chain = fresh_chain();
    let info = chain.difficulty_info();
    assert_eq!(info.current, GENESIS_DIFFICULTY);
    assert_eq!(info.height, 0);
    assert_eq!(info.blocks_until_retarget, 2015);
    assert_eq!(info.avg_block_time_secs, 0);
    assert_eq!(info.target_block_time_secs, 600);
}

// ── history ─────────────────────────────────────────────────────────────────

#[test]
fn empty_history_for_unknown_address() {
    let chain = fresh_chain();
    let stranger = Wallet::new();
    assert!(build_history(&chain.chain, &stranger.pub_key_hash(), chain.height()).is_empty());
}

#[test]
fn coinbase_shows_as_received() {
    let mut chain = fresh_chain();
    let miner = Wallet::new();
    mine_block(&mut chain, &miner);
    let records = build_history(&chain.chain, &miner.pub_key_hash(), chain.height());
    assert_eq!(records.len(), 1);
    assert_eq!(records[0].direction, TxDirection::Received);
    assert_eq!(records[0].net, 50);
}

#[test]
fn sent_tx_shows_as_sent() {
    let (mut chain, miner) = funded_chain();
    let receiver = Wallet::new();
    chain.create_transaction(&miner, &receiver.pub_key_hash(), 10, 1).unwrap();
    mine_block(&mut chain, &miner);
    let records = build_history(&chain.chain, &miner.pub_key_hash(), chain.height());
    let sent: Vec<_> = records.iter().filter(|r| r.direction == TxDirection::Sent).collect();
    assert!(!sent.is_empty());
    assert!(sent[0].net < 0);
}

#[test]
fn received_tx_shows_correct_amount() {
    let (mut chain, miner) = funded_chain();
    let receiver = Wallet::new();
    chain.create_transaction(&miner, &receiver.pub_key_hash(), 15, 1).unwrap();
    mine_block(&mut chain, &miner);
    let records = build_history(&chain.chain, &receiver.pub_key_hash(), chain.height());
    assert_eq!(records.len(), 1);
    assert_eq!(records[0].direction, TxDirection::Received);
    assert_eq!(records[0].net, 15);
}

#[test]
fn confirmations_increase_with_depth() {
    let mut chain = fresh_chain();
    let miner = Wallet::new();
    for _ in 0..3 {
        mine_block(&mut chain, &miner);
    }
    let records = build_history(&chain.chain, &miner.pub_key_hash(), chain.height());
    assert!(records.last().unwrap().confirmations >= 3);
}

#[test]
fn history_ordered_most_recent_first() {
    let mut chain = fresh_chain();
    let miner = Wallet::new();
    for _ in 0..3 {
        mine_block(&mut chain, &miner);
    }
    let records = build_history(&chain.chain, &miner.pub_key_hash(), chain.height());
    let heights: Vec<u64> = records.iter().map(|r| r.block_height).collect();
    assert!(heights.windows(2).all(|w| w[0] >= w[1]));
}

#[test]
fn fee_recorded_correctly_in_history() {
    let (mut chain, miner) = funded_chain();
    let receiver = Wallet::new();
    chain.create_transaction(&miner, &receiver.pub_key_hash(), 10, 4).unwrap();
    mine_block(&mut chain, &miner);
    let records = build_history(&chain.chain, &miner.pub_key_hash(), chain.height());
    let sent = records.iter().find(|r| r.direction == TxDirection::Sent).unwrap();
    assert_eq!(sent.fee, 4);
}

#[test]
fn payment_net_is_change_less_spent() {
    let (mut chain, miner) = funded_chain();
    let receiver = Wallet::new();
    let other = Wallet::new();
    chain.create_transaction(&miner, &receiver.pub_key_hash(), 10, 4).unwrap();
    mine_block(&mut chain, &other);
    let records = chain.get_history(&miner);
    assert_eq!(records.len(), 2);
    assert_eq!(records[0].direction, TxDirection::Sent);
    assert_eq!(records[0].net, 36 - 50);
    assert_eq!(records[0].confirmations, 1);
    assert_eq!(records[1].direction, TxDirection::Received);
    assert_eq!(records[1].confirmations, 2);
}

// ── end to end ──────────────────────────────────────────────────────────────

#[test]
fn full_payment_lifecycle() {
    let (mut chain, miner) = funded_chain();
    let alice = Wallet::new();
    let bob = Wallet::new();

    assert_eq!(chain.get_balance(&miner), 50);

    chain.create_transaction(&miner, &alice.pub_key_hash(), 20, 1).unwrap();
    mine_block(&mut chain, &miner);
    assert_eq!(chain.get_balance(&alice), 20);

    chain.create_transaction(&alice, &bob.pub_key_hash(), 8, 1).unwrap();
    mine_block(&mut chain, &miner);
    assert_eq!(chain.get_balance(&bob), 8);
    assert_eq!(chain.get_balance(&alice), 11);
    assert!(chain.is_valid());
}

#[test]
fn history_totals_add_up() {
    let (mut chain, miner) = funded_chain();
    let receiver = Wallet::new();
    chain
        .create_transaction(&miner, &receiver.pub_key_hash(), 10, 2)
        .expect("create tx");
    mine_block(&mut chain, &miner);
    let records = build_history(&chain.chain, &miner.pub_key_hash(), chain.height());
    let (received, sent, fees) = history_totals(&records);
    // Two coinbases of 50 and 52 came in; the payment sent 10 plus a fee of 2.
    assert_eq!(received, 102);
    assert_eq!(sent, -12);
    assert_eq!(fees, 2);
    assert_eq!(history_totals(&Vec::new()), (0, 0, 0));
}

#[test]
fn change_only_transaction_is_self_with_fee() {
    let funding = Transaction {
        id: "p".to_string(),
        vin: Vec::new(),
        vout: vec![TXOutput { value: 10, pub_key_hash: vec![1] }],
    };
    let change_only = Transaction {
        id: "t".to_string(),
        vin: vec![TXInput {
            previous_output: OutPoint { tx_id: "p".to_string(), out_index: 0 },
            signature: Vec::new(),
            pub_key: Vec::new(),
        }],
        vout: vec![TXOutput { value: 9, pub_key_hash: vec![1] }],
    };
    let block = |index: u64, tx: Transaction| Block {
        index,
        timestamp: 0,
        proof_of_work: 0,
        previous_hash: String::new(),
        hash: String::new(),
        transactions: vec![tx],
        reward: 0,
        difficulty: 1,
    };
    let chain = vec![block(0, funding), block(1, change_only)];
    let records = build_history(&chain, &[1], 1);
    assert_eq!(records.len(), 2);
    assert_eq!(records[0].tx_id, "t");
    assert_eq!(records[0].direction, TxDirection::Self_);
    assert_eq!(records[0].net, 0);
    assert_eq!(records[0].fee, 1);
    assert_eq!(records[0].confirmations, 1);
    assert_eq!(records[1].direction, TxDirection::Received);
    assert_eq!(records[1].net, 10);
}

#[test]
fn reserved_inputs_follow_pending_entries() {
    let spend = |id: &str, from: &str| Transaction {
        id: id.to_string(),
        vin: vec![TXInput {
            previous_output: OutPoint { tx_id: from.to_string(), out_index: 0 },
            signature: Vec::new(),
            pub_key: Vec::new(),
        }],
        vout: vec![TXOutput { value: 1, pub_key_hash: vec![7] }],
    };
    let mut pool = Mempool::new();
    assert!(pool.add(spend("a", "p"), 2).is_ok());
    assert!(pool.add(spend("b", "q"), 1).is_ok());
    assert_eq!(pool.add(spend("c", "p"), 5), Err("Double-spend detected".to_string()));
    assert_eq!(pool.reserved_inputs.len(), 2);
    pool.purge_confirmed(&["a".to_string()]);
    assert_eq!(pool.size(), 1);
    assert_eq!(pool.entries[0].tx.id, "b");
    assert_eq!(pool.reserved_inputs.len(), 1);
    assert_eq!(pool.reserved_inputs[0].tx_id, "q");
    assert!(pool.add(spend("c", "p"), 5).is_ok());
    assert_eq!(pool.entries[0].tx.id, "c");
}

#[test]
fn valid_transaction_fee_is_inputs_less_outputs() {
    let (mut chain, miner) = funded_chain();
    let receiver = Wallet::new();
    let (tx, _) = chain
        .create_transaction(&miner, &receiver.pub_key_hash(), 10, 3)
        .expect("create tx");
    assert!(chain.validate_transaction(&tx));
    assert_eq!(chain.calculate_fee(&tx), Some(3));
    let outputs: u64 = tx.vout.iter().map(|o| o.value).sum();
    assert_eq!(outputs, 47);
}

#[test]
fn balance_is_sum_of_spendable_outputs() {
    let (mut chain, miner) = funded_chain();
    mine_block(&mut chain, &miner);
    let utxos = chain.get_wallet_utxos(&miner);
    let total: u64 = utxos.iter().map(|(_, o)| o.value).sum();
    assert_eq!(utxos.len(), 2);
    assert_eq!(chain.get_balance(&miner), total);
    assert_eq!(total, 100);
    chain
        .create_transaction(&miner, &Wallet::new().pub_key_hash(), 10, 1)
        .expect("create tx");
    let left: u64 = chain.get_wallet_utxos(&miner).iter().map(|(_, o)| o.value).sum();
    assert_eq!(chain.get_balance(&miner), left);
    assert_eq!(left, 50);
}
