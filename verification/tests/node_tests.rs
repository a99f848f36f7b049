use austro::api::views::{
    address_info, block_by_hash, block_by_height, block_to_api, chain_info, chain_to_api,
    mempool_to_api, tx_details, tx_to_api,
};
use austro::config::{parse_u16, parse_u64, NodeConfig};
use austro::models::blockchain::Blockchain;
use austro::models::genesis::GENESIS_REWARD;
use austro::models::wallet::Wallet;
use austro::network::commands::{parse_command, split_command, Command};
use austro::network::sync::{
    blocks_to_serve, sync_candidate, sync_request, BlockReceipt, SyncState, TxReceipt,
};

fn args(list: &[&str]) -> Vec<String> {
    list.iter().map(|s| s.to_string()).collect()
}

fn chain_with_blocks(n: usize) -> (Blockchain, Wallet) {
    let mut chain = Blockchain::new(Vec::new());
    let miner = Wallet::new();
    for _ in 0..n {
        chain.mine_pending_transactions(&miner);
    }
    (chain, miner)
}

// ── configuration ───────────────────────────────────────────────────────────

#[test]
fn config_defaults_without_arguments() {
    let c = NodeConfig::from_args(args(&["node"]));
    assert_eq!(c.data_dir, "austro_node_default");
    assert_eq!(c.port, 0);
    assert_eq!(c.explorer_port, 3000);
    assert_eq!(c.bootstrap_peers, vec!["/ip4/147.224.133.52/tcp/4001".to_string()]);
    assert_eq!(c.log_format, "pretty");
    assert_eq!(c.log_dir, None);
}

#[test]
fn config_reads_flags_in_any_order() {
    let c = NodeConfig::from_args(args(&[
        "node", "data", "--log-format", "json", "-p", "4001", "--peer", "/ip4/1.2.3.4/tcp/1",
        "-e", "8080", "--log-dir", "logs",
    ]));
    assert_eq!(c.data_dir, "data");
    assert_eq!(c.port, 4001);
    assert_eq!(c.explorer_port, 8080);
    assert_eq!(c.bootstrap_peers, vec!["/ip4/1.2.3.4/tcp/1".to_string()]);
    assert_eq!(c.log_format, "json");
    assert_eq!(c.log_dir, Some("logs".to_string()));
}

#[test]
fn config_no_default_peer_leaves_list_empty() {
    let c = NodeConfig::from_args(args(&["node", "d", "--no-default-peer"]));
    assert!(c.bootstrap_peers.is_empty());
}

#[test]
fn config_bad_ports_fall_back() {
    let c = NodeConfig::from_args(args(&["node", "d", "--port", "99999", "--explorer-port", "x"]));
    assert_eq!(c.port, 0);
    assert_eq!(c.explorer_port, 3000);
}

#[test]
fn config_flag_without_value_is_skipped() {
    let c = NodeConfig::from_args(args(&["node", "d", "--port"]));
    assert_eq!(c.port, 0);
}

#[test]
fn unsigned_numbers_parse_as_rust_does() {
    assert_eq!(parse_u64("42"), Some(42));
    assert_eq!(parse_u64("+7"), Some(7));
    assert_eq!(parse_u64("18446744073709551615"), Some(u64::MAX));
    assert_eq!(parse_u64("18446744073709551616"), None);
    assert_eq!(parse_u64(""), None);
    assert_eq!(parse_u64("+"), None);
    assert_eq!(parse_u64("-1"), None);
    assert_eq!(parse_u64("12a"), None);
    assert_eq!(parse_u16("65535"), Some(65535));
    assert_eq!(parse_u16("65536"), None);
}

// ── console commands ────────────────────────────────────────────────────────

#[test]
fn split_keeps_rest_in_last_part() {
    assert_eq!(split_command("a b c d e"), vec!["a", "b", "c", "d e"]);
    assert_eq!(split_command("a  b"), vec!["a", "", "b"]);
    assert_eq!(split_command(""), vec![""]);
}

#[test]
fn simple_commands_parse() {
    assert!(matches!(parse_command("mine"), Command::Mine));
    assert!(matches!(parse_command("mempool"), Command::Mempool));
    assert!(matches!(parse_command("diff"), Command::Difficulty));
    assert!(matches!(parse_command("peers"), Command::Peers));
    assert!(matches!(parse_command("chain"), Command::Chain));
    assert!(matches!(parse_command("sync"), Command::Sync));
    assert!(matches!(parse_command("listwallets"), Command::ListWallets));
    assert!(matches!(parse_command(""), Command::Empty));
    match parse_command("frobnicate now") {
        Command::Unknown(c) => assert_eq!(c, "frobnicate"),
        other => panic!("unexpected {:?}", other),
    }
}

#[test]
fn send_command_reads_address_amount_and_fee() {
    let to = "ab".repeat(32);
    match parse_command(&format!("send {} 10 3", to)) {
        Command::Send { to: bytes, amount, fee } => {
            assert_eq!(bytes, vec![0xab; 32]);
            assert_eq!(amount, 10);
            assert_eq!(fee, 3);
        }
        other => panic!("unexpected {:?}", other),
    }
    match parse_command(&format!("send {} 10", to)) {
        Command::Send { fee, .. } => assert_eq!(fee, 1),
        other => panic!("unexpected {:?}", other),
    }
}

#[test]
fn send_command_errors() {
    let to = "ab".repeat(32);
    let warn = |line: &str| match parse_command(line) {
        Command::Warn(w) => w,
        other => panic!("unexpected {:?}", other),
    };
    assert_eq!(warn("send x"), "Usage: send <address> <amount> [fee]");
    assert_eq!(warn(&format!("send {} ten", to)), "Invalid amount");
    assert_eq!(warn(&format!("send {} 10 x", to)), "Invalid fee");
    assert_eq!(warn("send zz 10"), "Invalid destination address");
    assert_eq!(warn("send abab 10"), "Invalid destination address");
}

#[test]
fn wallet_commands_parse() {
    match parse_command("newwallet alice") {
        Command::NewWallet(n) => assert_eq!(n, "alice"),
        other => panic!("unexpected {:?}", other),
    }
    match parse_command("selectwallet bob") {
        Command::SelectWallet(n) => assert_eq!(n, "bob"),
        other => panic!("unexpected {:?}", other),
    }
    match parse_command("exportwallet alice") {
        Command::ExportWallet { name, format } => {
            assert_eq!(name, "alice");
            assert_eq!(format, "json");
        }
        other => panic!("unexpected {:?}", other),
    }
    match parse_command("importwallet /tmp/w.wif carol") {
        Command::ImportWallet { path, name } => {
            assert_eq!(path, "/tmp/w.wif");
            assert_eq!(name, Some("carol".to_string()));
        }
        other => panic!("unexpected {:?}", other),
    }
    match parse_command("bal") {
        Command::Balance(n) => assert_eq!(n, None),
        other => panic!("unexpected {:?}", other),
    }
    match parse_command("newwallet") {
        Command::Warn(w) => assert_eq!(w, "Usage: newwallet <n>"),
        other => panic!("unexpected {:?}", other),
    }
}

#[test]
fn history_command_variants() {
    assert!(matches!(parse_command("history"), Command::History));
    match parse_command("history savings") {
        Command::HistoryOfWallet(n) => assert_eq!(n, "savings"),
        other => panic!("unexpected {:?}", other),
    }
    let addr = "0f".repeat(32);
    match parse_command(&format!("history {}", addr)) {
        Command::HistoryOfAddress { label, pub_key_hash } => {
            assert_eq!(label, "0f0f0f0f0f0f0f0f…");
            assert_eq!(pub_key_hash, vec![0x0f; 32]);
        }
        other => panic!("unexpected {:?}", other),
    }
    match parse_command(&format!("history {}", "zz".repeat(32))) {
        Command::Warn(w) => assert_eq!(w, "Invalid address hex"),
        other => panic!("unexpected {:?}", other),
    }
}

// ── mining on command ───────────────────────────────────────────────────────

#[test]
fn template_mined_and_accepted() {
    let (mut chain, miner) = chain_with_blocks(1);
    let receiver = Wallet::new();
    let (tx, _) = chain
        .create_transaction(&miner, &receiver.pub_key_hash(), 10, 2)
        .expect("create tx");
    let (mut block, confirmed) = chain.block_template(&miner);
    assert_eq!(block.index, 2);
    assert_eq!(block.previous_hash, chain.tip_hash());
    assert_eq!(block.reward, 52);
    assert_eq!(block.transactions.len(), 2);
    assert!(block.transactions[0].is_coinbase());
    assert_eq!(confirmed, vec![tx.id.clone()]);
    let difficulty = chain.difficulty;
    block.mine(difficulty);
    assert!(chain.accept_mined_block(block.clone(), &confirmed));
    assert_eq!(chain.height(), 2);
    assert_eq!(chain.mempool.size(), 0);
    assert_eq!(chain.get_balance(&receiver), 10);
    assert!(!chain.accept_mined_block(block, &confirmed));
    assert_eq!(chain.height(), 2);
}

#[test]
fn unmined_template_is_refused() {
    let (mut chain, miner) = chain_with_blocks(1);
    let (mut block, confirmed) = chain.block_template(&miner);
    block.hash = "ff".repeat(32);
    assert!(!chain.accept_mined_block(block, &confirmed));
    assert_eq!(chain.height(), 1);
}

// ── synchronisation ─────────────────────────────────────────────────────────

#[test]
fn sync_request_names_tip() {
    let (chain, _) = chain_with_blocks(2);
    let req = sync_request(&chain, 77);
    assert_eq!(req.from_height, 2);
    assert_eq!(req.from_hash, chain.tip_hash());
    assert_eq!(req.nonce, 77);
}

#[test]
fn blocks_served_after_known_block() {
    let (ahead, _) = chain_with_blocks(3);
    let behind = Blockchain::new(Vec::new());
    let req = sync_request(&behind, 1);
    let served = blocks_to_serve(&ahead, &req).expect("blocks");
    assert_eq!(served.len(), 3);
    assert_eq!(served[0].index, 1);
    assert!(blocks_to_serve(&ahead, &sync_request(&ahead, 2)).is_none());
}

#[test]
fn unknown_start_serves_whole_chain() {
    let (ahead, _) = chain_with_blocks(2);
    let mut req = sync_request(&ahead, 5);
    req.from_hash = "00".repeat(32);
    req.from_height = 1;
    let served = blocks_to_serve(&ahead, &req).expect("blocks");
    assert_eq!(served.len(), 3);
    assert_eq!(served[0].index, 0);
}

#[test]
fn batch_replaces_shorter_chain() {
    let (ahead, _) = chain_with_blocks(3);
    let mut behind = Blockchain::new(Vec::new());
    let served = blocks_to_serve(&ahead, &sync_request(&behind, 0)).expect("blocks");
    let candidate = sync_candidate(&behind.chain, &served);
    assert_eq!(candidate.len(), 4);
    for (mine, peer) in candidate.iter().zip(ahead.chain.iter()) {
        assert_eq!(mine.hash, peer.hash);
        assert_eq!(mine.index, peer.index);
    }
    assert!(behind.receive_blocks_batch(served));
    assert_eq!(behind.height(), 3);
    assert_eq!(behind.tip_hash(), ahead.tip_hash());
    assert!(!behind.receive_blocks_batch(Vec::new()));
}

#[test]
fn received_blocks_append_or_wait() {
    let (ahead, _) = chain_with_blocks(2);
    let mut behind = Blockchain::new(Vec::new());
    assert_eq!(behind.receive_block(ahead.chain[2].clone()), BlockReceipt::Behind);
    assert_eq!(behind.receive_block(ahead.chain[1].clone()), BlockReceipt::Appended);
    assert_eq!(behind.receive_block(ahead.chain[1].clone()), BlockReceipt::Ignored);
    assert_eq!(behind.receive_block(ahead.chain[2].clone()), BlockReceipt::Appended);
    assert_eq!(behind.height(), 2);
}

#[test]
fn received_transactions_are_sorted_out() {
    let (mut ahead, miner) = chain_with_blocks(1);
    let receiver = Wallet::new();
    let (tx, _) = ahead
        .create_transaction(&miner, &receiver.pub_key_hash(), 5, 1)
        .expect("create tx");

    let mut fresh = Blockchain::new(Vec::new());
    assert_eq!(fresh.receive_tx(tx.clone(), false), TxReceipt::Buffered);
    assert_eq!(fresh.receive_tx(tx.clone(), true), TxReceipt::Invalid);

    let mut peer = Blockchain::new(Vec::new());
    assert_eq!(peer.receive_block(ahead.chain[1].clone()), BlockReceipt::Appended);
    assert_eq!(peer.receive_tx(tx.clone(), true), TxReceipt::Accepted);
    assert_eq!(peer.mempool.size(), 1);
    assert_eq!(peer.mempool.entries[0].tx.id, tx.id);
    assert_eq!(peer.mempool.entries[0].fee, 1);
    assert_eq!(peer.mempool.reserved_inputs.len(), tx.vin.len());
    assert_eq!(peer.receive_tx(tx, true), TxReceipt::Known);
}

#[test]
fn double_spend_from_peer_rejected() {
    let (mut ahead, miner) = chain_with_blocks(1);
    let (tx1, _) = ahead
        .create_transaction(&miner, &Wallet::new().pub_key_hash(), 5, 1)
        .expect("first");
    let mut other = Blockchain::new(Vec::new());
    other.receive_block(ahead.chain[1].clone());
    let (tx2, _) = other
        .create_transaction(&miner, &Wallet::new().pub_key_hash(), 6, 1)
        .expect("second");
    assert_eq!(
        ahead.receive_tx(tx2, true),
        TxReceipt::Rejected("Double-spend detected".to_string())
    );
    assert!(ahead.mempool.contains(&tx1.id));
}

#[test]
fn sync_state_follows_peers() {
    let mut s = SyncState::new();
    assert!(!s.wants_sync());
    s.on_subscribed();
    assert!(s.wants_sync());
    s.on_synced();
    assert!(!s.wants_sync());
    s.on_connection_established(5);
    assert!(s.synced);
    s.on_connection_established(0);
    assert!(!s.synced);
    s.on_connection_closed(2);
    assert!(s.has_peers);
    s.on_connection_closed(0);
    assert!(!s.has_peers);
    assert!(!s.wants_sync());
}

// ── explorer views ──────────────────────────────────────────────────────────

#[test]
fn chain_info_sums_supply() {
    let (mut chain, miner) = chain_with_blocks(2);
    chain
        .create_transaction(&miner, &Wallet::new().pub_key_hash(), 10, 4)
        .expect("tx");
    let info = chain_info(&chain);
    assert_eq!(info.height, 2);
    assert_eq!(info.total_supply, GENESIS_REWARD + 100);
    assert_eq!(info.pending_txs, 1);
    assert_eq!(info.total_fees_pending, 4);
    assert!(info.is_valid);
    assert_eq!(info.difficulty, chain.difficulty);
}

#[test]
fn blocks_found_by_height_and_hash() {
    let (chain, miner) = chain_with_blocks(2);
    let b = block_by_height(&chain, 1).expect("block 1");
    assert_eq!(b.index, 1);
    assert_eq!(b.miner, miner.address());
    assert_eq!(b.tx_count, 1);
    assert!(block_by_height(&chain, 9).is_none());
    let tip = block_by_hash(&chain, &chain.tip_hash()).expect("tip");
    assert_eq!(tip.index, 2);
    assert!(block_by_hash(&chain, "nope").is_none());
    let all = chain_to_api(&chain);
    assert_eq!(all.len(), 3);
    assert_eq!(all[0].index, 2);
    assert_eq!(all[2].index, 0);
    let direct = block_to_api(&chain.chain[2]);
    assert_eq!(direct.hash, tip.hash);
}

#[test]
fn transaction_views() {
    let (mut chain, miner) = chain_with_blocks(1);
    let receiver = Wallet::new();
    let (tx, fee) = chain
        .create_transaction(&miner, &receiver.pub_key_hash(), 7, 3)
        .expect("tx");
    assert_eq!(fee, 3);
    let shown = tx_to_api(&tx, fee);
    assert_eq!(shown.id, tx.id);
    assert!(!shown.is_coinbase);
    assert_eq!(shown.outputs[0].value, 7);
    assert_eq!(shown.outputs[0].address, receiver.address());
    assert_eq!(shown.fee, 3);

    let pending = tx_details(&chain, &tx.id).expect("pending");
    assert_eq!(pending.fee, 3);
    let pool = mempool_to_api(&chain);
    assert_eq!(pool.count, 1);
    assert_eq!(pool.total_fees, 3);
    assert_eq!(pool.transactions[0].id, tx.id);

    let coinbase_id = chain.chain[1].transactions[0].id.clone();
    let cb = tx_details(&chain, &coinbase_id).expect("coinbase");
    assert!(cb.is_coinbase);
    assert_eq!(cb.fee, 0);
    assert!(tx_details(&chain, "missing").is_none());
}

#[test]
fn confirmed_transaction_fee_taken_against_unspent_outputs() {
    let (mut chain, miner) = chain_with_blocks(1);
    let (tx, _) = chain
        .create_transaction(&miner, &Wallet::new().pub_key_hash(), 7, 3)
        .expect("tx");
    chain.mine_pending_transactions(&miner);
    let confirmed = tx_details(&chain, &tx.id).expect("confirmed");
    // Its inputs are spent by now, so none is found and no fee shows.
    assert_eq!(confirmed.fee, 0);
    assert!(!confirmed.is_coinbase);
    assert_eq!(confirmed.inputs.len(), tx.vin.len());
}

#[test]
fn address_view_shows_balance_and_history() {
    let (chain, miner) = chain_with_blocks(2);
    let info = address_info(&chain, &miner.address()).expect("address");
    assert_eq!(info.balance, 100);
    assert_eq!(info.tx_count, 2);
    assert_eq!(info.transactions[0].block, 2);
    assert_eq!(info.transactions[0].direction, "in");
    assert_eq!(info.transactions[0].net, 50);
    assert_eq!(info.transactions[1].confirmations, 2);
}

#[test]
fn address_view_rejects_bad_address() {
    let (chain, _) = chain_with_blocks(0);
    let err = address_info(&chain, "xyz").unwrap_err();
    assert_eq!(err, "Invalid address (expected 64-char hex)");
    let err = address_info(&chain, &"ab".repeat(20)).unwrap_err();
    assert_eq!(err, "Invalid address (expected 64-char hex)");
    let empty = address_info(&chain, &"ab".repeat(32)).expect("valid");
    assert_eq!(empty.balance, 0);
    assert_eq!(empty.tx_count, 0);
}

#[test]
fn nonce_mixes_sub_second_clock_with_draw() {
    assert_eq!(austro::network::sync::mix_nonce(1_000_000_005, 3), 6);
    assert_eq!(austro::network::sync::mix_nonce(7, 0), 7);
    assert_eq!(austro::network::sync::mix_nonce(2_000_000_000, u64::MAX), u64::MAX);
}

#[test]
fn sum_checks_pass_on_ordinary_chain() {
    let (mut chain, miner) = chain_with_blocks(2);
    let (tx, _) = chain
        .create_transaction(&miner, &Wallet::new().pub_key_hash(), 5, 2)
        .expect("tx");
    assert!(chain.fee_sums_ok(&tx));
    assert!(chain.balance_fits(&miner));
    assert!(chain.unreserved_balance_fits(&miner.pub_key_hash()));
    assert!(austro::models::history::history_sums_fit(&chain.chain, &miner.pub_key_hash(), chain.height()));
    assert!(austro::api::views::chain_sums_fit(&chain));
    assert!(austro::api::views::tx_lookup_fits(&chain, &tx.id));
    assert!(chain.next_difficulty_fits());
    assert!(chain.mempool.prefix_fees_fit(1, u64::MAX - 2));
    assert!(!chain.mempool.prefix_fees_fit(1, u64::MAX - 1));
}
