//! The node's console: a line typed by the operator read as a command with
//! its arguments checked, and the building and acceptance of a block mined
//! on command. The app runs the command and prints what it gives.

use vstd::prelude::*;
use vstd::string::StrSliceExecFns;
use vstd::utf8::encode_utf8;
use crate::codec::{
    copy_string, hex_decodable, hex_decoded, is_hex_char, lemma_encode_utf8_concat, push_text,
    str_eq, text_of_utf8,
};
use crate::config::{parse_u64, parse_unsigned, texts};
use crate::crypto::hex_decode;
use crate::models::block::{Block, BlockView, sealed};
use crate::models::blockchain::{
    Blockchain, HALVING_INTERVAL, retarget_safe, MAX_TXS_PER_BLOCK, appendable, block_fees, block_pending,
    block_take, height_of, reward_after, tip_hash_of, tx_ids,
};
use crate::models::mempool::{
    confirmed_spends, fee_sum, lemma_fee_sum_prefix, strings_view, unconfirmed,
};
use crate::models::transaction::{OutPointView, Transaction, TxView, coinbase_id, coinbase_view};
use crate::models::wallet::{Wallet, pub_key_hash_of};

verus! {

broadcast use {vstd::seq::group_seq_axioms, vstd::seq_lib::group_seq_properties};

#[derive(Debug)]
#[allow(inconsistent_fields)]
pub enum Command {
    Mine,
    Send { to: Vec<u8>, amount: u64, fee: u64 },
    /// The balance of the named wallet, or of the active one.
    Balance(Option<String>),
    NewWallet(String),
    SelectWallet(String),
    ListWallets,
    ExportWallet { name: String, format: String },
    ImportWallet { path: String, name: Option<String> },
    Mempool,
    Difficulty,
    Peers,
    Chain,
    Sync,
    /// The history of the active wallet.
    History,
    HistoryOfWallet(String),
    HistoryOfAddress { label: String, pub_key_hash: Vec<u8> },
    /// A command given wrongly: the message says how.
    Warn(String),
    Unknown(String),
    Empty,
}

/// The position of the first space, or the length when there is none.
pub open spec fn first_space(c: Seq<char>) -> int
    decreases c.len(),
{
    if c.len() == 0 || c[0] == ' ' {
        0
    } else {
        1 + first_space(c.drop_first())
    }
}

/// `s` cut at single spaces into at most `n` parts, the last holding the
/// rest, as `str::splitn` does.
pub open spec fn split_spaces(s: Seq<char>, n: nat) -> Seq<Seq<char>>
    decreases n,
{
    if n <= 1 || first_space(s) >= s.len() {
        seq![s]
    } else {
        seq![s.take(first_space(s))] + split_spaces(s.skip(first_space(s) + 1), (n - 1) as nat)
    }
}

proof fn lemma_first_space(c: Seq<char>, i: int)
    requires
        0 <= i <= c.len(),
        forall|j: int| 0 <= j < i ==> c[j] != ' ',
        i == c.len() || c[i] == ' ',
    ensures
        first_space(c) == i,
    decreases i,
{
    if i > 0 {
        let t = c.drop_first();
        assert forall|j: int| 0 <= j < i - 1 implies t[j] != ' ' by {
            assert(t[j] == c[j + 1]);
        }
        if i < c.len() {
            assert(t[i - 1] == c[i]);
        }
        lemma_first_space(t, i - 1);
    }
}

/// Cuts a line as `str::splitn(4, ' ')` does.
pub fn split_command(line: &str) -> (r: Vec<String>)
    ensures
        texts(r@) == split_spaces(line@, 4),
{
    let mut parts: Vec<String> = Vec::new();
    let mut rest: &str = line;
    let mut left: usize = 4;
    while left > 1
        invariant
            1 <= left <= 4,
            texts(parts@) + split_spaces(rest@, left as nat) == split_spaces(line@, 4),
        ensures
            1 <= left <= 4,
            texts(parts@) + split_spaces(rest@, left as nat) == split_spaces(line@, 4),
            left == 1 || first_space(rest@) >= rest@.len(),
        decreases left,
    {
        let n = rest.unicode_len();
        let mut i: usize = 0;
        while i < n && rest.get_char(i) != ' '
            invariant
                i <= n,
                n == rest@.len(),
                forall|j: int| 0 <= j < i ==> rest@[j] != ' ',
            decreases n - i,
        {
            i = i + 1;
        }
        proof {
            lemma_first_space(rest@, i as int);
        }
        if i >= n {
            break;
        }
        let head = rest.substring_char(0, i);
        let tail = rest.substring_char(i + 1, n);
        let ghost before = texts(parts@);
        parts.push(head.to_string());
        proof {
            assert(texts(parts@) =~= before.push(rest@.take(i as int)));
            assert(tail@ =~= rest@.skip(i + 1));
            assert(split_spaces(rest@, left as nat) == seq![rest@.take(i as int)] + split_spaces(
                tail@,
                (left - 1) as nat,
            ));
            assert(before.push(rest@.take(i as int)) + split_spaces(tail@, (left - 1) as nat) =~= before
                + (seq![rest@.take(i as int)] + split_spaces(tail@, (left - 1) as nat)));
        }
        rest = tail;
        left = left - 1;
    }
    let ghost before = texts(parts@);
    parts.push(rest.to_string());
    proof {
        assert(split_spaces(rest@, left as nat) == seq![rest@]);
        assert(texts(parts@) =~= before + seq![rest@]);
    }
    parts
}

/// The destination of a payment: the bytes of 64 hex digits.
pub open spec fn destination_of(t: Seq<char>) -> Option<Seq<u8>> {
    if hex_decodable(t) && hex_decoded(t).len() == 32 {
        Some(hex_decoded(t))
    } else {
        None
    }
}

/// The label of an address in the history: its first sixteen digits and an
/// ellipsis.
pub open spec fn address_label(t: Seq<char>) -> Seq<char> {
    t.take(16) + "…"@
}

/// What the operator's line asks for.
pub open spec fn command_spec(parts: Seq<Seq<char>>) -> CommandSpec {
    let n = parts.len();
    let c = parts[0];
    if c == "mine"@ {
        CommandSpec::Mine
    } else if c == "send"@ {
        send_spec(parts)
    } else if c == "bal"@ {
        CommandSpec::Balance(if n == 2 {
            Some(parts[1])
        } else {
            None
        })
    } else if c == "newwallet"@ {
        if n < 2 {
            CommandSpec::Warn("Usage: newwallet <n>"@)
        } else {
            CommandSpec::NewWallet(parts[1])
        }
    } else if c == "selectwallet"@ {
        if n < 2 {
            CommandSpec::Warn("Usage: selectwallet <n>"@)
        } else {
            CommandSpec::SelectWallet(parts[1])
        }
    } else if c == "listwallets"@ {
        CommandSpec::ListWallets
    } else if c == "exportwallet"@ {
        if n < 2 {
            CommandSpec::Warn("Usage: exportwallet <n> [wif|json]"@)
        } else {
            CommandSpec::ExportWallet {
                name: parts[1],
                format: if n == 3 {
                    parts[2]
                } else {
                    "json"@
                },
            }
        }
    } else if c == "importwallet"@ {
        if n < 2 {
            CommandSpec::Warn("Usage: importwallet <file> [name]"@)
        } else {
            CommandSpec::ImportWallet {
                path: parts[1],
                name: if n == 3 {
                    Some(parts[2])
                } else {
                    None
                },
            }
        }
    } else if c == "mempool"@ {
        CommandSpec::Mempool
    } else if c == "diff"@ {
        CommandSpec::Difficulty
    } else if c == "peers"@ {
        CommandSpec::Peers
    } else if c == "chain"@ {
        CommandSpec::Chain
    } else if c == "sync"@ {
        CommandSpec::Sync
    } else if c == "history"@ {
        history_spec(parts)
    } else if c.len() > 0 {
        CommandSpec::Unknown(c)
    } else {
        CommandSpec::Empty
    }
}

/// A payment: destination, amount and fee (1 when none is given).
pub open spec fn send_spec(parts: Seq<Seq<char>>) -> CommandSpec {
    let n = parts.len();
    if n < 3 {
        CommandSpec::Warn("Usage: send <address> <amount> [fee]"@)
    } else {
        match parse_unsigned(parts[2], u64::MAX as int) {
            None => CommandSpec::Warn("Invalid amount"@),
            Some(amount) => {
                let fee = if n == 4 {
                    parse_unsigned(parts[3], u64::MAX as int)
                } else {
                    Some(1)
                };
                match fee {
                    None => CommandSpec::Warn("Invalid fee"@),
                    Some(fee) => match destination_of(parts[1]) {
                        None => CommandSpec::Warn("Invalid destination address"@),
                        Some(to) => CommandSpec::Send { to, amount, fee },
                    },
                }
            },
        }
    }
}

/// A history: of an address given as 64 hex digits, of a named wallet, or
/// of the active one.
pub open spec fn history_spec(parts: Seq<Seq<char>>) -> CommandSpec {
    if parts.len() == 2 {
        let arg = parts[1];
        if encode_utf8(arg).len() == 64 {
            if hex_decodable(arg) {
                CommandSpec::HistoryOfAddress { label: address_label(arg), pub_key_hash: hex_decoded(arg) }
            } else {
                CommandSpec::Warn("Invalid address hex"@)
            }
        } else {
            CommandSpec::HistoryOfWallet(arg)
        }
    } else {
        CommandSpec::History
    }
}

fn parse_send(parts: &Vec<String>) -> (r: Command)
    ensures
        r@ == send_spec(texts(parts@)),
{
    let ghost p = texts(parts@);
    let n = parts.len();
    if n < 3 {
        return Command::Warn("Usage: send <address> <amount> [fee]".to_string());
    }
    assert(parts@[1]@ == p[1] && parts@[2]@ == p[2]);
    if n > 3 {
        assert(parts@[3]@ == p[3]);
    }
    let amount = match parse_u64(parts[2].as_str()) {
        Some(v) => v,
        None => {
            return Command::Warn("Invalid amount".to_string());
        },
    };
    let fee: u64 = if n == 4 {
        match parse_u64(parts[3].as_str()) {
            Some(v) => v,
            None => {
                return Command::Warn("Invalid fee".to_string());
            },
        }
    } else {
        1
    };
    let to = match hex_decode(parts[1].as_str()) {
        Some(h) => h,
        None => {
            return Command::Warn("Invalid destination address".to_string());
        },
    };
    if to.len() != 32 {
        return Command::Warn("Invalid destination address".to_string());
    }
    Command::Send { to, amount, fee }
}

/// The label of an address of 64 hex digits.
fn address_label_text(arg: &str) -> (r: String)
    requires
        hex_decodable(arg@),
        encode_utf8(arg@).len() == 64,
    ensures
        r@ == address_label(arg@),
{
    proof {
        lemma_hex_text_len(arg@);
    }
    let head = arg.substring_char(0, 16);
    let mut label_bytes: Vec<u8> = Vec::new();
    push_text(&mut label_bytes, head);
    push_text(&mut label_bytes, "…");
    let ghost text = address_label(arg@);
    proof {
        lemma_encode_utf8_concat(arg@.take(16), "…"@);
        assert(head@ =~= arg@.take(16));
        assert(label_bytes@ =~= encode_utf8(text));
    }
    text_of_utf8(label_bytes, Ghost(text))
}

fn parse_history(parts: &Vec<String>) -> (r: Command)
    ensures
        r@ == history_spec(texts(parts@)),
{
    let ghost p = texts(parts@);
    let n = parts.len();
    if n != 2 {
        return Command::History;
    }
    assert(parts@[1]@ == p[1]);
    let arg = parts[1].as_str();
    if arg.as_bytes().len() != 64 {
        return Command::HistoryOfWallet(copy_string(&parts[1]));
    }
    match hex_decode(arg) {
        Some(hash) => {
            let label = address_label_text(arg);
            Command::HistoryOfAddress { label, pub_key_hash: hash }
        },
        None => Command::Warn("Invalid address hex".to_string()),
    }
}

/// A command as values: what `Command` stands for.
#[allow(inconsistent_fields)]
pub enum CommandSpec {
    Mine,
    Send { to: Seq<u8>, amount: int, fee: int },
    Balance(Option<Seq<char>>),
    NewWallet(Seq<char>),
    SelectWallet(Seq<char>),
    ListWallets,
    ExportWallet { name: Seq<char>, format: Seq<char> },
    ImportWallet { path: Seq<char>, name: Option<Seq<char>> },
    Mempool,
    Difficulty,
    Peers,
    Chain,
    Sync,
    History,
    HistoryOfWallet(Seq<char>),
    HistoryOfAddress { label: Seq<char>, pub_key_hash: Seq<u8> },
    Warn(Seq<char>),
    Unknown(Seq<char>),
    Empty,
}

impl View for Command {
    type V = CommandSpec;

    open spec fn view(&self) -> CommandSpec {
        match self {
            Command::Mine => CommandSpec::Mine,
            Command::Send { to, amount, fee } => CommandSpec::Send {
                to: to@,
                amount: *amount as int,
                fee: *fee as int,
            },
            Command::Balance(n) => CommandSpec::Balance(
                match n {
                    Some(s) => Some(s@),
                    None => None,
                },
            ),
            Command::NewWallet(s) => CommandSpec::NewWallet(s@),
            Command::SelectWallet(s) => CommandSpec::SelectWallet(s@),
            Command::ListWallets => CommandSpec::ListWallets,
            Command::ExportWallet { name, format } => CommandSpec::ExportWallet {
                name: name@,
                format: format@,
            },
            Command::ImportWallet { path, name } => CommandSpec::ImportWallet {
                path: path@,
                name: match name {
                    Some(s) => Some(s@),
                    None => None,
                },
            },
            Command::Mempool => CommandSpec::Mempool,
            Command::Difficulty => CommandSpec::Difficulty,
            Command::Peers => CommandSpec::Peers,
            Command::Chain => CommandSpec::Chain,
            Command::Sync => CommandSpec::Sync,
            Command::History => CommandSpec::History,
            Command::HistoryOfWallet(s) => CommandSpec::HistoryOfWallet(s@),
            Command::HistoryOfAddress { label, pub_key_hash } => CommandSpec::HistoryOfAddress {
                label: label@,
                pub_key_hash: pub_key_hash@,
            },
            Command::Warn(s) => CommandSpec::Warn(s@),
            Command::Unknown(s) => CommandSpec::Unknown(s@),
            Command::Empty => CommandSpec::Empty,
        }
    }
}

/// Hex digits are ASCII, one byte each.
proof fn lemma_hex_text_len(t: Seq<char>)
    requires
        hex_decodable(t),
    ensures
        encode_utf8(t).len() == t.len(),
{
    assert(vstd::utf8::is_ascii_chars(t)) by {
        assert forall|i: int| 0 <= i < t.len() implies '\0' <= #[trigger] t[i] <= '\u{7f}' by {
            assert(is_hex_char(t[i]));
        }
    }
    vstd::utf8::is_ascii_chars_encode_utf8(t);
}

/// Reads the operator's line.
pub fn parse_command(line: &str) -> (r: Command)
    ensures
        r@ == command_spec(split_spaces(line@, 4)),
{
    let parts = split_command(line);
    let ghost p = texts(parts@);
    let n = parts.len();
    assert(n >= 1) by {
        lemma_split_nonempty(line@, 4);
    }
    let c = parts[0].as_str();
    assert(c@ == p[0]);
    if n > 1 {
        assert(parts@[1]@ == p[1]);
    }
    if n > 2 {
        assert(parts@[2]@ == p[2]);
    }
    if str_eq(c, "mine") {
        Command::Mine
    } else if str_eq(c, "send") {
        parse_send(&parts)
    } else if str_eq(c, "bal") {
        if n == 2 {
            Command::Balance(Some(copy_string(&parts[1])))
        } else {
            Command::Balance(None)
        }
    } else if str_eq(c, "newwallet") {
        if n < 2 {
            Command::Warn("Usage: newwallet <n>".to_string())
        } else {
            Command::NewWallet(copy_string(&parts[1]))
        }
    } else if str_eq(c, "selectwallet") {
        if n < 2 {
            Command::Warn("Usage: selectwallet <n>".to_string())
        } else {
            Command::SelectWallet(copy_string(&parts[1]))
        }
    } else if str_eq(c, "listwallets") {
        Command::ListWallets
    } else if str_eq(c, "exportwallet") {
        if n < 2 {
            Command::Warn("Usage: exportwallet <n> [wif|json]".to_string())
        } else {
            let format = if n == 3 {
                copy_string(&parts[2])
            } else {
                "json".to_string()
            };
            Command::ExportWallet { name: copy_string(&parts[1]), format }
        }
    } else if str_eq(c, "importwallet") {
        if n < 2 {
            Command::Warn("Usage: importwallet <file> [name]".to_string())
        } else {
            let name = if n == 3 {
                Some(copy_string(&parts[2]))
            } else {
                None
            };
            Command::ImportWallet { path: copy_string(&parts[1]), name }
        }
    } else if str_eq(c, "mempool") {
        Command::Mempool
    } else if str_eq(c, "diff") {
        Command::Difficulty
    } else if str_eq(c, "peers") {
        Command::Peers
    } else if str_eq(c, "chain") {
        Command::Chain
    } else if str_eq(c, "sync") {
        Command::Sync
    } else if str_eq(c, "history") {
        parse_history(&parts)
    } else if !c.is_empty() {
        Command::Unknown(c.to_string())
    } else {
        Command::Empty
    }
}

proof fn lemma_split_nonempty(s: Seq<char>, n: nat)
    ensures
        split_spaces(s, n).len() >= 1,
        split_spaces(s, n).len() <= if n == 0 { 1 } else { n },
    decreases n,
{
    if !(n <= 1 || first_space(s) >= s.len()) {
        lemma_split_nonempty(s.skip(first_space(s) + 1), (n - 1) as nat);
    }
}

/// The block that mining on command starts from: the index past the
/// height, the tip as parent, the current difficulty, and a coinbase paying
/// the base reward and the fees of the pending transactions it takes.
pub open spec fn command_template(
    index: u64,
    previous_hash: Seq<char>,
    d: usize,
    pkh: Seq<u8>,
    value: u64,
    pending: Seq<TxView>,
    timestamp: u64,
    nanos: u128,
) -> BlockView {
    sealed(
        BlockView {
            index,
            timestamp,
            proof_of_work: 0,
            previous_hash,
            hash: Seq::empty(),
            transactions: seq![coinbase_view(coinbase_id(pkh, value, nanos), pkh, value)] + pending,
            reward: value,
            difficulty: d,
        },
    )
}

impl Blockchain {
    /// The block to mine on command, not yet mined, with the ids of the
    /// pending transactions it takes. The app mines it off the main task
    /// and hands it to `accept_mined_block`.
    pub fn block_template(&self, miner_wallet: &Wallet) -> (r: (Block, Vec<String>))
        requires
            self.wf(),
            height_of(self.blocks()) < u64::MAX,
            self.mining_reward + block_fees(self.mempool.entries_view()) <= u64::MAX,
        ensures
            exists|timestamp: u64, nanos: u128|
                #![trigger command_template(
                    (height_of(self.blocks()) + 1) as u64,
                    tip_hash_of(self.blocks()),
                    self.difficulty,
                    pub_key_hash_of(miner_wallet.public_key@),
                    (self.mining_reward + block_fees(self.mempool.entries_view())) as u64,
                    block_pending(self.mempool.entries_view()),
                    timestamp,
                    nanos,
                )]
                r.0@ == command_template(
                    (height_of(self.blocks()) + 1) as u64,
                    tip_hash_of(self.blocks()),
                    self.difficulty,
                    pub_key_hash_of(miner_wallet.public_key@),
                    (self.mining_reward + block_fees(self.mempool.entries_view())) as u64,
                    block_pending(self.mempool.entries_view()),
                    timestamp,
                    nanos,
                ),
            texts(r.1@) == tx_ids(block_pending(self.mempool.entries_view())),
    {
        let ghost es = self.mempool.entries_view();
        let pending = self.mempool.collect_for_block(MAX_TXS_PER_BLOCK);
        let k = pending.len();
        let mut total_fees: u64 = 0;
        for i in 0..k
            invariant
                k == block_take(es.len() as int),
                k <= self.mempool.entries@.len(),
                es == self.mempool.entries_view(),
                self.mining_reward + fee_sum(es.take(k as int)) <= u64::MAX,
                total_fees == fee_sum(es.take(i as int)),
        {
            proof {
                assert(es.take(k as int).take(i + 1) =~= es.take(i + 1));
                lemma_fee_sum_prefix(es.take(k as int), i + 1);
                assert(es.take(i + 1).drop_last() =~= es.take(i as int));
                assert(es[i as int] == self.mempool.entries@[i as int]@);
            }
            total_fees = total_fees + self.mempool.entries[i].fee;
        }
        let coinbase_value = self.mining_reward + total_fees;
        let miner_hash = miner_wallet.pub_key_hash();
        let reward_tx = Transaction::coinbase(miner_hash.as_slice(), coinbase_value);
        let ghost pend = block_pending(es);
        let ghost cb = reward_tx@;
        assert(pend.len() == k);
        let mut transactions: Vec<Transaction> = Vec::new();
        transactions.push(reward_tx);
        let mut confirmed: Vec<String> = Vec::new();
        for i in 0..k
            invariant
                k == pending@.len(),
                pend == block_pending(es),
                pend.len() == k,
                forall|j: int| 0 <= j < k ==> (#[trigger] pending@[j])@ == es[j].tx,
                transactions@.len() == i + 1,
                transactions@[0]@ == cb,
                forall|j: int| 1 <= j <= i ==> (#[trigger] transactions@[j])@ == pend[j - 1],
                confirmed@.len() == i,
                forall|j: int| 0 <= j < i ==> (#[trigger] confirmed@[j])@ == pend[j].id,
        {
            transactions.push(pending[i].clone());
            confirmed.push(copy_string(&pending[i].id));
        }
        assert(texts(confirmed@) =~= tx_ids(pend));
        let ghost txs_v = transactions@.map_values(|t: Transaction| t@);
        assert(txs_v =~= seq![cb] + pend) by {
            assert forall|j: int| 0 <= j < txs_v.len() implies txs_v[j] == (seq![cb] + pend)[j] by {
                if j > 0 {
                    assert(transactions@[j]@ == pend[j - 1]);
                }
            }
        }
        let height = self.height();
        let tip = self.tip_hash();
        let block = Block::new(height + 1, tip, transactions, coinbase_value, self.difficulty);
        proof {
            let nanos = choose|nanos: u128|
                cb == coinbase_view(#[trigger] coinbase_id(miner_hash@, coinbase_value, nanos), miner_hash@, coinbase_value);
            let bare = BlockView {
                index: (height + 1) as u64,
                timestamp: block@.timestamp,
                proof_of_work: 0,
                previous_hash: tip_hash_of(self.blocks()),
                hash: Seq::empty(),
                transactions: seq![cb] + pend,
                reward: coinbase_value,
                difficulty: self.difficulty,
            };
            crate::models::block::lemma_hash_ignores_stored_hash(bare, block@.hash);
            assert(block@ == command_template(
                (height + 1) as u64,
                tip_hash_of(self.blocks()),
                self.difficulty,
                miner_hash@,
                coinbase_value,
                pend,
                block@.timestamp,
                nanos,
            ));
        }
        (block, confirmed)
    }

    /// Takes a block mined on command: appended if it may follow the tip,
    /// its transactions then leaving the mempool and the base reward halving
    /// when the chain length reaches a multiple of `HALVING_INTERVAL`.
    pub fn accept_mined_block(&mut self, block: Block, confirmed: &[String]) -> (r: bool)
        requires
            old(self).wf(),
            retarget_safe(old(self).blocks(), old(self).difficulty),
        ensures
            final(self).wf(),
            r == appendable(old(self).blocks(), old(self).difficulty, block@),
            r ==> {
                &&& final(self).blocks() == old(self).blocks().push(block@)
                &&& final(self).difficulty == block.difficulty
                &&& final(self).mempool.entries_view() == unconfirmed(
                    old(self).mempool.entries_view(),
                    texts(confirmed@),
                )
                &&& forall|op: OutPointView|
                    #[trigger] final(self).mempool.reserved_view().contains(op) <==> old(
                        self,
                    ).mempool.reserved_view().contains(op) && !confirmed_spends(
                        old(self).mempool.entries_view(),
                        texts(confirmed@),
                        op,
                    )
                &&& final(self).mining_reward == reward_after(
                    old(self).mining_reward,
                    final(self).chain@.len() as int,
                )
            },
            !r ==> *final(self) == *old(self),
    {
        let ghost bv = block@;
        if self.try_append_block(block) {
            assert(self.blocks() =~= old(self).blocks().push(bv));
            assert(strings_view(confirmed@) =~= texts(confirmed@));
            self.mempool.purge_confirmed(confirmed);
            if self.chain.len() % HALVING_INTERVAL == 0 && self.mining_reward > 1 {
                self.mining_reward = self.mining_reward / 2;
            }
            true
        } else {
            false
        }
    }
}

} // verus!
