//! What peers say to each other, and the decisions a node takes on each
//! message: which blocks to serve, how a batch of blocks becomes a candidate
//! chain, and what becomes of a block or transaction that arrives. The app
//! moves the bytes; the decisions are taken here.

use vstd::prelude::*;
use crate::codec::{copy_string, str_eq};
use crate::crypto::{now_nanos, random_u64};
use crate::models::block::{Block, BlockView};
use crate::models::blockchain::{
    Blockchain, appendable, retarget_safe, fee_fits, fee_of, height_of, replaceable, tip_hash_of,
};
use crate::models::ledger::{blocks_view, tx_valid_against, txs_view, utxo_map};
use crate::models::mempool::{
    EntryView, confirmed_spends, has_id, inserted_by_fee, spends, spends_reserved, strings_view, unconfirmed,
};
use crate::models::transaction::OutPointView;
use crate::models::transaction::Transaction;

verus! {

broadcast use {vstd::seq::group_seq_axioms, vstd::seq_lib::group_seq_properties};

/// A request for the blocks that follow the sender's tip.
#[derive(Debug)]
pub struct GetBlocks {
    pub from_hash: String,
    pub from_height: u64,
    /// Makes otherwise equal requests differ, so that gossip does not drop
    /// them as repeats.
    pub nonce: u64,
}

/// A batch of blocks sent in answer to a request.
#[derive(Debug)]
pub struct BlocksResponse {
    pub blocks: Vec<Block>,
    pub nonce: u64,
}

#[derive(Debug)]
pub enum NetworkMessage {
    NewBlock(Block),
    NewTx(Transaction),
    GetBlocks(GetBlocks),
    BlocksBatch(BlocksResponse),
    GetMempool,
    MempoolTxs(Vec<Transaction>),
}

/// The nonce made from a clock reading in nanoseconds and a random draw:
/// the sub-second part of the reading, bitwise exclusive-or the draw.
pub open spec fn nonce_of(nanos: u128, draw: u64) -> u64 {
    ((nanos % 1_000_000_000) as u64) ^ draw
}

/// Mixes a clock reading in nanoseconds with a random draw.
pub fn mix_nonce(nanos: u128, draw: u64) -> (r: u64)
    ensures
        r == nonce_of(nanos, draw),
{
    let sub_second = (nanos % 1_000_000_000) as u64;
    sub_second ^ draw
}

/// A nonce for a message: the sub-second part of the clock mixed with a
/// random value. Which clock reading and draw went in is left open.
pub fn random_nonce() -> (r: u64)
    ensures
        exists|nanos: u128, draw: u64| r == nonce_of(nanos, draw),
{
    let nanos = now_nanos();
    let draw = random_u64();
    let r = mix_nonce(nanos, draw);
    assert(r == nonce_of(nanos, draw));
    r
}

/// A request for what follows this chain's tip.
pub fn sync_request(chain: &Blockchain, nonce: u64) -> (r: GetBlocks)
    ensures
        r.from_hash@ == tip_hash_of(chain.blocks()),
        r.from_height == height_of(chain.blocks()),
        r.nonce == nonce,
{
    GetBlocks { from_hash: chain.tip_hash(), from_height: chain.height(), nonce }
}

/// Where the blocks served for a request start: past the block the
/// requester names, if this chain has that block at that height; from the
/// start otherwise.
pub open spec fn serve_start(bs: Seq<BlockView>, height: u64, hash: Seq<char>) -> int {
    if height < bs.len() && bs[height as int].hash == hash {
        height + 1
    } else {
        0
    }
}

/// The blocks served for a request: none when the requester is at this
/// chain's tip or nothing follows what it has; otherwise every block from
/// the start.
pub open spec fn blocks_served(bs: Seq<BlockView>, height: u64, hash: Seq<char>) -> Option<
    Seq<BlockView>,
> {
    if height == height_of(bs) && hash == tip_hash_of(bs) {
        None
    } else if serve_start(bs, height, hash) >= bs.len() {
        None
    } else {
        Some(bs.skip(serve_start(bs, height, hash)))
    }
}

/// The blocks to send a peer that asked for what follows its tip.
pub fn blocks_to_serve(chain: &Blockchain, req: &GetBlocks) -> (r: Option<Vec<Block>>)
    ensures
        match blocks_served(chain.blocks(), req.from_height, req.from_hash@) {
            Some(s) => r matches Some(v) && blocks_view(v@) == s,
            None => r is None,
        },
{
    let ghost bs = chain.blocks();
    let height = chain.height();
    let tip = chain.tip_hash();
    if req.from_height == height && str_eq(req.from_hash.as_str(), tip.as_str()) {
        return None;
    }
    let n = chain.chain.len();
    let start: usize = if req.from_height < n as u64 {
        let h = req.from_height as usize;
        assert(bs[h as int] == chain.chain@[h as int]@);
        if str_eq(chain.chain[h].hash.as_str(), req.from_hash.as_str()) {
            h + 1
        } else {
            0
        }
    } else {
        0
    };
    if start >= n {
        return None;
    }
    let mut out: Vec<Block> = Vec::new();
    let mut i = start;
    while i < n
        invariant
            start <= i <= n,
            n == chain.chain@.len(),
            bs == chain.blocks(),
            blocks_view(out@) == bs.subrange(start as int, i as int),
        decreases n - i,
    {
        let ghost before = blocks_view(out@);
        out.push(chain.chain[i].clone());
        assert(blocks_view(out@) =~= before.push(chain.chain@[i as int]@));
        assert(bs.subrange(start as int, i + 1) =~= bs.subrange(start as int, i as int).push(bs[i as int]));
        i = i + 1;
    }
    assert(bs.subrange(start as int, n as int) =~= bs.skip(start as int));
    Some(out)
}

/// One block of a batch applied to a candidate: a block at a height the
/// candidate has replaces everything from there on if its hash differs; a
/// block at the next height is appended; any other is ignored.
pub open spec fn candidate_step(c: Seq<BlockView>, b: BlockView) -> Seq<BlockView> {
    if b.index < c.len() {
        if c[b.index as int].hash != b.hash {
            c.take(b.index as int).push(b)
        } else {
            c
        }
    } else if b.index == c.len() {
        c.push(b)
    } else {
        c
    }
}

/// The candidate chain that a batch makes of `c`, block by block.
pub open spec fn candidate_of(c: Seq<BlockView>, batch: Seq<BlockView>) -> Seq<BlockView>
    decreases batch.len(),
{
    if batch.len() == 0 {
        c
    } else {
        candidate_step(candidate_of(c, batch.drop_last()), batch.last())
    }
}

/// Every block carries its position as its index.
pub open spec fn indexed_in_place(bs: Seq<BlockView>) -> bool {
    forall|i: int| 0 <= i < bs.len() ==> (#[trigger] bs[i]).index == i
}

/// A block that may follow a chain whose blocks sit at their indices sits at
/// its own index after it.
pub proof fn law_append_keeps_indices(bs: Seq<BlockView>, d: usize, b: BlockView)
    requires
        indexed_in_place(bs),
        appendable(bs, d, b),
    ensures
        indexed_in_place(bs.push(b)),
{
    assert forall|i: int| 0 <= i < bs.push(b).len() implies (#[trigger] bs.push(b)[i]).index == i by {
        if i < bs.len() {
            assert(bs.push(b)[i] == bs[i]);
        }
    }
}

proof fn lemma_candidate_extends(ours: Seq<BlockView>, theirs: Seq<BlockView>, k: int)
    requires
        indexed_in_place(theirs),
        0 < ours.len(),
        ours == theirs.take(ours.len() as int),
        0 <= k <= theirs.len() - ours.len(),
    ensures
        candidate_of(ours, theirs.subrange(ours.len() as int, ours.len() + k)) == theirs.take(
            ours.len() + k,
        ),
    decreases k,
{
    let n = ours.len() as int;
    let batch = theirs.subrange(n, n + k);
    if k == 0 {
        assert(batch =~= Seq::<BlockView>::empty());
    } else {
        assert(batch.drop_last() =~= theirs.subrange(n, n + k - 1));
        lemma_candidate_extends(ours, theirs, k - 1);
        let c = theirs.take(n + k - 1);
        let b = batch.last();
        assert(b == theirs[n + k - 1]);
        assert(b.index == n + k - 1);
        assert(c.push(b) =~= theirs.take(n + k));
    }
}

/// Sync reproduces a peer's chain: when the peer's chain extends ours, with
/// every block at its own index, the blocks it serves for our tip are the
/// ones we lack, and the batch built from them gives the peer's chain.
pub proof fn law_sync_reproduces_peer_chain(ours: Seq<BlockView>, theirs: Seq<BlockView>)
    requires
        indexed_in_place(theirs),
        0 < ours.len() < theirs.len(),
        ours == theirs.take(ours.len() as int),
    ensures
        blocks_served(theirs, height_of(ours), tip_hash_of(ours)) == Some(
            theirs.skip(ours.len() as int),
        ),
        candidate_of(ours, theirs.skip(ours.len() as int)) == theirs,
{
    let n = ours.len() as int;
    assert(ours.last() == theirs[n - 1]);
    assert(height_of(ours) == n - 1);
    assert(serve_start(theirs, height_of(ours), tip_hash_of(ours)) == n);
    assert(height_of(theirs) == theirs.len() - 1);
    lemma_candidate_extends(ours, theirs, theirs.len() - n);
    assert(theirs.subrange(n, theirs.len() as int) =~= theirs.skip(n));
    assert(theirs.take(theirs.len() as int) =~= theirs);
}

/// The chain that a batch of blocks from a peer makes of this one.
pub fn sync_candidate(chain: &Vec<Block>, batch: &Vec<Block>) -> (r: Vec<Block>)
    ensures
        blocks_view(r@) == candidate_of(blocks_view(chain@), blocks_view(batch@)),
{
    let ghost bv = blocks_view(batch@);
    let mut candidate: Vec<Block> = Vec::new();
    let n = chain.len();
    for i in 0..n
        invariant
            n == chain@.len(),
            blocks_view(candidate@) == blocks_view(chain@).take(i as int),
    {
        let ghost before = blocks_view(candidate@);
        candidate.push(chain[i].clone());
        assert(blocks_view(candidate@) =~= before.push(chain@[i as int]@));
        assert(blocks_view(chain@).take(i + 1) =~= blocks_view(chain@).take(i as int).push(chain@[i as int]@));
    }
    assert(blocks_view(chain@).take(n as int) =~= blocks_view(chain@));
    let m = batch.len();
    for j in 0..m
        invariant
            m == batch@.len(),
            bv == blocks_view(batch@),
            blocks_view(candidate@) == candidate_of(blocks_view(chain@), bv.take(j as int)),
    {
        let block = &batch[j];
        assert(bv[j as int] == block@);
        assert(bv.take(j + 1).drop_last() =~= bv.take(j as int));
        let ghost c = blocks_view(candidate@);
        let len = candidate.len();
        if block.index < len as u64 {
            let idx = block.index as usize;
            assert(c[idx as int] == candidate@[idx as int]@);
            if !str_eq(candidate[idx].hash.as_str(), block.hash.as_str()) {
                candidate.truncate(idx);
                candidate.push(block.clone());
                assert(blocks_view(candidate@) =~= c.take(idx as int).push(block@));
            }
        } else if block.index == len as u64 {
            candidate.push(block.clone());
            assert(blocks_view(candidate@) =~= c.push(block@));
        }
    }
    assert(bv.take(m as int) =~= bv);
    candidate
}

/// What became of a block that a peer announced.
#[derive(Debug, PartialEq, Eq, Structural)]
pub enum BlockReceipt {
    /// Appended to the chain; its transactions left the mempool.
    Appended,
    /// Refused, and it lies more than one block past the tip: the app asks
    /// for the blocks in between.
    Behind,
    /// Refused.
    Ignored,
}

/// What became of a transaction that a peer announced.
#[derive(Debug, PartialEq, Eq)]
pub enum TxReceipt {
    /// Already pending.
    Known,
    /// Valid and admitted to the mempool: the app passes it on.
    Accepted,
    /// Valid, but the mempool refused it for the reason given.
    Rejected(String),
    /// Not valid against a chain that is not yet in sync: the app keeps it
    /// to try again after the sync.
    Buffered,
    /// Not valid.
    Invalid,
}

/// The ids of the transactions of a block.
/// The fee a transaction is admitted with: the fee it pays, or 0 where
/// none can be taken.
pub open spec fn fee_or_zero(f: Option<int>) -> int {
    match f {
        Some(v) => v,
        None => 0,
    }
}

pub open spec fn block_tx_ids(b: BlockView) -> Seq<Seq<char>> {
    b.transactions.map_values(|t: crate::models::transaction::TxView| t.id)
}

impl Blockchain {
    /// Takes a block a peer announced: appended if it may follow the tip,
    /// its transactions then leaving the mempool.
    pub fn receive_block(&mut self, block: Block) -> (r: BlockReceipt)
        requires
            old(self).wf(),
            retarget_safe(old(self).blocks(), old(self).difficulty),
        ensures
            final(self).wf(),
            (r == BlockReceipt::Appended) == appendable(old(self).blocks(), old(self).difficulty, block@),
            r == BlockReceipt::Appended ==> {
                &&& final(self).blocks() == old(self).blocks().push(block@)
                &&& final(self).difficulty == block.difficulty
                &&& final(self).mempool.entries_view() == unconfirmed(
                    old(self).mempool.entries_view(),
                    block_tx_ids(block@),
                )
                &&& forall|op: OutPointView|
                    #[trigger] final(self).mempool.reserved_view().contains(op) <==> old(
                        self,
                    ).mempool.reserved_view().contains(op) && !confirmed_spends(
                        old(self).mempool.entries_view(),
                        block_tx_ids(block@),
                        op,
                    )
            },
            r != BlockReceipt::Appended ==> *final(self) == *old(self),
            r == BlockReceipt::Behind <==> !appendable(old(self).blocks(), old(self).difficulty, block@)
                && block.index > height_of(old(self).blocks()) + 1,
    {
        let mut confirmed: Vec<String> = Vec::new();
        let n = block.transactions.len();
        for i in 0..n
            invariant
                n == block.transactions@.len(),
                confirmed@.len() == i,
                forall|j: int| 0 <= j < i ==> (#[trigger] confirmed@[j])@ == block.transactions@[j]@.id,
        {
            confirmed.push(copy_string(&block.transactions[i].id));
        }
        assert(strings_view(confirmed@) =~= block_tx_ids(block@));
        let index = block.index;
        let height = self.height();
        let ghost bv = block@;
        if self.try_append_block(block) {
            assert(self.blocks() =~= old(self).blocks().push(bv));
            self.mempool.purge_confirmed(confirmed.as_slice());
            BlockReceipt::Appended
        } else if index > height && index - height > 1 {
            BlockReceipt::Behind
        } else {
            BlockReceipt::Ignored
        }
    }

    /// Takes a batch of blocks a peer served: the candidate it makes
    /// replaces the chain if it is longer and may replace it. Returns
    /// whether the node is now in sync: the chain was replaced, or the batch
    /// made it no longer.
    pub fn receive_blocks_batch(&mut self, blocks: Vec<Block>) -> (r: bool)
        requires
            old(self).wf(),
        ensures
            final(self).wf(),
            ({
                let cand = candidate_of(old(self).blocks(), blocks_view(blocks@));
                &&& r == (blocks@.len() > 0 && (cand.len() <= old(self).chain@.len() || replaceable(
                    old(self).blocks(),
                    cand,
                )))
                &&& blocks@.len() > 0 && cand.len() > old(self).chain@.len() && replaceable(
                    old(self).blocks(),
                    cand,
                ) ==> final(self).blocks() == cand && final(self).difficulty == cand.last().difficulty
                    && final(self).mempool == old(self).mempool
                &&& !(blocks@.len() > 0 && cand.len() > old(self).chain@.len() && replaceable(
                    old(self).blocks(),
                    cand,
                )) ==> *final(self) == *old(self)
            }),
    {
        if blocks.len() == 0 {
            return false;
        }
        let candidate = sync_candidate(&self.chain, &blocks);
        if candidate.len() > self.chain.len() {
            let ghost cv = blocks_view(candidate@);
            let ok = self.try_replace_chain(candidate);
            if ok {
                assert(self.blocks() =~= cv);
                assert(cv.last() == self.chain@.last()@);
            }
            ok
        } else {
            true
        }
    }

    /// Takes a transaction a peer announced: admitted to the mempool if it
    /// is new and valid; kept for later if it is not valid and the node is
    /// not yet in sync.
    pub fn receive_tx(&mut self, tx: Transaction, synced: bool) -> (r: TxReceipt)
        requires
            old(self).wf(),
            fee_fits(tx@, utxo_map(old(self).blocks())),
        ensures
            final(self).wf(),
            final(self).chain@ == old(self).chain@,
            final(self).difficulty == old(self).difficulty,
            final(self).mining_reward == old(self).mining_reward,
            r != TxReceipt::Accepted ==> *final(self) == *old(self),
            ({
                let known = has_id(old(self).mempool.entries_view(), tx@.id);
                let valid = tx_valid_against(tx@, utxo_map(old(self).blocks()));
                &&& (r == TxReceipt::Known) == known
                &&& (r == TxReceipt::Buffered) == (!known && !valid && !synced)
                &&& (r == TxReceipt::Invalid) == (!known && !valid && synced)
                &&& (r == TxReceipt::Accepted) == (!known && valid && !spends_reserved(
                    tx@,
                    old(self).mempool.reserved_view(),
                ))
                &&& (r is Rejected) == (!known && valid && spends_reserved(
                    tx@,
                    old(self).mempool.reserved_view(),
                ))
                &&& r matches TxReceipt::Rejected(e) ==> e@ == "Double-spend detected"@
                &&& r == TxReceipt::Accepted ==> {
                    &&& inserted_by_fee(
                        old(self).mempool.entries_view(),
                        final(self).mempool.entries_view(),
                        EntryView { tx: tx@, fee: fee_or_zero(fee_of(tx@, utxo_map(old(self).blocks()))) as u64 },
                    )
                    &&& forall|op: OutPointView|
                        #[trigger] final(self).mempool.reserved_view().contains(op) <==> old(
                            self,
                        ).mempool.reserved_view().contains(op) || spends(tx@, op)
                }
            }),
    {
        if self.mempool.contains(tx.id.as_str()) {
            return TxReceipt::Known;
        }
        if self.validate_transaction(&tx) {
            let fee = match self.calculate_fee(&tx) {
                Some(f) => f,
                None => 0,
            };
            match self.mempool.add(tx, fee) {
                Ok(()) => TxReceipt::Accepted,
                Err(e) => TxReceipt::Rejected(e),
            }
        } else if !synced {
            TxReceipt::Buffered
        } else {
            TxReceipt::Invalid
        }
    }
}

/// Whether a node has peers and has caught up with them.
#[derive(Debug, Clone, Copy, PartialEq, Eq, Structural)]
pub struct SyncState {
    pub has_peers: bool,
    pub synced: bool,
}

impl SyncState {
    /// No peers yet, not in sync.
    pub fn new() -> (r: SyncState)
        ensures
            !r.has_peers,
            !r.synced,
    {
        SyncState { has_peers: false, synced: false }
    }

    /// On the periodic timer: whether to ask peers for blocks.
    pub fn wants_sync(&self) -> (r: bool)
        ensures
            r == (self.has_peers && !self.synced),
    {
        self.has_peers && !self.synced
    }

    /// A peer joined a topic: there are peers, and the node must catch up
    /// again.
    pub fn on_subscribed(&mut self)
        ensures
            final(self).has_peers,
            !final(self).synced,
    {
        self.has_peers = true;
        self.synced = false;
    }

    /// A connection opened: there are peers; a chain still at height 0 must
    /// catch up.
    pub fn on_connection_established(&mut self, height: u64)
        ensures
            final(self).has_peers,
            final(self).synced == (old(self).synced && height != 0),
    {
        self.has_peers = true;
        if height == 0 {
            self.synced = false;
        }
    }

    /// A connection closed: with no peer left, there are none and the node
    /// is no longer in sync.
    pub fn on_connection_closed(&mut self, remaining_peers: usize)
        ensures
            remaining_peers == 0 ==> !final(self).has_peers && !final(self).synced,
            remaining_peers > 0 ==> *final(self) == *old(self),
    {
        if remaining_peers == 0 {
            self.has_peers = false;
            self.synced = false;
        }
    }

    /// A batch of blocks brought the node in sync.
    pub fn on_synced(&mut self)
        ensures
            final(self).synced,
            final(self).has_peers == old(self).has_peers,
    {
        self.synced = true;
    }
}

} // verus!
