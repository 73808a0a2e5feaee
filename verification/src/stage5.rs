//! The ledger whose blocks hold four transactions each, are sealed by proof
//! of work and name the elected miner by a text id.

use vstd::prelude::*;
use std::collections::HashMap;
use crate::ledger::{
    after_transfer, can_pay, check_transfer_fits, lemma_transfer_keeps_total, total, transfer_fits,
};
use crate::merkle::{MerkleNode, Unpaired};
use crate::mining::{
    find_nonce, is_least_nonce, lemma_least_nonce_exists, lemma_least_nonce_unique, least_nonce,
    nonce_exists,
};
use crate::sealing::{
    block_hash, block_hash_text, election, is_winner, lemma_election, lemma_election_outcome,
    no_winner, slot_defined, slot_index, slot_of,
};
use crate::digest::spec_hash;
use crate::text::decimal;
use vstd::utf8::encode_utf8;
use crate::transaction::{
    merkle_root_of, ranking, merkle_root_text, merkle_tree_of,
    sort_transactions, Transaction,
};

pub use crate::transaction::execute_transaction;

verus! {

/// The number of transactions after which a block is sealed.
pub const BLOCK_CAPACITY: usize = 4;

/// A miner: its id, its computation score and its eight block hash scores.
#[derive(Debug)]
pub struct Miner {
    pub id: String,
    pub computation_score: i32,
    pub block_hash_score_array: Vec<i32>,
}

/// A sealed block.
#[derive(Debug)]
pub struct Block {
    pub block_number: i32,
    pub merkle_root: String,
    pub block_hash: String,
    pub transactions: Vec<Transaction>,
    pub nonce: i32,
    pub miner_id: String,
}

/// The value of a sealed block.
pub struct SealedBlock {
    pub block_number: int,
    pub merkle_root: Seq<char>,
    pub block_hash: Seq<char>,
    pub transactions: Seq<Transaction>,
    pub nonce: int,
    pub miner_id: Seq<char>,
}

impl Block {
    /// The value of this block.
    pub open spec fn model(self) -> SealedBlock {
        SealedBlock {
            block_number: self.block_number as int,
            merkle_root: self.merkle_root@,
            block_hash: self.block_hash@,
            transactions: self.transactions@,
            nonce: self.nonce as int,
            miner_id: self.miner_id@,
        }
    }
}

/// The values of a sequence of blocks.
pub open spec fn block_models(blocks: Seq<Block>) -> Seq<SealedBlock> {
    blocks.map_values(|b: Block| b.model())
}

/// The sealing score of each miner for `slot`: its computation score times
/// its block hash score at that slot.
pub open spec fn sealing_scores(miners: Seq<Miner>, slot: int) -> Seq<int> {
    Seq::new(
        miners.len(),
        |i: int| miners[i].computation_score * miners[i].block_hash_score_array@[slot],
    )
}

/// Every miner has a score at `slot` and its sealing score fits in `i32`.
pub open spec fn scores_fit(miners: Seq<Miner>, slot: int) -> bool {
    forall|i: int|
        0 <= i < miners.len() ==> {
            &&& slot < (#[trigger] miners[i]).block_hash_score_array@.len()
            &&& i32::MIN <= miners[i].computation_score * miners[i].block_hash_score_array@[slot]
                <= i32::MAX
        }
}

/// The id written into a block sealed at `slot`: the winner's, or the empty
/// text when nobody wins.
pub open spec fn elected_id(miners: Seq<Miner>, slot: int) -> Seq<char> {
    match election(sealing_scores(miners, slot)) {
        Some(i) => miners[i].id@,
        None => Seq::empty(),
    }
}

/// Whether block `number` over `txs` can be sealed after `prev`: its slot
/// exists (where there are miners to score), the scores fit, and some nonce
/// in `0..=i32::MAX` seals it.
pub open spec fn can_seal(number: int, prev: Seq<char>, txs: Seq<Transaction>, miners: Seq<Miner>) -> bool {
    &&& slot_defined(number) || miners.len() == 0
    &&& scores_fit(miners, slot_of(number))
    &&& nonce_exists(block_hash_text(prev, number, merkle_root_text(txs, Unpaired::Promote)))
}

/// The block `create_block` seals.
pub open spec fn sealed_block(
    number: int,
    prev: Seq<char>,
    txs: Seq<Transaction>,
    miners: Seq<Miner>,
) -> SealedBlock {
    let root = merkle_root_text(txs, Unpaired::Promote);
    let hash = block_hash_text(prev, number, root);
    SealedBlock {
        block_number: number,
        merkle_root: root,
        block_hash: hash,
        transactions: txs,
        nonce: least_nonce(hash),
        miner_id: elected_id(miners, slot_of(number)),
    }
}

/// The Merkle tree of `transactions`, a node without partner being carried
/// up alone; `None` for no transactions.
pub fn build_merkle_tree(transactions: &[Transaction]) -> (res: Option<MerkleNode>)
    ensures
        match res {
            None => transactions@.len() == 0,
            Some(root) => transactions@.len() > 0 && root.model() == crate::merkle::merkle_tree(
                crate::transaction::leaves(transactions@),
                Unpaired::Promote,
            ) && crate::digest::is_hex_hash(root.hash@),
        },
{
    merkle_tree_of(transactions, Unpaired::Promote)
}

/// The Merkle root text of `transactions`: 64 lower-case hexadecimal
/// digits, or `"0"` for no transactions.
pub fn get_merkle_root(transactions: &[Transaction]) -> (res: String)
    ensures
        res@ == merkle_root_text(transactions@, Unpaired::Promote),
        transactions@.len() > 0 ==> crate::digest::is_hex_hash(res@),
{
    merkle_root_of(transactions, Unpaired::Promote)
}

/// Elects the miner with the highest sealing score at `slot`, the first such
/// on a tie; nobody when no score exceeds -1.
fn elect(miners: &[Miner], slot: usize) -> (res: Option<usize>)
    requires
        scores_fit(miners@, slot as int),
    ensures
        match res {
            Some(i) => is_winner(sealing_scores(miners@, slot as int), i as int),
            None => no_winner(sealing_scores(miners@, slot as int)),
        },
{
    let ghost scores = sealing_scores(miners@, slot as int);
    let mut max_score: i32 = -1;
    let mut selected: Option<usize> = None;
    let n = miners.len();
    let mut k: usize = 0;
    while k < n
        invariant
            n == miners@.len(),
            k <= n,
            scores == sealing_scores(miners@, slot as int),
            scores_fit(miners@, slot as int),
            forall|j: int| 0 <= j < k ==> #[trigger] scores[j] <= max_score,
            match selected {
                Some(i) => {
                    &&& i < k
                    &&& scores[i as int] == max_score
                    &&& max_score > -1
                    &&& forall|j: int| 0 <= j < i ==> #[trigger] scores[j] < max_score
                },
                None => max_score == -1,
            },
        decreases n - k,
    {
        let miner = &miners[k];
        assert(slot < miner.block_hash_score_array@.len());
        let block_hash_score = miner.block_hash_score_array[slot];
        let block_sealing_score = miner.computation_score * block_hash_score;
        assert(scores[k as int] == block_sealing_score);
        if block_sealing_score > max_score {
            max_score = block_sealing_score;
            selected = Some(k);
        }
        k = k + 1;
    }
    selected
}

/// Decides `scores_fit`.
fn check_scores_fit(miners: &[Miner], slot: usize) -> (res: bool)
    ensures
        res == scores_fit(miners@, slot as int),
{
    let n = miners.len();
    let mut k: usize = 0;
    while k < n
        invariant
            n == miners@.len(),
            k <= n,
            forall|i: int|
                0 <= i < k ==> {
                    &&& slot < (#[trigger] miners@[i]).block_hash_score_array@.len()
                    &&& i32::MIN <= miners@[i].computation_score
                        * miners@[i].block_hash_score_array@[slot as int] <= i32::MAX
                },
        decreases n - k,
    {
        let miner = &miners[k];
        if slot >= miner.block_hash_score_array.len() {
            return false;
        }
        let a = miner.computation_score as i64;
        let b = miner.block_hash_score_array[slot] as i64;
        assert(-0x8000_0000 * 0x8000_0000 <= a * b <= 0x8000_0000 * 0x8000_0000) by (nonlinear_arith)
            requires
                -0x8000_0000 <= a <= 0x7fff_ffff,
                -0x8000_0000 <= b <= 0x7fff_ffff,
        ;
        let score: i64 = a * b;
        if score < i32::MIN as i64 || score > i32::MAX as i64 {
            return false;
        }
        k = k + 1;
    }
    true
}

/// Seals block `block_number` over `transactions` after the block with hash
/// `prev_block_hash`: its Merkle root, its hash, the least nonce that makes
/// the hash of hash and nonce end in `'0'`, and the id of the elected miner.
pub fn create_block(
    block_number: i32,
    prev_block_hash: &str,
    transactions: Vec<Transaction>,
    miners: &[Miner],
) -> (res: Block)
    requires
        can_seal(block_number as int, prev_block_hash@, transactions@, miners@),
    ensures
        res.model() == sealed_block(block_number as int, prev_block_hash@, transactions@, miners@),
{
    let merkle_root = get_merkle_root(transactions.as_slice());
    let hash = block_hash(prev_block_hash, block_number, merkle_root.as_str());
    let nonce = match find_nonce(&hash) {
        Some(n) => n,
        None => 0,
    };
    proof {
        lemma_least_nonce_unique(hash@, nonce as int);
    }
    let selected = if miners.len() == 0 {
        None
    } else {
        elect(miners, slot_index(block_number))
    };
    let miner_id = match selected {
        Some(i) => miners[i].id.clone(),
        None => String::new(),
    };
    proof {
        lemma_election(
            sealing_scores(miners@, slot_of(block_number as int)),
            match selected {
                Some(i) => Some(i as int),
                None => None,
            },
        );
    }
    Block { block_number, merkle_root, block_hash: hash, transactions, nonce, miner_id }
}

/// Decides `can_seal`.
fn check_can_seal(
    block_number: i32,
    prev_block_hash: &str,
    transactions: &Vec<Transaction>,
    miners: &[Miner],
) -> (res: bool)
    ensures
        res == can_seal(block_number as int, prev_block_hash@, transactions@, miners@),
{
    if miners.len() > 0 {
        if block_number < 0 && block_number % 8 != 0 {
            return false;
        }
        if !check_scores_fit(miners, slot_index(block_number)) {
            return false;
        }
    }
    let merkle_root = get_merkle_root(transactions.as_slice());
    let hash = block_hash(prev_block_hash, block_number, merkle_root.as_str());
    match find_nonce(&hash) {
        None => false,
        Some(_) => true,
    }
}

/// Seals the block as `create_block` does, or returns `None` where that
/// block cannot be sealed.
pub fn try_create_block(
    block_number: i32,
    prev_block_hash: &str,
    transactions: Vec<Transaction>,
    miners: &[Miner],
) -> (res: Option<Block>)
    ensures
        match res {
            Some(b) => can_seal(block_number as int, prev_block_hash@, transactions@, miners@)
                && b.model() == sealed_block(
                block_number as int,
                prev_block_hash@,
                transactions@,
                miners@,
            ),
            None => !can_seal(block_number as int, prev_block_hash@, transactions@, miners@),
        },
{
    if check_can_seal(block_number, prev_block_hash, &transactions, miners) {
        Some(create_block(block_number, prev_block_hash, transactions, miners))
    } else {
        None
    }
}

/// The state of the block-producing loop: the balances, the executed
/// transactions waiting for a block, the blocks sealed so far, the number of
/// the next block and the hash text of the last block (`"0"` before the
/// first).
#[verifier::ext_equal]
pub struct ChainState {
    pub balances: Map<u32, i32>,
    pub pending: Seq<Transaction>,
    pub blocks: Seq<SealedBlock>,
    pub next_number: int,
    pub prev_hash: Seq<char>,
}

/// The state before any transaction.
pub open spec fn initial_state(balances: Map<u32, i32>) -> ChainState {
    ChainState {
        balances,
        pending: Seq::empty(),
        blocks: Seq::empty(),
        next_number: 1,
        prev_hash: seq!['0'],
    }
}

/// Offers `tx` to the ledger: a refused transfer changes nothing; an
/// executed one waits for a block, and the fourth waiting transaction seals
/// one. `None` where the program aborts: a balance would leave `i32`, a
/// block cannot be sealed, or the block number would pass `i32::MAX`.
#[verifier::opaque]
pub open spec fn step(s: ChainState, tx: Transaction, miners: Seq<Miner>) -> Option<ChainState> {
    if !transfer_fits(s.balances, tx.from, tx.to, tx.amount) {
        None
    } else if !can_pay(s.balances, tx.from, tx.amount) {
        Some(s)
    } else {
        let balances = after_transfer(s.balances, tx.from, tx.to, tx.amount);
        let pending = s.pending.push(tx);
        if pending.len() != BLOCK_CAPACITY {
            Some(ChainState { balances, pending, ..s })
        } else if !can_seal(s.next_number, s.prev_hash, pending, miners) || s.next_number
            >= i32::MAX {
            None
        } else {
            let block = sealed_block(s.next_number, s.prev_hash, pending, miners);
            Some(
                ChainState {
                    balances,
                    pending: Seq::empty(),
                    blocks: s.blocks.push(block),
                    next_number: s.next_number + 1,
                    prev_hash: block.block_hash,
                },
            )
        }
    }
}

/// The state after offering the first `n` transactions of `txs`.
pub open spec fn run_prefix(
    init: ChainState,
    txs: Seq<Transaction>,
    miners: Seq<Miner>,
    n: nat,
) -> Option<ChainState>
    decreases n,
{
    if n == 0 {
        Some(init)
    } else {
        match run_prefix(init, txs, miners, (n - 1) as nat) {
            Some(s) => step(s, txs[n - 1], miners),
            None => None,
        }
    }
}

/// Seals the transactions still waiting, if any, into a last block.
pub open spec fn finish(s: ChainState, miners: Seq<Miner>) -> Option<ChainState> {
    if s.pending.len() == 0 {
        Some(s)
    } else if !can_seal(s.next_number, s.prev_hash, s.pending, miners) {
        None
    } else {
        let block = sealed_block(s.next_number, s.prev_hash, s.pending, miners);
        Some(ChainState { pending: Seq::empty(), blocks: s.blocks.push(block), ..s })
    }
}

/// The final state of the ledger fed `txs` in order; `None` where the
/// program aborts.
pub open spec fn spec_chain(balances: Map<u32, i32>, txs: Seq<Transaction>, miners: Seq<Miner>) -> Option<ChainState> {
    match run_prefix(initial_state(balances), txs, miners, txs.len()) {
        Some(s) => finish(s, miners),
        None => None,
    }
}

/// Once the loop aborts it stays aborted.
pub proof fn lemma_prefix_aborted(init: ChainState, txs: Seq<Transaction>, miners: Seq<Miner>, i: nat, j: nat)
    requires
        i <= j,
        run_prefix(init, txs, miners, i) is None,
    ensures
        run_prefix(init, txs, miners, j) is None,
    decreases j - i,
{
    if i < j {
        lemma_prefix_aborted(init, txs, miners, i, (j - 1) as nat);
    }
}

/// The state the loop variables stand for.
pub open spec fn state_of(
    balances: Map<u32, i32>,
    current: Seq<Transaction>,
    blocks: Seq<Block>,
    block_number: i32,
    prev_block_hash: Seq<char>,
) -> ChainState {
    ChainState {
        balances,
        pending: current,
        blocks: block_models(blocks),
        next_number: block_number as int,
        prev_hash: prev_block_hash,
    }
}

/// Offers one transaction (one `step`); `false` where the program aborts.
fn offer(
    balances: &mut HashMap<u32, i32>,
    current: &mut Vec<Transaction>,
    blocks: &mut Vec<Block>,
    block_number: &mut i32,
    prev_block_hash: &mut String,
    txn: Transaction,
    miners: &[Miner],
) -> (ok: bool)
    requires
        old(current).len() < BLOCK_CAPACITY,
    ensures
        ok ==> step(
            state_of(
                old(balances)@,
                old(current)@,
                old(blocks)@,
                *old(block_number),
                old(prev_block_hash)@,
            ),
            txn,
            miners@,
        ) == Some(
            state_of(
                final(balances)@,
                final(current)@,
                final(blocks)@,
                *final(block_number),
                final(prev_block_hash)@,
            ),
        ),
        ok ==> final(current).len() < BLOCK_CAPACITY,
        !ok ==> step(
            state_of(
                old(balances)@,
                old(current)@,
                old(blocks)@,
                *old(block_number),
                old(prev_block_hash)@,
            ),
            txn,
            miners@,
        ) is None,
{
    reveal(step);
    if !check_transfer_fits(balances, txn.from, txn.to, txn.amount) {
        return false;
    }
    if !execute_transaction(&txn, balances) {
        return true;
    }
    current.push(txn);
    if current.len() < BLOCK_CAPACITY {
        return true;
    }
    let mut full: Vec<Transaction> = Vec::new();
    std::mem::swap(&mut full, current);
    match try_create_block(*block_number, prev_block_hash.as_str(), full, miners) {
        None => false,
        Some(block) => {
            if *block_number == i32::MAX {
                return false;
            }
            *prev_block_hash = block.block_hash.clone();
            let ghost old_blocks = blocks@;
            blocks.push(block);
            *block_number = *block_number + 1;
            assert(block_models(blocks@) =~= block_models(old_blocks).push(block.model()));
            assert(current@ =~= Seq::<Transaction>::empty());
            true
        },
    }
}

/// Executes `transactions` in order against `balances` and seals every four
/// executed ones into a block, then the rest into a last block. Block 1
/// follows the hash `"0"`, each later block the hash of the one before.
/// `None` where the program aborts (see `step`).
pub fn run_chain(
    balances: &mut HashMap<u32, i32>,
    transactions: &Vec<Transaction>,
    miners: &[Miner],
) -> (res: Option<Vec<Block>>)
    ensures
        match spec_chain(old(balances)@, transactions@, miners@) {
            Some(s) => res matches Some(blocks) && block_models(blocks@) == s.blocks
                && final(balances)@ == s.balances,
            None => res is None,
        },
        res matches Some(blocks) ==> forall|k: int|
            0 <= k < blocks@.len() ==> 1 <= (#[trigger] blocks@[k]).transactions@.len() <= 4 && (k
                < blocks@.len() - 1 ==> blocks@[k].transactions@.len() == 4),
{
    let ghost init = initial_state(old(balances)@);
    let ghost txs = transactions@;
    let mut blocks: Vec<Block> = Vec::new();
    let mut block_number: i32 = 1;
    let zero = "0";
    proof {
        reveal_strlit("0");
    }
    let mut prev_block_hash: String = zero.to_owned();
    let mut current: Vec<Transaction> = Vec::new();
    let n = transactions.len();
    let mut i: usize = 0;
    assert(state_of(balances@, current@, blocks@, block_number, prev_block_hash@) =~= init);
    while i < n
        invariant
            n == txs.len(),
            txs == transactions@,
            init == initial_state(old(balances)@),
            i <= n,
            run_prefix(init, txs, miners@, i as nat) == Some(
                state_of(balances@, current@, blocks@, block_number, prev_block_hash@),
            ),
            current.len() < BLOCK_CAPACITY,
        decreases n - i,
    {
        let txn = transactions[i];
        let ghost before = state_of(balances@, current@, blocks@, block_number, prev_block_hash@);
        assert(run_prefix(init, txs, miners@, (i + 1) as nat) == step(before, txn, miners@));
        let ok = offer(
            balances,
            &mut current,
            &mut blocks,
            &mut block_number,
            &mut prev_block_hash,
            txn,
            miners,
        );
        if !ok {
            proof {
                lemma_prefix_aborted(init, txs, miners@, (i + 1) as nat, n as nat);
            }
            return None;
        }
        i = i + 1;
    }
    let ghost last = state_of(balances@, current@, blocks@, block_number, prev_block_hash@);
    assert(run_prefix(init, txs, miners@, txs.len()) == Some(last));
    assert(spec_chain(old(balances)@, transactions@, miners@) == finish(last, miners@));
    if current.len() > 0 {
        let ghost pending = current@;
        match try_create_block(block_number, prev_block_hash.as_str(), current, miners) {
            None => {
                assert(!can_seal(block_number as int, prev_block_hash@, pending, miners@));
                assert(last.pending.len() > 0);
                assert(finish(last, miners@) is None);
                return None;
            },
            Some(block) => {
                blocks.push(block);
                assert(block_models(blocks@) =~= last.blocks.push(block.model()));
            },
        }
    }
    proof {
        let s = spec_chain(old(balances)@, transactions@, miners@).unwrap();
        lemma_blocks_of_four(old(balances)@, transactions@, miners@);
        assert forall|k: int| 0 <= k < blocks@.len() implies 1 <= (#[trigger] blocks@[k]).transactions@.len() <= 4 && (k
            < blocks@.len() - 1 ==> blocks@[k].transactions@.len() == 4) by {
            assert(block_models(blocks@)[k] == blocks@[k].model());
            assert(s.blocks[k] == blocks@[k].model());
        }
    }
    Some(blocks)
}

/// Orders `transactions` by incentive and receiver (see
/// `sort_transactions`), then runs the ledger on them (see `run_chain`).
pub fn process_transactions(
    balances: &mut HashMap<u32, i32>,
    transactions: Vec<Transaction>,
    miners: &[Miner],
) -> (res: Option<Vec<Block>>)
    ensures
        match spec_chain(old(balances)@, ranking(transactions@), miners@) {
            Some(s) => res matches Some(blocks) && block_models(blocks@) == s.blocks
                && final(balances)@ == s.balances,
            None => res is None,
        },
{
    let mut ordered = transactions;
    sort_transactions(&mut ordered);
    run_chain(balances, &ordered, miners)
}

/// The hash text that block `k` of `blocks` follows: `"0"` for the first.
pub open spec fn hash_before(blocks: Seq<SealedBlock>, k: int) -> Seq<char> {
    if k == 0 {
        seq!['0']
    } else {
        blocks[k - 1].block_hash
    }
}

/// The blocks form a chain sealed by `miners`: block `k` (counting from 0)
/// is numbered `k + 1`; its hash covers the hash of the block before it
/// (`"0"` for the first), its number and its Merkle root; it is the block
/// `create_block` seals from its transactions, so its nonce is the least
/// that meets the target and its miner the elected one; every block but the
/// last holds `BLOCK_CAPACITY` transactions, the last between one and that
/// many.
pub open spec fn is_chain(blocks: Seq<SealedBlock>, miners: Seq<Miner>) -> bool {
    forall|k: int|
        0 <= k < blocks.len() ==> {
            &&& (#[trigger] blocks[k]).block_number == k + 1
            &&& blocks[k].block_hash == block_hash_text(
                hash_before(blocks, k),
                k + 1,
                blocks[k].merkle_root,
            )
            &&& blocks[k] == sealed_block(k + 1, hash_before(blocks, k), blocks[k].transactions, miners)
            &&& is_least_nonce(blocks[k].block_hash, blocks[k].nonce)
            &&& k < blocks.len() - 1 ==> blocks[k].transactions.len() == BLOCK_CAPACITY
            &&& 1 <= blocks[k].transactions.len() <= BLOCK_CAPACITY
        }
}

/// What holds of every state the loop reaches.
pub open spec fn reachable_shape(s: ChainState, miners: Seq<Miner>) -> bool {
    &&& is_chain(s.blocks, miners)
    &&& forall|k: int|
        0 <= k < s.blocks.len() ==> (#[trigger] s.blocks[k]).transactions.len() == BLOCK_CAPACITY
    &&& s.next_number == s.blocks.len() + 1
    &&& s.prev_hash == hash_before(s.blocks, s.blocks.len() as int)
    &&& s.pending.len() < BLOCK_CAPACITY
}

/// Appending the block sealed from `txs` after the last block of a chain
/// extends the chain.
proof fn lemma_chain_extends(blocks: Seq<SealedBlock>, txs: Seq<Transaction>, miners: Seq<Miner>)
    requires
        is_chain(blocks, miners),
        forall|k: int| 0 <= k < blocks.len() ==> (#[trigger] blocks[k]).transactions.len() == BLOCK_CAPACITY,
        1 <= txs.len() <= BLOCK_CAPACITY,
        can_seal(blocks.len() + 1int, hash_before(blocks, blocks.len() as int), txs, miners),
    ensures
        is_chain(
            blocks.push(
                sealed_block(blocks.len() + 1int, hash_before(blocks, blocks.len() as int), txs, miners),
            ),
            miners,
        ),
{
    let block = sealed_block(blocks.len() + 1int, hash_before(blocks, blocks.len() as int), txs, miners);
    let t = blocks.push(block);
    lemma_least_nonce_exists(block.block_hash);
    assert forall|k: int| 0 <= k < t.len() implies {
        &&& (#[trigger] t[k]).block_number == k + 1
        &&& t[k].block_hash == block_hash_text(hash_before(t, k), k + 1, t[k].merkle_root)
        &&& t[k] == sealed_block(k + 1, hash_before(t, k), t[k].transactions, miners)
        &&& is_least_nonce(t[k].block_hash, t[k].nonce)
        &&& k < t.len() - 1 ==> t[k].transactions.len() == BLOCK_CAPACITY
        &&& 1 <= t[k].transactions.len() <= BLOCK_CAPACITY
    } by {
        if k < blocks.len() {
            assert(t[k] == blocks[k]);
            assert(hash_before(t, k) == hash_before(blocks, k));
        } else {
            assert(hash_before(t, k) == hash_before(blocks, k));
        }
    }
}

proof fn lemma_step_keeps_shape(s: ChainState, tx: Transaction, miners: Seq<Miner>)
    requires
        reachable_shape(s, miners),
        step(s, tx, miners) is Some,
    ensures
        reachable_shape(step(s, tx, miners).unwrap(), miners),
{
    reveal(step);
    let t = step(s, tx, miners).unwrap();
    if t.blocks.len() > s.blocks.len() {
        let pending = s.pending.push(tx);
        lemma_chain_extends(s.blocks, pending, miners);
        assert(t.blocks == s.blocks.push(t.blocks.last()));
        assert forall|k: int| 0 <= k < t.blocks.len() implies (#[trigger] t.blocks[k]).transactions.len()
            == BLOCK_CAPACITY by {
            if k < s.blocks.len() {
                assert(t.blocks[k] == s.blocks[k]);
            }
        }
    }
}

proof fn lemma_prefix_shape(init: ChainState, txs: Seq<Transaction>, miners: Seq<Miner>, n: nat)
    requires
        reachable_shape(init, miners),
        run_prefix(init, txs, miners, n) is Some,
    ensures
        reachable_shape(run_prefix(init, txs, miners, n).unwrap(), miners),
    decreases n,
{
    if n > 0 {
        lemma_prefix_shape(init, txs, miners, (n - 1) as nat);
        lemma_step_keeps_shape(run_prefix(init, txs, miners, (n - 1) as nat).unwrap(), txs[n - 1], miners);
    }
}

/// The blocks of every run that completes form a chain sealed by the
/// run's miners (see `is_chain`).
pub proof fn lemma_run_forms_chain(balances: Map<u32, i32>, txs: Seq<Transaction>, miners: Seq<Miner>)
    requires
        spec_chain(balances, txs, miners) is Some,
    ensures
        is_chain(spec_chain(balances, txs, miners).unwrap().blocks, miners),
{
    let init = initial_state(balances);
    assert(init.blocks =~= Seq::<SealedBlock>::empty());
    lemma_prefix_shape(init, txs, miners, txs.len());
    let s = run_prefix(init, txs, miners, txs.len()).unwrap();
    if s.pending.len() > 0 {
        lemma_chain_extends(s.blocks, s.pending, miners);
    }
}

/// The values a miner line gives.
pub struct MinerEntry {
    pub id: Seq<char>,
    pub computation_score: i32,
    pub block_hash_scores: Seq<i32>,
}

/// The values of a miner.
pub open spec fn miner_entry(m: Miner) -> MinerEntry {
    MinerEntry {
        id: m.id@,
        computation_score: m.computation_score,
        block_hash_scores: m.block_hash_score_array@,
    }
}

/// A miner line: its first word is the id, the second the computation
/// score and the next eight the block hash scores (words after the tenth
/// are ignored).
pub open spec fn miner_record(line: Seq<char>) -> Option<MinerEntry> {
    let w = crate::input::words(line);
    if w.len() < 10 {
        None
    } else {
        match crate::input::parse_i32(w[1]) {
            None => None,
            Some(cs) => if forall|k: int| 2 <= k < 10 ==> (#[trigger] crate::input::parse_i32(w[k])) is Some {
                Some(
                    MinerEntry {
                        id: w[0],
                        computation_score: cs,
                        block_hash_scores: Seq::new(8, |k: int| crate::input::parse_i32(w[k + 2])->0),
                    },
                )
            } else {
                None
            },
        }
    }
}

/// A miner line is read word by word: where it gives a miner, it has at
/// least ten words, the id comes from the first, the computation score is
/// the integer of the second and the `k`-th block hash score the integer of
/// word `k + 2`; it gives none exactly where there are fewer than ten words
/// or one of words two to ten is no `i32`.
pub proof fn lemma_miner_record_words(line: Seq<char>)
    ensures
        ({
            let w = crate::input::words(line);
            match miner_record(line) {
                Some(m) => w.len() >= 10 && m.id == w[0] && crate::input::parse_i32(w[1]) == Some(m.computation_score)
                    && m.block_hash_scores.len() == 8 && forall|k: int|
                    0 <= k < 8 ==> crate::input::parse_i32(w[k + 2]) == Some(#[trigger] m.block_hash_scores[k]),
                None => w.len() < 10 || exists|k: int| 1 <= k < 10 && #[trigger] crate::input::parse_i32(w[k]) is None,
            }
        }),
{
    let w = crate::input::words(line);
    if w.len() >= 10 {
        if !(forall|k: int| 2 <= k < 10 ==> (#[trigger] crate::input::parse_i32(w[k])) is Some) {
            let k = choose|k: int| !(2 <= k < 10 ==> (#[trigger] crate::input::parse_i32(w[k])) is Some);
            assert(1 <= k < 10 && crate::input::parse_i32(w[k]) is None);
        }
    }
}

/// `miner_record` as a function value.
pub open spec fn miner_parser() -> spec_fn(Seq<char>) -> Option<MinerEntry> {
    |l: Seq<char>| miner_record(l)
}

/// Reads a miner line (see `miner_record`).
pub fn read_miner(line: &Vec<char>) -> (res: Option<Miner>)
    ensures
        match miner_record(line@) {
            Some(e) => res matches Some(m) && miner_entry(m) == e,
            None => res is None,
        },
        ({
            let w = crate::input::words(line@);
            match res {
                Some(m) => w.len() >= 10 && m.id@ == w[0] && crate::input::parse_i32(w[1]) == Some(m.computation_score)
                    && m.block_hash_score_array@.len() == 8 && forall|k: int|
                    0 <= k < 8 ==> crate::input::parse_i32(w[k + 2]) == Some(#[trigger] m.block_hash_score_array@[k]),
                None => w.len() < 10 || exists|k: int| 1 <= k < 10 && #[trigger] crate::input::parse_i32(w[k]) is None,
            }
        }),
{
    proof {
        lemma_miner_record_words(line@);
    }
    let w = crate::input::split_words(line);
    if w.len() < 10 {
        return None;
    }
    let ghost ws = crate::input::texts(w@);
    assert(forall|k: int| 0 <= k < 10 ==> ws[k] == (#[trigger] w@[k])@);
    let id = crate::input::string_of(&w[0]);
    let computation_score = match crate::input::read_i32(&w[1]) {
        Some(v) => v,
        None => {
            assert(ws[1] == w@[1]@);
            return None;
        },
    };
    let mut scores: Vec<i32> = Vec::new();
    let mut k: usize = 2;
    while k < 10
        invariant
            2 <= k <= 10,
            w@.len() >= 10,
            ws == crate::input::texts(w@),
            ws == crate::input::words(line@),
            crate::input::parse_i32(ws[1]) is Some,
            scores@.len() == k - 2,
            forall|j: int| 2 <= j < k ==> (#[trigger] crate::input::parse_i32(ws[j])) is Some,
            forall|j: int|
                0 <= j < k - 2 ==> scores@[j] == (crate::input::parse_i32(ws[j + 2]))->0,
        decreases 10 - k,
    {
        assert(ws[k as int] == w@[k as int]@);
        match crate::input::read_i32(&w[k]) {
            Some(v) => {
                scores.push(v);
            },
            None => {
                assert(crate::input::parse_i32(ws[k as int]) is None);
                return None;
            },
        }
        k = k + 1;
    }
    let m = Miner { id, computation_score, block_hash_score_array: scores };
    assert(miner_entry(m).block_hash_scores =~= Seq::new(
        8,
        |j: int| crate::input::parse_i32(ws[j + 2])->0,
    ));
    Some(m)
}

/// Reads `n` miner lines from line `pos` on.
pub fn read_miners(lines: &Vec<String>, pos: usize, n: i32) -> (res: Option<Vec<Miner>>)
    ensures
        match crate::input::read_from(
            crate::input::line_texts(lines@),
            pos as int,
            n as int,
            miner_parser(),
            Seq::empty(),
        ) {
            Some(t) => res matches Some(v) && v@.map_values(|m: Miner| miner_entry(m)) == t,
            None => res is None,
        },
{
    let ghost texts_of = crate::input::line_texts(lines@);
    let ghost target = crate::input::read_from(texts_of, pos as int, n as int, miner_parser(), Seq::empty());
    let mut out: Vec<Miner> = Vec::new();
    let mut k: i32 = 0;
    let mut p: usize = pos;
    assert(out@.map_values(|m: Miner| miner_entry(m)) =~= Seq::<MinerEntry>::empty());
    while k < n
        invariant
            texts_of == crate::input::line_texts(lines@),
            0 <= k,
            k <= n || n < 0,
            p == pos + k,
            target == crate::input::read_from(
                texts_of,
                p as int,
                n - k,
                miner_parser(),
                out@.map_values(|m: Miner| miner_entry(m)),
            ),
            target == crate::input::read_from(texts_of, pos as int, n as int, miner_parser(), Seq::empty()),
        decreases n - k,
    {
        if p >= lines.len() {
            return None;
        }
        let line = crate::input::line_chars(lines, p);
        assert(texts_of[p as int] == line@);
        assert((miner_parser())(line@) == miner_record(line@));
        match read_miner(&line) {
            None => {
                return None;
            },
            Some(m) => {
                let ghost before = out@;
                out.push(m);
                assert(out@.map_values(|m: Miner| miner_entry(m)) =~= before.map_values(
                    |m: Miner| miner_entry(m),
                ).push(miner_entry(m)));
            },
        }
        k = k + 1;
        p = p + 1;
    }
    Some(out)
}

/// The program's input: starting balances, transactions and miners.
#[derive(Debug)]
pub struct Input {
    pub balances: HashMap<u32, i32>,
    pub transactions: Vec<Transaction>,
    pub miners: Vec<Miner>,
}

/// The values an input text gives: a count of account lines and those
/// lines, a count of transaction lines (sender, receiver, amount,
/// incentive) and those lines, a count of miner lines and those lines. A
/// negative count stands for no lines. `None` where a line is missing or
/// malformed.
pub open spec fn input_model(lines: Seq<Seq<char>>) -> Option<
    (Map<u32, i32>, Seq<Transaction>, Seq<MinerEntry>),
> {
    match crate::input::count_at(lines, 0) {
        None => None,
        Some(na) => match crate::input::read_from(
            lines,
            1,
            na as int,
            crate::input::account_parser(),
            Seq::empty(),
        ) {
            None => None,
            Some(accounts) => {
                let p = 1 + crate::input::span(na);
                match crate::input::count_at(lines, p) {
                    None => None,
                    Some(nt) => match crate::input::read_from(
                        lines,
                        p + 1,
                        nt as int,
                        crate::transaction::transaction_parser(
                            crate::transaction::TxLayout::SenderReceiverAmountIncentive,
                        ),
                        Seq::empty(),
                    ) {
                        None => None,
                        Some(txs) => {
                            let q = p + 1 + crate::input::span(nt);
                            match crate::input::count_at(lines, q) {
                                None => None,
                                Some(nm) => match crate::input::read_from(
                                    lines,
                                    q + 1,
                                    nm as int,
                                    miner_parser(),
                                    Seq::empty(),
                                ) {
                                    None => None,
                                    Some(miners) => Some(
                                        (crate::input::balances_of(accounts), txs, miners),
                                    ),
                                },
                            }
                        },
                    },
                }
            },
        },
    }
}

/// Reads the program's input from its lines (see `input_model`).
pub fn parse_input(lines: &Vec<String>) -> (res: Option<Input>)
    ensures
        match input_model(crate::input::line_texts(lines@)) {
            Some((b, t, m)) => res matches Some(inp) && inp.balances@ == b && inp.transactions@ == t
                && inp.miners@.map_values(|x: Miner| miner_entry(x)) == m,
            None => res is None,
        },
{
    let ghost texts_of = crate::input::line_texts(lines@);
    let na = match crate::input::read_count(lines, 0) {
        Some(v) => v,
        None => {
            return None;
        },
    };
    let balances = match crate::input::read_accounts(lines, 1, na) {
        Some(b) => b,
        None => {
            return None;
        },
    };
    proof {
        crate::input::lemma_read_within(
            texts_of,
            1,
            na as int,
            crate::input::account_parser(),
            Seq::empty(),
        );
    }
    let p = crate::input::after_records(1, na, lines.len());
    let nt = match crate::input::read_count(lines, p) {
        Some(v) => v,
        None => {
            return None;
        },
    };
    if p >= lines.len() {
        return None;
    }
    let layout = crate::transaction::TxLayout::SenderReceiverAmountIncentive;
    let transactions = match crate::transaction::read_transactions(lines, p + 1, nt, layout) {
        Some(t) => t,
        None => {
            return None;
        },
    };
    proof {
        crate::input::lemma_read_within(
            texts_of,
            p + 1,
            nt as int,
            crate::transaction::transaction_parser(layout),
            Seq::empty(),
        );
    }
    let q = crate::input::after_records(p + 1, nt, lines.len());
    let nm = match crate::input::read_count(lines, q) {
        Some(v) => v,
        None => {
            return None;
        },
    };
    if q >= lines.len() {
        return None;
    }
    let miners = match read_miners(lines, q + 1, nm) {
        Some(m) => m,
        None => {
            return None;
        },
    };
    Some(Input { balances, transactions, miners })
}

/// How a block is printed: its number, its hash, its transactions in
/// brackets, its Merkle root, and its nonce and miner id, one per line.
pub open spec fn block_text(b: SealedBlock) -> Seq<char> {
    crate::text::decimal(b.block_number) + seq!['\n'] + b.block_hash + seq!['\n', '[']
        + crate::transaction::transactions_text(b.transactions) + seq![']', '\n'] + b.merkle_root
        + seq!['\n'] + crate::text::decimal(b.nonce) + seq![' '] + b.miner_id + seq!['\n']
}

/// The printed blocks, one after the other.
pub open spec fn output_text(blocks: Seq<SealedBlock>) -> Seq<char>
    decreases blocks.len(),
{
    if blocks.len() == 0 {
        Seq::empty()
    } else {
        output_text(blocks.drop_last()) + block_text(blocks.last())
    }
}

fn push_block(out: &mut Vec<char>, block: &Block)
    ensures
        final(out)@ == old(out)@ + block_text(block.model()),
{
    crate::text::push_decimal_chars(out, block.block_number);
    out.push('\n');
    crate::text::push_chars(out, &crate::text::text_of(block.block_hash.as_str()));
    out.push('\n');
    out.push('[');
    crate::text::push_chars(out, &crate::transaction::render_transactions(&block.transactions));
    out.push(']');
    out.push('\n');
    crate::text::push_chars(out, &crate::text::text_of(block.merkle_root.as_str()));
    out.push('\n');
    crate::text::push_decimal_chars(out, block.nonce);
    out.push(' ');
    crate::text::push_chars(out, &crate::text::text_of(block.miner_id.as_str()));
    out.push('\n');
    assert(final(out)@ =~= old(out)@ + block_text(block.model()));
}

/// Writes `output_text` for `blocks`: what the program prints.
pub fn render_output(blocks: &Vec<Block>) -> (res: String)
    ensures
        res@ == output_text(block_models(blocks@)),
{
    let mut out: Vec<char> = Vec::new();
    let n = blocks.len();
    let mut i: usize = 0;
    while i < n
        invariant
            n == blocks@.len(),
            i <= n,
            out@ == output_text(block_models(blocks@.take(i as int))),
        decreases n - i,
    {
        push_block(&mut out, &blocks[i]);
        assert(block_models(blocks@.take(i + 1)).drop_last() =~= block_models(blocks@.take(i as int)));
        i = i + 1;
    }
    assert(blocks@.take(n as int) =~= blocks@);
    crate::input::string_of(&out)
}

/// The whole program on its input lines: reads the input, orders the
/// transactions, runs the ledger and writes the blocks. `None` where the
/// input is malformed or the run aborts.
pub fn run_program(lines: &Vec<String>) -> (res: Option<String>)
    ensures
        match input_model(crate::input::line_texts(lines@)) {
            None => res is None,
            Some((b, t, m)) => exists|miners: Seq<Miner>|
                #![trigger spec_chain(b, ranking(t), miners)]
                miners.map_values(|x: Miner| miner_entry(x)) == m && match spec_chain(
                    b,
                    ranking(t),
                    miners,
                ) {
                    Some(s) => res matches Some(out) && out@ == output_text(s.blocks),
                    None => res is None,
                },
        },
{
    let input = match parse_input(lines) {
        Some(i) => i,
        None => {
            return None;
        },
    };
    let Input { balances, transactions, miners } = input;
    let mut balances = balances;
    let res = process_transactions(&mut balances, transactions, &miners);
    match res {
        Some(blocks) => Some(render_output(&blocks)),
        None => None,
    }
}

/// The transactions of the blocks, block after block.
pub open spec fn flatten(blocks: Seq<SealedBlock>) -> Seq<Transaction>
    decreases blocks.len(),
{
    if blocks.len() == 0 {
        Seq::empty()
    } else {
        flatten(blocks.drop_last()) + blocks.last().transactions
    }
}

/// The transactions among the first `n` of `txs` that the ledger executed:
/// those whose sender could pay when they were offered.
pub open spec fn executed(init: ChainState, txs: Seq<Transaction>, miners: Seq<Miner>, n: nat) -> Seq<
    Transaction,
>
    decreases n,
{
    if n == 0 {
        Seq::empty()
    } else {
        let before = executed(init, txs, miners, (n - 1) as nat);
        match run_prefix(init, txs, miners, (n - 1) as nat) {
            Some(s) => if can_pay(s.balances, txs[n - 1].from, txs[n - 1].amount) {
                before.push(txs[n - 1])
            } else {
                before
            },
            None => before,
        }
    }
}

proof fn lemma_flatten_push(blocks: Seq<SealedBlock>, b: SealedBlock)
    ensures
        flatten(blocks.push(b)) == flatten(blocks) + b.transactions,
{
    assert(blocks.push(b).drop_last() =~= blocks);
}

proof fn lemma_prefix_content(init: ChainState, txs: Seq<Transaction>, miners: Seq<Miner>, n: nat)
    requires
        init.blocks.len() == 0,
        init.pending.len() == 0,
        n <= txs.len(),
        run_prefix(init, txs, miners, n) is Some,
    ensures
        flatten(run_prefix(init, txs, miners, n).unwrap().blocks) + run_prefix(
            init,
            txs,
            miners,
            n,
        ).unwrap().pending == executed(init, txs, miners, n),
    decreases n,
{
    reveal(step);
    if n == 0 {
        assert(flatten(init.blocks) =~= Seq::<Transaction>::empty());
        assert(flatten(init.blocks) + init.pending =~= Seq::<Transaction>::empty());
    } else {
        let m = (n - 1) as nat;
        lemma_prefix_content(init, txs, miners, m);
        let s = run_prefix(init, txs, miners, m).unwrap();
        let tx = txs[n - 1];
        let t = run_prefix(init, txs, miners, n).unwrap();
        if can_pay(s.balances, tx.from, tx.amount) {
            if s.pending.push(tx).len() == BLOCK_CAPACITY {
                let block = sealed_block(s.next_number, s.prev_hash, s.pending.push(tx), miners);
                lemma_flatten_push(s.blocks, block);
                assert(flatten(t.blocks) + t.pending =~= flatten(s.blocks) + s.pending.push(tx));
            } else {
                assert(flatten(t.blocks) + t.pending =~= flatten(s.blocks) + s.pending.push(tx));
            }
        }
    }
}

/// The blocks of every run that completes hold exactly the executed
/// transactions, in the order they were offered; refused transactions are
/// in no block.
pub proof fn lemma_blocks_hold_executed(balances: Map<u32, i32>, txs: Seq<Transaction>, miners: Seq<Miner>)
    requires
        spec_chain(balances, txs, miners) is Some,
    ensures
        flatten(spec_chain(balances, txs, miners).unwrap().blocks) == executed(
            initial_state(balances),
            txs,
            miners,
            txs.len(),
        ),
{
    let init = initial_state(balances);
    lemma_prefix_content(init, txs, miners, txs.len());
    let s = run_prefix(init, txs, miners, txs.len()).unwrap();
    let f = finish(s, miners).unwrap();
    if s.pending.len() > 0 {
        let block = sealed_block(s.next_number, s.prev_hash, s.pending, miners);
        lemma_flatten_push(s.blocks, block);
    } else {
        assert(flatten(s.blocks) + s.pending =~= flatten(s.blocks));
    }
}

proof fn lemma_prefix_total(init: ChainState, txs: Seq<Transaction>, miners: Seq<Miner>, n: nat)
    requires
        init.balances.dom().finite(),
        run_prefix(init, txs, miners, n) is Some,
    ensures
        run_prefix(init, txs, miners, n).unwrap().balances.dom().finite(),
        total(run_prefix(init, txs, miners, n).unwrap().balances) == total(init.balances),
    decreases n,
{
    reveal(step);
    if n > 0 {
        let m = (n - 1) as nat;
        lemma_prefix_total(init, txs, miners, m);
        let s = run_prefix(init, txs, miners, m).unwrap();
        let tx = txs[n - 1];
        if can_pay(s.balances, tx.from, tx.amount) {
            lemma_transfer_keeps_total(s.balances, tx.from, tx.to, tx.amount);
        }
    }
}

/// Money is neither made nor lost: in every run that completes, the
/// balances of all accounts add up to what they added up to at the start.
pub proof fn lemma_run_keeps_total(balances: Map<u32, i32>, txs: Seq<Transaction>, miners: Seq<Miner>)
    requires
        balances.dom().finite(),
        spec_chain(balances, txs, miners) is Some,
    ensures
        total(spec_chain(balances, txs, miners).unwrap().balances) == total(balances),
{
    lemma_prefix_total(initial_state(balances), txs, miners, txs.len());
}

/// Blocks of four: in every completed run of this ledger, every block but
/// the last holds exactly four transactions, and the last between one and
/// four.
pub proof fn lemma_blocks_of_four(balances: Map<u32, i32>, txs: Seq<Transaction>, miners: Seq<Miner>)
    requires
        spec_chain(balances, txs, miners) is Some,
    ensures
        forall|k: int|
            0 <= k < spec_chain(balances, txs, miners).unwrap().blocks.len() ==> 1 <= (#[trigger] spec_chain(balances, txs, miners).unwrap().blocks[k]).transactions.len()
                <= 4 && (k < spec_chain(balances, txs, miners).unwrap().blocks.len() - 1 ==> spec_chain(balances, txs, miners).unwrap().blocks[k].transactions.len() == 4),
{
    lemma_run_forms_chain(balances, txs, miners);
}

/// Where the input reads, each value comes from its own line: line 0 holds
/// the number of account lines, which follow it; then comes a line with the
/// number of transaction lines (sender, receiver, amount, incentive), which
/// follow it; then the number of miner lines, which follow it (a negative
/// count stands for no lines). The balances are those the account lines
/// set, in turn.
pub proof fn lemma_input_lines(lines: Seq<Seq<char>>)
    requires
        input_model(lines) is Some,
    ensures
        ({
            let (b, t, m) = input_model(lines).unwrap();
            let a = crate::input::span(crate::input::count_at(lines, 0)->0);
            let tn = crate::input::span(crate::input::count_at(lines, 1 + a)->0);
            let mn = crate::input::span(crate::input::count_at(lines, 2 + a + tn)->0);
            &&& crate::input::count_at(lines, 0) is Some
            &&& crate::input::count_at(lines, 1 + a) is Some
            &&& forall|i: int|
                0 <= i < a ==> (#[trigger] crate::input::account_record(lines[1 + i])) is Some
            &&& b == crate::input::balances_of(
                Seq::new(a as nat, |i: int| crate::input::account_record(lines[1 + i])->0),
            )
            &&& t.len() == tn
            &&& forall|i: int|
                0 <= i < tn ==> crate::transaction::transaction_record(lines[2 + a + i], crate::transaction::TxLayout::SenderReceiverAmountIncentive) == Some(#[trigger] t[i])
            &&& crate::input::count_at(lines, 2 + a + tn) is Some
            &&& m.len() == mn
            &&& forall|i: int| 0 <= i < mn ==> miner_record(lines[3 + a + tn + i]) == Some(#[trigger] m[i])
        }),
{
    let na = crate::input::count_at(lines, 0)->0;
    let a = crate::input::span(na);
    crate::input::lemma_read_from_items(lines, 1, na as int, crate::input::account_parser(), Seq::empty());
    let accounts = crate::input::read_from(lines, 1, na as int, crate::input::account_parser(), Seq::empty()).unwrap();
    assert forall|i: int| 0 <= i < a implies (#[trigger] crate::input::account_record(lines[1 + i])) is Some by {
        assert((crate::input::account_parser())(lines[1 + i]) == Some(accounts[0 + i]));
    }
    assert(accounts =~= Seq::new(a as nat, |i: int| crate::input::account_record(lines[1 + i])->0)) by {
        assert forall|i: int| 0 <= i < a implies accounts[i] == crate::input::account_record(lines[1 + i])->0 by {
            assert((crate::input::account_parser())(lines[1 + i]) == Some(accounts[0 + i]));
        }
    }
    let p = 1 + a;
    let nt = crate::input::count_at(lines, p)->0;
    let tn = crate::input::span(nt);
    let parser = crate::transaction::transaction_parser(crate::transaction::TxLayout::SenderReceiverAmountIncentive);
    crate::input::lemma_read_from_items(lines, p + 1, nt as int, parser, Seq::empty());
    let txs = crate::input::read_from(lines, p + 1, nt as int, parser, Seq::empty()).unwrap();
    assert forall|i: int| 0 <= i < tn implies crate::transaction::transaction_record(lines[2 + a + i], crate::transaction::TxLayout::SenderReceiverAmountIncentive)
        == Some(#[trigger] txs[i]) by {
        assert(parser(lines[(p + 1) + i]) == Some(txs[0 + i]));
    }
    let q = p + 1 + tn;
    let nm = crate::input::count_at(lines, q)->0;
    crate::input::lemma_read_from_items(lines, q + 1, nm as int, miner_parser(), Seq::empty());
    let ms = crate::input::read_from(lines, q + 1, nm as int, miner_parser(), Seq::empty()).unwrap();
    assert forall|i: int| 0 <= i < crate::input::span(nm) implies miner_record(lines[3 + a + tn + i]) == Some(
        #[trigger] ms[i],
    ) by {
        assert((miner_parser())(lines[(q + 1) + i]) == Some(ms[0 + i]));
    }
}

/// What a sealed block is, from its inputs: it keeps its number and
/// transactions; its hash is the SHA3-256 hex of the previous hash, the
/// decimal number and its Merkle root written one after the other; its
/// nonce is the least non-negative one for which the hex of the block hash
/// followed by the decimal nonce ends in `'0'`; and its miner is the first
/// of those whose computation score times block hash score at slot
/// `number % 8` is highest and above -1, or nobody (the empty id) where no
/// such score exceeds -1.
pub proof fn lemma_sealed_block_facts(
    number: int,
    prev: Seq<char>,
    txs: Seq<Transaction>,
    miners: Seq<Miner>,
)
    requires
        can_seal(number, prev, txs, miners),
    ensures
        ({
            let b = sealed_block(number, prev, txs, miners);
            &&& b.block_number == number
            &&& b.transactions == txs
            &&& b.block_hash == spec_hash(encode_utf8(prev + decimal(number) + b.merkle_root))
            &&& 0 <= b.nonce <= i32::MAX
            &&& spec_hash(encode_utf8(b.block_hash + decimal(b.nonce))).last() == '0'
            &&& forall|m: int|
                0 <= m < b.nonce ==> #[trigger] spec_hash(encode_utf8(b.block_hash + decimal(m))).last()
                    != '0'
            &&& ({
                ||| exists|i: int|
                    0 <= i < miners.len() && b.miner_id == miners[i].id@ && miners[i].computation_score
                        * miners[i].block_hash_score_array@[number % 8] > -1 && (forall|j: int|
                        0 <= j < miners.len() ==> (#[trigger] miners[j]).computation_score
                            * miners[j].block_hash_score_array@[number % 8] <= miners[i].computation_score
                            * miners[i].block_hash_score_array@[number % 8]) && (forall|j: int|
                        0 <= j < i ==> (#[trigger] miners[j]).computation_score
                            * miners[j].block_hash_score_array@[number % 8] < miners[i].computation_score
                            * miners[i].block_hash_score_array@[number % 8])
                ||| b.miner_id == Seq::<char>::empty() && forall|j: int|
                    0 <= j < miners.len() ==> (#[trigger] miners[j]).computation_score
                        * miners[j].block_hash_score_array@[number % 8] <= -1
            })
        }),
{
    let b = sealed_block(number, prev, txs, miners);
    let scores = sealing_scores(miners, number % 8);
    lemma_least_nonce_exists(b.block_hash);
    assert forall|m: int| 0 <= m < b.nonce implies #[trigger] spec_hash(
        encode_utf8(b.block_hash + decimal(m)),
    ).last() != '0' by {
        assert(!crate::mining::meets_target(b.block_hash, m));
    }
    lemma_election_outcome(scores);
    match election(scores) {
        Some(i) => {
            assert forall|j: int| 0 <= j < miners.len() implies (#[trigger] miners[j]).computation_score
                * miners[j].block_hash_score_array@[number % 8] <= miners[i].computation_score
                * miners[i].block_hash_score_array@[number % 8] by {
                assert(scores[j] <= scores[i]);
            }
            assert forall|j: int| 0 <= j < i implies (#[trigger] miners[j]).computation_score
                * miners[j].block_hash_score_array@[number % 8] < miners[i].computation_score
                * miners[i].block_hash_score_array@[number % 8] by {
                assert(scores[j] < scores[i]);
            }
            assert(scores[i] > -1);
        },
        None => {
            assert forall|j: int| 0 <= j < miners.len() implies (#[trigger] miners[j]).computation_score
                * miners[j].block_hash_score_array@[number % 8] <= -1 by {
                assert(scores[j] <= -1);
            }
        },
    }
}

} // verus!
