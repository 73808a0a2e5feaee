//! The ledger of `arun` with ten transactions per block, no ordering of the
//! transactions, and Merkle levels that pair a node without partner with a
//! copy of itself.

use vstd::prelude::*;
use std::collections::HashMap;
use crate::arun::{
    block_models, can_seal, check_can_seal, run_rewarded, sealed_block, spec_chain, Block, Miner,
    Rules,
};
use crate::merkle::{MerkleNode, Unpaired};
use crate::transaction::{merkle_root_of, merkle_root_text, merkle_tree_of, Transaction};

pub use crate::transaction::execute_transaction;

verus! {

/// The number of transactions after which a block is sealed.
pub const BLOCK_CAPACITY: usize = 10;

/// The rules of this ledger.
pub open spec fn rules(miners: Seq<Miner>, reward: i32) -> Rules {
    Rules { miners, reward, capacity: BLOCK_CAPACITY as int, unpaired: Unpaired::Duplicate }
}

/// The Merkle tree of `transactions`, a node without partner being paired
/// with a copy of itself; `None` for no transactions.
pub fn build_merkle_tree(transactions: &[Transaction]) -> (res: Option<MerkleNode>)
    ensures
        match res {
            None => transactions@.len() == 0,
            Some(root) => transactions@.len() > 0 && root.model() == crate::merkle::merkle_tree(
                crate::transaction::leaves(transactions@),
                Unpaired::Duplicate,
            ) && crate::digest::is_hex_hash(root.hash@),
        },
{
    merkle_tree_of(transactions, Unpaired::Duplicate)
}

/// The Merkle root text of `transactions`: 64 lower-case hexadecimal
/// digits, or `"0"` for no transactions.
pub fn get_merkle_root(transactions: &[Transaction]) -> (res: String)
    ensures
        res@ == merkle_root_text(transactions@, Unpaired::Duplicate),
        transactions@.len() > 0 ==> crate::digest::is_hex_hash(res@),
{
    merkle_root_of(transactions, Unpaired::Duplicate)
}

/// Seals block `block_number` over `transactions` after the block with hash
/// `prev_block_hash` (see `arun::create_block`), the Merkle tree pairing a
/// node without partner with a copy of itself.
pub fn create_block(
    block_number: i32,
    prev_block_hash: &str,
    transactions: Vec<Transaction>,
    miners: &[Miner],
) -> (res: Block)
    requires
        can_seal(block_number as int, prev_block_hash@, transactions@, miners@, Unpaired::Duplicate),
    ensures
        res.model() == sealed_block(
            block_number as int,
            prev_block_hash@,
            transactions@,
            miners@,
            Unpaired::Duplicate,
        ),
{
    crate::arun::seal_block(block_number, prev_block_hash, transactions, miners, Unpaired::Duplicate)
}

/// Seals the block as `create_block` does, or returns `None` where that
/// block cannot be sealed.
pub fn try_create_block(
    block_number: i32,
    prev_block_hash: &str,
    transactions: Vec<Transaction>,
    miners: &[Miner],
) -> (res: Option<Block>)
    ensures
        match res {
            Some(b) => can_seal(
                block_number as int,
                prev_block_hash@,
                transactions@,
                miners@,
                Unpaired::Duplicate,
            ) && b.model() == sealed_block(
                block_number as int,
                prev_block_hash@,
                transactions@,
                miners@,
                Unpaired::Duplicate,
            ),
            None => !can_seal(
                block_number as int,
                prev_block_hash@,
                transactions@,
                miners@,
                Unpaired::Duplicate,
            ),
        },
{
    if check_can_seal(block_number, prev_block_hash, &transactions, miners, Unpaired::Duplicate) {
        Some(create_block(block_number, prev_block_hash, transactions, miners))
    } else {
        None
    }
}

/// Executes `transactions` in the given order against `balances`, seals
/// every ten executed ones into a block and pays its miner `block_reward`,
/// then seals the rest into a last block and pays its miner. `None` where
/// the program aborts (see `arun::step`).
pub fn run_chain(
    balances: &mut HashMap<u32, i32>,
    transactions: &Vec<Transaction>,
    miners: &[Miner],
    block_reward: i32,
) -> (res: Option<Vec<Block>>)
    ensures
        match spec_chain(old(balances)@, transactions@, rules(miners@, block_reward)) {
            Some(s) => res matches Some(blocks) && block_models(blocks@) == s.blocks
                && final(balances)@ == s.balances,
            None => res is None,
        },
        res matches Some(blocks) ==> forall|k: int|
            0 <= k < blocks@.len() ==> 1 <= (#[trigger] blocks@[k]).transactions@.len() <= 10 && (k
                < blocks@.len() - 1 ==> blocks@[k].transactions@.len() == 10),
{
    let res = run_rewarded(balances, transactions, miners, block_reward, BLOCK_CAPACITY, Unpaired::Duplicate);
    proof {
        if res is Some {
            let s = spec_chain(old(balances)@, transactions@, rules(miners@, block_reward)).unwrap();
            lemma_blocks_of_ten(old(balances)@, transactions@, miners@, block_reward);
            let blocks = res.unwrap();
            assert forall|k: int| 0 <= k < blocks@.len() implies 1 <= (#[trigger] blocks@[k]).transactions@.len() <= 10 && (k
                < blocks@.len() - 1 ==> blocks@[k].transactions@.len() == 10) by {
                assert(block_models(blocks@)[k] == blocks@[k].model());
                assert(s.blocks[k] == blocks@[k].model());
            }
        }
    }
    res
}

/// Reads the program's input from its lines (see `arun::input_model`; the
/// transaction lines give sender, incentive, receiver, amount).
pub fn parse_input(lines: &Vec<String>) -> (res: Option<crate::arun::Input>)
    ensures
        match crate::arun::input_model(
            crate::input::line_texts(lines@),
            crate::transaction::TxLayout::SenderIncentiveReceiverAmount,
        ) {
            Some((b, t, r, m)) => res matches Some(inp) && inp.balances@ == b && inp.transactions@
                == t && inp.block_reward == r && inp.miners@.map_values(
                |x: Miner| crate::arun::miner_entry(x),
            ) == m,
            None => res is None,
        },
{
    crate::arun::parse_input_with(lines, crate::transaction::TxLayout::SenderIncentiveReceiverAmount)
}

/// How a transaction is printed here: `['<sender>', '<amount>', <receiver>,
/// <incentive>]`.
pub open spec fn transaction_text(t: Transaction) -> Seq<char> {
    seq!['[', '\''] + seq![t.from] + seq!['\'', ',', ' ', '\''] + crate::text::decimal(t.amount as int)
        + seq!['\'', ',', ' '] + seq![t.to] + seq![',', ' '] + crate::text::decimal(
        t.incentive as int,
    ) + seq![']']
}

/// Writes `transaction_text`.
pub fn render_transaction(t: &Transaction) -> (res: Vec<char>)
    ensures
        res@ == transaction_text(*t),
{
    let mut out: Vec<char> = Vec::new();
    out.push('[');
    out.push('\'');
    out.push(t.from);
    out.push('\'');
    out.push(',');
    out.push(' ');
    out.push('\'');
    crate::text::push_decimal_chars(&mut out, t.amount);
    out.push('\'');
    out.push(',');
    out.push(' ');
    out.push(t.to);
    out.push(',');
    out.push(' ');
    crate::text::push_decimal_chars(&mut out, t.incentive);
    out.push(']');
    assert(out@ =~= transaction_text(*t));
    out
}

/// The printed transactions of a block, `", "` between each two.
pub open spec fn transactions_text(txs: Seq<Transaction>) -> Seq<char> {
    crate::text::join(txs.map_values(|t: Transaction| transaction_text(t)), seq![',', ' '])
}

fn render_transactions(txs: &Vec<Transaction>) -> (res: Vec<char>)
    ensures
        res@ == transactions_text(txs@),
{
    let mut parts: Vec<Vec<char>> = Vec::new();
    let n = txs.len();
    let mut i: usize = 0;
    while i < n
        invariant
            n == txs@.len(),
            i <= n,
            parts@.len() == i,
            forall|j: int| 0 <= j < i ==> (#[trigger] parts@[j])@ == transaction_text(txs@[j]),
        decreases n - i,
    {
        parts.push(render_transaction(&txs[i]));
        i = i + 1;
    }
    assert(crate::input::texts(parts@) =~= txs@.map_values(|t: Transaction| transaction_text(t)));
    let mut sep: Vec<char> = Vec::new();
    sep.push(',');
    sep.push(' ');
    assert(sep@ =~= seq![',', ' ']);
    let mut out: Vec<char> = Vec::new();
    crate::text::push_joined(&mut out, &parts, &sep);
    out
}

/// How a block of this ledger is printed.
pub open spec fn block_text(b: crate::arun::SealedBlock) -> Seq<char> {
    crate::arun::block_text_with(b, transactions_text(b.transactions))
}

/// The printed blocks, one after the other.
pub open spec fn output_text(blocks: Seq<crate::arun::SealedBlock>) -> Seq<char>
    decreases blocks.len(),
{
    if blocks.len() == 0 {
        Seq::empty()
    } else {
        output_text(blocks.drop_last()) + block_text(blocks.last())
    }
}

/// Writes `output_text` for `blocks`: what the program prints.
pub fn render_output(blocks: &Vec<Block>) -> (res: String)
    ensures
        res@ == output_text(block_models(blocks@)),
{
    let mut out: Vec<char> = Vec::new();
    let n = blocks.len();
    let mut i: usize = 0;
    while i < n
        invariant
            n == blocks@.len(),
            i <= n,
            out@ == output_text(block_models(blocks@.take(i as int))),
        decreases n - i,
    {
        let txs_text = render_transactions(&blocks[i].transactions);
        crate::arun::push_block_with(&mut out, &blocks[i], &txs_text);
        assert(block_models(blocks@.take(i + 1)).drop_last() =~= block_models(blocks@.take(i as int)));
        i = i + 1;
    }
    assert(blocks@.take(n as int) =~= blocks@);
    crate::input::string_of(&out)
}

/// The whole program on its input lines: reads the input, runs the ledger
/// on the transactions in the order given and writes the blocks. `None`
/// where the input is malformed or the run aborts.
pub fn run_program(lines: &Vec<String>) -> (res: Option<String>)
    ensures
        match crate::arun::input_model(
            crate::input::line_texts(lines@),
            crate::transaction::TxLayout::SenderIncentiveReceiverAmount,
        ) {
            None => res is None,
            Some((b, t, r, m)) => exists|miners: Seq<Miner>|
                #![trigger spec_chain(b, t, rules(miners, r))]
                miners.map_values(|x: Miner| crate::arun::miner_entry(x)) == m && match spec_chain(
                    b,
                    t,
                    rules(miners, r),
                ) {
                    Some(s) => res matches Some(out) && out@ == output_text(s.blocks),
                    None => res is None,
                },
        },
{
    let input = match parse_input(lines) {
        Some(i) => i,
        None => {
            return None;
        },
    };
    let crate::arun::Input { balances, transactions, block_reward, miners } = input;
    let mut balances = balances;
    let res = run_chain(&mut balances, &transactions, &miners, block_reward);
    let out = match res {
        Some(blocks) => Some(render_output(&blocks)),
        None => None,
    };
    out
}

/// Money changes only by block rewards: in every completed run of this
/// ledger, the balances of all accounts add up to what they added up to at
/// the start plus `reward` for every sealed block.
pub proof fn lemma_run_total(balances: Map<u32, i32>, txs: Seq<Transaction>, miners: Seq<Miner>, reward: i32)
    requires
        balances.dom().finite(),
        spec_chain(balances, txs, rules(miners, reward)) is Some,
    ensures
        crate::ledger::total(spec_chain(balances, txs, rules(miners, reward)).unwrap().balances)
            == crate::ledger::total(balances) + reward * spec_chain(
            balances,
            txs,
            rules(miners, reward),
        ).unwrap().blocks.len(),
{
    crate::arun::lemma_run_total(balances, txs, rules(miners, reward));
}

/// Blocks of ten: in every completed run of this ledger, every block but
/// the last holds exactly ten transactions, and the last between one and
/// ten.
pub proof fn lemma_blocks_of_ten(balances: Map<u32, i32>, txs: Seq<Transaction>, miners: Seq<Miner>, reward: i32)
    requires
        spec_chain(balances, txs, rules(miners, reward)) is Some,
    ensures
        forall|k: int|
            0 <= k < spec_chain(balances, txs, rules(miners, reward)).unwrap().blocks.len() ==> 1 <= (#[trigger] spec_chain(balances, txs, rules(miners, reward)).unwrap().blocks[k]).transactions.len()
                <= 10 && (k < spec_chain(balances, txs, rules(miners, reward)).unwrap().blocks.len() - 1 ==> spec_chain(balances, txs, rules(miners, reward)).unwrap().blocks[k].transactions.len() == 10),
{
    crate::arun::lemma_run_forms_chain(balances, txs, rules(miners, reward));
}

} // verus!
