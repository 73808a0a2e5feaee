//! The first ledger: blocks of three transactions chained by hash, without
//! proof of work or miners. A transaction's fourth field is carried along
//! but not hashed.

use vstd::prelude::*;
use vstd::utf8::*;
use std::collections::HashMap;
use crate::digest::{calculate_hash, is_hex_hash, spec_hash};
use crate::ledger::{
    after_transfer, can_pay, check_transfer_fits, lemma_transfer_keeps_total, total, transfer,
    transfer_fits,
};
use crate::merkle::{
    build_tree, is_pow2, leaf_tree, lemma_merkle_split, merkle_tree, models,
    MerkleNode, MerkleTree, Unpaired,
};
use crate::sealing::{block_hash, block_hash_text};
use crate::text::{decimal, lemma_encode_utf8_concat, push_char, push_decimal};

verus! {

/// The number of transactions after which a block is sealed.
pub const BLOCK_CAPACITY: usize = 3;

/// A transfer of `amount` from `from` to `to`, with a fourth value `temp`
/// that is carried along.
#[derive(Debug, Clone, Copy, PartialEq, Eq)]
pub struct Transaction {
    pub from: char,
    pub to: char,
    pub amount: i32,
    pub temp: i32,
}

/// A block.
#[derive(Debug)]
pub struct Block {
    pub block_number: i32,
    pub merkle_root: String,
    pub block_hash: String,
    pub transactions: Vec<Transaction>,
}

/// The value of a block.
pub struct SealedBlock {
    pub block_number: int,
    pub merkle_root: Seq<char>,
    pub block_hash: Seq<char>,
    pub transactions: Seq<Transaction>,
}

impl Block {
    /// The value of this block.
    pub open spec fn model(self) -> SealedBlock {
        SealedBlock {
            block_number: self.block_number as int,
            merkle_root: self.merkle_root@,
            block_hash: self.block_hash@,
            transactions: self.transactions@,
        }
    }
}

/// The values of a sequence of blocks.
pub open spec fn block_models(blocks: Seq<Block>) -> Seq<SealedBlock> {
    blocks.map_values(|b: Block| b.model())
}

/// The text hashed for a transaction's leaf: sender, receiver, amount.
pub open spec fn leaf_text(t: Transaction) -> Seq<char> {
    seq![t.from] + seq![t.to] + decimal(t.amount as int)
}

/// The leaf of a transaction.
pub open spec fn leaf_model(t: Transaction) -> MerkleTree {
    leaf_tree(spec_hash(encode_utf8(leaf_text(t))))
}

/// The leaves of a list of transactions, in order.
pub open spec fn leaves(txs: Seq<Transaction>) -> Seq<MerkleTree> {
    txs.map_values(|t: Transaction| leaf_model(t))
}

/// The Merkle root text of a list of transactions: `"0"` for none.
pub open spec fn merkle_root_text(txs: Seq<Transaction>) -> Seq<char> {
    if txs.len() == 0 {
        seq!['0']
    } else {
        merkle_tree(leaves(txs), Unpaired::Promote).hash
    }
}

/// The block `create_block` makes.
pub open spec fn spec_block(number: int, prev: Seq<char>, txs: Seq<Transaction>) -> SealedBlock {
    let root = merkle_root_text(txs);
    SealedBlock {
        block_number: number,
        merkle_root: root,
        block_hash: block_hash_text(prev, number, root),
        transactions: txs,
    }
}

/// The leaf of `transaction`: the hash of its sender, receiver and amount.
pub fn new_leaf(transaction: &Transaction) -> (res: MerkleNode)
    ensures
        res.model() == leaf_model(*transaction),
        is_hex_hash(res.hash@),
{
    let mut hash_input: Vec<u8> = Vec::new();
    push_char(&mut hash_input, transaction.from);
    push_char(&mut hash_input, transaction.to);
    push_decimal(&mut hash_input, transaction.amount);
    proof {
        let a = seq![transaction.from];
        let b = seq![transaction.to];
        let c = decimal(transaction.amount as int);
        lemma_encode_utf8_concat(a, b);
        lemma_encode_utf8_concat(a + b, c);
    }
    let hash = calculate_hash(hash_input.as_slice());
    MerkleNode { hash, left: None, right: None }
}

/// The Merkle tree of `transactions`, a node without partner being carried
/// up alone; `None` for no transactions.
pub fn build_merkle_tree(transactions: &[Transaction]) -> (res: Option<MerkleNode>)
    ensures
        match res {
            None => transactions@.len() == 0,
            Some(root) => transactions@.len() > 0 && root.model() == merkle_tree(
                leaves(transactions@),
                Unpaired::Promote,
            ) && is_hex_hash(root.hash@),
        },
{
    let n = transactions.len();
    if n == 0 {
        return None;
    }
    let mut nodes: Vec<MerkleNode> = Vec::new();
    let mut i: usize = 0;
    while i < n
        invariant
            n == transactions@.len(),
            i <= n,
            nodes.len() == i,
            forall|j: int| 0 <= j < i ==> #[trigger] nodes@[j].model() == leaf_model(transactions@[j]),
            forall|j: int| 0 <= j < i ==> is_hex_hash(#[trigger] nodes@[j].hash@),
        decreases n - i,
    {
        nodes.push(new_leaf(&transactions[i]));
        i = i + 1;
    }
    assert(models(nodes@) =~= leaves(transactions@));
    assert forall|j: int| 0 <= j < models(nodes@).len() implies is_hex_hash(
        #[trigger] models(nodes@)[j].hash,
    ) by {
        assert(models(nodes@)[j] == nodes@[j].model());
    }
    Some(build_tree(nodes, Unpaired::Promote))
}

/// The Merkle root text of `transactions`: 64 lower-case hexadecimal
/// digits, or `"0"` for no transactions.
pub fn get_merkle_root(transactions: &[Transaction]) -> (res: String)
    ensures
        res@ == merkle_root_text(transactions@),
        transactions@.len() > 0 ==> is_hex_hash(res@),
{
    match build_merkle_tree(transactions) {
        Some(root) => root.hash,
        None => {
            let zero = "0";
            proof {
                reveal_strlit("0");
            }
            zero.to_owned()
        },
    }
}

/// Makes block `block_number` over `transactions` after the block with hash
/// `prev_block_hash`: its Merkle root and its hash.
pub fn create_block(block_number: i32, prev_block_hash: &str, transactions: Vec<Transaction>) -> (res:
    Block)
    ensures
        res.model() == spec_block(block_number as int, prev_block_hash@, transactions@),
{
    let merkle_root = get_merkle_root(transactions.as_slice());
    let hash = block_hash(prev_block_hash, block_number, merkle_root.as_str());
    Block { block_number, merkle_root, block_hash: hash, transactions }
}

/// Carries out `transaction` when its sender holds at least its amount and
/// says whether it did; a refused transaction changes no balance.
pub fn execute_transaction(transaction: &Transaction, balances: &mut HashMap<u32, i32>) -> (res:
    bool)
    requires
        transfer_fits(old(balances)@, transaction.from, transaction.to, transaction.amount),
    ensures
        res == can_pay(old(balances)@, transaction.from, transaction.amount),
        res == (crate::ledger::balance(old(balances)@, transaction.from) >= transaction.amount),
        res ==> final(balances)@ == after_transfer(
            old(balances)@,
            transaction.from,
            transaction.to,
            transaction.amount,
        ),
        !res ==> final(balances)@ == old(balances)@,
{
    transfer(balances, transaction.from, transaction.to, transaction.amount)
}

/// The state of the block-producing loop: the balances, the executed
/// transactions waiting for a block, the blocks made so far, the number of
/// the next block and the hash text of the last block (`"0"` before the
/// first).
#[verifier::ext_equal]
pub struct ChainState {
    pub balances: Map<u32, i32>,
    pub pending: Seq<Transaction>,
    pub blocks: Seq<SealedBlock>,
    pub next_number: int,
    pub prev_hash: Seq<char>,
}

/// The state before any transaction.
pub open spec fn initial_state(balances: Map<u32, i32>) -> ChainState {
    ChainState {
        balances,
        pending: Seq::empty(),
        blocks: Seq::empty(),
        next_number: 1,
        prev_hash: seq!['0'],
    }
}

/// Offers `tx` to the ledger: a refused transfer changes nothing; an
/// executed one waits for a block, and the third waiting transaction makes
/// one. `None` where the program aborts: a balance would leave `i32`, or the
/// block number would pass `i32::MAX`.
#[verifier::opaque]
pub open spec fn step(s: ChainState, tx: Transaction) -> Option<ChainState> {
    if !transfer_fits(s.balances, tx.from, tx.to, tx.amount) {
        None
    } else if !can_pay(s.balances, tx.from, tx.amount) {
        Some(s)
    } else {
        let balances = after_transfer(s.balances, tx.from, tx.to, tx.amount);
        let pending = s.pending.push(tx);
        if pending.len() != BLOCK_CAPACITY {
            Some(ChainState { balances, pending, ..s })
        } else if s.next_number >= i32::MAX {
            None
        } else {
            let block = spec_block(s.next_number, s.prev_hash, pending);
            Some(
                ChainState {
                    balances,
                    pending: Seq::empty(),
                    blocks: s.blocks.push(block),
                    next_number: s.next_number + 1,
                    prev_hash: block.block_hash,
                },
            )
        }
    }
}

/// The state after offering the first `n` transactions of `txs`.
pub open spec fn run_prefix(init: ChainState, txs: Seq<Transaction>, n: nat) -> Option<ChainState>
    decreases n,
{
    if n == 0 {
        Some(init)
    } else {
        match run_prefix(init, txs, (n - 1) as nat) {
            Some(s) => step(s, txs[n - 1]),
            None => None,
        }
    }
}

/// Puts the transactions still waiting, if any, into a last block.
pub open spec fn finish(s: ChainState) -> ChainState {
    if s.pending.len() == 0 {
        s
    } else {
        let block = spec_block(s.next_number, s.prev_hash, s.pending);
        ChainState { pending: Seq::empty(), blocks: s.blocks.push(block), ..s }
    }
}

/// The final state of the ledger fed `txs` in order; `None` where the
/// program aborts.
pub open spec fn spec_chain(balances: Map<u32, i32>, txs: Seq<Transaction>) -> Option<ChainState> {
    match run_prefix(initial_state(balances), txs, txs.len()) {
        Some(s) => Some(finish(s)),
        None => None,
    }
}

/// Once the loop aborts it stays aborted.
pub proof fn lemma_prefix_aborted(init: ChainState, txs: Seq<Transaction>, i: nat, j: nat)
    requires
        i <= j,
        run_prefix(init, txs, i) is None,
    ensures
        run_prefix(init, txs, j) is None,
    decreases j - i,
{
    if i < j {
        lemma_prefix_aborted(init, txs, i, (j - 1) as nat);
    }
}

/// The state the loop variables stand for.
pub open spec fn state_of(
    balances: Map<u32, i32>,
    current: Seq<Transaction>,
    blocks: Seq<Block>,
    block_number: i32,
    prev_block_hash: Seq<char>,
) -> ChainState {
    ChainState {
        balances,
        pending: current,
        blocks: block_models(blocks),
        next_number: block_number as int,
        prev_hash: prev_block_hash,
    }
}

/// Offers one transaction (one `step`); `false` where the program aborts.
fn offer(
    balances: &mut HashMap<u32, i32>,
    current: &mut Vec<Transaction>,
    blocks: &mut Vec<Block>,
    block_number: &mut i32,
    prev_block_hash: &mut String,
    txn: Transaction,
) -> (ok: bool)
    requires
        old(current).len() < BLOCK_CAPACITY,
    ensures
        ({
            let before = state_of(
                old(balances)@,
                old(current)@,
                old(blocks)@,
                *old(block_number),
                old(prev_block_hash)@,
            );
            let after = state_of(
                final(balances)@,
                final(current)@,
                final(blocks)@,
                *final(block_number),
                final(prev_block_hash)@,
            );
            &&& ok ==> step(before, txn) == Some(after) && final(current).len() < BLOCK_CAPACITY
            &&& !ok ==> step(before, txn) is None
        }),
{
    reveal(step);
    if !check_transfer_fits(balances, txn.from, txn.to, txn.amount) {
        return false;
    }
    if !execute_transaction(&txn, balances) {
        return true;
    }
    current.push(txn);
    if current.len() < BLOCK_CAPACITY {
        return true;
    }
    if *block_number == i32::MAX {
        return false;
    }
    let mut full: Vec<Transaction> = Vec::new();
    std::mem::swap(&mut full, current);
    let block = create_block(*block_number, prev_block_hash.as_str(), full);
    *prev_block_hash = block.block_hash.clone();
    let ghost old_blocks = blocks@;
    blocks.push(block);
    *block_number = *block_number + 1;
    assert(block_models(blocks@) =~= block_models(old_blocks).push(block.model()));
    assert(current@ =~= Seq::<Transaction>::empty());
    true
}

/// Executes `transactions` in order against `balances` and puts every three
/// executed ones into a block, then the rest into a last block. Block 1
/// follows the hash `"0"`, each later block the hash of the one before.
/// `None` where the program aborts (see `step`).
pub fn run_chain(balances: &mut HashMap<u32, i32>, transactions: &Vec<Transaction>) -> (res: Option<
    Vec<Block>,
>)
    ensures
        match spec_chain(old(balances)@, transactions@) {
            Some(s) => res matches Some(blocks) && block_models(blocks@) == s.blocks
                && final(balances)@ == s.balances,
            None => res is None,
        },
        res matches Some(blocks) ==> forall|k: int|
            0 <= k < blocks@.len() ==> 1 <= (#[trigger] blocks@[k]).transactions@.len() <= 3 && (k
                < blocks@.len() - 1 ==> blocks@[k].transactions@.len() == 3),
{
    let ghost init = initial_state(old(balances)@);
    let ghost txs = transactions@;
    let mut blocks: Vec<Block> = Vec::new();
    let mut block_number: i32 = 1;
    let zero = "0";
    proof {
        reveal_strlit("0");
    }
    let mut prev_block_hash: String = zero.to_owned();
    let mut current: Vec<Transaction> = Vec::new();
    let n = transactions.len();
    let mut i: usize = 0;
    assert(state_of(balances@, current@, blocks@, block_number, prev_block_hash@) =~= init);
    while i < n
        invariant
            n == txs.len(),
            txs == transactions@,
            init == initial_state(old(balances)@),
            i <= n,
            run_prefix(init, txs, i as nat) == Some(
                state_of(balances@, current@, blocks@, block_number, prev_block_hash@),
            ),
            current.len() < BLOCK_CAPACITY,
        decreases n - i,
    {
        let txn = transactions[i];
        let ghost before = state_of(balances@, current@, blocks@, block_number, prev_block_hash@);
        assert(run_prefix(init, txs, (i + 1) as nat) == step(before, txn));
        let ok = offer(
            balances,
            &mut current,
            &mut blocks,
            &mut block_number,
            &mut prev_block_hash,
            txn,
        );
        if !ok {
            proof {
                lemma_prefix_aborted(init, txs, (i + 1) as nat, n as nat);
            }
            return None;
        }
        i = i + 1;
    }
    let ghost last = state_of(balances@, current@, blocks@, block_number, prev_block_hash@);
    assert(run_prefix(init, txs, txs.len()) == Some(last));
    if current.len() > 0 {
        let block = create_block(block_number, prev_block_hash.as_str(), current);
        blocks.push(block);
        assert(block_models(blocks@) =~= last.blocks.push(block.model()));
    }
    proof {
        let s = spec_chain(old(balances)@, transactions@).unwrap();
        lemma_blocks_of_three(old(balances)@, transactions@);
        assert forall|k: int| 0 <= k < blocks@.len() implies 1 <= (#[trigger] blocks@[k]).transactions@.len() <= 3 && (k
            < blocks@.len() - 1 ==> blocks@[k].transactions@.len() == 3) by {
            assert(block_models(blocks@)[k] == blocks@[k].model());
            assert(s.blocks[k] == blocks@[k].model());
        }
    }
    Some(blocks)
}

/// A transaction line: four or more words; sender and receiver are the
/// first characters of the first two, amount and the fourth value are
/// `i32`s.
pub open spec fn transaction_record(line: Seq<char>) -> Option<Transaction> {
    let w = crate::input::words(line);
    if w.len() < 4 {
        None
    } else {
        match (crate::input::parse_i32(w[2]), crate::input::parse_i32(w[3])) {
            (Some(a), Some(t)) => Some(Transaction { from: w[0][0], to: w[1][0], amount: a, temp: t }),
            _ => None,
        }
    }
}

/// A transaction line is read word by word: where it gives a transaction,
/// it has at least four words, sender and receiver are the first characters
/// of the first two, amount and fourth value the integers of the third and
/// fourth; it gives none exactly where there are fewer than four words or
/// the third or fourth is no `i32`.
pub proof fn lemma_transaction_record_words(line: Seq<char>)
    ensures
        ({
            let w = crate::input::words(line);
            match transaction_record(line) {
                Some(t) => w.len() >= 4 && t.from == w[0][0] && t.to == w[1][0] && crate::input::parse_i32(w[2]) == Some(
                    t.amount,
                ) && crate::input::parse_i32(w[3]) == Some(t.temp),
                None => w.len() < 4 || crate::input::parse_i32(w[2]) is None || crate::input::parse_i32(w[3]) is None,
            }
        }),
{
}

/// `transaction_record` as a function value.
pub open spec fn transaction_parser() -> spec_fn(Seq<char>) -> Option<Transaction> {
    |l: Seq<char>| transaction_record(l)
}

/// Reads a transaction line (see `transaction_record`).
pub fn read_transaction(line: &Vec<char>) -> (res: Option<Transaction>)
    ensures
        res == transaction_record(line@),
        ({
            let w = crate::input::words(line@);
            match res {
                Some(t) => w.len() >= 4 && t.from == w[0][0] && t.to == w[1][0] && crate::input::parse_i32(w[2]) == Some(
                    t.amount,
                ) && crate::input::parse_i32(w[3]) == Some(t.temp),
                None => w.len() < 4 || crate::input::parse_i32(w[2]) is None || crate::input::parse_i32(w[3]) is None,
            }
        }),
{
    proof {
        lemma_transaction_record_words(line@);
    }
    let w = crate::input::split_words(line);
    if w.len() < 4 {
        return None;
    }
    assert(crate::input::texts(w@)[0] == w@[0]@);
    assert(crate::input::texts(w@)[1] == w@[1]@);
    assert(crate::input::texts(w@)[2] == w@[2]@);
    assert(crate::input::texts(w@)[3] == w@[3]@);
    match (crate::input::read_i32(&w[2]), crate::input::read_i32(&w[3])) {
        (Some(a), Some(t)) => Some(Transaction { from: w[0][0], to: w[1][0], amount: a, temp: t }),
        _ => None,
    }
}

/// Reads `n` transaction lines from line `pos` on.
pub fn read_transactions(lines: &Vec<String>, pos: usize, n: i32) -> (res: Option<Vec<Transaction>>)
    ensures
        match crate::input::read_from(
            crate::input::line_texts(lines@),
            pos as int,
            n as int,
            transaction_parser(),
            Seq::empty(),
        ) {
            Some(t) => res matches Some(v) && v@ == t,
            None => res is None,
        },
{
    let ghost texts_of = crate::input::line_texts(lines@);
    let ghost target = crate::input::read_from(
        texts_of,
        pos as int,
        n as int,
        transaction_parser(),
        Seq::empty(),
    );
    let mut out: Vec<Transaction> = Vec::new();
    let mut k: i32 = 0;
    let mut p: usize = pos;
    while k < n
        invariant
            texts_of == crate::input::line_texts(lines@),
            0 <= k,
            k <= n || n < 0,
            p == pos + k,
            target == crate::input::read_from(texts_of, p as int, n - k, transaction_parser(), out@),
            target == crate::input::read_from(
                texts_of,
                pos as int,
                n as int,
                transaction_parser(),
                Seq::empty(),
            ),
        decreases n - k,
    {
        if p >= lines.len() {
            return None;
        }
        let line = crate::input::line_chars(lines, p);
        assert(texts_of[p as int] == line@);
        assert((transaction_parser())(line@) == transaction_record(line@));
        match read_transaction(&line) {
            None => {
                return None;
            },
            Some(t) => {
                out.push(t);
            },
        }
        k = k + 1;
        p = p + 1;
    }
    Some(out)
}

/// The program's input: starting balances and transactions.
#[derive(Debug)]
pub struct Input {
    pub balances: HashMap<u32, i32>,
    pub transactions: Vec<Transaction>,
}

/// The values an input text gives: a count of account lines and those
/// lines, then a count of transaction lines and those lines. A negative
/// count stands for no lines. `None` where a line is missing or malformed.
pub open spec fn input_model(lines: Seq<Seq<char>>) -> Option<(Map<u32, i32>, Seq<Transaction>)> {
    match crate::input::count_at(lines, 0) {
        None => None,
        Some(na) => match crate::input::read_from(
            lines,
            1,
            na as int,
            crate::input::account_parser(),
            Seq::empty(),
        ) {
            None => None,
            Some(accounts) => {
                let p = 1 + crate::input::span(na);
                match crate::input::count_at(lines, p) {
                    None => None,
                    Some(nt) => match crate::input::read_from(
                        lines,
                        p + 1,
                        nt as int,
                        transaction_parser(),
                        Seq::empty(),
                    ) {
                        None => None,
                        Some(txs) => Some((crate::input::balances_of(accounts), txs)),
                    },
                }
            },
        },
    }
}

/// Reads the program's input from its lines (see `input_model`).
pub fn parse_input(lines: &Vec<String>) -> (res: Option<Input>)
    ensures
        match input_model(crate::input::line_texts(lines@)) {
            Some((b, t)) => res matches Some(inp) && inp.balances@ == b && inp.transactions@ == t,
            None => res is None,
        },
{
    let ghost texts_of = crate::input::line_texts(lines@);
    let na = match crate::input::read_count(lines, 0) {
        Some(v) => v,
        None => {
            return None;
        },
    };
    let balances = match crate::input::read_accounts(lines, 1, na) {
        Some(b) => b,
        None => {
            return None;
        },
    };
    proof {
        crate::input::lemma_read_within(
            texts_of,
            1,
            na as int,
            crate::input::account_parser(),
            Seq::empty(),
        );
    }
    let p = crate::input::after_records(1, na, lines.len());
    let nt = match crate::input::read_count(lines, p) {
        Some(v) => v,
        None => {
            return None;
        },
    };
    if p >= lines.len() {
        return None;
    }
    let transactions = match read_transactions(lines, p + 1, nt) {
        Some(t) => t,
        None => {
            return None;
        },
    };
    Some(Input { balances, transactions })
}

/// How a transaction is printed: `['<sender>', '<receiver>', <amount>,
/// <fourth value>]`.
pub open spec fn transaction_text(t: Transaction) -> Seq<char> {
    seq!['[', '\''] + seq![t.from] + seq!['\'', ',', ' ', '\''] + seq![t.to] + seq!['\'', ',', ' ']
        + decimal(t.amount as int) + seq![',', ' '] + decimal(t.temp as int) + seq![']']
}

/// Writes `transaction_text`.
pub fn render_transaction(t: &Transaction) -> (res: Vec<char>)
    ensures
        res@ == transaction_text(*t),
{
    let mut out: Vec<char> = Vec::new();
    out.push('[');
    out.push('\'');
    out.push(t.from);
    out.push('\'');
    out.push(',');
    out.push(' ');
    out.push('\'');
    out.push(t.to);
    out.push('\'');
    out.push(',');
    out.push(' ');
    crate::text::push_decimal_chars(&mut out, t.amount);
    out.push(',');
    out.push(' ');
    crate::text::push_decimal_chars(&mut out, t.temp);
    out.push(']');
    assert(out@ =~= transaction_text(*t));
    out
}

/// The printed transactions of a block, `", "` between each two.
pub open spec fn transactions_text(txs: Seq<Transaction>) -> Seq<char> {
    crate::text::join(txs.map_values(|t: Transaction| transaction_text(t)), seq![',', ' '])
}

fn render_transactions(txs: &Vec<Transaction>) -> (res: Vec<char>)
    ensures
        res@ == transactions_text(txs@),
{
    let mut parts: Vec<Vec<char>> = Vec::new();
    let n = txs.len();
    let mut i: usize = 0;
    while i < n
        invariant
            n == txs@.len(),
            i <= n,
            parts@.len() == i,
            forall|j: int| 0 <= j < i ==> (#[trigger] parts@[j])@ == transaction_text(txs@[j]),
        decreases n - i,
    {
        parts.push(render_transaction(&txs[i]));
        i = i + 1;
    }
    assert(crate::input::texts(parts@) =~= txs@.map_values(|t: Transaction| transaction_text(t)));
    let mut sep: Vec<char> = Vec::new();
    sep.push(',');
    sep.push(' ');
    assert(sep@ =~= seq![',', ' ']);
    let mut out: Vec<char> = Vec::new();
    crate::text::push_joined(&mut out, &parts, &sep);
    out
}

/// How a block is printed: its number, its hash, its transactions in
/// brackets and its Merkle root, one per line.
pub open spec fn block_text(b: SealedBlock) -> Seq<char> {
    decimal(b.block_number) + seq!['\n'] + b.block_hash + seq!['\n', '['] + transactions_text(
        b.transactions,
    ) + seq![']', '\n'] + b.merkle_root + seq!['\n']
}

/// The printed blocks, one after the other.
pub open spec fn output_text(blocks: Seq<SealedBlock>) -> Seq<char>
    decreases blocks.len(),
{
    if blocks.len() == 0 {
        Seq::empty()
    } else {
        output_text(blocks.drop_last()) + block_text(blocks.last())
    }
}

fn push_block(out: &mut Vec<char>, block: &Block)
    ensures
        final(out)@ == old(out)@ + block_text(block.model()),
{
    crate::text::push_decimal_chars(out, block.block_number);
    out.push('\n');
    crate::text::push_chars(out, &crate::text::text_of(block.block_hash.as_str()));
    out.push('\n');
    out.push('[');
    crate::text::push_chars(out, &render_transactions(&block.transactions));
    out.push(']');
    out.push('\n');
    crate::text::push_chars(out, &crate::text::text_of(block.merkle_root.as_str()));
    out.push('\n');
    assert(final(out)@ =~= old(out)@ + block_text(block.model()));
}

/// Writes `output_text` for `blocks`: what the program prints.
pub fn render_output(blocks: &Vec<Block>) -> (res: String)
    ensures
        res@ == output_text(block_models(blocks@)),
{
    let mut out: Vec<char> = Vec::new();
    let n = blocks.len();
    let mut i: usize = 0;
    while i < n
        invariant
            n == blocks@.len(),
            i <= n,
            out@ == output_text(block_models(blocks@.take(i as int))),
        decreases n - i,
    {
        push_block(&mut out, &blocks[i]);
        assert(block_models(blocks@.take(i + 1)).drop_last() =~= block_models(blocks@.take(i as int)));
        i = i + 1;
    }
    assert(blocks@.take(n as int) =~= blocks@);
    crate::input::string_of(&out)
}

/// The whole program on its input lines: reads the input, runs the ledger
/// on the transactions in the order given and writes the blocks. `None`
/// where the input is malformed or the run aborts.
pub fn run_program(lines: &Vec<String>) -> (res: Option<String>)
    ensures
        match input_model(crate::input::line_texts(lines@)) {
            None => res is None,
            Some((b, t)) => match spec_chain(b, t) {
                Some(s) => res matches Some(out) && out@ == output_text(s.blocks),
                None => res is None,
            },
        },
{
    let input = match parse_input(lines) {
        Some(i) => i,
        None => {
            return None;
        },
    };
    let Input { balances, transactions } = input;
    let mut balances = balances;
    match run_chain(&mut balances, &transactions) {
        Some(blocks) => Some(render_output(&blocks)),
        None => None,
    }
}

/// The hash text that block `k` of `blocks` follows: `"0"` for the first.
pub open spec fn hash_before(blocks: Seq<SealedBlock>, k: int) -> Seq<char> {
    if k == 0 {
        seq!['0']
    } else {
        blocks[k - 1].block_hash
    }
}

/// The blocks form a chain: block `k` (counting from 0) is numbered `k + 1`;
/// its hash covers the hash of the block before it (`"0"` for the first),
/// its number and its Merkle root; it is the block `create_block` makes from
/// its transactions, so its Merkle root is theirs; every block but the last
/// holds `BLOCK_CAPACITY` transactions, the last between one and that many.
pub open spec fn is_chain(blocks: Seq<SealedBlock>) -> bool {
    forall|k: int|
        0 <= k < blocks.len() ==> {
            &&& (#[trigger] blocks[k]).block_number == k + 1
            &&& blocks[k].block_hash == block_hash_text(
                hash_before(blocks, k),
                k + 1,
                blocks[k].merkle_root,
            )
            &&& blocks[k] == spec_block(k + 1, hash_before(blocks, k), blocks[k].transactions)
            &&& k < blocks.len() - 1 ==> blocks[k].transactions.len() == BLOCK_CAPACITY
            &&& 1 <= blocks[k].transactions.len() <= BLOCK_CAPACITY
        }
}

/// What holds of every state the loop reaches.
pub open spec fn reachable_shape(s: ChainState) -> bool {
    &&& is_chain(s.blocks)
    &&& forall|k: int|
        0 <= k < s.blocks.len() ==> (#[trigger] s.blocks[k]).transactions.len() == BLOCK_CAPACITY
    &&& s.next_number == s.blocks.len() + 1
    &&& s.prev_hash == hash_before(s.blocks, s.blocks.len() as int)
    &&& s.pending.len() < BLOCK_CAPACITY
}

/// Appending the block made from `txs` after the last block of a chain
/// extends the chain.
proof fn lemma_chain_extends(blocks: Seq<SealedBlock>, txs: Seq<Transaction>)
    requires
        is_chain(blocks),
        forall|k: int|
            0 <= k < blocks.len() ==> (#[trigger] blocks[k]).transactions.len() == BLOCK_CAPACITY,
        1 <= txs.len() <= BLOCK_CAPACITY,
    ensures
        is_chain(
            blocks.push(spec_block(blocks.len() + 1int, hash_before(blocks, blocks.len() as int), txs)),
        ),
{
    let block = spec_block(blocks.len() + 1int, hash_before(blocks, blocks.len() as int), txs);
    let t = blocks.push(block);
    assert forall|k: int| 0 <= k < t.len() implies {
        &&& (#[trigger] t[k]).block_number == k + 1
        &&& t[k].block_hash == block_hash_text(hash_before(t, k), k + 1, t[k].merkle_root)
        &&& t[k] == spec_block(k + 1, hash_before(t, k), t[k].transactions)
        &&& k < t.len() - 1 ==> t[k].transactions.len() == BLOCK_CAPACITY
        &&& 1 <= t[k].transactions.len() <= BLOCK_CAPACITY
    } by {
        if k < blocks.len() {
            assert(t[k] == blocks[k]);
        }
        assert(hash_before(t, k) == hash_before(blocks, k));
    }
}

proof fn lemma_prefix_shape(init: ChainState, txs: Seq<Transaction>, n: nat)
    requires
        reachable_shape(init),
        run_prefix(init, txs, n) is Some,
    ensures
        reachable_shape(run_prefix(init, txs, n).unwrap()),
    decreases n,
{
    if n > 0 {
        lemma_prefix_shape(init, txs, (n - 1) as nat);
        reveal(step);
        let s = run_prefix(init, txs, (n - 1) as nat).unwrap();
        let t = run_prefix(init, txs, n).unwrap();
        if t.blocks.len() > s.blocks.len() {
            lemma_chain_extends(s.blocks, s.pending.push(txs[n - 1]));
            assert(t.blocks == s.blocks.push(t.blocks.last()));
            assert forall|k: int| 0 <= k < t.blocks.len() implies (#[trigger] t.blocks[k]).transactions.len()
                == BLOCK_CAPACITY by {
                if k < s.blocks.len() {
                    assert(t.blocks[k] == s.blocks[k]);
                }
            }
        }
    }
}

/// The blocks of every run that completes form a chain (see `is_chain`).
pub proof fn lemma_run_forms_chain(balances: Map<u32, i32>, txs: Seq<Transaction>)
    requires
        spec_chain(balances, txs) is Some,
    ensures
        is_chain(spec_chain(balances, txs).unwrap().blocks),
{
    let init = initial_state(balances);
    assert(init.blocks =~= Seq::<SealedBlock>::empty());
    lemma_prefix_shape(init, txs, txs.len());
    let s = run_prefix(init, txs, txs.len()).unwrap();
    if s.pending.len() > 0 {
        lemma_chain_extends(s.blocks, s.pending);
    }
}

/// The transactions of the blocks, block after block.
pub open spec fn flatten(blocks: Seq<SealedBlock>) -> Seq<Transaction>
    decreases blocks.len(),
{
    if blocks.len() == 0 {
        Seq::empty()
    } else {
        flatten(blocks.drop_last()) + blocks.last().transactions
    }
}

/// The transactions among the first `n` of `txs` that the ledger executed:
/// those whose sender could pay when they were offered.
pub open spec fn executed(init: ChainState, txs: Seq<Transaction>, n: nat) -> Seq<Transaction>
    decreases n,
{
    if n == 0 {
        Seq::empty()
    } else {
        let before = executed(init, txs, (n - 1) as nat);
        match run_prefix(init, txs, (n - 1) as nat) {
            Some(s) => if can_pay(s.balances, txs[n - 1].from, txs[n - 1].amount) {
                before.push(txs[n - 1])
            } else {
                before
            },
            None => before,
        }
    }
}

proof fn lemma_flatten_push(blocks: Seq<SealedBlock>, b: SealedBlock)
    ensures
        flatten(blocks.push(b)) == flatten(blocks) + b.transactions,
{
    assert(blocks.push(b).drop_last() =~= blocks);
}

proof fn lemma_prefix_content(init: ChainState, txs: Seq<Transaction>, n: nat)
    requires
        init.blocks.len() == 0,
        init.pending.len() == 0,
        n <= txs.len(),
        run_prefix(init, txs, n) is Some,
    ensures
        flatten(run_prefix(init, txs, n).unwrap().blocks) + run_prefix(init, txs, n).unwrap().pending
            == executed(init, txs, n),
    decreases n,
{
    reveal(step);
    if n == 0 {
        assert(flatten(init.blocks) =~= Seq::<Transaction>::empty());
        assert(flatten(init.blocks) + init.pending =~= Seq::<Transaction>::empty());
    } else {
        let m = (n - 1) as nat;
        lemma_prefix_content(init, txs, m);
        let s = run_prefix(init, txs, m).unwrap();
        let tx = txs[n - 1];
        let t = run_prefix(init, txs, n).unwrap();
        if can_pay(s.balances, tx.from, tx.amount) {
            if s.pending.push(tx).len() == BLOCK_CAPACITY {
                let block = t.blocks.last();
                assert(t.blocks == s.blocks.push(block));
                lemma_flatten_push(s.blocks, block);
                assert(flatten(t.blocks) + t.pending =~= flatten(s.blocks) + s.pending.push(tx));
            } else {
                assert(flatten(t.blocks) + t.pending =~= flatten(s.blocks) + s.pending.push(tx));
            }
        }
    }
}

/// The blocks of every run that completes hold exactly the executed
/// transactions, in the order they were offered; refused transactions are
/// in no block.
pub proof fn lemma_blocks_hold_executed(balances: Map<u32, i32>, txs: Seq<Transaction>)
    requires
        spec_chain(balances, txs) is Some,
    ensures
        flatten(spec_chain(balances, txs).unwrap().blocks) == executed(
            initial_state(balances),
            txs,
            txs.len(),
        ),
{
    let init = initial_state(balances);
    lemma_prefix_content(init, txs, txs.len());
    let s = run_prefix(init, txs, txs.len()).unwrap();
    let f = spec_chain(balances, txs).unwrap();
    if s.pending.len() > 0 {
        let block = f.blocks.last();
        assert(f.blocks == s.blocks.push(block));
        lemma_flatten_push(s.blocks, block);
    } else {
        assert(flatten(s.blocks) + s.pending =~= flatten(s.blocks));
    }
}

proof fn lemma_prefix_total(init: ChainState, txs: Seq<Transaction>, n: nat)
    requires
        init.balances.dom().finite(),
        run_prefix(init, txs, n) is Some,
    ensures
        run_prefix(init, txs, n).unwrap().balances.dom().finite(),
        total(run_prefix(init, txs, n).unwrap().balances) == total(init.balances),
    decreases n,
{
    reveal(step);
    if n > 0 {
        let m = (n - 1) as nat;
        lemma_prefix_total(init, txs, m);
        let s = run_prefix(init, txs, m).unwrap();
        let tx = txs[n - 1];
        if can_pay(s.balances, tx.from, tx.amount) {
            lemma_transfer_keeps_total(s.balances, tx.from, tx.to, tx.amount);
        }
    }
}

/// Money is neither made nor lost: in every run that completes, the
/// balances of all accounts add up to what they added up to at the start.
pub proof fn lemma_run_keeps_total(balances: Map<u32, i32>, txs: Seq<Transaction>)
    requires
        balances.dom().finite(),
        spec_chain(balances, txs) is Some,
    ensures
        total(spec_chain(balances, txs).unwrap().balances) == total(balances),
{
    lemma_prefix_total(initial_state(balances), txs, txs.len());
}

/// The Merkle split law: for `n >= 2` transactions and `k` the largest
/// power of two below `n`, the root is the hash of the root of the first `k`
/// transactions followed by the root of the rest.
pub proof fn lemma_merkle_root_split(txs: Seq<Transaction>, k: int)
    requires
        is_pow2(k),
        k < txs.len() <= 2 * k,
    ensures
        merkle_root_text(txs) == spec_hash(
            encode_utf8(merkle_root_text(txs.take(k)) + merkle_root_text(txs.skip(k))),
        ),
{
    assert(leaves(txs.take(k)) =~= leaves(txs).take(k));
    assert(leaves(txs.skip(k)) =~= leaves(txs).skip(k));
    lemma_merkle_split(leaves(txs), k);
}

/// Blocks of three: in every completed run of this ledger, every block but
/// the last holds exactly three transactions, and the last between one and
/// three.
pub proof fn lemma_blocks_of_three(balances: Map<u32, i32>, txs: Seq<Transaction>)
    requires
        spec_chain(balances, txs) is Some,
    ensures
        forall|k: int|
            0 <= k < spec_chain(balances, txs).unwrap().blocks.len() ==> 1 <= (#[trigger] spec_chain(balances, txs).unwrap().blocks[k]).transactions.len()
                <= 3 && (k < spec_chain(balances, txs).unwrap().blocks.len() - 1 ==> spec_chain(balances, txs).unwrap().blocks[k].transactions.len() == 3),
{
    lemma_run_forms_chain(balances, txs);
}

/// Where the input reads, each value comes from its own line: line 0 holds
/// the number of account lines, which follow it; then comes a line with the
/// number of transaction lines, which follow it (a negative count stands for
/// no lines). The balances are those the account lines set, in turn.
pub proof fn lemma_input_lines(lines: Seq<Seq<char>>)
    requires
        input_model(lines) is Some,
    ensures
        ({
            let (b, t) = input_model(lines).unwrap();
            let a = crate::input::span(crate::input::count_at(lines, 0)->0);
            let tn = crate::input::span(crate::input::count_at(lines, 1 + a)->0);
            &&& crate::input::count_at(lines, 0) is Some
            &&& crate::input::count_at(lines, 1 + a) is Some
            &&& forall|i: int|
                0 <= i < a ==> (#[trigger] crate::input::account_record(lines[1 + i])) is Some
            &&& b == crate::input::balances_of(
                Seq::new(a as nat, |i: int| crate::input::account_record(lines[1 + i])->0),
            )
            &&& t.len() == tn
            &&& forall|i: int|
                0 <= i < tn ==> transaction_record(lines[2 + a + i]) == Some(#[trigger] t[i])
        }),
{
    let na = crate::input::count_at(lines, 0)->0;
    let a = crate::input::span(na);
    crate::input::lemma_read_from_items(lines, 1, na as int, crate::input::account_parser(), Seq::empty());
    let accounts = crate::input::read_from(lines, 1, na as int, crate::input::account_parser(), Seq::empty()).unwrap();
    assert forall|i: int| 0 <= i < a implies (#[trigger] crate::input::account_record(lines[1 + i])) is Some by {
        assert((crate::input::account_parser())(lines[1 + i]) == Some(accounts[0 + i]));
    }
    assert(accounts =~= Seq::new(a as nat, |i: int| crate::input::account_record(lines[1 + i])->0)) by {
        assert forall|i: int| 0 <= i < a implies accounts[i] == crate::input::account_record(lines[1 + i])->0 by {
            assert((crate::input::account_parser())(lines[1 + i]) == Some(accounts[0 + i]));
        }
    }
    let p = 1 + a;
    let nt = crate::input::count_at(lines, p)->0;
    let tn = crate::input::span(nt);
    let parser = transaction_parser();
    crate::input::lemma_read_from_items(lines, p + 1, nt as int, parser, Seq::empty());
    let txs = crate::input::read_from(lines, p + 1, nt as int, parser, Seq::empty()).unwrap();
    assert forall|i: int| 0 <= i < tn implies transaction_record(lines[2 + a + i])
        == Some(#[trigger] txs[i]) by {
        assert(parser(lines[(p + 1) + i]) == Some(txs[0 + i]));
    }
}

/// The roots of the smallest lists: `"0"` for no transactions, for one
/// transaction the SHA3-256 hex of its sender, receiver and amount written
/// one after the other, and for two the hex of the two leaf hashes one
/// after the other.
pub proof fn lemma_small_roots(t: Transaction, u: Transaction)
    ensures
        merkle_root_text(Seq::empty()) == seq!['0'],
        merkle_root_text(seq![t]) == spec_hash(
            encode_utf8(seq![t.from] + seq![t.to] + decimal(t.amount as int)),
        ),
        merkle_root_text(seq![t, u]) == spec_hash(
            encode_utf8(merkle_root_text(seq![t]) + merkle_root_text(seq![u])),
        ),
{
    assert(leaves(seq![t]) =~= seq![leaf_model(t)]);
    assert(leaves(seq![u]) =~= seq![leaf_model(u)]);
    let level = leaves(seq![t, u]);
    assert(level =~= seq![leaf_model(t), leaf_model(u)]);
    let next = crate::merkle::next_level(level, Unpaired::Promote);
    assert(next.len() == 1);
    assert(merkle_tree(level, Unpaired::Promote) == merkle_tree(next, Unpaired::Promote));
    assert(next[0] == crate::merkle::parent_at(level, 0, Unpaired::Promote));
}

} // verus!
