//! Transactions that carry an incentive, their Merkle leaves and their
//! execution against the balances.

use vstd::prelude::*;
use vstd::utf8::*;
use std::collections::HashMap;
use crate::digest::{calculate_hash, is_hex_hash, spec_hash};
use crate::ledger::{after_transfer, can_pay, transfer, transfer_fits};
use crate::merkle::{
    all_hex, build_tree, is_pow2, leaf_tree, lemma_merkle_split, merkle_tree,
    models, MerkleNode, MerkleTree, Unpaired,
};
use crate::text::{decimal, lemma_encode_utf8_concat, push_char, push_decimal};

verus! {

/// A transfer of `amount` from account `from` to account `to`, offering
/// `incentive` to have it included.
#[derive(Debug, Clone, Copy, PartialEq, Eq)]
pub struct Transaction {
    pub from: char,
    pub to: char,
    pub amount: i32,
    pub incentive: i32,
}

/// The text hashed for a transaction's leaf: sender, incentive, receiver,
/// amount, written one after the other.
pub open spec fn leaf_text(t: Transaction) -> Seq<char> {
    seq![t.from] + decimal(t.incentive as int) + seq![t.to] + decimal(t.amount as int)
}

/// The leaf of a transaction.
pub open spec fn leaf_model(t: Transaction) -> MerkleTree {
    leaf_tree(spec_hash(encode_utf8(leaf_text(t))))
}

/// The leaves of a list of transactions, in order.
pub open spec fn leaves(txs: Seq<Transaction>) -> Seq<MerkleTree> {
    txs.map_values(|t: Transaction| leaf_model(t))
}

/// The Merkle root text of a list of transactions: `"0"` for none.
pub open spec fn merkle_root_text(txs: Seq<Transaction>, unpaired: Unpaired) -> Seq<char> {
    if txs.len() == 0 {
        seq!['0']
    } else {
        merkle_tree(leaves(txs), unpaired).hash
    }
}

impl MerkleNode {
    /// The leaf of `transaction`: the hash of its sender, incentive,
    /// receiver and amount.
    pub fn new_leaf(transaction: &Transaction) -> (res: MerkleNode)
        ensures
            res.model() == leaf_model(*transaction),
            is_hex_hash(res.hash@),
    {
        let mut hash_input: Vec<u8> = Vec::new();
        push_char(&mut hash_input, transaction.from);
        push_decimal(&mut hash_input, transaction.incentive);
        push_char(&mut hash_input, transaction.to);
        push_decimal(&mut hash_input, transaction.amount);
        proof {
            let a = seq![transaction.from];
            let b = decimal(transaction.incentive as int);
            let c = seq![transaction.to];
            let d = decimal(transaction.amount as int);
            lemma_encode_utf8_concat(a, b);
            lemma_encode_utf8_concat(a + b, c);
            lemma_encode_utf8_concat(a + b + c, d);
            assert(hash_input@ =~= encode_utf8(leaf_text(*transaction)));
        }
        let hash = calculate_hash(hash_input.as_slice());
        MerkleNode { hash, left: None, right: None }
    }
}

/// The leaves of `transactions`, in order.
pub fn leaf_nodes(transactions: &[Transaction]) -> (res: Vec<MerkleNode>)
    ensures
        models(res@) == leaves(transactions@),
        all_hex(models(res@)),
{
    let mut nodes: Vec<MerkleNode> = Vec::new();
    let n = transactions.len();
    let mut i: usize = 0;
    while i < n
        invariant
            n == transactions@.len(),
            i <= n,
            nodes.len() == i,
            forall|j: int| 0 <= j < i ==> #[trigger] nodes@[j].model() == leaf_model(transactions@[j]),
            forall|j: int| 0 <= j < i ==> is_hex_hash(#[trigger] nodes@[j].hash@),
        decreases n - i,
    {
        nodes.push(MerkleNode::new_leaf(&transactions[i]));
        i = i + 1;
    }
    assert(models(nodes@) =~= leaves(transactions@));
    assert forall|j: int| 0 <= j < models(nodes@).len() implies is_hex_hash(
        #[trigger] models(nodes@)[j].hash,
    ) by {
        assert(models(nodes@)[j] == nodes@[j].model());
    }
    nodes
}

/// The Merkle tree of `transactions`; `None` for no transactions.
pub fn merkle_tree_of(transactions: &[Transaction], unpaired: Unpaired) -> (res: Option<MerkleNode>)
    ensures
        match res {
            None => transactions@.len() == 0,
            Some(root) => transactions@.len() > 0 && root.model() == merkle_tree(
                leaves(transactions@),
                unpaired,
            ) && is_hex_hash(root.hash@),
        },
{
    if transactions.len() == 0 {
        return None;
    }
    let nodes = leaf_nodes(transactions);
    Some(build_tree(nodes, unpaired))
}

/// The Merkle root text of `transactions`: 64 lower-case hexadecimal
/// digits, or `"0"` for no transactions.
pub fn merkle_root_of(transactions: &[Transaction], unpaired: Unpaired) -> (res: String)
    ensures
        res@ == merkle_root_text(transactions@, unpaired),
        transactions@.len() > 0 ==> is_hex_hash(res@),
{
    match merkle_tree_of(transactions, unpaired) {
        Some(root) => root.hash,
        None => {
            let zero = "0";
            proof {
                reveal_strlit("0");
            }
            zero.to_owned()
        },
    }
}

/// Carries out `transaction` when its sender holds at least its amount and
/// says whether it did; a refused transaction changes no balance.
pub fn execute_transaction(transaction: &Transaction, balances: &mut HashMap<u32, i32>) -> (res:
    bool)
    requires
        transfer_fits(old(balances)@, transaction.from, transaction.to, transaction.amount),
    ensures
        res == can_pay(old(balances)@, transaction.from, transaction.amount),
        res == (crate::ledger::balance(old(balances)@, transaction.from) >= transaction.amount),
        res ==> final(balances)@ == after_transfer(
            old(balances)@,
            transaction.from,
            transaction.to,
            transaction.amount,
        ),
        !res ==> final(balances)@ == old(balances)@,
{
    transfer(balances, transaction.from, transaction.to, transaction.amount)
}

/// `a` is ordered strictly before `b`: a higher incentive first, and on
/// equal incentives the smaller receiver first.
pub open spec fn goes_before(a: Transaction, b: Transaction) -> bool {
    a.incentive > b.incentive || (a.incentive == b.incentive && a.to < b.to)
}

/// No transaction of `s` is ordered strictly before an earlier one.
pub open spec fn ranked(s: Seq<Transaction>) -> bool {
    forall|i: int, j: int| 0 <= i < j < s.len() ==> !goes_before(#[trigger] s[j], #[trigger] s[i])
}

/// The transactions of `s` with this incentive and receiver, in order.
pub open spec fn rank_class(s: Seq<Transaction>, incentive: i32, to: char) -> Seq<Transaction> {
    s.filter(has_rank(incentive, to))
}

/// Whether a transaction has this incentive and receiver.
pub open spec fn has_rank(incentive: i32, to: char) -> spec_fn(Transaction) -> bool {
    |t: Transaction| t.incentive == incentive && t.to == to
}

proof fn lemma_class_concat(a: Seq<Transaction>, b: Seq<Transaction>, incentive: i32, to: char)
    ensures
        rank_class(a + b, incentive, to) == rank_class(a, incentive, to) + rank_class(b, incentive, to),
{
    Seq::filter_distributes_over_add(a, b, has_rank(incentive, to));
}

/// `t` is `s` ordered by incentive (descending) and receiver (ascending),
/// transactions that tie on both keeping their order in `s`.
pub open spec fn is_stable_ranking(s: Seq<Transaction>, t: Seq<Transaction>) -> bool {
    &&& ranked(t)
    &&& forall|incentive: i32, to: char|
        #[trigger] rank_class(t, incentive, to) == rank_class(s, incentive, to)
}

/// The stable ranking of `s` (there is exactly one: see
/// `lemma_stable_ranking_unique`).
pub open spec fn ranking(s: Seq<Transaction>) -> Seq<Transaction> {
    choose|t: Seq<Transaction>| is_stable_ranking(s, t)
}

fn goes_before_exec(a: &Transaction, b: &Transaction) -> (res: bool)
    ensures
        res == goes_before(*a, *b),
{
    a.incentive > b.incentive || (a.incentive == b.incentive && a.to < b.to)
}

proof fn lemma_class_of_single(x: Transaction, incentive: i32, to: char)
    ensures
        rank_class(seq![x], incentive, to) == (if x.incentive == incentive && x.to == to {
            seq![x]
        } else {
            Seq::<Transaction>::empty()
        }),
{
    reveal_with_fuel(Seq::filter, 2);
    assert(seq![x].drop_last() =~= Seq::<Transaction>::empty());
    assert(seq![x].last() == x);
    assert(Seq::<Transaction>::empty().push(x) =~= seq![x]);
}

proof fn lemma_class_of_later(s: Seq<Transaction>, x: Transaction)
    requires
        forall|i: int| 0 <= i < s.len() ==> goes_before(x, #[trigger] s[i]),
    ensures
        rank_class(s, x.incentive, x.to) =~= Seq::<Transaction>::empty(),
{
    let pred = has_rank(x.incentive, x.to);
    assert(s.all(|y: Transaction| !pred(y))) by {
        assert forall|i: int| 0 <= i < s.len() implies !pred(#[trigger] s[i]) by {
            assert(goes_before(x, s[i]));
        }
    }
    s.lemma_all_neg_filter_empty(pred);
}

/// Orders `transactions` by incentive (descending), then receiver
/// (ascending); transactions that tie on both keep their order.
pub fn sort_transactions(transactions: &mut Vec<Transaction>)
    ensures
        is_stable_ranking(old(transactions)@, final(transactions)@),
        final(transactions)@ == ranking(old(transactions)@),
        forall|i: int, j: int|
            0 <= i < j < final(transactions)@.len() ==> (#[trigger] final(transactions)@[i]).incentive
                > (#[trigger] final(transactions)@[j]).incentive || (final(transactions)@[i].incentive
                == final(transactions)@[j].incentive && final(transactions)@[i].to
                <= final(transactions)@[j].to),
{
    let ghost input = transactions@;
    let n = transactions.len();
    let mut out: Vec<Transaction> = Vec::new();
    let mut i: usize = 0;
    while i < n
        invariant
            n == input.len(),
            input == transactions@,
            i <= n,
            ranked(out@),
            forall|incentive: i32, to: char|
                #[trigger] rank_class(out@, incentive, to) == rank_class(
                    input.take(i as int),
                    incentive,
                    to,
                ),
        decreases n - i,
    {
        let x = transactions[i];
        let mut p: usize = 0;
        while p < out.len() && !goes_before_exec(&x, &out[p])
            invariant
                p <= out.len(),
                forall|j: int| 0 <= j < p ==> !goes_before(x, #[trigger] out@[j]),
            decreases out.len() - p,
        {
            p = p + 1;
        }
        let ghost before = out@;
        proof {
            assert forall|j: int| p <= j < before.len() implies goes_before(x, #[trigger] before[j]) by {
                if j > p {
                    assert(!goes_before(before[j], before[p as int]));
                }
            }
        }
        out.insert(p, x);
        proof {
            let pre = before.take(p as int);
            let post = before.skip(p as int);
            assert(before =~= pre + post);
            assert(out@ =~= pre + seq![x] + post);
            assert(input.take(i + 1) =~= input.take(i as int) + seq![x]);
            assert forall|j: int| 0 <= j < post.len() implies goes_before(x, #[trigger] post[j]) by {
                assert(post[j] == before[p + j]);
            }
            lemma_class_of_later(post, x);
            assert forall|incentive: i32, to: char|
                #[trigger] rank_class(out@, incentive, to) == rank_class(
                    input.take(i + 1),
                    incentive,
                    to,
                ) by {
                lemma_class_concat(pre + seq![x], post, incentive, to);
                lemma_class_concat(pre, seq![x], incentive, to);
                lemma_class_concat(pre, post, incentive, to);
                lemma_class_concat(input.take(i as int), seq![x], incentive, to);
                lemma_class_of_single(x, incentive, to);
                if x.incentive == incentive && x.to == to {
                    assert(rank_class(post, incentive, to) =~= Seq::<Transaction>::empty());
                    assert(rank_class(before, incentive, to) =~= rank_class(pre, incentive, to));
                }
            }
            assert forall|a: int, b: int| 0 <= a < b < out@.len() implies !goes_before(
                #[trigger] out@[b],
                #[trigger] out@[a],
            ) by {
                if a < p && b > p {
                    assert(out@[a] == before[a]);
                    assert(out@[b] == before[b - 1]);
                } else if a < p && b == p {
                    assert(out@[a] == before[a]);
                } else if a == p {
                    assert(out@[b] == before[b - 1]);
                    if goes_before(before[b - 1], x) {
                        assert(goes_before(x, before[b - 1]));
                    }
                } else if b < p {
                    assert(out@[a] == before[a]);
                    assert(out@[b] == before[b]);
                } else {
                    assert(out@[a] == before[a - 1]);
                    assert(out@[b] == before[b - 1]);
                }
            }
        }
        i = i + 1;
    }
    assert(input.take(n as int) =~= input);
    proof {
        assert(is_stable_ranking(input, out@));
        lemma_stable_ranking_unique(input, out@, ranking(input));
        assert forall|i: int, j: int| 0 <= i < j < out@.len() implies (#[trigger] out@[i]).incentive
            > (#[trigger] out@[j]).incentive || (out@[i].incentive == out@[j].incentive && out@[i].to
            <= out@[j].to) by {
            assert(!goes_before(out@[j], out@[i]));
        }
    }
    *transactions = out;
}

/// Where a transaction line puts its fields.
#[derive(Debug, Clone, Copy, PartialEq, Eq)]
pub enum TxLayout {
    /// Sender, receiver, amount, incentive.
    SenderReceiverAmountIncentive,
    /// Sender, incentive, receiver, amount.
    SenderIncentiveReceiverAmount,
}

/// A transaction line: four or more words; sender and receiver are the
/// first characters of their words, amount and incentive are `i32`s.
pub open spec fn transaction_record(line: Seq<char>, layout: TxLayout) -> Option<Transaction> {
    let w = crate::input::words(line);
    if w.len() < 4 {
        None
    } else {
        let (to, amount, incentive) = match layout {
            TxLayout::SenderReceiverAmountIncentive => (w[1][0], w[2], w[3]),
            TxLayout::SenderIncentiveReceiverAmount => (w[2][0], w[3], w[1]),
        };
        match (crate::input::parse_i32(amount), crate::input::parse_i32(incentive)) {
            (Some(a), Some(i)) => Some(Transaction { from: w[0][0], to, amount: a, incentive: i }),
            _ => None,
        }
    }
}

/// A transaction line is read word by word: where it gives a transaction,
/// it has at least four words, the sender is the first character of the
/// first, and receiver, amount and incentive come from the words `layout`
/// names (second, third, fourth; or third, fourth, second); it gives none
/// exactly where there are fewer than four words or the amount or the
/// incentive word is no `i32`.
pub proof fn lemma_transaction_record_words(line: Seq<char>, layout: TxLayout)
    ensures
        ({
            let w = crate::input::words(line);
            match transaction_record(line, layout) {
                Some(t) => w.len() >= 4 && t.from == w[0][0] && match layout {
                    TxLayout::SenderReceiverAmountIncentive => t.to == w[1][0] && crate::input::parse_i32(w[2]) == Some(
                        t.amount,
                    ) && crate::input::parse_i32(w[3]) == Some(t.incentive),
                    TxLayout::SenderIncentiveReceiverAmount => t.to == w[2][0] && crate::input::parse_i32(w[3]) == Some(
                        t.amount,
                    ) && crate::input::parse_i32(w[1]) == Some(t.incentive),
                },
                None => w.len() < 4 || match layout {
                    TxLayout::SenderReceiverAmountIncentive => crate::input::parse_i32(w[2]) is None || crate::input::parse_i32(w[3]) is None,
                    TxLayout::SenderIncentiveReceiverAmount => crate::input::parse_i32(w[3]) is None || crate::input::parse_i32(w[1]) is None,
                },
            }
        }),
{
}

/// `transaction_record` as a function value.
pub open spec fn transaction_parser(layout: TxLayout) -> spec_fn(Seq<char>) -> Option<Transaction> {
    |l: Seq<char>| transaction_record(l, layout)
}

/// Reads a transaction line (see `transaction_record`).
pub fn read_transaction(line: &Vec<char>, layout: TxLayout) -> (res: Option<Transaction>)
    ensures
        res == transaction_record(line@, layout),
        ({
            let w = crate::input::words(line@);
            match res {
                Some(t) => w.len() >= 4 && t.from == w[0][0] && match layout {
                    TxLayout::SenderReceiverAmountIncentive => t.to == w[1][0] && crate::input::parse_i32(w[2]) == Some(
                        t.amount,
                    ) && crate::input::parse_i32(w[3]) == Some(t.incentive),
                    TxLayout::SenderIncentiveReceiverAmount => t.to == w[2][0] && crate::input::parse_i32(w[3]) == Some(
                        t.amount,
                    ) && crate::input::parse_i32(w[1]) == Some(t.incentive),
                },
                None => w.len() < 4 || match layout {
                    TxLayout::SenderReceiverAmountIncentive => crate::input::parse_i32(w[2]) is None || crate::input::parse_i32(w[3]) is None,
                    TxLayout::SenderIncentiveReceiverAmount => crate::input::parse_i32(w[3]) is None || crate::input::parse_i32(w[1]) is None,
                },
            }
        }),
{
    proof {
        lemma_transaction_record_words(line@, layout);
    }
    let w = crate::input::split_words(line);
    if w.len() < 4 {
        return None;
    }
    assert(crate::input::texts(w@)[0] == w@[0]@);
    assert(crate::input::texts(w@)[1] == w@[1]@);
    assert(crate::input::texts(w@)[2] == w@[2]@);
    assert(crate::input::texts(w@)[3] == w@[3]@);
    let (to, amount, incentive) = match layout {
        TxLayout::SenderReceiverAmountIncentive => (w[1][0], crate::input::read_i32(&w[2]), crate::input::read_i32(&w[3])),
        TxLayout::SenderIncentiveReceiverAmount => (w[2][0], crate::input::read_i32(&w[3]), crate::input::read_i32(&w[1])),
    };
    match (amount, incentive) {
        (Some(a), Some(i)) => Some(Transaction { from: w[0][0], to, amount: a, incentive: i }),
        _ => None,
    }
}

/// Reads `n` transaction lines from line `pos` on.
pub fn read_transactions(lines: &Vec<String>, pos: usize, n: i32, layout: TxLayout) -> (res: Option<
    Vec<Transaction>,
>)
    ensures
        match crate::input::read_from(
            crate::input::line_texts(lines@),
            pos as int,
            n as int,
            transaction_parser(layout),
            Seq::empty(),
        ) {
            Some(t) => res matches Some(v) && v@ == t,
            None => res is None,
        },
{
    let ghost texts_of = crate::input::line_texts(lines@);
    let ghost target = crate::input::read_from(
        texts_of,
        pos as int,
        n as int,
        transaction_parser(layout),
        Seq::empty(),
    );
    let mut out: Vec<Transaction> = Vec::new();
    let mut k: i32 = 0;
    let mut p: usize = pos;
    while k < n
        invariant
            texts_of == crate::input::line_texts(lines@),
            0 <= k,
            k <= n || n < 0,
            p == pos + k,
            target == crate::input::read_from(
                texts_of,
                p as int,
                n - k,
                transaction_parser(layout),
                out@,
            ),
            target == crate::input::read_from(
                texts_of,
                pos as int,
                n as int,
                transaction_parser(layout),
                Seq::empty(),
            ),
        decreases n - k,
    {
        if p >= lines.len() {
            return None;
        }
        let line = crate::input::line_chars(lines, p);
        assert(texts_of[p as int] == line@);
        assert((transaction_parser(layout))(line@) == transaction_record(line@, layout));
        match read_transaction(&line, layout) {
            None => {
                return None;
            },
            Some(t) => {
                out.push(t);
            },
        }
        k = k + 1;
        p = p + 1;
    }
    Some(out)
}

/// How a transaction is printed: `['<sender>', '<receiver>', <amount>,
/// <incentive>]`.
pub open spec fn transaction_text(t: Transaction) -> Seq<char> {
    seq!['[', '\''] + seq![t.from] + seq!['\'', ',', ' ', '\''] + seq![t.to] + seq!['\'', ',', ' ']
        + decimal(t.amount as int) + seq![',', ' '] + decimal(t.incentive as int) + seq![']']
}

/// Writes `transaction_text`.
pub fn render_transaction(t: &Transaction) -> (res: Vec<char>)
    ensures
        res@ == transaction_text(*t),
{
    let mut out: Vec<char> = Vec::new();
    out.push('[');
    out.push('\'');
    out.push(t.from);
    out.push('\'');
    out.push(',');
    out.push(' ');
    out.push('\'');
    out.push(t.to);
    out.push('\'');
    out.push(',');
    out.push(' ');
    crate::text::push_decimal_chars(&mut out, t.amount);
    out.push(',');
    out.push(' ');
    crate::text::push_decimal_chars(&mut out, t.incentive);
    out.push(']');
    assert(out@ =~= transaction_text(*t));
    out
}

/// The printed transactions of a block, `", "` between each two.
pub open spec fn transactions_text(txs: Seq<Transaction>) -> Seq<char> {
    crate::text::join(txs.map_values(|t: Transaction| transaction_text(t)), seq![',', ' '])
}

/// Writes `transactions_text`.
pub fn render_transactions(txs: &Vec<Transaction>) -> (res: Vec<char>)
    ensures
        res@ == transactions_text(txs@),
{
    let mut parts: Vec<Vec<char>> = Vec::new();
    let n = txs.len();
    let mut i: usize = 0;
    while i < n
        invariant
            n == txs@.len(),
            i <= n,
            parts@.len() == i,
            forall|j: int| 0 <= j < i ==> (#[trigger] parts@[j])@ == transaction_text(txs@[j]),
        decreases n - i,
    {
        parts.push(render_transaction(&txs[i]));
        i = i + 1;
    }
    assert(crate::input::texts(parts@) =~= txs@.map_values(|t: Transaction| transaction_text(t)));
    let mut sep: Vec<char> = Vec::new();
    sep.push(',');
    sep.push(' ');
    assert(sep@ =~= seq![',', ' ']);
    let mut out: Vec<char> = Vec::new();
    crate::text::push_joined(&mut out, &parts, &sep);
    assert(out@ =~= transactions_text(txs@));
    out
}

/// A transaction of `t` with the same incentive and receiver as `y` is
/// found, where `y`'s class in `t` is not empty.
proof fn lemma_class_member(t: Seq<Transaction>, y: Transaction)
    requires
        rank_class(t, y.incentive, y.to).len() > 0,
    ensures
        exists|i: int| 0 <= i < t.len() && (#[trigger] t[i]).incentive == y.incentive && t[i].to == y.to,
{
    let p = has_rank(y.incentive, y.to);
    let f = t.filter(p);
    assert(f.contains(f[0]));
    t.lemma_filter_contains_rev(p, f[0]);
    t.lemma_filter_pred(p, 0);
    let i = choose|i: int| 0 <= i < t.len() && t[i] == f[0];
    assert(t[i].incentive == y.incentive && t[i].to == y.to);
}

/// The class of the last transaction in `t` is not empty.
proof fn lemma_class_of_last(t: Seq<Transaction>)
    requires
        t.len() > 0,
    ensures
        rank_class(t, t.last().incentive, t.last().to) == rank_class(
            t.drop_last(),
            t.last().incentive,
            t.last().to,
        ).push(t.last()),
        forall|incentive: i32, to: char|
            !(incentive == t.last().incentive && to == t.last().to) ==> #[trigger] rank_class(
                t,
                incentive,
                to,
            ) == rank_class(t.drop_last(), incentive, to),
{
    reveal(Seq::filter);
    assert forall|incentive: i32, to: char|
        !(incentive == t.last().incentive && to == t.last().to) implies #[trigger] rank_class(
        t,
        incentive,
        to,
    ) == rank_class(t.drop_last(), incentive, to) by {
        assert(!(has_rank(incentive, to))(t.last()));
    }
}

/// The last transaction of a ranked sequence is ranked no earlier than any
/// transaction whose class occurs in it.
proof fn lemma_last_is_latest(t: Seq<Transaction>, y: Transaction)
    requires
        t.len() > 0,
        ranked(t),
        rank_class(t, y.incentive, y.to).len() > 0,
    ensures
        !goes_before(t.last(), y),
{
    lemma_class_member(t, y);
    let i = choose|i: int| 0 <= i < t.len() && (#[trigger] t[i]).incentive == y.incentive && t[i].to == y.to;
    if i < t.len() - 1 {
        assert(!goes_before(t[t.len() - 1], t[i]));
    }
}

/// Two ranked sequences with the same classes are equal.
proof fn lemma_ranked_unique(t1: Seq<Transaction>, t2: Seq<Transaction>)
    requires
        ranked(t1),
        ranked(t2),
        forall|incentive: i32, to: char|
            #[trigger] rank_class(t1, incentive, to) == rank_class(t2, incentive, to),
    ensures
        t1 == t2,
    decreases t1.len() + t2.len(),
{
    if t1.len() == 0 || t2.len() == 0 {
        if t1.len() > 0 {
            lemma_class_of_last(t1);
            assert(rank_class(t1, t1.last().incentive, t1.last().to).len() > 0);
            reveal(Seq::filter);
            assert(rank_class(t2, t1.last().incentive, t1.last().to).len() == 0);
        } else if t2.len() > 0 {
            lemma_class_of_last(t2);
            assert(rank_class(t2, t2.last().incentive, t2.last().to).len() > 0);
            reveal(Seq::filter);
            assert(rank_class(t1, t2.last().incentive, t2.last().to).len() == 0);
        }
        assert(t1 =~= t2);
    } else {
        let x = t1.last();
        let y = t2.last();
        lemma_class_of_last(t1);
        lemma_class_of_last(t2);
        assert(rank_class(t1, y.incentive, y.to) == rank_class(t2, y.incentive, y.to));
        assert(rank_class(t2, x.incentive, x.to) == rank_class(t1, x.incentive, x.to));
        lemma_last_is_latest(t1, y);
        lemma_last_is_latest(t2, x);
        assert(x.incentive == y.incentive && x.to == y.to);
        assert(rank_class(t1, x.incentive, x.to).last() == x);
        assert(rank_class(t2, x.incentive, x.to).last() == y);
        let d1 = t1.drop_last();
        let d2 = t2.drop_last();
        assert(ranked(d1));
        assert(ranked(d2));
        assert forall|incentive: i32, to: char|
            #[trigger] rank_class(d1, incentive, to) == rank_class(d2, incentive, to) by {
            if incentive == x.incentive && to == x.to {
                assert(rank_class(t1, incentive, to) == rank_class(t2, incentive, to));
                assert(rank_class(d1, incentive, to) =~= rank_class(t1, incentive, to).drop_last());
                assert(rank_class(d2, incentive, to) =~= rank_class(t2, incentive, to).drop_last());
            } else {
                assert(rank_class(t1, incentive, to) == rank_class(t2, incentive, to));
            }
        }
        lemma_ranked_unique(d1, d2);
        assert(t1 =~= d1.push(x));
        assert(t2 =~= d2.push(y));
    }
}

/// There is only one stable ranking of a list of transactions: the order
/// `sort_transactions` produces is determined by its input.
pub proof fn lemma_stable_ranking_unique(s: Seq<Transaction>, t1: Seq<Transaction>, t2: Seq<Transaction>)
    requires
        is_stable_ranking(s, t1),
        is_stable_ranking(s, t2),
    ensures
        t1 == t2,
{
    assert forall|incentive: i32, to: char|
        #[trigger] rank_class(t1, incentive, to) == rank_class(t2, incentive, to) by {
        assert(rank_class(t1, incentive, to) == rank_class(s, incentive, to));
        assert(rank_class(t2, incentive, to) == rank_class(s, incentive, to));
    }
    lemma_ranked_unique(t1, t2);
}

/// Sorting a list that is already ordered leaves it as it is; in
/// particular sorting twice gives what sorting once gives.
pub proof fn lemma_ranking_of_ranked(t: Seq<Transaction>)
    requires
        ranked(t),
    ensures
        ranking(t) == t,
        ranking(ranking(t)) == ranking(t),
{
    assert(is_stable_ranking(t, t));
    lemma_stable_ranking_unique(t, t, ranking(t));
}

/// The Merkle split law on transactions, for roots whose lone nodes are
/// carried up alone: for `n >= 2` transactions and `k` the largest power of
/// two below `n`, the root is the hash of the root of the first `k`
/// transactions followed by the root of the rest.
pub proof fn lemma_merkle_root_split(txs: Seq<Transaction>, k: int)
    requires
        is_pow2(k),
        k < txs.len() <= 2 * k,
    ensures
        merkle_root_text(txs, Unpaired::Promote) == spec_hash(
            encode_utf8(
                merkle_root_text(txs.take(k), Unpaired::Promote) + merkle_root_text(
                    txs.skip(k),
                    Unpaired::Promote,
                ),
            ),
        ),
{
    assert(leaves(txs.take(k)) =~= leaves(txs).take(k));
    assert(leaves(txs.skip(k)) =~= leaves(txs).skip(k));
    lemma_merkle_split(leaves(txs), k);
}

/// The roots of the smallest lists: `"0"` for no transactions, and for one
/// transaction the SHA3-256 hex of its sender, incentive, receiver and
/// amount written one after the other, whatever the pairing.
pub proof fn lemma_small_roots(t: Transaction, unpaired: Unpaired)
    ensures
        merkle_root_text(Seq::empty(), unpaired) == seq!['0'],
        merkle_root_text(seq![t], unpaired) == spec_hash(
            encode_utf8(
                seq![t.from] + decimal(t.incentive as int) + seq![t.to] + decimal(t.amount as int),
            ),
        ),
{
    assert(leaves(seq![t]) =~= seq![leaf_model(t)]);
}

/// Two transactions: the root is the SHA3-256 hex of the two leaf hashes
/// written one after the other, whatever the pairing.
pub proof fn lemma_pair_root(t: Transaction, u: Transaction, unpaired: Unpaired)
    ensures
        merkle_root_text(seq![t, u], unpaired) == spec_hash(
            encode_utf8(
                merkle_root_text(seq![t], unpaired) + merkle_root_text(seq![u], unpaired),
            ),
        ),
{
    assert(leaves(seq![t]) =~= seq![leaf_model(t)]);
    assert(leaves(seq![u]) =~= seq![leaf_model(u)]);
    let level = leaves(seq![t, u]);
    assert(level =~= seq![leaf_model(t), leaf_model(u)]);
    let next = crate::merkle::next_level(level, unpaired);
    assert(next.len() == 1);
    assert(merkle_tree(level, unpaired) == merkle_tree(next, unpaired));
    assert(next[0] == crate::merkle::parent_at(level, 0, unpaired));
}

} // verus!
