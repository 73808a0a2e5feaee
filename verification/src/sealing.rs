//! What every sealed block shares: its chained hash and the election of the
//! miner who seals it.

use vstd::prelude::*;
use vstd::utf8::*;
use crate::digest::{calculate_hash, spec_hash};
use crate::text::{decimal, lemma_encode_utf8_concat, push_decimal, push_str};

verus! {

/// The hash text of block `number` that follows a block with hash text
/// `prev` and has Merkle root text `root`: the hash of the three written one
/// after the other.
pub open spec fn block_hash_text(prev: Seq<char>, number: int, root: Seq<char>) -> Seq<char> {
    spec_hash(encode_utf8(prev + decimal(number) + root))
}

/// Computes `block_hash_text`.
pub fn block_hash(prev: &str, number: i32, root: &str) -> (res: String)
    ensures
        res@ == block_hash_text(prev@, number as int, root@),
{
    let mut hash_input: Vec<u8> = Vec::new();
    push_str(&mut hash_input, prev);
    push_decimal(&mut hash_input, number);
    push_str(&mut hash_input, root);
    proof {
        lemma_encode_utf8_concat(prev@, decimal(number as int));
        lemma_encode_utf8_concat(prev@ + decimal(number as int), root@);
    }
    calculate_hash(hash_input.as_slice())
}

/// Block numbers select one of eight score slots: the remainder of the
/// number by 8. A negative number that is not a multiple of 8 selects none.
pub open spec fn slot_defined(number: int) -> bool {
    number >= 0 || number % 8 == 0
}

/// The slot of a block number (for which `slot_defined` holds).
pub open spec fn slot_of(number: int) -> int {
    number % 8
}

/// Computes the slot of a block number.
pub fn slot_index(number: i32) -> (res: usize)
    requires
        slot_defined(number as int),
    ensures
        res as int == slot_of(number as int),
        res < 8,
{
    if number >= 0 {
        (number % 8) as usize
    } else {
        0
    }
}

/// Miner `i` wins an election with these sealing scores: its score exceeds
/// -1, no score is higher, and every miner before it scores lower.
pub open spec fn is_winner(scores: Seq<int>, i: int) -> bool {
    &&& 0 <= i < scores.len()
    &&& scores[i] > -1
    &&& forall|j: int| 0 <= j < scores.len() ==> #[trigger] scores[j] <= scores[i]
    &&& forall|j: int| 0 <= j < i ==> #[trigger] scores[j] < scores[i]
}

/// No miner scores above -1, so nobody wins.
pub open spec fn no_winner(scores: Seq<int>) -> bool {
    forall|j: int| 0 <= j < scores.len() ==> #[trigger] scores[j] <= -1
}

/// The winner of an election, if any.
pub open spec fn election(scores: Seq<int>) -> Option<int> {
    if exists|i: int| is_winner(scores, i) {
        Some(choose|i: int| is_winner(scores, i))
    } else {
        None
    }
}

/// An election has at most one winner, and none when every score is at
/// most -1.
pub proof fn lemma_election(scores: Seq<int>, outcome: Option<int>)
    requires
        match outcome {
            Some(i) => is_winner(scores, i),
            None => no_winner(scores),
        },
    ensures
        election(scores) == outcome,
{
    match outcome {
        Some(i) => {
            let w = choose|w: int| is_winner(scores, w);
            assert(is_winner(scores, w));
            if w < i {
                assert(scores[w] < scores[i]);
            } else if i < w {
                assert(scores[i] < scores[w]);
            }
        },
        None => {
            if exists|i: int| is_winner(scores, i) {
                let w = choose|w: int| is_winner(scores, w);
                assert(scores[w] <= -1);
            }
        },
    }
}

/// Every election has an outcome: a winner where some score exceeds -1,
/// nobody otherwise.
pub proof fn lemma_election_outcome(scores: Seq<int>)
    ensures
        match election(scores) {
            Some(i) => is_winner(scores, i),
            None => no_winner(scores),
        },
{
    if !no_winner(scores) {
        lemma_winner_exists(scores);
    }
}

/// Where some score exceeds -1 there is a winner.
proof fn lemma_winner_exists(scores: Seq<int>)
    requires
        !no_winner(scores),
    ensures
        exists|i: int| is_winner(scores, i),
    decreases scores.len(),
{
    let n = scores.len() - 1;
    let prefix = scores.drop_last();
    if no_winner(prefix) {
        assert forall|j: int| 0 <= j < n implies #[trigger] scores[j] <= -1 by {
            assert(prefix[j] == scores[j]);
        }
        assert(scores[n] > -1);
        assert(is_winner(scores, n));
    } else {
        lemma_winner_exists(prefix);
        let w = choose|w: int| is_winner(prefix, w);
        assert forall|j: int| 0 <= j < n implies #[trigger] scores[j] == prefix[j] by {}
        if scores[n] > scores[w] {
            assert forall|j: int| 0 <= j < scores.len() implies #[trigger] scores[j] <= scores[n] by {
                if j < n {
                    assert(prefix[j] <= prefix[w]);
                }
            }
            assert(is_winner(scores, n));
        } else {
            assert forall|j: int| 0 <= j < scores.len() implies #[trigger] scores[j] <= scores[w] by {
                if j < n {
                    assert(prefix[j] <= prefix[w]);
                }
            }
            assert(is_winner(scores, w));
        }
    }
}

} // verus!
