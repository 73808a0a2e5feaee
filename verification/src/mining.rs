//! Proof of work: the least nonce that makes a block's hash end in `'0'`.

use vstd::prelude::*;
use vstd::utf8::*;
use crate::digest::{calculate_hash, spec_hash, lemma_hex_lower_ascii, sha3_256_digest};
use crate::text::{decimal, push_decimal, push_str};

verus! {

/// Whether `nonce` seals a block with hash text `block_hash`: the hash of the
/// block hash followed by the decimal nonce ends in the digit `'0'`.
pub open spec fn meets_target(block_hash: Seq<char>, nonce: int) -> bool {
    spec_hash(encode_utf8(block_hash + decimal(nonce))).last() == '0'
}

/// `nonce` is the least non-negative nonce that meets the target.
pub open spec fn is_least_nonce(block_hash: Seq<char>, nonce: int) -> bool {
    &&& 0 <= nonce
    &&& meets_target(block_hash, nonce)
    &&& forall|m: int| 0 <= m < nonce ==> !#[trigger] meets_target(block_hash, m)
}

/// Some nonce in `0..=i32::MAX` meets the target.
pub open spec fn nonce_exists(block_hash: Seq<char>) -> bool {
    exists|n: int| 0 <= n <= i32::MAX && #[trigger] meets_target(block_hash, n)
}

/// The least nonce that meets the target (meaningful where one exists).
pub open spec fn least_nonce(block_hash: Seq<char>) -> int {
    choose|n: int| is_least_nonce(block_hash, n)
}

/// There is only one least nonce.
pub proof fn lemma_least_nonce_unique(block_hash: Seq<char>, n: int)
    requires
        is_least_nonce(block_hash, n),
    ensures
        least_nonce(block_hash) == n,
{
    let m = least_nonce(block_hash);
    assert(is_least_nonce(block_hash, m));
    if m < n {
        assert(!meets_target(block_hash, m));
    } else if n < m {
        assert(!meets_target(block_hash, n));
    }
}

proof fn lemma_least_below(block_hash: Seq<char>, n: int)
    requires
        0 <= n,
        meets_target(block_hash, n),
    ensures
        exists|m: int| 0 <= m <= n && #[trigger] is_least_nonce(block_hash, m),
    decreases n,
{
    if exists|m: int| 0 <= m < n && #[trigger] meets_target(block_hash, m) {
        let m = choose|m: int| 0 <= m < n && #[trigger] meets_target(block_hash, m);
        lemma_least_below(block_hash, m);
        let k = choose|k: int| 0 <= k <= m && #[trigger] is_least_nonce(block_hash, k);
        assert(0 <= k <= n && is_least_nonce(block_hash, k));
    } else {
        assert(is_least_nonce(block_hash, n));
    }
}

/// Where some nonce up to `i32::MAX` meets the target, the least nonce does,
/// no smaller one does, and it is at most `i32::MAX`.
pub proof fn lemma_least_nonce_exists(block_hash: Seq<char>)
    requires
        nonce_exists(block_hash),
    ensures
        is_least_nonce(block_hash, least_nonce(block_hash)),
        least_nonce(block_hash) <= i32::MAX,
{
    let n = choose|n: int| 0 <= n <= i32::MAX && #[trigger] meets_target(block_hash, n);
    lemma_least_below(block_hash, n);
    let m = choose|m: int| 0 <= m <= n && #[trigger] is_least_nonce(block_hash, m);
    lemma_least_nonce_unique(block_hash, m);
}

/// Whether the hash computed for `nonce` ends in `'0'`.
fn check_nonce(block_hash: &String, nonce: i32) -> (res: bool)
    ensures
        res == meets_target(block_hash@, nonce as int),
{
    let mut pow_input: Vec<u8> = Vec::new();
    push_str(&mut pow_input, block_hash.as_str());
    push_decimal(&mut pow_input, nonce);
    proof {
        crate::text::lemma_encode_utf8_concat(block_hash@, decimal(nonce as int));
    }
    let computed_hash = calculate_hash(pow_input.as_slice());
    let bytes = computed_hash.as_str().as_bytes();
    proof {
        lemma_hex_lower_ascii(sha3_256_digest(encode_utf8(block_hash@ + decimal(nonce as int))));
        is_ascii_chars_encode_utf8(computed_hash@);
    }
    let last = bytes[63];
    proof {
        let c = computed_hash@[63];
        assert(c as u8 == last);
        assert(c == computed_hash@.last());
        assert('\0' <= c <= '\u{7f}');
    }
    last == 48u8
}

/// Searches the nonces `0, 1, 2, ...` for the first that meets the target.
/// Returns `None` when none up to `i32::MAX` does.
pub fn find_nonce(block_hash: &String) -> (res: Option<i32>)
    ensures
        match res {
            Some(n) => is_least_nonce(block_hash@, n as int),
            None => !nonce_exists(block_hash@),
        },
{
    let mut nonce: i32 = 0;
    loop
        invariant
            0 <= nonce,
            forall|m: int| 0 <= m < nonce ==> !#[trigger] meets_target(block_hash@, m),
        decreases i32::MAX - nonce,
    {
        if check_nonce(block_hash, nonce) {
            return Some(nonce);
        }
        if nonce == i32::MAX {
            return None;
        }
        nonce = nonce + 1;
    }
}

} // verus!
