//! Account balances and transfers.
//!
//! Balances are kept in a `HashMap` keyed by the code point of the account's
//! character; an account that has no entry holds 0.

use vstd::prelude::*;
use std::collections::HashMap;

verus! {

broadcast use vstd::std_specs::hash::group_hash_axioms;

/// The balance of `account` in `m`; 0 where it has no entry.
pub open spec fn balance(m: Map<u32, i32>, account: char) -> int {
    if m.contains_key(account as u32) {
        m[account as u32] as int
    } else {
        0
    }
}

/// Whether `from` can pay `amount`.
pub open spec fn can_pay(m: Map<u32, i32>, from: char, amount: i32) -> bool {
    balance(m, from) >= amount
}

/// The balances after `from` pays `amount`: first `from` is debited, then
/// `to` (read after the debit) is credited.
pub open spec fn after_debit(m: Map<u32, i32>, from: char, amount: i32) -> Map<u32, i32> {
    m.insert(from as u32, (balance(m, from) - amount) as i32)
}

/// The balances after a transfer that took place.
pub open spec fn after_transfer(m: Map<u32, i32>, from: char, to: char, amount: i32) -> Map<
    u32,
    i32,
> {
    let m1 = after_debit(m, from, amount);
    m1.insert(to as u32, (balance(m1, to) + amount) as i32)
}

/// Whether the debit and the credit of a transfer stay within `i32` (a
/// transfer that is refused changes nothing and always fits).
pub open spec fn transfer_fits(m: Map<u32, i32>, from: char, to: char, amount: i32) -> bool {
    can_pay(m, from, amount) ==> {
        let m1 = after_debit(m, from, amount);
        &&& i32::MIN <= balance(m, from) - amount <= i32::MAX
        &&& i32::MIN <= balance(m1, to) + amount <= i32::MAX
    }
}

/// Adds `amount` to the balance of `account`.
pub open spec fn after_credit(m: Map<u32, i32>, account: char, amount: i32) -> Map<u32, i32> {
    m.insert(account as u32, (balance(m, account) + amount) as i32)
}

/// Whether crediting `amount` to `account` stays within `i32`.
pub open spec fn credit_fits(m: Map<u32, i32>, account: char, amount: i32) -> bool {
    i32::MIN <= balance(m, account) + amount <= i32::MAX
}

/// The sum of all balances held in `m` (meaningful where `m` has finitely
/// many entries).
pub open spec fn total(m: Map<u32, i32>) -> int
    decreases m.dom().len(),
    when m.dom().finite()
{
    if m.dom().len() == 0 {
        0
    } else {
        let k = m.dom().choose();
        m[k] + total(m.remove(k))
    }
}

/// Any entry can be taken out of the sum first.
proof fn lemma_total_remove(m: Map<u32, i32>, k: u32)
    requires
        m.dom().finite(),
        m.dom().contains(k),
    ensures
        total(m) == m[k] + total(m.remove(k)),
    decreases m.dom().len(),
{
    let c = m.dom().choose();
    if c != k {
        lemma_total_remove(m.remove(c), k);
        lemma_total_remove(m.remove(k), c);
        assert(m.remove(c).remove(k) =~= m.remove(k).remove(c));
    }
}

/// Setting the balance of `account` to `v` changes the sum by the
/// difference.
proof fn lemma_total_insert(m: Map<u32, i32>, account: char, v: i32)
    requires
        m.dom().finite(),
    ensures
        m.insert(account as u32, v).dom().finite(),
        total(m.insert(account as u32, v)) == total(m) - balance(m, account) + v,
{
    let k = account as u32;
    let n = m.insert(k, v);
    lemma_total_remove(n, k);
    if m.dom().contains(k) {
        lemma_total_remove(m, k);
        assert(n.remove(k) =~= m.remove(k));
    } else {
        assert(n.remove(k) =~= m);
    }
}

/// A transfer that takes place leaves the sum of all balances unchanged.
pub proof fn lemma_transfer_keeps_total(m: Map<u32, i32>, from: char, to: char, amount: i32)
    requires
        m.dom().finite(),
        transfer_fits(m, from, to, amount),
        can_pay(m, from, amount),
    ensures
        after_transfer(m, from, to, amount).dom().finite(),
        total(after_transfer(m, from, to, amount)) == total(m),
{
    let m1 = after_debit(m, from, amount);
    lemma_total_insert(m, from, (balance(m, from) - amount) as i32);
    lemma_total_insert(m1, to, (balance(m1, to) + amount) as i32);
}

/// Crediting `amount` adds it to the sum of all balances.
pub proof fn lemma_credit_adds_to_total(m: Map<u32, i32>, account: char, amount: i32)
    requires
        m.dom().finite(),
        credit_fits(m, account, amount),
    ensures
        after_credit(m, account, amount).dom().finite(),
        total(after_credit(m, account, amount)) == total(m) + amount,
{
    lemma_total_insert(m, account, (balance(m, account) + amount) as i32);
}

/// Reads the balance of `account` (0 where it has no entry).
pub fn balance_of(balances: &HashMap<u32, i32>, account: char) -> (res: i32)
    ensures
        res as int == balance(balances@, account),
{
    let key = account as u32;
    match balances.get(&key) {
        Some(v) => *v,
        None => 0,
    }
}

/// Moves `amount` from `from` to `to` when `from` holds at least `amount`,
/// and says whether it did. Where `from` holds less, nothing changes.
pub fn transfer(balances: &mut HashMap<u32, i32>, from: char, to: char, amount: i32) -> (res: bool)
    requires
        transfer_fits(old(balances)@, from, to, amount),
    ensures
        res == can_pay(old(balances)@, from, amount),
        res == (balance(old(balances)@, from) >= amount),
        res ==> final(balances)@ == after_transfer(old(balances)@, from, to, amount),
        !res ==> final(balances)@ == old(balances)@,
{
    let from_balance = balance_of(balances, from);
    if from_balance >= amount {
        balances.insert(from as u32, from_balance - amount);
        let to_balance = balance_of(balances, to);
        balances.insert(to as u32, to_balance + amount);
        true
    } else {
        false
    }
}

/// Adds `amount` to the balance of `account`.
pub fn credit(balances: &mut HashMap<u32, i32>, account: char, amount: i32)
    requires
        credit_fits(old(balances)@, account, amount),
    ensures
        final(balances)@ == after_credit(old(balances)@, account, amount),
{
    let current = balance_of(balances, account);
    balances.insert(account as u32, current + amount);
}

/// Decides `transfer_fits`.
pub fn check_transfer_fits(balances: &HashMap<u32, i32>, from: char, to: char, amount: i32) -> (res:
    bool)
    ensures
        res == transfer_fits(balances@, from, to, amount),
{
    let from_balance = balance_of(balances, from);
    if from_balance < amount {
        return true;
    }
    let debited: i64 = from_balance as i64 - amount as i64;
    if debited < i32::MIN as i64 || debited > i32::MAX as i64 {
        return false;
    }
    let to_before: i64 = if to == from {
        debited
    } else {
        balance_of(balances, to) as i64
    };
    let credited: i64 = to_before + amount as i64;
    i32::MIN as i64 <= credited && credited <= i32::MAX as i64
}

/// Decides `credit_fits`.
pub fn check_credit_fits(balances: &HashMap<u32, i32>, account: char, amount: i32) -> (res: bool)
    ensures
        res == credit_fits(balances@, account, amount),
{
    let credited: i64 = balance_of(balances, account) as i64 + amount as i64;
    i32::MIN as i64 <= credited && credited <= i32::MAX as i64
}

/// Distinct accounts have distinct keys.
pub proof fn lemma_char_code_injective(a: char, b: char)
    ensures
        a != b ==> a as u32 != b as u32,
{
    vstd::utf8::char_u32_cast(a, a as u32);
    vstd::utf8::char_u32_cast(b, b as u32);
}

/// A transfer that took place moves `amount` from `from` to `to`: the two
/// balances together are unchanged (and a transfer to oneself changes
/// nothing), and every other account keeps its balance.
pub proof fn lemma_transfer_conserves(m: Map<u32, i32>, from: char, to: char, amount: i32)
    requires
        transfer_fits(m, from, to, amount),
        can_pay(m, from, amount),
    ensures
        from != to ==> balance(after_transfer(m, from, to, amount), from) == balance(m, from) - amount,
        from != to ==> balance(after_transfer(m, from, to, amount), to) == balance(m, to) + amount,
        from == to ==> balance(after_transfer(m, from, to, amount), from) == balance(m, from),
        forall|c: char|
            c != from && c != to ==> #[trigger] balance(after_transfer(m, from, to, amount), c)
                == balance(m, c),
{
    assert forall|c: char|
        c != from && c != to implies #[trigger] balance(after_transfer(m, from, to, amount), c)
        == balance(m, c) by {
        lemma_char_code_injective(c, from);
        lemma_char_code_injective(c, to);
    }
    lemma_char_code_injective(from, to);
}

} // verus!
