use std::collections::HashMap;
use nitc_blocks::ledger::{balance_of, check_credit_fits, check_transfer_fits, credit, transfer};
use nitc_blocks::transaction::{execute_transaction, sort_transactions, Transaction};

fn balances(entries: &[(char, i32)]) -> HashMap<u32, i32> {
    entries.iter().map(|(c, b)| (*c as u32, *b)).collect()
}

fn tx(from: char, to: char, amount: i32, incentive: i32) -> Transaction {
    Transaction { from, to, amount, incentive }
}

#[test]
fn transfer_moves_amount_when_sender_can_pay() {
    let mut b = balances(&[('a', 100), ('b', 5)]);
    assert!(execute_transaction(&tx('a', 'b', 30, 1), &mut b));
    assert_eq!(balance_of(&b, 'a'), 70);
    assert_eq!(balance_of(&b, 'b'), 35);
}

#[test]
fn transfer_of_whole_balance_succeeds() {
    let mut b = balances(&[('a', 30)]);
    assert!(execute_transaction(&tx('a', 'c', 30, 1), &mut b));
    assert_eq!(balance_of(&b, 'a'), 0);
    assert_eq!(balance_of(&b, 'c'), 30);
}

#[test]
fn refused_transfer_changes_nothing() {
    let mut b = balances(&[('a', 10), ('b', 5)]);
    let before = b.clone();
    assert!(!execute_transaction(&tx('a', 'b', 11, 1), &mut b));
    assert_eq!(b, before);
}

#[test]
fn unknown_sender_holds_zero() {
    let mut b = balances(&[]);
    assert!(!execute_transaction(&tx('z', 'b', 1, 1), &mut b));
    assert!(b.is_empty());
    assert!(execute_transaction(&tx('z', 'b', 0, 1), &mut b));
    assert_eq!(b.get(&('z' as u32)), Some(&0));
    assert_eq!(b.get(&('b' as u32)), Some(&0));
}

#[test]
fn transfer_to_oneself_keeps_balance() {
    let mut b = balances(&[('a', 10)]);
    assert!(transfer(&mut b, 'a', 'a', 4));
    assert_eq!(balance_of(&b, 'a'), 10);
}

#[test]
fn negative_amount_moves_money_backwards() {
    let mut b = balances(&[('a', 0), ('b', 50)]);
    assert!(execute_transaction(&tx('a', 'b', -20, 0), &mut b));
    assert_eq!(balance_of(&b, 'a'), 20);
    assert_eq!(balance_of(&b, 'b'), 30);
}

#[test]
fn overflowing_transfers_are_detected() {
    let b = balances(&[('a', 0), ('b', i32::MAX)]);
    assert!(!check_transfer_fits(&b, 'a', 'c', i32::MIN));
    assert!(check_transfer_fits(&b, 'c', 'b', 0));
    let b2 = balances(&[('a', 5), ('b', i32::MAX)]);
    assert!(!check_transfer_fits(&b2, 'a', 'b', 1));
    assert!(check_transfer_fits(&b2, 'a', 'b', 6));
    assert!(!check_credit_fits(&b2, 'b', 1));
    assert!(check_credit_fits(&b2, 'b', -1));
}

#[test]
fn credit_adds_to_balance() {
    let mut b = balances(&[('m', 3)]);
    credit(&mut b, 'm', 7);
    credit(&mut b, 'n', 2);
    assert_eq!(balance_of(&b, 'm'), 10);
    assert_eq!(balance_of(&b, 'n'), 2);
}

#[test]
fn sort_orders_by_incentive_then_receiver_and_is_stable() {
    let mut t = vec![
        tx('a', 'b', 30, 5),
        tx('b', 'c', 70, 7),
        tx('c', 'a', 10, 2),
        tx('a', 'c', 20, 5),
        tx('b', 'a', 5, 1),
        tx('c', 'b', 100, 9),
        tx('a', 'b', 10, 5),
    ];
    sort_transactions(&mut t);
    assert_eq!(
        t,
        vec![
            tx('c', 'b', 100, 9),
            tx('b', 'c', 70, 7),
            tx('a', 'b', 30, 5),
            tx('a', 'b', 10, 5),
            tx('a', 'c', 20, 5),
            tx('c', 'a', 10, 2),
            tx('b', 'a', 5, 1),
        ]
    );
}

#[test]
fn sort_of_nothing_is_nothing() {
    let mut t: Vec<Transaction> = Vec::new();
    sort_transactions(&mut t);
    assert!(t.is_empty());
}
