use std::collections::HashMap;
use nitc_blocks::ledger::balance_of;
use nitc_blocks::transaction::Transaction;
use nitc_blocks::{arun, modification, stage1, stage5};

fn tx(from: char, to: char, amount: i32, incentive: i32) -> Transaction {
    Transaction { from, to, amount, incentive }
}

fn sample() -> Vec<Transaction> {
    vec![
        tx('a', 'b', 30, 5),
        tx('b', 'c', 70, 7),
        tx('c', 'a', 10, 2),
        tx('a', 'c', 20, 5),
        tx('b', 'a', 5, 1),
        tx('c', 'b', 100, 9),
        tx('a', 'b', 10, 5),
    ]
}

fn start_balances() -> HashMap<u32, i32> {
    [('a', 100), ('b', 50), ('c', 0)].iter().map(|(c, b)| (*c as u32, *b)).collect()
}

fn text_miners() -> Vec<stage5::Miner> {
    vec![
        stage5::Miner {
            id: "m1".to_string(),
            computation_score: 3,
            block_hash_score_array: vec![1, 2, 3, 4, 5, 6, 7, 8],
        },
        stage5::Miner { id: "m2".to_string(), computation_score: 2, block_hash_score_array: vec![5; 8] },
    ]
}

fn char_miners() -> Vec<arun::Miner> {
    vec![
        arun::Miner { id: 'x', computation_score: 3, block_hash_score_array: vec![1, 2, 3, 4, 5, 6, 7, 8] },
        arun::Miner { id: 'y', computation_score: 2, block_hash_score_array: vec![5; 8] },
    ]
}

#[test]
fn stage5_blocks_of_sorted_transactions() {
    let mut b = start_balances();
    let blocks = stage5::process_transactions(&mut b, sample(), &text_miners()).unwrap();
    assert_eq!(blocks.len(), 2);
    assert_eq!(blocks[0].block_number, 1);
    assert_eq!(blocks[0].merkle_root, "e891c54092f4d00a966a32a14d8d369ca62714b6b7a7b86537138ee447916d40");
    assert_eq!(blocks[0].block_hash, "4b9aab61f2543c96c203b372b991ce2a1fa260f5be1a425d3b731e14999e7fd0");
    assert_eq!(
        blocks[0].transactions,
        vec![tx('a', 'b', 30, 5), tx('a', 'b', 10, 5), tx('a', 'c', 20, 5), tx('c', 'a', 10, 2)]
    );
    assert_eq!(blocks[0].nonce, 8);
    assert_eq!(blocks[0].miner_id, "m2");
    assert_eq!(blocks[1].block_number, 2);
    assert_eq!(blocks[1].merkle_root, "dc01cfc9babcf026322b30e90566b7c7111c303916dc99abbe27ccae49f90ea5");
    assert_eq!(blocks[1].block_hash, "2d06ddf3fca8e71300cdfb5be0e3776c8ed3402aa818edb3fe89a7843df06267");
    assert_eq!(blocks[1].transactions, vec![tx('b', 'a', 5, 1)]);
    assert_eq!(blocks[1].nonce, 0);
    assert_eq!(blocks[1].miner_id, "m2");
    assert_eq!(balance_of(&b, 'a'), 55);
    assert_eq!(balance_of(&b, 'b'), 85);
    assert_eq!(balance_of(&b, 'c'), 10);
}

#[test]
fn arun_pays_the_miner_of_every_block() {
    let mut b = start_balances();
    let blocks = arun::process_transactions(&mut b, sample(), &char_miners(), 7).unwrap();
    assert_eq!(blocks.len(), 2);
    assert_eq!(blocks[0].block_hash, "4b9aab61f2543c96c203b372b991ce2a1fa260f5be1a425d3b731e14999e7fd0");
    assert_eq!(blocks[0].nonce, 8);
    assert_eq!(blocks[0].miner_id, 'y');
    assert_eq!(blocks[1].block_hash, "2d06ddf3fca8e71300cdfb5be0e3776c8ed3402aa818edb3fe89a7843df06267");
    assert_eq!(blocks[1].miner_id, 'y');
    assert_eq!(balance_of(&b, 'a'), 55);
    assert_eq!(balance_of(&b, 'b'), 85);
    assert_eq!(balance_of(&b, 'c'), 10);
    assert_eq!(balance_of(&b, 'y'), 14);
}

#[test]
fn modification_keeps_order_and_fills_blocks_of_ten() {
    let mut b = start_balances();
    let blocks = modification::run_chain(&mut b, &sample(), &char_miners(), 7).unwrap();
    assert_eq!(blocks.len(), 1);
    assert_eq!(blocks[0].merkle_root, "cb6731f00494a6c2bfd55756cb91078bd37378544cf794d923b45d037a41adb9");
    assert_eq!(blocks[0].block_hash, "7441da3240f7381fa0caef26a7dd231699e075f6857147b52512a928ae1181fc");
    assert_eq!(blocks[0].transactions.len(), 6);
    assert_eq!(blocks[0].nonce, 23);
    assert_eq!(blocks[0].miner_id, 'y');
    assert_eq!(balance_of(&b, 'a'), 55);
    assert_eq!(balance_of(&b, 'b'), 15);
    assert_eq!(balance_of(&b, 'c'), 80);
    assert_eq!(balance_of(&b, 'y'), 7);
}

#[test]
fn stage1_blocks_of_three() {
    let mut b = start_balances();
    let t: Vec<stage1::Transaction> = sample()
        .iter()
        .map(|t| stage1::Transaction { from: t.from, to: t.to, amount: t.amount, temp: t.incentive })
        .collect();
    let blocks = stage1::run_chain(&mut b, &t).unwrap();
    assert_eq!(blocks.len(), 2);
    assert_eq!(blocks[0].merkle_root, "f9280a49f0fac03a8d4e445dcff2f47713a2b2516987ff5c7cd5d229c22c5236");
    assert_eq!(blocks[0].block_hash, "ddc4f586a41dfdb79f911807d6111bdaa43f4c54e0c75f0e62a973cc910a1d5a");
    assert_eq!(blocks[1].block_number, 2);
    assert_eq!(blocks[1].merkle_root, "f752eb43c23040496e20e34623047af23e323704ae8fc1b817246863585e6673");
    assert_eq!(blocks[1].block_hash, "947cc362ae0bc2b34ae6268a2366ae3477203dcc331e76edf0918d4117bc1274");
    assert_eq!(balance_of(&b, 'a'), 55);
    assert_eq!(balance_of(&b, 'b'), 15);
    assert_eq!(balance_of(&b, 'c'), 80);
}

#[test]
fn no_executed_transaction_means_no_block() {
    let mut b = start_balances();
    let blocks = stage5::run_chain(&mut b, &vec![tx('c', 'a', 5, 1)], &text_miners()).unwrap();
    assert!(blocks.is_empty());
    let blocks = stage1::run_chain(&mut b, &Vec::new()).unwrap();
    assert!(blocks.is_empty());
}

#[test]
fn empty_block_after_genesis_hash() {
    let block = stage5::create_block(1, "0", Vec::new(), &text_miners());
    assert_eq!(block.merkle_root, "0");
    assert_eq!(block.block_hash, "a885f80c9651460ce223dea2c3d8d8e122724e02c93f8acaa8c3627de3cd41df");
    assert_eq!(block.nonce, 11);
    assert_eq!(block.miner_id, "m2");
}

#[test]
fn election_tie_goes_to_the_first_miner() {
    let miners = vec![
        arun::Miner { id: 'p', computation_score: 2, block_hash_score_array: vec![3; 8] },
        arun::Miner { id: 'q', computation_score: 3, block_hash_score_array: vec![2; 8] },
    ];
    let block = arun::create_block(5, "0", vec![tx('a', 'b', 1, 1)], &miners);
    assert_eq!(block.miner_id, 'p');
}

#[test]
fn nobody_elected_when_all_scores_are_negative() {
    let miners = vec![arun::Miner { id: 'p', computation_score: -2, block_hash_score_array: vec![3; 8] }];
    let block = arun::create_block(1, "0", vec![tx('a', 'b', 1, 1)], &miners);
    assert_eq!(block.miner_id, ' ');
    let text = vec![stage5::Miner {
        id: "p".to_string(),
        computation_score: -2,
        block_hash_score_array: vec![3; 8],
    }];
    let block = stage5::create_block(1, "0", vec![tx('a', 'b', 1, 1)], &text);
    assert_eq!(block.miner_id, "");
}

#[test]
fn blocks_without_a_score_for_their_slot_are_refused() {
    let miners = vec![arun::Miner { id: 'p', computation_score: 2, block_hash_score_array: vec![3; 2] }];
    assert!(arun::try_create_block(5, "0", vec![tx('a', 'b', 1, 1)], &miners).is_none());
    assert!(arun::try_create_block(1, "0", vec![tx('a', 'b', 1, 1)], &miners).is_some());
    assert!(modification::try_create_block(-3, "0", Vec::new(), &miners).is_none());
}

#[test]
fn negative_block_number_is_sealed_when_there_are_no_miners() {
    let block = modification::try_create_block(-3, "0", Vec::new(), &Vec::new()).unwrap();
    assert_eq!(block.block_number, -3);
    assert_eq!(block.merkle_root, "0");
    assert_eq!(block.block_hash, nitc_blocks::digest::calculate_hash(b"0-30"));
    assert_eq!(block.miner_id, ' ');
    let sealed = |n: i32| {
        nitc_blocks::digest::calculate_hash(format!("{}{}", block.block_hash, n).as_bytes()).ends_with('0')
    };
    assert!(sealed(block.nonce));
    assert!((0..block.nonce).all(|n| !sealed(n)));
    let text = stage5::try_create_block(-3, "0", Vec::new(), &Vec::new()).unwrap();
    assert_eq!(text.miner_id, "");
    assert_eq!(text.nonce, block.nonce);
}

#[test]
fn overflowing_score_aborts() {
    let miners = vec![arun::Miner { id: 'p', computation_score: i32::MAX, block_hash_score_array: vec![2; 8] }];
    assert!(arun::try_create_block(1, "0", Vec::new(), &miners).is_none());
}

#[test]
fn overflowing_reward_aborts_the_run() {
    let mut b: HashMap<u32, i32> = [('a', 10), ('y', i32::MAX)].iter().map(|(c, v)| (*c as u32, *v)).collect();
    let miners = vec![arun::Miner { id: 'y', computation_score: 1, block_hash_score_array: vec![1; 8] }];
    assert!(arun::run_chain(&mut b, &vec![tx('a', 'b', 1, 1)], &miners, 1).is_none());
}

#[test]
fn overflowing_transfer_aborts_the_run() {
    let mut b: HashMap<u32, i32> = [('a', 10), ('b', i32::MAX)].iter().map(|(c, v)| (*c as u32, *v)).collect();
    assert!(stage1::run_chain(&mut b, &vec![stage1::Transaction { from: 'a', to: 'b', amount: 1, temp: 0 }]).is_none());
}

#[test]
fn each_block_hash_covers_the_previous_one() {
    let mut b = start_balances();
    let blocks = stage5::process_transactions(&mut b, sample(), &text_miners()).unwrap();
    let first = nitc_blocks::digest::calculate_hash(format!("0{}{}", 1, blocks[0].merkle_root).as_bytes());
    assert_eq!(blocks[0].block_hash, first);
    let second = nitc_blocks::digest::calculate_hash(
        format!("{}{}{}", blocks[0].block_hash, 2, blocks[1].merkle_root).as_bytes(),
    );
    assert_eq!(blocks[1].block_hash, second);
    for block in &blocks {
        assert_eq!(block.merkle_root, stage5::get_merkle_root(&block.transactions));
    }
    let mut b = start_balances();
    let blocks = modification::run_chain(&mut b, &sample(), &char_miners(), 1).unwrap();
    for block in &blocks {
        assert_eq!(block.merkle_root, modification::get_merkle_root(&block.transactions));
    }
}

#[test]
fn nonce_is_the_least_that_meets_the_target() {
    let mut b = start_balances();
    let blocks = stage5::process_transactions(&mut b, sample(), &text_miners()).unwrap();
    for block in &blocks {
        let h = |n: i32| nitc_blocks::digest::calculate_hash(format!("{}{}", block.block_hash, n).as_bytes());
        assert!(h(block.nonce).ends_with('0'));
        for n in 0..block.nonce {
            assert!(!h(n).ends_with('0'));
        }
    }
    assert_eq!(nitc_blocks::mining::find_nonce(&"0".to_string()), Some(
        (0..).find(|n: &i32| nitc_blocks::digest::calculate_hash(format!("0{}", n).as_bytes()).ends_with('0')).unwrap()
    ));
}

#[test]
fn blocks_hold_exactly_the_executed_transactions() {
    let mut b = start_balances();
    let blocks = stage5::process_transactions(&mut b, sample(), &text_miners()).unwrap();
    let all: Vec<Transaction> = blocks.iter().flat_map(|bl| bl.transactions.clone()).collect();
    assert_eq!(
        all,
        vec![tx('a', 'b', 30, 5), tx('a', 'b', 10, 5), tx('a', 'c', 20, 5), tx('c', 'a', 10, 2), tx('b', 'a', 5, 1)]
    );
}

#[test]
fn transfers_conserve_money_and_rewards_add_to_it() {
    let total = |b: &HashMap<u32, i32>| b.values().map(|v| *v as i64).sum::<i64>();
    let mut b = start_balances();
    stage5::process_transactions(&mut b, sample(), &text_miners()).unwrap();
    assert_eq!(total(&b), 150);
    let mut b = start_balances();
    let blocks = arun::process_transactions(&mut b, sample(), &char_miners(), 7).unwrap();
    assert_eq!(total(&b), 150 + 7 * blocks.len() as i64);
    let mut b = start_balances();
    let blocks = modification::run_chain(&mut b, &sample(), &char_miners(), 3).unwrap();
    assert_eq!(total(&b), 150 + 3 * blocks.len() as i64);
    let mut b = start_balances();
    let plain: Vec<stage1::Transaction> =
        sample().iter().map(|t| stage1::Transaction { from: t.from, to: t.to, amount: t.amount, temp: 0 }).collect();
    stage1::run_chain(&mut b, &plain).unwrap();
    assert_eq!(total(&b), 150);
}

#[test]
fn sorting_a_sorted_list_changes_nothing() {
    let mut t = sample();
    nitc_blocks::transaction::sort_transactions(&mut t);
    let once = t.clone();
    nitc_blocks::transaction::sort_transactions(&mut t);
    assert_eq!(t, once);
}

#[test]
fn full_blocks_then_one_partial_block() {
    let mut b: HashMap<u32, i32> = [('a', 1000)].iter().map(|(c, v)| (*c as u32, *v)).collect();
    let txs: Vec<Transaction> = (0..9).map(|i| tx('a', 'b', 1, i)).collect();
    let blocks = arun::run_chain(&mut b, &txs, &char_miners(), 0).unwrap();
    assert_eq!(blocks.iter().map(|bl| bl.transactions.len()).collect::<Vec<_>>(), vec![4, 4, 1]);
    assert_eq!(blocks.iter().map(|bl| bl.block_number).collect::<Vec<_>>(), vec![1, 2, 3]);
    let mut b: HashMap<u32, i32> = [('a', 1000)].iter().map(|(c, v)| (*c as u32, *v)).collect();
    let blocks = modification::run_chain(&mut b, &txs, &char_miners(), 0).unwrap();
    assert_eq!(blocks.iter().map(|bl| bl.transactions.len()).collect::<Vec<_>>(), vec![9]);
}
