use nitc_blocks::digest::calculate_hash;
use nitc_blocks::merkle::MerkleNode;
use nitc_blocks::transaction::Transaction;
use nitc_blocks::{modification, stage1, stage5};

fn tx(from: char, to: char, amount: i32, incentive: i32) -> Transaction {
    Transaction { from, to, amount, incentive }
}

fn sample() -> Vec<Transaction> {
    vec![
        tx('a', 'b', 30, 5),
        tx('b', 'c', 70, 7),
        tx('c', 'a', 10, 2),
        tx('a', 'c', 20, 5),
        tx('b', 'a', 5, 1),
        tx('c', 'b', 100, 9),
        tx('a', 'b', 10, 5),
    ]
}

#[test]
fn leaf_hashes_sender_incentive_receiver_amount() {
    let leaf = MerkleNode::new_leaf(&tx('a', 'b', 30, 5));
    assert_eq!(leaf.hash, "b76e9a80ad283deb31914e5854e64ab6c8856cfdb216eaedcac42c47cde01280");
    assert!(leaf.left.is_none() && leaf.right.is_none());
}

#[test]
fn leaf_with_negative_values() {
    let leaf = MerkleNode::new_leaf(&tx('a', 'b', -7, -3));
    assert_eq!(leaf.hash, "9b2ab5f3a22b16a5a2311e4eb300274cd696e539d1a127a31dc492e271a9dadb");
}

#[test]
fn stage1_leaf_hashes_sender_receiver_amount() {
    let leaf = stage1::new_leaf(&stage1::Transaction { from: 'a', to: 'b', amount: 30, temp: 5 });
    assert_eq!(leaf.hash, "9c43154e55b8db468753a03a90902afb3d70b2991d5408258bce031695ef000d");
}

#[test]
fn node_with_two_children_hashes_their_hashes() {
    let l = MerkleNode::new_leaf(&tx('a', 'b', 30, 5));
    let r = MerkleNode::new_leaf(&tx('b', 'c', 70, 7));
    let expected = calculate_hash(format!("{}{}", l.hash, r.hash).as_bytes());
    let node = MerkleNode::new_node(l, Some(r));
    assert_eq!(node.hash, expected);
    assert!(node.left.is_some() && node.right.is_some());
}

#[test]
fn node_with_one_child_keeps_its_hash() {
    let l = MerkleNode::new_leaf(&tx('a', 'b', 30, 5));
    let h = l.hash.clone();
    let node = MerkleNode::new_node(l, None);
    assert_eq!(node.hash, h);
    assert!(node.left.is_some() && node.right.is_none());
}

#[test]
fn duplicate_copies_the_whole_tree() {
    let l = MerkleNode::new_leaf(&tx('a', 'b', 30, 5));
    let r = MerkleNode::new_leaf(&tx('b', 'c', 70, 7));
    let node = MerkleNode::new_node(l, Some(r));
    let copy = node.duplicate();
    assert_eq!(copy.hash, node.hash);
    assert_eq!(copy.left.as_ref().unwrap().hash, node.left.as_ref().unwrap().hash);
    assert_eq!(copy.right.as_ref().unwrap().hash, node.right.as_ref().unwrap().hash);
}

#[test]
fn empty_transaction_list_has_root_zero() {
    assert_eq!(stage5::get_merkle_root(&[]), "0");
    assert_eq!(modification::get_merkle_root(&[]), "0");
    assert_eq!(stage1::get_merkle_root(&[]), "0");
    assert!(stage5::build_merkle_tree(&[]).is_none());
    assert!(modification::build_merkle_tree(&[]).is_none());
}

#[test]
fn single_transaction_root_is_its_leaf() {
    let t = sample();
    let leaf = MerkleNode::new_leaf(&t[0]).hash;
    assert_eq!(stage5::get_merkle_root(&t[..1]), leaf);
    assert_eq!(modification::get_merkle_root(&t[..1]), leaf);
}

#[test]
fn odd_level_promotes_last_node() {
    let t = sample();
    assert_eq!(
        stage5::get_merkle_root(&t[..3]),
        "440d216614c291e641fdb64ff3560369c430e295e2010d0d1f127cdd3209d39f"
    );
    assert_eq!(
        stage5::get_merkle_root(&t[..5]),
        "af4666f878ec4042915ed615c83259e50a34cb0247806d49860b198e495bed0f"
    );
}

#[test]
fn odd_level_pairs_last_node_with_itself() {
    let t = sample();
    assert_eq!(
        modification::get_merkle_root(&t[..3]),
        "7aab63876b7f45a31fb115142a382c86e083411c56130dbb12b4a7f7a6a5041f"
    );
    assert_eq!(
        modification::get_merkle_root(&t[..5]),
        "50459391c36f40de2eb08c1d9c8e8eecbb1d7b98a1b62dcb65a17195a4eb61b9"
    );
}

#[test]
fn tree_root_and_merkle_root_agree() {
    let t = sample();
    let root = stage5::build_merkle_tree(&t).unwrap();
    assert_eq!(root.hash, stage5::get_merkle_root(&t));
    let l = root.left.as_ref().unwrap();
    assert!(root.right.is_some());
    assert_eq!(
        root.hash,
        calculate_hash(format!("{}{}", l.hash, root.right.as_ref().unwrap().hash).as_bytes())
    );
}

fn is_hex_root(root: &str) -> bool {
    root.len() == 64 && root.chars().all(|c| c.is_ascii_digit() || ('a' <= c && c <= 'f'))
}

#[test]
fn merkle_roots_are_64_hex_digits() {
    let txs = sample();
    for n in 1..=txs.len() {
        assert!(is_hex_root(&stage5::get_merkle_root(&txs[..n])));
        assert!(is_hex_root(&modification::get_merkle_root(&txs[..n])));
        assert_eq!(stage5::get_merkle_root(&txs[..n]), stage5::build_merkle_tree(&txs[..n]).unwrap().hash);
    }
}

#[test]
fn merkle_root_splits_at_the_largest_power_of_two() {
    let txs = sample();
    for n in 2..=txs.len() {
        let mut k = 1;
        while 2 * k < n {
            k *= 2;
        }
        let left = stage5::get_merkle_root(&txs[..k]);
        let right = stage5::get_merkle_root(&txs[k..n]);
        assert_eq!(stage5::get_merkle_root(&txs[..n]), calculate_hash((left + &right).as_bytes()));
    }
}
