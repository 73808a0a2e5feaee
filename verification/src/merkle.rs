//! Merkle trees whose nodes carry SHA3-256 hex hashes.
//!
//! A level of nodes is folded pairwise into the next level until one node,
//! the root, is left. A parent of two children hashes the concatenation of
//! their hash texts; how a node left without a partner at the end of a level
//! is treated is given by `Unpaired`.

use vstd::prelude::*;
use vstd::utf8::*;
use crate::digest::{calculate_hash, is_hex_hash, spec_hash};
use crate::text::{push_str, lemma_encode_utf8_concat};

verus! {

/// The mathematical value of a Merkle (sub)tree.
pub struct MerkleTree {
    pub hash: Seq<char>,
    pub left: Option<Box<MerkleTree>>,
    pub right: Option<Box<MerkleTree>>,
}

/// A node of a Merkle tree: its hash text and its optional children.
#[derive(Debug)]
pub struct MerkleNode {
    pub hash: String,
    pub left: Option<Box<MerkleNode>>,
    pub right: Option<Box<MerkleNode>>,
}

/// How the last node of a level with an odd number of nodes is carried up.
#[derive(Debug, Clone, Copy, PartialEq, Eq)]
pub enum Unpaired {
    /// It becomes the only child of a parent that keeps its hash.
    Promote,
    /// It is paired with a copy of itself.
    Duplicate,
}

/// The hash of a parent of two children with hash texts `l` and `r`: the
/// digest of the UTF-8 bytes of `l` followed by `r`.
pub open spec fn combined_hash(l: Seq<char>, r: Seq<char>) -> Seq<char> {
    spec_hash(encode_utf8(l + r))
}

/// A leaf with the given hash text.
pub open spec fn leaf_tree(hash: Seq<char>) -> MerkleTree {
    MerkleTree { hash, left: None, right: None }
}

/// The parent of `l` and, where there is one, `r`. A parent of one child
/// keeps that child's hash.
pub open spec fn join(l: MerkleTree, r: Option<MerkleTree>) -> MerkleTree {
    match r {
        Some(r) => MerkleTree {
            hash: combined_hash(l.hash, r.hash),
            left: Some(Box::new(l)),
            right: Some(Box::new(r)),
        },
        None => MerkleTree { hash: l.hash, left: Some(Box::new(l)), right: None },
    }
}

/// The `i`-th parent formed from `level`: the join of nodes `2i` and `2i+1`,
/// or, for a last node without partner, as `unpaired` says.
pub open spec fn parent_at(level: Seq<MerkleTree>, i: int, unpaired: Unpaired) -> MerkleTree {
    if 2 * i + 1 < level.len() {
        join(level[2 * i], Some(level[2 * i + 1]))
    } else {
        match unpaired {
            Unpaired::Promote => join(level[2 * i], None),
            Unpaired::Duplicate => join(level[2 * i], Some(level[2 * i])),
        }
    }
}

/// The level above `level`.
pub open spec fn next_level(level: Seq<MerkleTree>, unpaired: Unpaired) -> Seq<MerkleTree> {
    Seq::new(((level.len() + 1) / 2) as nat, |i: int| parent_at(level, i, unpaired))
}

/// The root obtained by folding `level` upwards until one node is left
/// (meaningful for a non-empty level).
pub open spec fn merkle_tree(level: Seq<MerkleTree>, unpaired: Unpaired) -> MerkleTree
    decreases level.len(),
{
    if level.len() <= 1 {
        level[0]
    } else {
        merkle_tree(next_level(level, unpaired), unpaired)
    }
}

/// Every tree of `level` has a hash text of 64 hexadecimal digits.
pub open spec fn all_hex(level: Seq<MerkleTree>) -> bool {
    forall|i: int| 0 <= i < level.len() ==> is_hex_hash(#[trigger] level[i].hash)
}

/// The values of a sequence of nodes.
pub open spec fn models(nodes: Seq<MerkleNode>) -> Seq<MerkleTree> {
    nodes.map_values(|n: MerkleNode| n.model())
}

impl MerkleNode {
    /// The value of the tree rooted at this node.
    pub open spec fn model(self) -> MerkleTree
        decreases self,
    {
        MerkleTree {
            hash: self.hash@,
            left: match self.left {
                Some(l) => Some(Box::new(l.model())),
                None => None,
            },
            right: match self.right {
                Some(r) => Some(Box::new(r.model())),
                None => None,
            },
        }
    }

    /// The parent of `left` and, where given, `right`. With two children its
    /// hash is the hash of the two hash texts one after the other; with one
    /// it is the hash of `left`.
    pub fn new_node(left: MerkleNode, right: Option<MerkleNode>) -> (res: MerkleNode)
        ensures
            res.model() == join(
                left.model(),
                match right {
                    Some(r) => Some(r.model()),
                    None => None,
                },
            ),
            right is Some || is_hex_hash(left.hash@) ==> is_hex_hash(res.hash@),
    {
        let hash = match &right {
            Some(right_node) => {
                let mut combined: Vec<u8> = Vec::new();
                push_str(&mut combined, left.hash.as_str());
                push_str(&mut combined, right_node.hash.as_str());
                proof {
                    lemma_encode_utf8_concat(left.hash@, right_node.hash@);
                }
                calculate_hash(combined.as_slice())
            },
            None => left.hash.clone(),
        };
        let right_child = match right {
            Some(r) => Some(Box::new(r)),
            None => None,
        };
        MerkleNode { hash, left: Some(Box::new(left)), right: right_child }
    }

    /// A copy of the whole tree rooted at this node.
    pub fn duplicate(&self) -> (res: MerkleNode)
        ensures
            res.model() == self.model(),
        decreases self,
    {
        let left = match &self.left {
            Some(l) => Some(Box::new(l.duplicate())),
            None => None,
        };
        let right = match &self.right {
            Some(r) => Some(Box::new(r.duplicate())),
            None => None,
        };
        MerkleNode { hash: self.hash.clone(), left, right }
    }
}

/// Forms the level above `nodes`.
fn build_level(nodes: Vec<MerkleNode>, unpaired: Unpaired) -> (res: Vec<MerkleNode>)
    requires
        all_hex(models(nodes@)),
    ensures
        models(res@) == next_level(models(nodes@), unpaired),
        all_hex(models(res@)),
{
    let ghost orig = nodes@;
    let ghost target = next_level(models(orig), unpaired);
    let mut level = nodes;
    let mut out: Vec<MerkleNode> = Vec::new();
    while level.len() > 0
        invariant
            2 * out.len() <= orig.len() + 1,
            level.len() > 0 ==> 2 * out.len() < orig.len(),
            level.len() == 0 ==> 2 * out.len() >= orig.len(),
            level.len() > 0 ==> level@ =~= orig.skip(2 * out.len()),
            target == next_level(models(orig), unpaired),
            forall|j: int| 0 <= j < out.len() ==> #[trigger] out@[j].model() == target[j],
            forall|j: int| 0 <= j < out.len() ==> is_hex_hash(#[trigger] out@[j].hash@),
            all_hex(models(orig)),
        decreases level.len(),
    {
        let ghost k = out.len() as int;
        let left = level.remove(0);
        assert(left == orig[2 * k]);
        assert(is_hex_hash(models(orig)[2 * k].hash));
        assert(models(orig)[2 * k] == orig[2 * k].model());
        assert(2 * k + 1 < orig.len() ==> models(orig)[2 * k + 1] == orig[2 * k + 1].model());
        assert(target[k] == parent_at(models(orig), k, unpaired));
        if level.len() > 0 {
            let right = level.remove(0);
            assert(right == orig[2 * k + 1]);
            let parent = MerkleNode::new_node(left, Some(right));
            out.push(parent);
        } else {
            let parent = match unpaired {
                Unpaired::Promote => MerkleNode::new_node(left, None),
                Unpaired::Duplicate => {
                    let copy = left.duplicate();
                    MerkleNode::new_node(left, Some(copy))
                },
            };
            out.push(parent);
        }
        assert(level.len() > 0 ==> level@ =~= orig.skip(2 * out.len()));
    }
    assert(models(out@) =~= target);
    assert forall|j: int| 0 <= j < models(out@).len() implies is_hex_hash(
        #[trigger] models(out@)[j].hash,
    ) by {
        assert(models(out@)[j] == out@[j].model());
    }
    out
}

/// Folds `nodes` level by level into the root.
pub fn build_tree(nodes: Vec<MerkleNode>, unpaired: Unpaired) -> (res: MerkleNode)
    requires
        nodes.len() >= 1,
        all_hex(models(nodes@)),
    ensures
        res.model() == merkle_tree(models(nodes@), unpaired),
        is_hex_hash(res.hash@),
{
    let ghost root = merkle_tree(models(nodes@), unpaired);
    let mut level = nodes;
    while level.len() > 1
        invariant
            level.len() >= 1,
            merkle_tree(models(level@), unpaired) == root,
            all_hex(models(level@)),
        decreases level.len(),
    {
        level = build_level(level, unpaired);
    }
    assert(is_hex_hash(models(level@)[0].hash));
    let r = level.remove(0);
    r
}

/// `k` is a power of two.
pub open spec fn is_pow2(k: int) -> bool
    decreases k,
{
    if k <= 1 {
        k == 1
    } else {
        k % 2 == 0 && is_pow2(k / 2)
    }
}

/// Forming the level above splits along an even boundary: the parents of
/// the first `k` nodes come first, then those of the rest.
pub proof fn lemma_next_level_split(level: Seq<MerkleTree>, k: int, unpaired: Unpaired)
    requires
        0 <= k <= level.len(),
        k % 2 == 0,
    ensures
        next_level(level, unpaired) == next_level(level.take(k), unpaired) + next_level(
            level.skip(k),
            unpaired,
        ),
{
    let a = next_level(level.take(k), unpaired);
    let b = next_level(level.skip(k), unpaired);
    let n = next_level(level, unpaired);
    assert(a.len() == k / 2);
    assert forall|i: int| 0 <= i < n.len() implies #[trigger] n[i] == (a + b)[i] by {
        if i < k / 2 {
            assert(level.take(k)[2 * i] == level[2 * i]);
            assert(level.take(k)[2 * i + 1] == level[2 * i + 1]);
        } else {
            let j = i - k / 2;
            assert(level.skip(k)[2 * j] == level[2 * i]);
            if 2 * i + 1 < level.len() {
                assert(level.skip(k)[2 * j + 1] == level[2 * i + 1]);
            }
        }
    }
    assert(n =~= a + b);
}

/// The Merkle split law, for levels whose lone nodes are carried up alone:
/// where `k` is the largest power of two below the number of nodes, the
/// root hash is the hash of the root of the first `k` nodes followed by the
/// root of the rest.
pub proof fn lemma_merkle_split(level: Seq<MerkleTree>, k: int)
    requires
        is_pow2(k),
        k < level.len() <= 2 * k,
    ensures
        merkle_tree(level, Unpaired::Promote).hash == spec_hash(
            encode_utf8(
                merkle_tree(level.take(k), Unpaired::Promote).hash + merkle_tree(
                    level.skip(k),
                    Unpaired::Promote,
                ).hash,
            ),
        ),
    decreases level.len(),
{
    let u = Unpaired::Promote;
    let next = next_level(level, u);
    assert(merkle_tree(level, u) == merkle_tree(next, u));
    if k == 1 {
        assert(next.len() == 1);
        assert(merkle_tree(next, u) == next[0]);
        assert(next[0] == parent_at(level, 0, u));
        assert(level.take(1).len() == 1 && level.take(1)[0] == level[0]);
        assert(level.skip(1).len() == 1 && level.skip(1)[0] == level[1]);
    } else {
        let h = k / 2;
        assert(is_pow2(h));
        lemma_next_level_split(level, k, u);
        let a = next_level(level.take(k), u);
        let b = next_level(level.skip(k), u);
        assert(next.take(h) =~= a);
        assert(next.skip(h) =~= b);
        assert(next.len() >= 2);
        lemma_merkle_split(next, h);
        assert(merkle_tree(level.take(k), u) == merkle_tree(a, u));
        let rest = level.skip(k);
        if rest.len() >= 2 {
            assert(merkle_tree(rest, u) == merkle_tree(b, u));
        } else {
            assert(b.len() == 1);
            assert(merkle_tree(b, u) == b[0]);
            assert(b[0] == parent_at(rest, 0, u));
            assert(merkle_tree(rest, u) == rest[0]);
        }
    }
}

} // verus!
