//! Merkle trees over rows of field elements.

use std::sync::Arc;

use vstd::arithmetic::power2::{lemma_pow2_adds, lemma_pow2_pos, pow2};
use vstd::prelude::*;

use crate::bits::{is_power_of_two, lemma_pow2_monotonic, log2, shift_left};
use crate::field::{all_wf, Field};

verus! {

/// A hash function for Merkle trees over `F`.
///
/// Nothing is asked of the two functions but that each is a function of its
/// arguments. An implementation that is to be verified says in the spec
/// functions which.
pub trait Hasher<F: Field>: Sized {
    type Hash: Copy + PartialEq + Eq + std::fmt::Debug;

    closed spec fn hash_or_noop_spec(leaf: Seq<F>) -> Self::Hash {
        arbitrary()
    }

    closed spec fn two_to_one_spec(left: Self::Hash, right: Self::Hash) -> Self::Hash {
        arbitrary()
    }

    /// The digest of a leaf.
    fn hash_or_noop(leaf: &Vec<F>) -> (h: Self::Hash)
        requires
            all_wf(leaf@),
        ensures
            h == Self::hash_or_noop_spec(leaf@),
    ;

    /// The digest of a node, from those of its children.
    fn two_to_one(left: Self::Hash, right: Self::Hash) -> (h: Self::Hash)
        ensures
            h == Self::two_to_one_spec(left, right),
    ;
}

/// The contents of a list of rows.
pub open spec fn rows<F>(v: Seq<Vec<F>>) -> Seq<Seq<F>> {
    Seq::new(v.len(), |i: int| v[i]@)
}

/// The digest of the root of the tree over `leaves`.
pub open spec fn merkle_root<F: Field, H: Hasher<F>>(leaves: Seq<Seq<F>>) -> H::Hash
    decreases leaves.len(),
{
    if leaves.len() <= 1 {
        H::hash_or_noop_spec(leaves[0])
    } else {
        let half = (leaves.len() / 2) as int;
        H::two_to_one_spec(
            merkle_root::<F, H>(leaves.take(half)),
            merkle_root::<F, H>(leaves.skip(half)),
        )
    }
}

/// The digests below the root, laid out as those of the left subtree, the two
/// children of the root, and those of the right subtree.
pub open spec fn merkle_digests<F: Field, H: Hasher<F>>(leaves: Seq<Seq<F>>) -> Seq<H::Hash>
    decreases leaves.len(),
{
    if leaves.len() <= 1 {
        Seq::empty()
    } else {
        let half = (leaves.len() / 2) as int;
        let (left, right) = (leaves.take(half), leaves.skip(half));
        merkle_digests::<F, H>(left) + seq![
            merkle_root::<F, H>(left),
            merkle_root::<F, H>(right),
        ] + merkle_digests::<F, H>(right)
    }
}

/// The leaves below the cap entry `i`, where each entry covers `size` of them.
pub open spec fn cap_subtree<F>(leaves: Seq<Seq<F>>, size: nat, i: int) -> Seq<Seq<F>> {
    leaves.subrange(i * size, (i + 1) * size)
}

/// The roots of the first `count` subtrees of `size` leaves each.
pub open spec fn merkle_cap<F: Field, H: Hasher<F>>(
    leaves: Seq<Seq<F>>,
    size: nat,
    count: nat,
) -> Seq<H::Hash> {
    Seq::new(count, |i: int| merkle_root::<F, H>(cap_subtree(leaves, size, i)))
}

/// The digests below the first `count` subtrees of `size` leaves each, one after the other.
pub open spec fn merkle_cap_digests<F: Field, H: Hasher<F>>(
    leaves: Seq<Seq<F>>,
    size: nat,
    count: nat,
) -> Seq<H::Hash>
    decreases count,
{
    if count == 0 {
        Seq::empty()
    } else {
        merkle_cap_digests::<F, H>(leaves, size, (count - 1) as nat) + merkle_digests::<F, H>(
            cap_subtree(leaves, size, count - 1),
        )
    }
}

/// The layer of a Merkle tree that stands for it in a commitment.
#[derive(Clone, Debug, PartialEq, Eq)]
pub struct MerkleCap<T>(pub Vec<T>);

/// What is known of a tree whose nodes were computed on a device.
#[derive(Clone, Debug, PartialEq, Eq)]
pub struct DeviceTree<F, T> {
    /// The number of elements of a leaf.
    pub leaf_len: usize,
    /// The elements of all leaves in one list.
    pub flatten_leaves: Arc<Vec<F>>,
    /// The number of elements of all leaves together.
    pub leaves_len: usize,
    /// Where the elements start in the memory of the device.
    pub device_offset: isize,
    /// The digests of the tree, followed by its cap.
    pub digests_and_cap: Arc<Vec<T>>,
}

/// A Merkle tree with a cap of a given height in place of a root.
#[derive(Debug, PartialEq, Eq)]
pub struct MerkleTree<F: Field, H: Hasher<F>> {
    pub leaves: Vec<Vec<F>>,
    /// The digests below the cap, subtree by subtree.
    pub digests: Vec<H::Hash>,
    pub cap: MerkleCap<H::Hash>,
    /// Present for a tree that was computed on a device, which has the fields
    /// `leaves` and `digests` empty.
    pub device: Option<DeviceTree<F, H::Hash>>,
}

impl<F: Field, H: Hasher<F>> MerkleTree<F, H> {
    /// The tree over `leaves` with a cap of the height `cap_height`.
    pub open spec fn is_tree_over(self, leaves: Seq<Seq<F>>, cap_height: nat) -> bool {
        let size = leaves.len() / pow2(cap_height);
        &&& rows(self.leaves@) == leaves
        &&& self.digests@ == merkle_cap_digests::<F, H>(leaves, size, pow2(cap_height))
        &&& self.cap.0@ == merkle_cap::<F, H>(leaves, size, pow2(cap_height))
        &&& self.device is None
    }

    /// The digest of the root and those below it, for a part of the leaves.
    fn subtree(leaves: &Vec<Vec<F>>, start: usize, len: usize) -> (r: (H::Hash, Vec<H::Hash>))
        requires
            len > 0,
            start + len <= leaves@.len(),
            forall|i: int| 0 <= i < leaves@.len() ==> all_wf((#[trigger] leaves@[i])@),
        ensures
            r.0 == merkle_root::<F, H>(rows(leaves@).subrange(start as int, start + len)),
            r.1@ == merkle_digests::<F, H>(rows(leaves@).subrange(start as int, start + len)),
        decreases len,
    {
        let total: usize = leaves.len();
        assert(start + len <= total);
        let ghost part = rows(leaves@).subrange(start as int, start + len);
        if len == 1 {
            assert(part[0] == leaves@[start as int]@);
            return (H::hash_or_noop(&leaves[start]), Vec::new());
        }
        let half: usize = len / 2;
        proof {
            assert(part.take(half as int) =~= rows(leaves@).subrange(start as int, start + half));
            assert(part.skip(half as int) =~= rows(leaves@).subrange(start + half, start + len));
        }
        let (left, mut digests): (H::Hash, Vec<H::Hash>) = Self::subtree(leaves, start, half);
        let (right, mut right_digests): (H::Hash, Vec<H::Hash>) = Self::subtree(
            leaves,
            start + half,
            len - half,
        );
        digests.push(left);
        digests.push(right);
        digests.append(&mut right_digests);
        assert(digests@ =~= merkle_digests::<F, H>(part));
        (H::two_to_one(left, right), digests)
    }

    /// Builds the tree over `leaves`, which are a power of two in number.
    pub fn new(leaves: Vec<Vec<F>>, cap_height: usize) -> (r: Self)
        requires
            is_power_of_two(leaves@.len()),
            cap_height <= log2(leaves@.len()),
            forall|i: int| 0 <= i < leaves@.len() ==> all_wf((#[trigger] leaves@[i])@),
        ensures
            r.leaves == leaves,
            r.is_tree_over(rows(leaves@), cap_height as nat),
    {
        let total: usize = leaves.len();
        let ghost h = cap_height as nat;
        let ghost n = leaves@.len();
        proof {
            let k = (log2(n) - h) as nat;
            lemma_pow2_adds(h, k);
            lemma_pow2_pos(h);
            lemma_pow2_pos(k);
            lemma_pow2_monotonic(h, log2(n));
            vstd::arithmetic::div_mod::lemma_div_multiples_vanish(pow2(k) as int, pow2(h) as int);
            assert(n / pow2(h) == pow2(k));
            assert(1 * pow2(h) == pow2(h));
            assert(pow2(h) * (n / pow2(h)) == n);
        }
        let count: usize = shift_left(1, cap_height);
        let size: usize = total / count;
        let mut digests: Vec<H::Hash> = Vec::new();
        let mut cap: Vec<H::Hash> = Vec::new();
        let mut i: usize = 0;
        while i < count
            invariant
                n == leaves@.len(),
                n == total,
                n == count * size,
                size > 0,
                forall|i: int| 0 <= i < leaves@.len() ==> all_wf((#[trigger] leaves@[i])@),
                i <= count,
                cap@ == merkle_cap::<F, H>(rows(leaves@), size as nat, i as nat),
                digests@ == merkle_cap_digests::<F, H>(rows(leaves@), size as nat, i as nat),
            decreases count - i,
        {
            proof {
                assert((i + 1) * size <= count * size) by (nonlinear_arith)
                    requires
                        i + 1 <= count,
                ;
                assert((i + 1) * size == i * size + size) by (nonlinear_arith);
                assert(0 <= i * size) by (nonlinear_arith);
            }
            let (root, mut below): (H::Hash, Vec<H::Hash>) = Self::subtree(&leaves, i * size, size);
            cap.push(root);
            digests.append(&mut below);
            proof {
                assert(cap@ =~= merkle_cap::<F, H>(rows(leaves@), size as nat, (i + 1) as nat));
            }
            i = i + 1;
        }
        MerkleTree { leaves, digests, cap: MerkleCap(cap), device: None }
    }
}

impl<F: Field, H: Hasher<F>> Default for MerkleTree<F, H> {
    fn default() -> (r: Self)
        ensures
            r.leaves@.len() == 0,
            r.digests@.len() == 0,
            r.cap.0@.len() == 0,
            r.device is None,
    {
        MerkleTree {
            leaves: Vec::new(),
            digests: Vec::new(),
            cap: MerkleCap(Vec::new()),
            device: None,
        }
    }
}

/// Every node but the root of a binary tree has its digest stored once.
pub proof fn lemma_merkle_digests_len<F: Field, H: Hasher<F>>(leaves: Seq<Seq<F>>)
    requires
        leaves.len() >= 1,
    ensures
        merkle_digests::<F, H>(leaves).len() == 2 * (leaves.len() - 1),
    decreases leaves.len(),
{
    if leaves.len() > 1 {
        let half = (leaves.len() / 2) as int;
        lemma_merkle_digests_len::<F, H>(leaves.take(half));
        lemma_merkle_digests_len::<F, H>(leaves.skip(half));
    }
}

pub proof fn lemma_merkle_cap_digests_len<F: Field, H: Hasher<F>>(
    leaves: Seq<Seq<F>>,
    size: nat,
    count: nat,
)
    requires
        size >= 1,
        count * size <= leaves.len(),
    ensures
        merkle_cap_digests::<F, H>(leaves, size, count).len() == 2 * (count * size - count),
    decreases count,
{
    if count == 0 {
        assert(0 * size == 0);
    } else {
        let c = (count - 1) as nat;
        assert(count * size == c * size + size) by (nonlinear_arith)
            requires
                count == c + 1,
        ;
        assert(0 <= c * size) by (nonlinear_arith);
        assert((c + 1) * size == count * size);
        lemma_merkle_cap_digests_len::<F, H>(leaves, size, c);
        lemma_merkle_digests_len::<F, H>(cap_subtree(leaves, size, c as int));
    }
}

} // verus!
