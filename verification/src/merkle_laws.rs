//! What holds of every Merkle tree.

use vstd::arithmetic::div_mod::{lemma_div_denominator, lemma_fundamental_div_mod, lemma_mod_bound};
use vstd::arithmetic::power2::{
    lemma2_to64, lemma_pow2_adds, lemma_pow2_pos, lemma_pow2_unfold, pow2,
};
use vstd::prelude::*;

use crate::field::Field;
use crate::merkle::{
    cap_subtree, lemma_merkle_cap_digests_len, lemma_merkle_digests_len, merkle_cap,
    merkle_cap_digests, merkle_digests, merkle_root, rows, Hasher, MerkleTree,
};

verus! {

/// The digest that is reached from the digest of leaf `i` by hashing it with one
/// sibling after the other, which stands to the right of a left child and to the
/// left of a right child.
pub open spec fn fold_path<F: Field, H: Hasher<F>>(
    digest: H::Hash,
    siblings: Seq<H::Hash>,
    i: nat,
) -> H::Hash
    decreases siblings.len(),
{
    if siblings.len() == 0 {
        digest
    } else {
        let parent = if i % 2 == 0 {
            H::two_to_one_spec(digest, siblings[0])
        } else {
            H::two_to_one_spec(siblings[0], digest)
        };
        fold_path::<F, H>(parent, siblings.skip(1), i / 2)
    }
}

/// The siblings of the nodes on the path from leaf `i` to the root of a tree of
/// `size` leaves, lowest first, as they stand among the digests of the tree: the
/// digests of the left half, the left child of the root, the right child of the
/// root, and the digests of the right half.
pub open spec fn siblings_in<T>(digests: Seq<T>, size: nat, i: nat) -> Seq<T>
    decreases size,
{
    if size <= 1 {
        Seq::empty()
    } else if i < size / 2 {
        siblings_in(digests.take(size - 2), size / 2, i).push(digests[size - 1])
    } else {
        siblings_in(digests.skip(size as int), size / 2, (i - size / 2) as nat).push(
            digests[size - 2],
        )
    }
}

proof fn lemma_siblings_len<T>(digests: Seq<T>, h: nat, i: nat)
    ensures
        siblings_in(digests, pow2(h), i).len() == h,
    decreases h,
{
    lemma2_to64();
    if h > 0 {
        let m = (h - 1) as nat;
        lemma_pow2_unfold(h);
        lemma_pow2_pos(m);
        let size = pow2(h);
        assert(size / 2 == pow2(m));
        lemma_siblings_len(digests.take(size - 2), m, i);
        lemma_siblings_len(digests.skip(size as int), m, (i - size / 2) as nat);
    }
}

/// The last sibling is hashed last.
proof fn lemma_fold_last<F: Field, H: Hasher<F>>(
    digest: H::Hash,
    siblings: Seq<H::Hash>,
    last: H::Hash,
    i: nat,
)
    ensures
        fold_path::<F, H>(digest, siblings.push(last), i) == ({
            let below = fold_path::<F, H>(digest, siblings, i);
            if (i / pow2(siblings.len())) % 2 == 0 {
                H::two_to_one_spec(below, last)
            } else {
                H::two_to_one_spec(last, below)
            }
        }),
    decreases siblings.len(),
{
    lemma2_to64();
    let all = siblings.push(last);
    if siblings.len() == 0 {
        let parent = if i % 2 == 0 {
            H::two_to_one_spec(digest, last)
        } else {
            H::two_to_one_spec(last, digest)
        };
        assert(all.skip(1).len() == 0);
        assert(fold_path::<F, H>(parent, all.skip(1), i / 2) == parent);
        assert(i / 1 == i);
    } else {
        let k = (siblings.len() - 1) as nat;
        lemma_pow2_unfold(siblings.len());
        lemma_pow2_pos(k);
        lemma_div_denominator(i as int, 2, pow2(k) as int);
        let parent = if i % 2 == 0 {
            H::two_to_one_spec(digest, siblings[0])
        } else {
            H::two_to_one_spec(siblings[0], digest)
        };
        assert(all.skip(1) =~= siblings.skip(1).push(last));
        assert(all[0] == siblings[0]);
        lemma_fold_last::<F, H>(parent, siblings.skip(1), last, i / 2);
    }
}

/// Only as many bits of the index count as there are siblings.
proof fn lemma_fold_low_bits<F: Field, H: Hasher<F>>(
    digest: H::Hash,
    siblings: Seq<H::Hash>,
    i: nat,
)
    ensures
        fold_path::<F, H>(digest, siblings, i + pow2(siblings.len())) == fold_path::<F, H>(
            digest,
            siblings,
            i,
        ),
    decreases siblings.len(),
{
    if siblings.len() > 0 {
        let k = (siblings.len() - 1) as nat;
        lemma_pow2_unfold(siblings.len());
        let parent = if i % 2 == 0 {
            H::two_to_one_spec(digest, siblings[0])
        } else {
            H::two_to_one_spec(siblings[0], digest)
        };
        lemma_fold_low_bits::<F, H>(parent, siblings.skip(1), i / 2);
        assert((i + pow2(siblings.len())) / 2 == i / 2 + pow2(k));
    }
}

/// Authentication paths lead to the root: the digest of any leaf, hashed with the
/// siblings that stand among the digests, gives the root.
pub proof fn law_path_to_root<F: Field, H: Hasher<F>>(leaves: Seq<Seq<F>>, h: nat, i: nat)
    requires
        leaves.len() == pow2(h),
        i < leaves.len(),
    ensures
        fold_path::<F, H>(
            H::hash_or_noop_spec(leaves[i as int]),
            siblings_in(merkle_digests::<F, H>(leaves), leaves.len(), i),
            i,
        ) == merkle_root::<F, H>(leaves),
    decreases h,
{
    lemma2_to64();
    if h > 0 {
        let m = (h - 1) as nat;
        lemma_pow2_unfold(h);
        lemma_pow2_pos(m);
        let size = leaves.len();
        let half = (size / 2) as int;
        assert(half == pow2(m));
        let (left, right) = (leaves.take(half), leaves.skip(half));
        let digests = merkle_digests::<F, H>(leaves);
        lemma_merkle_digests_len::<F, H>(left);
        lemma_merkle_digests_len::<F, H>(right);
        assert(digests.take(size - 2) =~= merkle_digests::<F, H>(left));
        assert(digests.skip(size as int) =~= merkle_digests::<F, H>(right));
        assert(digests[size - 2] == merkle_root::<F, H>(left));
        assert(digests[size - 1] == merkle_root::<F, H>(right));
        let digest = H::hash_or_noop_spec(leaves[i as int]);
        if i < half {
            law_path_to_root::<F, H>(left, m, i);
            lemma_siblings_len(merkle_digests::<F, H>(left), m, i);
            let below = siblings_in(merkle_digests::<F, H>(left), pow2(m), i);
            lemma_fold_last::<F, H>(digest, below, digests[size - 1], i);
            assert(i / pow2(m) == 0) by (nonlinear_arith)
                requires
                    0 <= i < pow2(m),
            ;
        } else {
            let k = (i - half) as nat;
            law_path_to_root::<F, H>(right, m, k);
            lemma_siblings_len(merkle_digests::<F, H>(right), m, k);
            let below = siblings_in(merkle_digests::<F, H>(right), pow2(m), k);
            lemma_fold_low_bits::<F, H>(digest, below, k);
            lemma_fold_last::<F, H>(digest, below, digests[size - 2], i);
            assert(i / pow2(m) == 1) by (nonlinear_arith)
                requires
                    pow2(m) <= i < 2 * pow2(m),
                    pow2(m) > 0,
            ;
        }
    }
}

/// The digests of the subtree `t` stand in one piece.
proof fn lemma_subtree_digests<F: Field, H: Hasher<F>>(
    leaves: Seq<Seq<F>>,
    size: nat,
    count: nat,
    t: int,
)
    requires
        size >= 1,
        0 <= t < count,
        count * size <= leaves.len(),
    ensures
        merkle_cap_digests::<F, H>(leaves, size, count).subrange(
            t * (2 * size - 2),
            (t + 1) * (2 * size - 2),
        ) == merkle_digests::<F, H>(cap_subtree(leaves, size, t)),
    decreases count,
{
    let c = (count - 1) as nat;
    let d = 2 * size - 2;
    assert(count * size == c * size + size) by (nonlinear_arith)
        requires
            count == c + 1,
    ;
    assert(0 <= c * size) by (nonlinear_arith);
    assert(2 * (c * size - c) == c * d && 2 * (count * size - count) == c * d + d) by (
    nonlinear_arith)
        requires
            d == 2 * size - 2,
            count == c + 1,
    ;
    lemma_merkle_cap_digests_len::<F, H>(leaves, size, c);
    lemma_merkle_cap_digests_len::<F, H>(leaves, size, count);
    assert((c + 1) * size == count * size);
    lemma_merkle_digests_len::<F, H>(cap_subtree(leaves, size, c as int));
    let all = merkle_cap_digests::<F, H>(leaves, size, count);
    let head = merkle_cap_digests::<F, H>(leaves, size, c);
    assert((t + 1) * d == t * d + d && 0 <= t * d) by (nonlinear_arith)
        requires
            t >= 0,
            d >= 0,
    ;
    if t == c {
        assert(all.subrange(t * d, (t + 1) * d) =~= merkle_digests::<F, H>(
            cap_subtree(leaves, size, t),
        ));
    } else {
        lemma_subtree_digests::<F, H>(leaves, size, c, t);
        assert((t + 1) * d <= c * d) by (nonlinear_arith)
            requires
                t + 1 <= c,
                d >= 0,
        ;
        assert(all.subrange(t * d, (t + 1) * d) =~= head.subrange(t * d, (t + 1) * d));
    }
}

/// Authentication paths lead to the cap: the digest of leaf `i`, hashed with its
/// siblings, which stand among the digests of its own subtree, gives the entry of
/// the cap that covers it. Each entry covers `2^(bits - cap_height)` leaves.
pub proof fn law_path_to_cap<F: Field, H: Hasher<F>>(
    tree: MerkleTree<F, H>,
    leaves: Seq<Seq<F>>,
    bits: nat,
    cap_height: nat,
    i: nat,
)
    requires
        leaves.len() == pow2(bits),
        cap_height <= bits,
        tree.is_tree_over(leaves, cap_height),
        i < leaves.len(),
    ensures
        tree.leaves@.len() == pow2(bits),
        tree.leaves@[i as int]@ == leaves[i as int],
        tree.cap.0@.len() == pow2(cap_height),
        tree.digests@.len() == 2 * (pow2(bits) - pow2(cap_height)),
        i / pow2((bits - cap_height) as nat) < pow2(cap_height),
        ({
            let size = pow2((bits - cap_height) as nat);
            let t = (i / size) as int;
            fold_path::<F, H>(
                H::hash_or_noop_spec(tree.leaves@[i as int]@),
                siblings_in(
                    tree.digests@.subrange(t * (2 * size - 2), (t + 1) * (2 * size - 2)),
                    size,
                    i % size,
                ),
                i % size,
            ) == tree.cap.0@[t]
        }),
{
    let h = (bits - cap_height) as nat;
    let (count, size) = (pow2(cap_height), pow2(h));
    lemma_pow2_adds(cap_height, h);
    lemma_pow2_pos(cap_height);
    lemma_pow2_pos(h);
    let n = leaves.len();
    assert(n / count == size) by (nonlinear_arith)
        requires
            n == count * size,
            count > 0,
    ;
    let t = (i / size) as int;
    lemma_fundamental_div_mod(i as int, size as int);
    lemma_mod_bound(i as int, size as int);
    assert(0 <= t < count && t * size == size * t && (t + 1) * size == t * size + size && (t + 1)
        * size <= n) by (nonlinear_arith)
        requires
            i == size * t + i % size,
            0 <= i % size < size,
            0 <= i < n,
            n == count * size,
    ;
    let part = cap_subtree(leaves, size, t);
    assert(rows(tree.leaves@)[i as int] == tree.leaves@[i as int]@);
    assert(part[(i % size) as int] == leaves[i as int]);
    lemma_merkle_cap_digests_len::<F, H>(leaves, size, count);
    lemma_subtree_digests::<F, H>(leaves, size, count, t);
    law_path_to_root::<F, H>(part, h, i % size);
    assert(0 <= t * size) by (nonlinear_arith)
        requires
            t >= 0,
    ;
}

/// Different arguments give different digests.
pub open spec fn collision_free<F: Field, H: Hasher<F>>() -> bool {
    &&& forall|a: Seq<F>, b: Seq<F>|
        #![trigger H::hash_or_noop_spec(a), H::hash_or_noop_spec(b)]
        H::hash_or_noop_spec(a) == H::hash_or_noop_spec(b) ==> a == b
    &&& forall|a: H::Hash, b: H::Hash, c: H::Hash, d: H::Hash|
        #![trigger H::two_to_one_spec(a, b), H::two_to_one_spec(c, d)]
        H::two_to_one_spec(a, b) == H::two_to_one_spec(c, d) ==> a == c && b == d
}

/// A root binds: without collisions, equally many leaves with the same root are
/// the same leaves.
pub proof fn law_root_binds<F: Field, H: Hasher<F>>(a: Seq<Seq<F>>, b: Seq<Seq<F>>)
    requires
        collision_free::<F, H>(),
        a.len() == b.len(),
        a.len() >= 1,
        merkle_root::<F, H>(a) == merkle_root::<F, H>(b),
    ensures
        a == b,
    decreases a.len(),
{
    if a.len() > 1 {
        let half = (a.len() / 2) as int;
        law_root_binds::<F, H>(a.take(half), b.take(half));
        law_root_binds::<F, H>(a.skip(half), b.skip(half));
        assert(a =~= a.take(half) + a.skip(half));
        assert(b =~= b.take(half) + b.skip(half));
    } else {
        assert(a[0] == b[0]);
        assert(a =~= b);
    }
}

/// A cap binds: without collisions, two trees of the same size with the same cap
/// are over the same leaves.
pub proof fn law_cap_binds<F: Field, H: Hasher<F>>(
    a: MerkleTree<F, H>,
    b: MerkleTree<F, H>,
    a_leaves: Seq<Seq<F>>,
    b_leaves: Seq<Seq<F>>,
    bits: nat,
    cap_height: nat,
)
    requires
        collision_free::<F, H>(),
        a_leaves.len() == pow2(bits),
        b_leaves.len() == pow2(bits),
        cap_height <= bits,
        a.is_tree_over(a_leaves, cap_height),
        b.is_tree_over(b_leaves, cap_height),
        a.cap.0@ == b.cap.0@,
    ensures
        a_leaves == b_leaves,
{
    let h = (bits - cap_height) as nat;
    let (count, size) = (pow2(cap_height), pow2(h));
    let n = pow2(bits);
    lemma_pow2_adds(cap_height, h);
    lemma_pow2_pos(cap_height);
    lemma_pow2_pos(h);
    assert(n / count == size) by (nonlinear_arith)
        requires
            n == count * size,
            count > 0,
    ;
    assert forall|i: int| 0 <= i < n implies a_leaves[i] == b_leaves[i] by {
        let t = i / (size as int);
        lemma_fundamental_div_mod(i, size as int);
        lemma_mod_bound(i, size as int);
        assert(0 <= t < count && 0 <= t * size && t * size == size * t && (t + 1) * size == t * size
            + size && (t + 1) * size <= n) by (nonlinear_arith)
            requires
                i == size * t + i % (size as int),
                0 <= i % (size as int) < size,
                0 <= i < n,
                n == count * size,
        ;
        let (x, y) = (cap_subtree(a_leaves, size, t), cap_subtree(b_leaves, size, t));
        assert(merkle_cap::<F, H>(a_leaves, size, count)[t] == merkle_root::<F, H>(x));
        assert(merkle_cap::<F, H>(b_leaves, size, count)[t] == merkle_root::<F, H>(y));
        law_root_binds::<F, H>(x, y);
        assert(x[i % (size as int)] == a_leaves[i]);
        assert(y[i % (size as int)] == b_leaves[i]);
    }
    assert(a_leaves =~= b_leaves);
}

} // verus!
