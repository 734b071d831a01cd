use fri_oracle::fft::fft_root_table;
use fri_oracle::field::Field;
use fri_oracle::goldilocks::{GoldilocksField, ORDER};
use fri_oracle::merkle::{Hasher, MerkleTree};
use fri_oracle::oracle::{rand_vec, PolynomialBatch, SALT_SIZE};
use fri_oracle::polynomial::{PolynomialCoeffs, PolynomialValues};

/// A hash that shows what went into it.
#[derive(Debug, PartialEq, Eq)]
struct Mix;

impl Hasher<GoldilocksField> for Mix {
    type Hash = u64;

    fn hash_or_noop(leaf: &Vec<GoldilocksField>) -> u64 {
        leaf.iter().fold(17, |h, x| h.wrapping_mul(1000003).wrapping_add(x.0))
    }

    fn two_to_one(left: u64, right: u64) -> u64 {
        left.wrapping_mul(31).wrapping_add(right).wrapping_add(1)
    }
}

type Batch = PolynomialBatch<GoldilocksField, Mix>;

fn gf(n: u64) -> GoldilocksField {
    GoldilocksField::from_canonical_u64(n)
}

fn poly(c: &[u64]) -> PolynomialCoeffs<GoldilocksField> {
    PolynomialCoeffs::new(c.iter().map(|n| gf(*n)).collect())
}

fn polys() -> Vec<PolynomialCoeffs<GoldilocksField>> {
    vec![poly(&[3, 1, 4, 1]), poly(&[5, 9, 2, 6]), poly(&[5, 3, 5, 8])]
}

fn eval(p: &PolynomialCoeffs<GoldilocksField>, x: GoldilocksField) -> GoldilocksField {
    p.coeffs.iter().rev().fold(gf(0), |acc, c| acc.mul(x).add(*c))
}

/// The point `i` of the coset over which polynomials are extended.
fn point(n_log: usize, i: usize) -> GoldilocksField {
    let w = GoldilocksField::primitive_root_of_unity(n_log);
    (0..i).fold(GoldilocksField::coset_shift(), |x, _| x.mul(w))
}

#[test]
fn read_back_the_values_of_the_polynomials() {
    let batch = Batch::from_coeffs(polys(), 1, false, 1, None);
    assert_eq!(batch.degree_log, 2);
    assert_eq!(batch.rate_bits, 1);
    assert!(!batch.blinding);
    assert_eq!(batch.merkle_tree.leaves.len(), 8);
    for i in 0..8 {
        let row = batch.get_lde_values(i, 1);
        assert_eq!(row.len(), 3);
        for (j, p) in polys().iter().enumerate() {
            assert_eq!(row[j], eval(p, point(3, i)));
        }
    }
    assert_eq!(GoldilocksField::coset_shift(), gf(7));
    assert_eq!(batch.get_lde_values(0, 1)[0], gf(3 + 7 + 4 * 49 + 343));
}

#[test]
fn leaves_stand_in_bit_reversed_order() {
    let batch = Batch::from_coeffs(polys(), 1, false, 0, None);
    assert_eq!(batch.merkle_tree.leaves[1][0], eval(&polys()[0], point(3, 4)));
    assert_eq!(batch.merkle_tree.leaves[3][2], eval(&polys()[2], point(3, 6)));
}

#[test]
fn steps_and_wrapping_indices() {
    let batch = Batch::from_coeffs(polys(), 2, false, 0, None);
    assert_eq!(batch.get_lde_values(3, 4), batch.get_lde_values(12, 1));
    assert_eq!(batch.get_lde_values(5, 0), batch.get_lde_values(0, 1));
    assert_eq!(batch.get_lde_values(16 + 5, 1), batch.get_lde_values(5, 1));
    assert_eq!(batch.get_lde_values(9, 16), batch.get_lde_values(0, 1));
}

#[test]
fn a_single_point() {
    let batch = Batch::from_coeffs(vec![poly(&[42])], 0, false, 0, None);
    assert_eq!(batch.degree_log, 0);
    assert_eq!(batch.get_lde_values(0, 5), [gf(42)]);
    assert_eq!(batch.merkle_tree.digests.len(), 0);
    assert_eq!(batch.merkle_tree.cap.0, vec![Mix::hash_or_noop(&vec![gf(42)])]);
}

#[test]
fn blinding_adds_salt_that_is_not_read() {
    let plain = Batch::from_coeffs(polys(), 1, false, 1, None);
    let blinded = Batch::from_coeffs(polys(), 1, true, 1, None);
    let again = Batch::from_coeffs(polys(), 1, true, 1, None);
    assert!(blinded.blinding);
    for leaf in &blinded.merkle_tree.leaves {
        assert_eq!(leaf.len(), 3 + SALT_SIZE);
        assert!(leaf.iter().all(|x| x.0 < ORDER));
    }
    for i in 0..8 {
        assert_eq!(blinded.get_lde_values(i, 1), plain.get_lde_values(i, 1));
    }
    assert_ne!(blinded.merkle_tree.leaves, again.merkle_tree.leaves);
    assert_ne!(blinded.merkle_tree.cap.0, plain.merkle_tree.cap.0);
}

#[test]
fn given_salts_stand_behind_the_values() {
    let salts: Vec<Vec<GoldilocksField>> =
        (0..4).map(|s| (0..8).map(|i| gf(100 * s + i)).collect()).collect();
    let batch = Batch::from_coeffs_with_salts(polys(), 1, true, salts.clone(), 0, None);
    // The leaf 3 belongs to the point 6.
    let leaf = &batch.merkle_tree.leaves[3];
    assert_eq!(leaf[3..], [gf(6), gf(106), gf(206), gf(306)]);
    let columns = Batch::lde_values_with_salts(&polys(), 1, true, salts.clone(), None);
    assert_eq!(columns.len(), 7);
    assert_eq!(columns[3..], salts[..]);
    assert_eq!(columns[1], Batch::lde_onto_coset(&polys()[1], 1, None));
}

#[test]
fn lde_values_with_and_without_blinding() {
    let plain = Batch::lde_values(&polys(), 1, false, None);
    let blinded = Batch::lde_values(&polys(), 1, true, None);
    assert_eq!(plain.len(), 3);
    assert_eq!(blinded.len(), 3 + SALT_SIZE);
    assert_eq!(blinded[..3], plain[..]);
    assert!(blinded.iter().all(|column| column.len() == 8));
    assert_eq!(plain[2][5], eval(&polys()[2], point(3, 5)));
}

#[test]
fn a_root_table_changes_nothing() {
    let table = fft_root_table(16);
    let with = Batch::from_coeffs(polys(), 2, false, 2, Some(&table));
    let without = Batch::from_coeffs(polys(), 2, false, 2, None);
    assert_eq!(with.merkle_tree.leaves, without.merkle_tree.leaves);
    assert_eq!(with.merkle_tree.cap.0, without.merkle_tree.cap.0);
    assert_eq!(with.merkle_tree.digests, without.merkle_tree.digests);
}

#[test]
fn values_are_interpolated() {
    let values = vec![
        PolynomialValues::new(vec![gf(8), gf(1), gf(0), gf(ORDER - 1)]),
        PolynomialValues::new(vec![gf(2), gf(2), gf(2), gf(2)]),
    ];
    let batch = Batch::from_values(values.clone(), 1, false, 0, None);
    let w = GoldilocksField::primitive_root_of_unity(2);
    for j in 0..2 {
        let mut x = gf(1);
        for i in 0..4 {
            assert_eq!(eval(&batch.polynomials[j], x), values[j].values[i]);
            x = x.mul(w);
        }
    }
    assert_eq!(batch.polynomials[1].coeffs, poly(&[2, 0, 0, 0]).coeffs);
}

#[test]
fn values_and_coefficients_give_the_same_commitment() {
    let values = polys().iter().map(|p| p.fft_with_options(None)).collect();
    let a = Batch::from_values(values, 1, false, 1, None);
    let b = Batch::from_coeffs(polys(), 1, false, 1, None);
    for j in 0..3 {
        assert_eq!(a.polynomials[j].coeffs, polys()[j].coeffs);
    }
    assert_eq!(a.merkle_tree.cap.0, b.merkle_tree.cap.0);
    assert_eq!(a.merkle_tree.leaves, b.merkle_tree.leaves);
}

#[test]
fn packed_values_are_rows_side_by_side() {
    let batch = Batch::from_coeffs(polys(), 2, true, 0, None);
    let packed = batch.get_lde_values_packed::<4>(3, 2);
    assert_eq!(packed.len(), 3);
    for i in 0..4 {
        let row = batch.get_lde_values(3 + i, 2);
        for j in 0..3 {
            assert_eq!(packed[j][i], row[j]);
        }
    }
    let single = batch.get_lde_values_packed::<1>(5, 1);
    assert_eq!(single[2], [batch.get_lde_values(5, 1)[2]]);
}

#[test]
fn merkle_tree_of_four_leaves() {
    let leaves: Vec<Vec<GoldilocksField>> = (0..4).map(|i| vec![gf(i), gf(10 + i)]).collect();
    let h: Vec<u64> = leaves.iter().map(Mix::hash_or_noop).collect();
    let (left, right) = (Mix::two_to_one(h[0], h[1]), Mix::two_to_one(h[2], h[3]));
    let tree: MerkleTree<GoldilocksField, Mix> = MerkleTree::new(leaves.clone(), 0);
    assert_eq!(tree.cap.0, vec![Mix::two_to_one(left, right)]);
    assert_eq!(tree.digests, vec![h[0], h[1], left, right, h[2], h[3]]);
    let tree: MerkleTree<GoldilocksField, Mix> = MerkleTree::new(leaves.clone(), 1);
    assert_eq!(tree.cap.0, vec![left, right]);
    assert_eq!(tree.digests, h);
    let tree: MerkleTree<GoldilocksField, Mix> = MerkleTree::new(leaves.clone(), 2);
    assert_eq!(tree.cap.0, h);
    assert_eq!(tree.digests.len(), 0);
    assert_eq!(tree.leaves, leaves);
}

#[test]
fn digest_counts() {
    for cap_height in 0..=3 {
        let batch = Batch::from_coeffs(polys(), 1, false, cap_height, None);
        assert_eq!(batch.merkle_tree.cap.0.len(), 1 << cap_height);
        assert_eq!(batch.merkle_tree.digests.len(), 2 * (8 - (1 << cap_height)));
    }
}

#[test]
fn lists_of_values_become_leaves() {
    let columns = vec![
        (0..4).map(gf).collect::<Vec<_>>(),
        (10..14).map(gf).collect::<Vec<_>>(),
    ];
    let batch = Batch::from_lde_values(vec![poly(&[1, 2])], columns.clone(), 1, false, vec![], 0);
    assert_eq!(batch.merkle_tree.leaves[1], vec![gf(2), gf(12)]);
    assert_eq!(batch.merkle_tree.leaves[2], vec![gf(1), gf(11)]);
    assert_eq!(batch.degree_log, 1);
    let salts: Vec<Vec<GoldilocksField>> =
        (2..6).map(|s| (10 * s..10 * s + 4).map(gf).collect()).collect();
    let batch = Batch::from_lde_values(vec![poly(&[1, 2])], columns, 1, true, salts, 0);
    assert_eq!(batch.merkle_tree.leaves[2], [1, 11, 21, 31, 41, 51].map(gf));
}

#[test]
fn salts_are_drawn_only_for_blinding() {
    assert_eq!(Batch::draw_salts(8, false).len(), 0);
    let salts = Batch::draw_salts(8, true);
    assert_eq!(salts.len(), SALT_SIZE);
    assert!(salts.iter().all(|s| s.len() == 8 && s.iter().all(|x| x.0 < ORDER)));
    assert_ne!(salts[0], salts[1]);
}

#[test]
fn extended_values_give_the_polynomial_back() {
    let columns = Batch::lde_values(&polys(), 1, false, None);
    // The inverse of 7.
    let inverse = gf(2635249152773512046);
    assert_eq!(inverse.mul(GoldilocksField::coset_shift()), gf(1));
    for (j, column) in columns.into_iter().enumerate() {
        let shifted = PolynomialValues::new(column).ifft();
        let mut factor = gf(1);
        let mut coeffs = Vec::new();
        for c in shifted.coeffs {
            coeffs.push(c.mul(factor));
            factor = factor.mul(inverse);
        }
        assert_eq!(coeffs, polys()[j].padded(8).coeffs);
    }
}

#[test]
fn default_is_empty() {
    let batch = Batch::default();
    assert_eq!(batch.polynomials.len(), 0);
    assert_eq!(batch.merkle_tree.leaves.len(), 0);
    assert_eq!(batch.merkle_tree.digests.len(), 0);
    assert_eq!(batch.merkle_tree.cap.0.len(), 0);
    assert!(batch.merkle_tree.device.is_none());
    assert_eq!((batch.degree_log, batch.rate_bits, batch.blinding), (0, 0, false));
}

#[test]
fn batches_are_compared_by_what_they_stand_for() {
    assert_eq!(
        Batch::from_coeffs(polys(), 1, false, 1, None),
        Batch::from_coeffs(polys(), 1, false, 1, None)
    );
    assert_ne!(
        Batch::from_coeffs(polys(), 1, false, 1, None),
        Batch::from_coeffs(polys(), 1, false, 0, None)
    );
    let mut a = Batch::default();
    let mut b = Batch::default();
    a.polynomials = vec![poly(&[1])];
    b.polynomials = vec![poly(&[1, 0])];
    assert_eq!(a, b);
    b.polynomials = vec![poly(&[1, 2])];
    assert_ne!(a, b);
}

#[test]
fn random_vectors() {
    let a: Vec<GoldilocksField> = rand_vec(16);
    let b: Vec<GoldilocksField> = rand_vec(16);
    assert_eq!(a.len(), 16);
    assert!(a.iter().all(|x| x.0 < ORDER));
    assert_ne!(a, b);
    assert_eq!(rand_vec::<GoldilocksField>(0).len(), 0);
}
