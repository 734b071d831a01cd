use fri_oracle::field::{exp_u64, Field, FieldExtension};
use fri_oracle::goldilocks::{GoldilocksField, ORDER};
use fri_oracle::merkle::Hasher;
use fri_oracle::openings::{FriBatchInfo, FriInstanceInfo, FriPolynomialInfo};
use fri_oracle::oracle::PolynomialBatch;
use fri_oracle::polynomial::PolynomialCoeffs;
use fri_oracle::quadratic::QuadraticExtension;

#[derive(Debug)]
struct Sum;

impl Hasher<GoldilocksField> for Sum {
    type Hash = u64;

    fn hash_or_noop(leaf: &Vec<GoldilocksField>) -> u64 {
        leaf.iter().fold(0, |h, x| h.wrapping_add(x.0))
    }

    fn two_to_one(left: u64, right: u64) -> u64 {
        left.wrapping_add(right)
    }
}

type Batch = PolynomialBatch<GoldilocksField, Sum>;
type Ext = QuadraticExtension;

fn gf(n: u64) -> GoldilocksField {
    GoldilocksField::from_canonical_u64(n)
}

fn ext(a: u64, b: u64) -> Ext {
    Ext { a: gf(a), b: gf(b) }
}

fn poly(c: &[u64]) -> PolynomialCoeffs<GoldilocksField> {
    PolynomialCoeffs::new(c.iter().map(|n| gf(*n)).collect())
}

fn info(oracle_index: usize, polynomial_index: usize) -> FriPolynomialInfo {
    FriPolynomialInfo { oracle_index, polynomial_index }
}

fn eval(c: &[Ext], x: Ext) -> Ext {
    c.iter().rev().fold(ext(0, 0), |acc, k| acc.mul(x).add(*k))
}

fn eval_base(p: &PolynomialCoeffs<GoldilocksField>, x: Ext) -> Ext {
    p.coeffs.iter().rev().fold(ext(0, 0), |acc, k| acc.mul(x).add(Ext::from_basefield(*k)))
}

fn oracles() -> (Batch, Batch) {
    (
        Batch::from_coeffs(vec![poly(&[1, 2, 3, 4]), poly(&[5, 6, 7, 8])], 1, false, 0, None),
        Batch::from_coeffs(vec![poly(&[9, 8, 7, 6])], 1, true, 0, None),
    )
}

#[test]
fn one_polynomial_at_one_point() {
    let (a, b) = oracles();
    let instance = FriInstanceInfo {
        batches: vec![FriBatchInfo { point: ext(2, 0), polynomials: vec![info(0, 0)] }],
    };
    let opening = Batch::prove_openings(&instance, &[&a, &b], ext(11, 3), 1);
    let expected: Vec<Ext> =
        [24, 11, 4, 0, 0, 0, 0, 0].iter().map(|n| ext(*n, 0)).collect();
    assert_eq!(opening.lde_final_poly.coeffs, expected);
    assert_eq!(opening.lde_final_values.values.len(), 8);
    // 24 + 11 * 7 + 4 * 49
    assert_eq!(opening.lde_final_values.values[0], ext(297, 0));
}

#[test]
fn two_batches_share_no_power_of_alpha() {
    let (a, b) = oracles();
    let alpha = ext(123456789, 987654321);
    let (z, gz) = (ext(31, 41), ext(59, 26));
    let instance = FriInstanceInfo {
        batches: vec![
            FriBatchInfo { point: z, polynomials: vec![info(0, 0), info(1, 0), info(0, 1)] },
            FriBatchInfo { point: gz, polynomials: vec![info(0, 1), info(1, 0)] },
        ],
    };
    let opening = Batch::prove_openings(&instance, &[&a, &b], alpha, 1);
    assert_eq!(opening.lde_final_poly.len(), 8);
    assert!(opening.lde_final_poly.coeffs[4..].iter().all(|c| *c == ext(0, 0)));
    let f = [&a.polynomials[0], &b.polynomials[0], &a.polynomials[1]];
    let g = [&a.polynomials[1], &b.polynomials[0]];
    let w = GoldilocksField::primitive_root_of_unity(3);
    let mut y = GoldilocksField::coset_shift();
    for i in 0..8 {
        let x = Ext::from_basefield(y);
        let value = opening.lde_final_values.values[i];
        assert_eq!(value, eval(&opening.lde_final_poly.coeffs, x));
        // alpha^2 (F(x) - F(z)) (x - gz) + (G(x) - G(gz)) (x - z) == value (x - z) (x - gz)
        let combine = |polys: &[&PolynomialCoeffs<GoldilocksField>], at: Ext| {
            polys.iter().enumerate().fold(ext(0, 0), |acc, (j, p)| {
                acc.add(exp_u64(alpha, j as u64).mul(eval_base(p, at)))
            })
        };
        let first = combine(&f, x).sub(combine(&f, z)).mul(exp_u64(alpha, 2)).mul(x.sub(gz));
        let second = combine(&g, x).sub(combine(&g, gz)).mul(x.sub(z));
        assert_eq!(first.add(second), value.mul(x.sub(z)).mul(x.sub(gz)));
        // The values at x are those that the commitments hold.
        assert_eq!(Ext::from_basefield(a.get_lde_values(i, 1)[0]), eval_base(f[0], x));
        assert_eq!(Ext::from_basefield(b.get_lde_values(i, 1)[0]), eval_base(f[1], x));
        y = y.mul(w);
    }
}

#[test]
fn an_empty_batch_adds_nothing() {
    let (a, b) = oracles();
    let with = FriInstanceInfo {
        batches: vec![
            FriBatchInfo { point: ext(2, 1), polynomials: vec![info(1, 0)] },
            FriBatchInfo { point: ext(3, 1), polynomials: vec![] },
        ],
    };
    let without = FriInstanceInfo { batches: vec![with.batches[0].clone()] };
    let alpha = ext(ORDER - 5, 77);
    let x = Batch::prove_openings(&with, &[&a, &b], alpha, 2);
    let y = Batch::prove_openings(&without, &[&a, &b], alpha, 2);
    assert_eq!(x.lde_final_poly.coeffs, y.lde_final_poly.coeffs);
    assert_eq!(x.lde_final_values.values, y.lde_final_values.values);
    assert_eq!(x.lde_final_poly.len(), 16);
}
