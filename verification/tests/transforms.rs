use fri_oracle::bits::{
    log2_strict, reverse_bits, reverse_index_bits_in_place, shift_left, transpose,
};
use fri_oracle::fft::fft_root_table;
use fri_oracle::field::Field;
use fri_oracle::goldilocks::{GoldilocksField, ORDER};
use fri_oracle::polynomial::{PolynomialCoeffs, PolynomialValues};
use fri_oracle::quadratic::QuadraticExtension;
use fri_oracle::reducing::ReducingFactor;

fn gf(n: u64) -> GoldilocksField {
    GoldilocksField::from_canonical_u64(n)
}

fn poly(c: &[u64]) -> PolynomialCoeffs<GoldilocksField> {
    PolynomialCoeffs::new(c.iter().map(|n| gf(*n)).collect())
}

fn eval(p: &PolynomialCoeffs<GoldilocksField>, x: GoldilocksField) -> GoldilocksField {
    p.coeffs.iter().rev().fold(gf(0), |acc, c| acc.mul(x).add(*c))
}

#[test]
fn bit_tricks() {
    assert_eq!(log2_strict(1), 0);
    assert_eq!(log2_strict(1024), 10);
    assert_eq!(reverse_bits(6, 3), 3);
    assert_eq!(reverse_bits(1, 4), 8);
    assert_eq!(reverse_bits(0, 0), 0);
    // Bits beyond the given number play no part.
    assert_eq!(reverse_bits(0b1_0001, 4), 8);
    assert_eq!(shift_left(5, 3), 40);
    assert_eq!(shift_left(0, 100), 0);
    let mut v = vec![0, 1, 2, 3, 4, 5, 6, 7];
    reverse_index_bits_in_place(&mut v);
    assert_eq!(v, vec![0, 4, 2, 6, 1, 5, 3, 7]);
    assert_eq!(
        transpose(&vec![vec![1, 2, 3], vec![4, 5, 6]]),
        vec![vec![1, 4], vec![2, 5], vec![3, 6]]
    );
}

#[test]
fn fft_of_two_coefficients() {
    let v = poly(&[1, 2]).fft_with_options(None);
    assert_eq!(v.values, vec![gf(3), gf(ORDER - 1)]);
    let v = poly(&[1, 2]).coset_fft(gf(3));
    assert_eq!(v.values, vec![gf(7), gf(ORDER - 5)]);
}

#[test]
fn fft_takes_values_at_the_powers_of_the_root() {
    let p = poly(&[3, 1, 4, 1, 5, 9, 2, 6]);
    let w = GoldilocksField::primitive_root_of_unity(3);
    let v = p.fft_with_options(None);
    let mut x = gf(1);
    for i in 0..8 {
        assert_eq!(v.values[i], eval(&p, x));
        x = x.mul(w);
    }
    let table = fft_root_table(8);
    assert_eq!(p.fft_with_options(Some(&table)).values, v.values);
    assert_eq!(
        p.coset_fft_with_options(gf(7), Some(&table)).values,
        p.coset_fft(gf(7)).values
    );
}

#[test]
fn ifft_undoes_fft() {
    for n_log in 0..6 {
        let c: Vec<u64> = (0..1u64 << n_log).map(|i| i * i + 11).collect();
        let p = poly(&c);
        assert_eq!(p.fft_with_options(None).ifft().coeffs, p.coeffs);
    }
    let v = PolynomialValues::new(vec![gf(5), gf(0), gf(8), gf(ORDER - 3)]);
    assert_eq!(v.ifft().fft_with_options(None).values, v.values);
}

#[test]
fn polynomial_operations() {
    let mut p = poly(&[1, 2]);
    p.add_assign(&poly(&[10, 20, 30]));
    assert_eq!(p.coeffs, poly(&[11, 22, 30]).coeffs);
    p.mul_assign(gf(2));
    assert_eq!(p.coeffs, poly(&[22, 44, 60]).coeffs);
    assert_eq!(p.padded(5).coeffs, poly(&[22, 44, 60, 0, 0]).coeffs);
    assert_eq!(poly(&[1, 2]).lde(2).coeffs, poly(&[1, 2, 0, 0, 0, 0, 0, 0]).coeffs);
    assert_eq!(PolynomialCoeffs::<GoldilocksField>::empty().len(), 0);
}

#[test]
fn missing_coefficients_count_as_zero() {
    assert_eq!(poly(&[1]), poly(&[1, 0]));
    assert_eq!(poly(&[]), poly(&[0, 0]));
    assert_ne!(poly(&[1]), poly(&[1, 2]));
    assert_ne!(poly(&[0, 1]), poly(&[1]));
    assert_eq!(PolynomialCoeffs::new(vec![GoldilocksField(ORDER + 3)]), poly(&[3, 0]));
    for x in [0, 1, 12345] {
        assert_eq!(eval(&poly(&[4, 5]), gf(x)), eval(&poly(&[4, 5, 0, 0]), gf(x)));
    }
}

#[test]
fn division_by_a_linear_factor() {
    // 1 + 2x + 3x^2 + 4x^3 == (24 + 11x + 4x^2)(x - 2) + 49
    let q = poly(&[1, 2, 3, 4]).divide_by_linear(gf(2));
    assert_eq!(q.coeffs, poly(&[24, 11, 4]).coeffs);
    assert_eq!(poly(&[9]).divide_by_linear(gf(2)).len(), 0);
    assert_eq!(PolynomialCoeffs::<GoldilocksField>::empty().divide_by_linear(gf(2)).len(), 0);
}

#[test]
fn reducing_factor_counts_powers() {
    let alpha = QuadraticExtension { a: gf(5), b: gf(1) };
    let (f, g) = (poly(&[1, 2]), poly(&[3, 4]));
    let mut factor = ReducingFactor::new(alpha);
    let sum = factor.reduce_polys_base(&vec![&f, &g]);
    // 1 + 3(5 + X), 2 + 4(5 + X)
    assert_eq!(
        sum.coeffs,
        vec![
            QuadraticExtension { a: gf(16), b: gf(3) },
            QuadraticExtension { a: gf(22), b: gf(4) }
        ]
    );
    assert_eq!(factor.count, 2);
    let mut p = PolynomialCoeffs::new(vec![QuadraticExtension { a: gf(1), b: gf(0) }]);
    factor.shift_poly(&mut p);
    // (5 + X)^2 == 32 + 10X
    assert_eq!(p.coeffs, vec![QuadraticExtension { a: gf(32), b: gf(10) }]);
    assert_eq!(factor.count, 0);
}
