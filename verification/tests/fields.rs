use fri_oracle::field::{exp_u64, Field, FieldExtension};
use fri_oracle::goldilocks::{GoldilocksField, ORDER, TWO_ADICITY};
use fri_oracle::quadratic::{QuadraticExtension, EXT_TWO_ADICITY};

fn gf(n: u64) -> GoldilocksField {
    GoldilocksField::from_canonical_u64(n)
}

fn ext(a: u64, b: u64) -> QuadraticExtension {
    QuadraticExtension { a: gf(a), b: gf(b) }
}

#[test]
fn addition_wraps_at_the_order() {
    assert_eq!(gf(ORDER - 1).add(gf(1)), gf(0));
    assert_eq!(gf(ORDER - 1).add(gf(ORDER - 1)), gf(ORDER - 2));
    assert_eq!(gf(3).sub(gf(5)), gf(ORDER - 2));
    assert_eq!(gf(5).sub(gf(3)), gf(2));
}

#[test]
fn multiplication_reduces() {
    assert_eq!(gf(6).mul(gf(7)), gf(42));
    assert_eq!(gf(ORDER - 1).mul(gf(ORDER - 1)), gf(1));
    // 2^96 == -1
    assert_eq!(gf(1 << 48).mul(gf(1 << 48)), gf(ORDER - 1));
    assert_eq!(GoldilocksField::half().mul(gf(2)), gf(1));
}

#[test]
fn noncanonical_numbers_are_reduced() {
    assert_eq!(GoldilocksField::from_noncanonical_u64(ORDER), gf(0));
    assert_eq!(GoldilocksField::from_noncanonical_u64(u64::MAX), gf((1 << 32) - 2));
    assert_eq!(GoldilocksField::from_noncanonical_u64(17).to_canonical_u64(), 17);
}

#[test]
fn elements_are_compared_by_what_they_stand_for() {
    assert_eq!(GoldilocksField(ORDER), GoldilocksField(0));
    assert_eq!(GoldilocksField(ORDER + 5), gf(5));
    assert_ne!(GoldilocksField(ORDER + 5), gf(6));
    assert_eq!(GoldilocksField(ORDER + 5).to_canonical_u64(), 5);
    assert!(GoldilocksField(ORDER + 5).same(gf(5)));
    let noncanonical = QuadraticExtension { a: GoldilocksField(ORDER + 1), b: GoldilocksField(ORDER) };
    assert_eq!(noncanonical, ext(1, 0));
    assert!(noncanonical.same(ext(1, 0)));
    assert!(!noncanonical.same(ext(1, 1)));
}

#[test]
fn roots_of_unity_of_small_order() {
    assert_eq!(GoldilocksField::primitive_root_of_unity(0), gf(1));
    assert_eq!(GoldilocksField::primitive_root_of_unity(1), gf(ORDER - 1));
    assert_eq!(GoldilocksField::primitive_root_of_unity(2), gf(281474976710656));
    assert_eq!(GoldilocksField::two_adicity(), TWO_ADICITY);
    for n_log in 1..=TWO_ADICITY {
        let w = GoldilocksField::primitive_root_of_unity(n_log);
        assert_eq!(exp_u64(w, 1 << n_log), gf(1));
        assert_eq!(exp_u64(w, 1 << (n_log - 1)), gf(ORDER - 1));
    }
}

#[test]
fn powers() {
    assert_eq!(exp_u64(gf(3), 0), gf(1));
    assert_eq!(exp_u64(gf(3), 5), gf(243));
    assert_eq!(exp_u64(gf(7), ORDER - 1), gf(1));
}

#[test]
fn extension_arithmetic() {
    assert_eq!(ext(0, 1).mul(ext(0, 1)), ext(7, 0));
    // (1 + 2X)(3 + 4X) == 3 + 56 + 10X
    assert_eq!(ext(1, 2).mul(ext(3, 4)), ext(59, 10));
    assert_eq!(ext(1, 2).add(ext(3, 4)), ext(4, 6));
    assert_eq!(ext(3, 4).sub(ext(1, 5)), ext(2, ORDER - 1));
    assert_eq!(ext(3, 4).scalar_mul(gf(5)), ext(15, 20));
    assert_eq!(QuadraticExtension::from_basefield(gf(9)), ext(9, 0));
    assert_eq!(QuadraticExtension::from_basefield_array([gf(3), gf(8)]), ext(3, 8));
    assert_eq!(<QuadraticExtension as FieldExtension<GoldilocksField>>::degree(), 2);
}

#[test]
fn coset_shifts_generate_the_multiplicative_groups() {
    assert_eq!(GoldilocksField::coset_shift(), gf(7));
    let g = QuadraticExtension::coset_shift();
    assert_eq!(g, ext(18081566051660590251, 16121475356294670766));
    // The norm of a generator, g^(ORDER + 1), lies in the base field.
    let norm = exp_u64(g, ORDER).mul(g);
    assert_eq!(norm.b, gf(0));
    assert_eq!(exp_u64(norm, (ORDER - 1) / 2), ext(ORDER - 1, 0));
}

#[test]
fn extension_roots_agree_with_the_base_field() {
    assert_eq!(QuadraticExtension::two_adicity(), EXT_TWO_ADICITY);
    for n_log in 0..=TWO_ADICITY {
        assert_eq!(
            QuadraticExtension::primitive_root_of_unity(n_log),
            QuadraticExtension::from_basefield(GoldilocksField::primitive_root_of_unity(n_log))
        );
    }
    let w = QuadraticExtension::primitive_root_of_unity(EXT_TWO_ADICITY);
    assert_eq!(w.mul(w), QuadraticExtension::primitive_root_of_unity(TWO_ADICITY));
}

#[test]
fn random_elements_are_canonical_and_vary() {
    let drawn: Vec<GoldilocksField> = (0..64).map(|_| GoldilocksField::rand()).collect();
    assert!(drawn.iter().all(|x| x.0 < ORDER));
    assert!(drawn.iter().any(|x| *x != drawn[0]));
    let e = QuadraticExtension::rand();
    assert!(e.a.0 < ORDER && e.b.0 < ORDER);
}
