//! Polynomials by their coefficients and by their values, and their algebra.

use vstd::arithmetic::power2::pow2;
use vstd::prelude::*;
use vstd::std_specs::cmp::PartialEqSpecImpl;

use crate::bits::shift_left;
use crate::field::{
    all_wf, lemma_add_swap_inner, lemma_mul_neg, lemma_mul_zero, lemma_pow_wf, pow, Field,
    FieldExtension,
};

verus! {

/// The value at `x` of the polynomial with the coefficients `c`, lowest first.
pub open spec fn eval<F: Field>(c: Seq<F>, x: F) -> F
    decreases c.len(),
{
    if c.len() == 0 {
        F::zero_spec()
    } else {
        c[0].add_spec(x.mul_spec(eval(c.skip(1), x)))
    }
}

/// The coefficient of `X^i`, which is zero beyond the end.
pub open spec fn coeff<F: Field>(c: Seq<F>, i: int) -> F {
    if 0 <= i < c.len() {
        c[i]
    } else {
        F::zero_spec()
    }
}

/// The coefficients of the same polynomial, `n` of them.
pub open spec fn poly_padded<F: Field>(c: Seq<F>, n: nat) -> Seq<F> {
    Seq::new(n, |i: int| coeff(c, i))
}

/// The sum of two polynomials, as long as the longer of them.
pub open spec fn poly_add<F: Field>(a: Seq<F>, b: Seq<F>) -> Seq<F> {
    Seq::new(
        if a.len() >= b.len() {
            a.len()
        } else {
            b.len()
        },
        |i: int| coeff(a, i).add_spec(coeff(b, i)),
    )
}

/// The product of a polynomial and a constant.
pub open spec fn poly_scale<F: Field>(c: Seq<F>, k: F) -> Seq<F> {
    Seq::new(c.len(), |i: int| c[i].mul_spec(k))
}

/// The polynomial `p(shift * X)`.
pub open spec fn poly_shift<F: Field>(c: Seq<F>, shift: F) -> Seq<F> {
    Seq::new(c.len(), |i: int| pow(shift, i as nat).mul_spec(c[i]))
}

/// The polynomial over the extension with the same coefficients.
pub open spec fn poly_embed<F: Field, E: FieldExtension<F>>(c: Seq<F>) -> Seq<E> {
    Seq::new(c.len(), |i: int| E::embed_spec(c[i]))
}

/// The polynomial `(p(X) - p(z)) / (X - z)`: its coefficient of `X^i` is the
/// value at `z` of what stands above `X^i` in `p`.
pub open spec fn poly_quotient<F: Field>(c: Seq<F>, z: F) -> Seq<F> {
    Seq::new(
        if c.len() == 0 {
            0
        } else {
            (c.len() - 1) as nat
        },
        |i: int| eval(c.skip(i + 1), z),
    )
}

pub proof fn lemma_eval_wf<F: Field>(c: Seq<F>, x: F)
    requires
        all_wf(c),
        x.wf(),
    ensures
        eval(c, x).wf(),
    decreases c.len(),
{
    F::lemma_constants();
    if c.len() > 0 {
        lemma_eval_wf(c.skip(1), x);
        F::lemma_closed(x, eval(c.skip(1), x));
        F::lemma_closed(c[0], x.mul_spec(eval(c.skip(1), x)));
    }
}

pub proof fn lemma_eval_all_zero<F: Field>(c: Seq<F>, x: F)
    requires
        forall|i: int| 0 <= i < c.len() ==> (#[trigger] c[i]) == F::zero_spec(),
        x.wf(),
    ensures
        eval(c, x) == F::zero_spec(),
    decreases c.len(),
{
    F::lemma_constants();
    if c.len() > 0 {
        lemma_eval_all_zero(c.skip(1), x);
        lemma_mul_zero(x);
        F::lemma_add_zero(F::zero_spec());
    }
}

pub proof fn lemma_coeff_wf<F: Field>(c: Seq<F>, i: int)
    requires
        all_wf(c),
    ensures
        coeff(c, i).wf(),
{
    F::lemma_constants();
}

/// Padding a polynomial does not change its values.
pub proof fn lemma_eval_padded<F: Field>(c: Seq<F>, n: nat, x: F)
    requires
        all_wf(c),
        x.wf(),
        n >= c.len(),
    ensures
        eval(poly_padded(c, n), x) == eval(c, x),
        all_wf(poly_padded(c, n)),
    decreases c.len(),
{
    F::lemma_constants();
    if c.len() == 0 {
        lemma_eval_all_zero(poly_padded(c, n), x);
    } else {
        lemma_eval_padded(c.skip(1), (n - 1) as nat, x);
        assert(poly_padded(c, n).skip(1) =~= poly_padded(c.skip(1), (n - 1) as nat));
    }
}

/// The value of a sum is the sum of the values.
pub proof fn lemma_eval_add<F: Field>(a: Seq<F>, b: Seq<F>, x: F)
    requires
        all_wf(a),
        all_wf(b),
        x.wf(),
    ensures
        eval(poly_add(a, b), x) == eval(a, x).add_spec(eval(b, x)),
        all_wf(poly_add(a, b)),
    decreases a.len() + b.len(),
{
    F::lemma_constants();
    let s = poly_add(a, b);
    assert forall|i: int| 0 <= i < s.len() implies (#[trigger] s[i]).wf() by {
        lemma_coeff_wf(a, i);
        lemma_coeff_wf(b, i);
        F::lemma_closed(coeff(a, i), coeff(b, i));
    }
    lemma_eval_wf(a, x);
    lemma_eval_wf(b, x);
    if a.len() == 0 && b.len() == 0 {
        F::lemma_add_zero(F::zero_spec());
    } else if a.len() == 0 {
        assert(s =~= b) by {
            assert forall|i: int| 0 <= i < b.len() implies s[i] == b[i] by {
                F::lemma_add_commutes(F::zero_spec(), b[i]);
                F::lemma_add_zero(b[i]);
            }
        }
        F::lemma_add_commutes(F::zero_spec(), eval(b, x));
        F::lemma_add_zero(eval(b, x));
    } else if b.len() == 0 {
        assert(s =~= a) by {
            assert forall|i: int| 0 <= i < a.len() implies s[i] == a[i] by {
                F::lemma_add_zero(a[i]);
            }
        }
        F::lemma_add_zero(eval(a, x));
    } else {
        let (a1, b1) = (a.skip(1), b.skip(1));
        lemma_eval_add(a1, b1, x);
        assert(s.skip(1) =~= poly_add(a1, b1));
        lemma_eval_wf(a1, x);
        lemma_eval_wf(b1, x);
        F::lemma_mul_distributes(x, eval(a1, x), eval(b1, x));
        F::lemma_closed(x, eval(a1, x));
        F::lemma_closed(x, eval(b1, x));
        lemma_add_swap_inner(a[0], b[0], x.mul_spec(eval(a1, x)), x.mul_spec(eval(b1, x)));
    }
}

/// The value of a multiple is the multiple of the value.
pub proof fn lemma_eval_scale<F: Field>(c: Seq<F>, k: F, x: F)
    requires
        all_wf(c),
        k.wf(),
        x.wf(),
    ensures
        eval(poly_scale(c, k), x) == eval(c, x).mul_spec(k),
        all_wf(poly_scale(c, k)),
    decreases c.len(),
{
    F::lemma_constants();
    let s = poly_scale(c, k);
    assert forall|i: int| 0 <= i < s.len() implies (#[trigger] s[i]).wf() by {
        F::lemma_closed(c[i], k);
    }
    if c.len() == 0 {
        lemma_mul_zero(k);
    } else {
        let c1 = c.skip(1);
        lemma_eval_scale(c1, k, x);
        assert(s.skip(1) =~= poly_scale(c1, k));
        lemma_eval_wf(c1, x);
        let v = eval(c1, x);
        F::lemma_closed(x, v);
        F::lemma_closed(c[0], x.mul_spec(v));
        F::lemma_mul_associates(x, v, k);
        F::lemma_mul_commutes(c[0].add_spec(x.mul_spec(v)), k);
        F::lemma_mul_distributes(k, c[0], x.mul_spec(v));
        F::lemma_mul_commutes(k, c[0]);
        F::lemma_mul_commutes(k, x.mul_spec(v));
    }
}

/// The value of `p(shift * X)` at `x` is the value of `p` at `shift * x`.
pub proof fn lemma_eval_shift<F: Field>(c: Seq<F>, shift: F, x: F)
    requires
        all_wf(c),
        shift.wf(),
        x.wf(),
    ensures
        eval(poly_shift(c, shift), x) == eval(c, shift.mul_spec(x)),
        all_wf(poly_shift(c, shift)),
    decreases c.len(),
{
    F::lemma_constants();
    let s = poly_shift(c, shift);
    assert forall|i: int| 0 <= i < s.len() implies (#[trigger] s[i]).wf() by {
        lemma_pow_wf(shift, i as nat);
        F::lemma_closed(pow(shift, i as nat), c[i]);
    }
    F::lemma_closed(shift, x);
    if c.len() > 0 {
        let c1 = c.skip(1);
        let t = poly_shift(c1, shift);
        lemma_eval_shift(c1, shift, x);
        // the tail carries one factor `shift` more than `t`
        assert(s.skip(1) =~= poly_scale(t, shift)) by {
            assert forall|i: int| 0 <= i < t.len() implies s[i + 1] == #[trigger] t[i].mul_spec(
                shift,
            ) by {
                let q = pow(shift, i as nat);
                lemma_pow_wf(shift, i as nat);
                F::lemma_closed(q, c1[i]);
                F::lemma_closed(shift, q);
                assert(pow(shift, (i + 1) as nat) == shift.mul_spec(q));
                F::lemma_mul_associates(shift, q, c1[i]);
                F::lemma_mul_commutes(shift, q.mul_spec(c1[i]));
            }
        }
        lemma_eval_scale(t, shift, x);
        lemma_eval_wf(t, x);
        let v = eval(t, x);
        // x * (v * shift) == (shift * x) * v
        F::lemma_mul_commutes(v, shift);
        F::lemma_closed(shift, v);
        F::lemma_mul_associates(x, shift, v);
        F::lemma_mul_commutes(x, shift);
        // the constant coefficient is unchanged
        F::lemma_mul_commutes(F::one_spec(), c[0]);
        F::lemma_mul_one(c[0]);
        assert(s[0] == c[0]);
    }
}

/// Division with remainder by `X - z`: `p(x) == q(x) (x - z) + p(z)`.
pub proof fn lemma_eval_quotient<F: Field>(c: Seq<F>, z: F, x: F)
    requires
        all_wf(c),
        z.wf(),
        x.wf(),
    ensures
        eval(c, x) == eval(poly_quotient(c, z), x).mul_spec(x.add_spec(z.neg_spec())).add_spec(
            eval(c, z),
        ),
        all_wf(poly_quotient(c, z)),
    decreases c.len(),
{
    F::lemma_constants();
    let q = poly_quotient(c, z);
    assert forall|i: int| 0 <= i < q.len() implies (#[trigger] q[i]).wf() by {
        lemma_eval_wf(c.skip(i + 1), z);
    }
    F::lemma_closed(z, z);
    let d = x.add_spec(z.neg_spec());
    F::lemma_closed(x, z.neg_spec());
    if c.len() == 0 {
        F::lemma_mul_commutes(F::zero_spec(), d);
        lemma_mul_zero(d);
        F::lemma_add_zero(F::zero_spec());
    } else if c.len() == 1 {
        let c1 = c.skip(1);
        assert(c1.len() == 0);
        assert(q.len() == 0);
        assert(eval(c1, x) == F::zero_spec());
        assert(eval(c1, z) == F::zero_spec());
        lemma_mul_zero(x);
        lemma_mul_zero(z);
        lemma_mul_zero(d);
        F::lemma_mul_commutes(F::zero_spec(), d);
        F::lemma_add_zero(c[0]);
        F::lemma_add_commutes(F::zero_spec(), c[0]);
    } else {
        let c1 = c.skip(1);
        let q1 = poly_quotient(c1, z);
        lemma_eval_quotient(c1, z, x);
        assert(q.skip(1) =~= q1) by {
            assert forall|i: int| 0 <= i < q1.len() implies q[i + 1] == #[trigger] q1[i] by {
                assert(c.skip(i + 2) =~= c1.skip(i + 1));
            }
        }
        assert(q[0] == eval(c1, z)) by {
            assert(c.skip(1) =~= c1);
        }
        lemma_eval_wf(c1, z);
        lemma_eval_wf(c1, x);
        lemma_eval_wf(q1, x);
        assert(eval(q, x) == q[0].add_spec(x.mul_spec(eval(q1, x))));
        lemma_quotient_step(c[0], x, z, eval(c1, z), eval(q1, x));
    }
}

/// `c + x (v d + r) == (r + x v) d + (c + z r)` where `d == x - z`.
proof fn lemma_quotient_step<F: Field>(c: F, x: F, z: F, r: F, v: F)
    requires
        c.wf(),
        x.wf(),
        z.wf(),
        r.wf(),
        v.wf(),
    ensures
        ({
            let d = x.add_spec(z.neg_spec());
            c.add_spec(x.mul_spec(v.mul_spec(d).add_spec(r))) == r.add_spec(x.mul_spec(v)).mul_spec(
                d,
            ).add_spec(c.add_spec(z.mul_spec(r)))
        }),
{
    let d = x.add_spec(z.neg_spec());
    F::lemma_closed(z, z);
    F::lemma_closed(x, z.neg_spec());
    F::lemma_closed(v, d);
    F::lemma_closed(x, v);
    F::lemma_closed(x, r);
    F::lemma_closed(z, r);
    F::lemma_closed(r, x);
    F::lemma_closed(r, d);
    F::lemma_closed(r, z.neg_spec());
    let xv = x.mul_spec(v);
    let xr = x.mul_spec(r);
    let zr = z.mul_spec(r);
    F::lemma_closed(xv, d);
    F::lemma_closed(x, v.mul_spec(d));
    let xvd = xv.mul_spec(d);
    let rd = r.mul_spec(d);
    // left: c + (x v d + x r)
    F::lemma_mul_distributes(x, v.mul_spec(d), r);
    F::lemma_mul_associates(x, v, d);
    // right: (r d + x v d) + (c + z r)
    F::lemma_closed(r, xv);
    F::lemma_mul_commutes(r.add_spec(xv), d);
    F::lemma_mul_distributes(d, r, xv);
    F::lemma_mul_commutes(d, r);
    F::lemma_mul_commutes(d, xv);
    // r d + z r == x r
    F::lemma_mul_distributes(r, x, z.neg_spec());
    lemma_mul_neg(r, z);
    F::lemma_mul_commutes(r, x);
    F::lemma_mul_commutes(r, z);
    F::lemma_closed(zr, zr);
    F::lemma_add_associates(xr, zr.neg_spec(), zr);
    F::lemma_add_commutes(zr.neg_spec(), zr);
    F::lemma_add_neg(zr);
    F::lemma_add_zero(xr);
    assert(rd.add_spec(zr) == xr);
    // (r d + x v d) + (c + z r) == (x v d + c) + (r d + z r)
    F::lemma_add_commutes(rd, xvd);
    F::lemma_add_commutes(c, zr);
    lemma_add_swap_inner(xvd, rd, c, zr);
    // c + (x v d + x r) == (x v d + c) + x r
    F::lemma_add_associates(c, xvd, xr);
    F::lemma_add_commutes(c, xvd);
}

/// A polynomial in coefficient form, lowest coefficient first. Two are equal
/// where they have the same coefficients, missing ones counting as zero.
#[derive(Clone, Debug)]
pub struct PolynomialCoeffs<F: Field> {
    pub coeffs: Vec<F>,
}

/// The coefficients stand for the same polynomial, missing ones counting as zero.
pub open spec fn same_poly<F: Field>(a: Seq<F>, b: Seq<F>) -> bool {
    forall|i: int|
        0 <= i < a.len() || 0 <= i < b.len() ==> (#[trigger] coeff(a, i)).same_spec(coeff(b, i))
}

impl<F: Field> PartialEq for PolynomialCoeffs<F> {
    fn eq(&self, other: &Self) -> (r: bool) {
        let max_terms: usize = if self.coeffs.len() >= other.coeffs.len() {
            self.coeffs.len()
        } else {
            other.coeffs.len()
        };
        let mut i: usize = 0;
        while i < max_terms
            invariant
                i <= max_terms,
                max_terms == self.coeffs@.len() || max_terms == other.coeffs@.len(),
                self.coeffs@.len() <= max_terms,
                other.coeffs@.len() <= max_terms,
                forall|k: int|
                    0 <= k < i ==> (#[trigger] coeff(self.coeffs@, k)).same_spec(
                        coeff(other.coeffs@, k),
                    ),
            decreases max_terms - i,
        {
            if !self.coeff_or_zero(i).same(other.coeff_or_zero(i)) {
                assert(!coeff(self.coeffs@, i as int).same_spec(coeff(other.coeffs@, i as int)));
                return false;
            }
            i = i + 1;
        }
        true
    }
}

impl<F: Field> PartialEqSpecImpl for PolynomialCoeffs<F> {
    open spec fn obeys_eq_spec() -> bool {
        true
    }

    open spec fn eq_spec(&self, other: &Self) -> bool {
        same_poly(self.coeffs@, other.coeffs@)
    }
}

impl<F: Field> Eq for PolynomialCoeffs<F> {

}

/// Two polynomials are equal exactly where one list of coefficients is the other,
/// but for zeros at its end.
pub proof fn law_equality<F: Field>(a: Seq<F>, b: Seq<F>)
    requires
        all_wf(a),
        all_wf(b),
        a.len() <= b.len(),
    ensures
        same_poly(a, b) <==> (b.take(a.len() as int) == a && forall|i: int|
            a.len() <= i < b.len() ==> (#[trigger] b[i]) == F::zero_spec()),
        same_poly(a, b) == same_poly(b, a),
{
    assert forall|i: int| 0 <= i < b.len() implies (coeff(a, i).same_spec(coeff(b, i)) <==> coeff(
        a,
        i,
    ) == coeff(b, i)) && (coeff(b, i).same_spec(coeff(a, i)) <==> coeff(a, i) == coeff(
        b,
        i,
    )) by {
        lemma_coeff_wf(a, i);
        lemma_coeff_wf(b, i);
        F::lemma_same(coeff(a, i), coeff(b, i));
        F::lemma_same(coeff(b, i), coeff(a, i));
    }
    if same_poly(a, b) {
        assert forall|i: int| 0 <= i < b.len() implies coeff(a, i) == coeff(b, i) by {
            assert(coeff(a, i).same_spec(coeff(b, i)));
        }
        assert forall|i: int| a.len() <= i < b.len() implies (#[trigger] b[i])
            == F::zero_spec() by {
            assert(coeff(a, i) == coeff(b, i));
        }
        assert forall|i: int| 0 <= i < a.len() implies b[i] == a[i] by {
            assert(coeff(a, i) == coeff(b, i));
        }
        assert(b.take(a.len() as int) =~= a);
    }
    if b.take(a.len() as int) == a && (forall|i: int|
        a.len() <= i < b.len() ==> (#[trigger] b[i]) == F::zero_spec()) {
        assert forall|i: int| 0 <= i < b.len() implies coeff(a, i) == coeff(b, i) by {
            if i < a.len() {
                assert(b.take(a.len() as int)[i] == b[i]);
            } else {
                assert(b[i] == F::zero_spec());
            }
        }
    }
    if same_poly(b, a) {
        assert forall|i: int| 0 <= i < b.len() implies coeff(a, i) == coeff(b, i) by {
            assert(coeff(b, i).same_spec(coeff(a, i)));
        }
    }
}

/// Equal polynomials take equal values.
pub proof fn law_equal_polynomials_agree<F: Field>(a: Seq<F>, b: Seq<F>, x: F)
    requires
        same_poly(a, b),
        all_wf(a),
        all_wf(b),
        x.wf(),
    ensures
        eval(a, x) == eval(b, x),
{
    let n = if a.len() >= b.len() {
        a.len()
    } else {
        b.len()
    };
    assert forall|i: int| 0 <= i < n implies coeff(a, i) == coeff(b, i) by {
        lemma_coeff_wf(a, i);
        lemma_coeff_wf(b, i);
        F::lemma_same(coeff(a, i), coeff(b, i));
    }
    assert(poly_padded(a, n) =~= poly_padded(b, n));
    lemma_eval_padded(a, n, x);
    lemma_eval_padded(b, n, x);
}

/// A polynomial in point-value form. The points are implicitly `g^i`, where `g`
/// generates the subgroup whose order is the number of points.
#[derive(Clone, Debug, PartialEq, Eq)]
pub struct PolynomialValues<F: Field> {
    pub values: Vec<F>,
}

impl<F: Field> PolynomialValues<F> {
    pub open spec fn wf(self) -> bool {
        all_wf(self.values@)
    }

    pub fn new(values: Vec<F>) -> (r: Self)
        ensures
            r.values == values,
    {
        PolynomialValues { values }
    }
}

impl<F: Field> PolynomialCoeffs<F> {
    pub open spec fn wf(self) -> bool {
        all_wf(self.coeffs@)
    }

    pub fn new(coeffs: Vec<F>) -> (r: Self)
        ensures
            r.coeffs == coeffs,
    {
        PolynomialCoeffs { coeffs }
    }

    /// The empty list of coefficients, the smallest encoding of zero.
    pub fn empty() -> (r: Self)
        ensures
            r.coeffs@ == Seq::<F>::empty(),
    {
        PolynomialCoeffs { coeffs: Vec::new() }
    }

    /// The coefficient of `X^i`, which is zero beyond the end.
    fn coeff_or_zero(&self, i: usize) -> (r: F)
        ensures
            r == coeff(self.coeffs@, i as int),
    {
        if i < self.coeffs.len() {
            self.coeffs[i]
        } else {
            F::zero()
        }
    }

    /// The number of coefficients, zero ones included.
    pub fn len(&self) -> (r: usize)
        ensures
            r == self.coeffs@.len(),
    {
        self.coeffs.len()
    }

    /// Appends zeros up to the length `new_len`.
    pub fn padded(&self, new_len: usize) -> (r: Self)
        requires
            self.wf(),
            new_len >= self.coeffs@.len(),
        ensures
            r.coeffs@ == poly_padded(self.coeffs@, new_len as nat),
            r.coeffs@.len() == new_len,
            r.coeffs@.take(self.coeffs@.len() as int) == self.coeffs@,
            forall|i: int|
                self.coeffs@.len() <= i < new_len ==> (#[trigger] r.coeffs@[i]) == F::zero_spec(),
            r.wf(),
    {
        let mut coeffs: Vec<F> = Vec::new();
        let zero: F = F::zero();
        let mut i: usize = 0;
        while i < new_len
            invariant
                self.wf(),
                zero == F::zero_spec(),
                zero.wf(),
                i <= new_len,
                coeffs@.len() == i,
                forall|j: int| 0 <= j < i ==> (#[trigger] coeffs@[j]) == coeff(self.coeffs@, j),
                all_wf(coeffs@),
            decreases new_len - i,
        {
            let c: F = if i < self.coeffs.len() {
                self.coeffs[i]
            } else {
                zero
            };
            coeffs.push(c);
            i = i + 1;
        }
        assert(coeffs@ =~= poly_padded(self.coeffs@, new_len as nat));
        PolynomialCoeffs { coeffs }
    }

    /// Low-degree extension: room for the values over a domain `2^rate_bits` times as large.
    pub fn lde(&self, rate_bits: usize) -> (r: Self)
        requires
            self.wf(),
            self.coeffs@.len() * pow2(rate_bits as nat) <= usize::MAX,
        ensures
            r.coeffs@ == poly_padded(self.coeffs@, self.coeffs@.len() * pow2(rate_bits as nat)),
            r.coeffs@.len() == self.coeffs@.len() * pow2(rate_bits as nat),
            r.coeffs@.take(self.coeffs@.len() as int) == self.coeffs@,
            forall|i: int|
                self.coeffs@.len() <= i < r.coeffs@.len() ==> (#[trigger] r.coeffs@[i])
                    == F::zero_spec(),
            r.wf(),
    {
        let n: usize = shift_left(self.coeffs.len(), rate_bits);
        assert(self.coeffs@.len() <= self.coeffs@.len() * pow2(rate_bits as nat)) by {
            vstd::arithmetic::power2::lemma_pow2_pos(rate_bits as nat);
            assert(self.coeffs@.len() * 1 <= self.coeffs@.len() * pow2(rate_bits as nat))
                by (nonlinear_arith)
                requires
                    pow2(rate_bits as nat) >= 1,
            ;
        }
        self.padded(n)
    }

    /// Adds `rhs`.
    pub fn add_assign(&mut self, rhs: &Self)
        requires
            old(self).wf(),
            rhs.wf(),
        ensures
            final(self).coeffs@ == poly_add(old(self).coeffs@, rhs.coeffs@),
            final(self).coeffs@.len() == if old(self).coeffs@.len() >= rhs.coeffs@.len() {
                old(self).coeffs@.len()
            } else {
                rhs.coeffs@.len()
            },
            forall|i: int|
                0 <= i < old(self).coeffs@.len() && i < rhs.coeffs@.len() ==> (
                #[trigger] final(self).coeffs@[i]) == old(self).coeffs@[i].add_spec(rhs.coeffs@[i]),
            final(self).wf(),
    {
        let n: usize = if self.coeffs.len() >= rhs.coeffs.len() {
            self.coeffs.len()
        } else {
            rhs.coeffs.len()
        };
        let ghost before = self.coeffs@;
        let mut coeffs: Vec<F> = Vec::new();
        let zero: F = F::zero();
        let mut i: usize = 0;
        while i < n
            invariant
                self.coeffs@ == before,
                all_wf(before),
                rhs.wf(),
                zero == F::zero_spec(),
                zero.wf(),
                i <= n,
                coeffs@.len() == i,
                forall|j: int|
                    0 <= j < i ==> (#[trigger] coeffs@[j]) == coeff(before, j).add_spec(
                        coeff(rhs.coeffs@, j),
                    ),
                all_wf(coeffs@),
            decreases n - i,
        {
            let x: F = if i < self.coeffs.len() {
                self.coeffs[i]
            } else {
                zero
            };
            let y: F = if i < rhs.coeffs.len() {
                rhs.coeffs[i]
            } else {
                zero
            };
            coeffs.push(x.add(y));
            i = i + 1;
        }
        self.coeffs = coeffs;
        assert(self.coeffs@ =~= poly_add(before, rhs.coeffs@));
    }

    /// Multiplies by the constant `rhs`.
    pub fn mul_assign(&mut self, rhs: F)
        requires
            old(self).wf(),
            rhs.wf(),
        ensures
            final(self).coeffs@ == poly_scale(old(self).coeffs@, rhs),
            final(self).coeffs@.len() == old(self).coeffs@.len(),
            forall|i: int|
                0 <= i < old(self).coeffs@.len() ==> (#[trigger] final(self).coeffs@[i]) == old(
                    self,
                ).coeffs@[i].mul_spec(rhs),
            final(self).wf(),
    {
        let ghost before = self.coeffs@;
        let mut coeffs: Vec<F> = Vec::new();
        let mut i: usize = 0;
        while i < self.coeffs.len()
            invariant
                self.coeffs@ == before,
                all_wf(before),
                rhs.wf(),
                i <= before.len(),
                coeffs@.len() == i,
                forall|j: int| 0 <= j < i ==> (#[trigger] coeffs@[j]) == before[j].mul_spec(rhs),
                all_wf(coeffs@),
            decreases before.len() - i,
        {
            coeffs.push(self.coeffs[i].mul(rhs));
            i = i + 1;
        }
        self.coeffs = coeffs;
        assert(self.coeffs@ =~= poly_scale(before, rhs));
    }

    /// The product with a constant of the extension.
    pub fn mul_extension<E: FieldExtension<F>>(&self, rhs: E) -> (r: PolynomialCoeffs<E>)
        requires
            self.wf(),
            rhs.wf(),
        ensures
            r.coeffs@ == poly_scale(poly_embed::<F, E>(self.coeffs@), rhs),
            r.coeffs@.len() == self.coeffs@.len(),
            forall|i: int|
                0 <= i < self.coeffs@.len() ==> (#[trigger] r.coeffs@[i]) == E::embed_spec(
                    self.coeffs@[i],
                ).mul_spec(rhs),
            r.wf(),
    {
        let mut coeffs: Vec<E> = Vec::new();
        let mut i: usize = 0;
        while i < self.coeffs.len()
            invariant
                self.wf(),
                rhs.wf(),
                i <= self.coeffs@.len(),
                coeffs@.len() == i,
                forall|j: int|
                    0 <= j < i ==> (#[trigger] coeffs@[j]) == E::embed_spec(
                        self.coeffs@[j],
                    ).mul_spec(rhs),
                all_wf(coeffs@),
            decreases self.coeffs@.len() - i,
        {
            let c: F = self.coeffs[i];
            proof {
                E::lemma_embed(c, c);
                E::lemma_mul_commutes(rhs, E::embed_spec(c));
            }
            coeffs.push(rhs.scalar_mul(c));
            i = i + 1;
        }
        assert(coeffs@ =~= poly_scale(poly_embed::<F, E>(self.coeffs@), rhs));
        PolynomialCoeffs { coeffs }
    }

    /// For the polynomial `p(X)`, returns `(p(X) - p(z)) / (X - z)`.
    pub fn divide_by_linear(&self, z: F) -> (r: Self)
        requires
            self.wf(),
            z.wf(),
        ensures
            r.coeffs@ == poly_quotient(self.coeffs@, z),
            self.coeffs@.len() > 0 ==> r.coeffs@.len() == self.coeffs@.len() - 1,
            self.coeffs@.len() == 0 ==> r.coeffs@.len() == 0,
            r.wf(),
    {
        let n: usize = self.coeffs.len();
        let mut coeffs: Vec<F> = Vec::new();
        if n > 0 {
            let zero: F = F::zero();
            let mut i: usize = 0;
            while i < n - 1
                invariant
                    n == self.coeffs@.len(),
                    n > 0,
                    zero.wf(),
                    i <= n - 1,
                    coeffs@.len() == i,
                    all_wf(coeffs@),
                decreases n - i,
            {
                coeffs.push(zero);
                i = i + 1;
            }
            // Horner's rule from the top: `acc` is the value at `z` of what stands above.
            let mut acc: F = zero;
            let mut k: usize = n - 1;
            proof {
                assert(self.coeffs@.skip(n as int).len() == 0);
            }
            while k > 0
                invariant
                    n == self.coeffs@.len(),
                    n > 0,
                    self.wf(),
                    z.wf(),
                    k <= n - 1,
                    coeffs@.len() == n - 1,
                    acc.wf(),
                    acc == eval(self.coeffs@.skip(k + 1), z),
                    all_wf(coeffs@),
                    forall|j: int|
                        k <= j < n - 1 ==> (#[trigger] coeffs@[j]) == eval(
                            self.coeffs@.skip(j + 1),
                            z,
                        ),
                decreases k,
            {
                proof {
                    assert(self.coeffs@.skip(k as int).skip(1) =~= self.coeffs@.skip(k + 1));
                    F::lemma_closed(z, acc);
                    F::lemma_add_commutes(self.coeffs@[k as int], z.mul_spec(acc));
                    F::lemma_mul_commutes(z, acc);
                }
                acc = acc.mul(z).add(self.coeffs[k]);
                coeffs.set(k - 1, acc);
                k = k - 1;
            }
        }
        assert(coeffs@ =~= poly_quotient(self.coeffs@, z));
        PolynomialCoeffs { coeffs }
    }
}

} // verus!
