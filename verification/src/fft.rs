//! The fast Fourier transform between the coefficients of a polynomial and its
//! values over a two-adic subgroup, or over a coset of one.

use vstd::arithmetic::power2::{lemma2_to64, lemma_pow2_unfold, pow2};
use vstd::prelude::*;

use crate::bits::{is_power_of_two, lemma_pow2_monotonic, log2, log2_strict};
use crate::field::{
    all_wf, lemma_add_swap_inner, lemma_mul_neg, lemma_mul_zero, lemma_neg_neg, lemma_neg_unique,
    lemma_pow_add, lemma_pow_of_square, lemma_pow_wf, lemma_root_half_turn, pow, Field,
};
use crate::polynomial::{
    eval, lemma_eval_shift, lemma_eval_wf, poly_shift, PolynomialCoeffs, PolynomialValues,
};

verus! {

/// The powers of the roots of unity: row `l` holds those of the generator of
/// the subgroup of order `2^(l + 1)`.
pub type FftRootTable<F> = Vec<Vec<F>>;

/// The row `l` of a root table holds at least the first half of its subgroup.
pub open spec fn is_root_row<F: Field>(row: Seq<F>, l: nat) -> bool {
    &&& row.len() >= pow2(l)
    &&& forall|j: int|
        0 <= j < pow2(l) ==> (#[trigger] row[j]) == pow(F::root_spec(l + 1), j as nat)
}

/// The table serves transforms of size `2^n_log`.
pub open spec fn is_root_table<F: Field>(table: Seq<Vec<F>>, n_log: nat) -> bool {
    &&& table.len() == n_log
    &&& forall|l: int| 0 <= l < n_log ==> is_root_row((#[trigger] table[l])@, l as nat)
}

/// The values of a polynomial at the powers of `w`.
pub open spec fn values_at_powers<F: Field>(c: Seq<F>, w: F, values: Seq<F>) -> bool {
    &&& values.len() == c.len()
    &&& forall|i: int| 0 <= i < c.len() ==> (#[trigger] values[i]) == eval(c, pow(w, i as nat))
}

/// The point `i` of the coset `shift * H`, where `H` has order `2^n_log`.
pub open spec fn coset_point<F: Field>(shift: F, n_log: nat, i: nat) -> F {
    shift.mul_spec(pow(F::root_spec(n_log), i))
}

/// The values of a polynomial over the coset `shift * H`, where `H` has order `n`.
pub open spec fn coset_values<F: Field>(c: Seq<F>, shift: F, n: nat) -> Seq<F> {
    Seq::new(n, |i: int| eval(c, coset_point(shift, log2(n), i as nat)))
}

/// The coefficients of even index.
pub open spec fn evens<F>(c: Seq<F>) -> Seq<F> {
    Seq::new(c.len() / 2, |i: int| c[2 * i])
}

/// The coefficients of odd index.
pub open spec fn odds<F>(c: Seq<F>) -> Seq<F> {
    Seq::new(c.len() / 2, |i: int| c[2 * i + 1])
}

/// `p(x) == p_even(x^2) + x p_odd(x^2)`.
pub proof fn lemma_eval_split<F: Field>(c: Seq<F>, x: F)
    requires
        all_wf(c),
        x.wf(),
        c.len() % 2 == 0,
    ensures
        eval(c, x) == eval(evens(c), x.mul_spec(x)).add_spec(
            x.mul_spec(eval(odds(c), x.mul_spec(x))),
        ),
        all_wf(evens(c)),
        all_wf(odds(c)),
    decreases c.len(),
{
    F::lemma_constants();
    let y = x.mul_spec(x);
    F::lemma_closed(x, x);
    if c.len() == 0 {
        lemma_mul_zero(x);
        F::lemma_add_zero(F::zero_spec());
    } else {
        let c2 = c.skip(2);
        lemma_eval_split(c2, x);
        assert(c.skip(1).skip(1) =~= c2);
        assert(evens(c).skip(1) =~= evens(c2));
        assert(odds(c).skip(1) =~= odds(c2));
        let (e, o) = (eval(evens(c2), y), eval(odds(c2), y));
        lemma_eval_wf(evens(c2), y);
        lemma_eval_wf(odds(c2), y);
        let (c0, c1) = (c[0], c[1]);
        assert(eval(c.skip(1), x) == c1.add_spec(x.mul_spec(eval(c2, x))));
        // x (c1 + x (e + x o)) == x c1 + (y e + x (y o))
        F::lemma_closed(x, o);
        F::lemma_closed(y, o);
        F::lemma_closed(y, e);
        F::lemma_closed(e, x.mul_spec(o));
        F::lemma_closed(x, c1);
        F::lemma_closed(x, y.mul_spec(o));
        let s = e.add_spec(x.mul_spec(o));
        F::lemma_closed(x, s);
        F::lemma_mul_distributes(x, c1, x.mul_spec(s));
        F::lemma_mul_associates(x, x, s);
        F::lemma_mul_distributes(y, e, x.mul_spec(o));
        F::lemma_mul_associates(y, x, o);
        F::lemma_mul_commutes(y, x);
        F::lemma_mul_associates(x, y, o);
        // c0 + (x c1 + (y e + x (y o))) == (c0 + y e) + x (c1 + y o)
        F::lemma_mul_distributes(x, c1, y.mul_spec(o));
        let (a, b, d) = (x.mul_spec(c1), y.mul_spec(e), x.mul_spec(y.mul_spec(o)));
        F::lemma_closed(b, d);
        F::lemma_closed(a, d);
        F::lemma_add_associates(a, b, d);
        F::lemma_add_commutes(a, b);
        F::lemma_add_associates(b, a, d);
        F::lemma_add_associates(c0, b, a.add_spec(d));
    }
}

/// The powers of the root for size `2^n_log` that a butterfly at `j` needs.
proof fn lemma_butterfly_points<F: Field>(n_log: nat, j: nat)
    requires
        1 <= n_log <= F::two_adicity_spec(),
    ensures
        ({
            let w = F::root_spec(n_log);
            let v = F::root_spec((n_log - 1) as nat);
            let t = pow(w, j);
            let h = pow2((n_log - 1) as nat);
            &&& t.wf()
            &&& t.mul_spec(t) == pow(v, j)
            &&& pow(w, j + h) == t.neg_spec()
            &&& pow(w, j + h).mul_spec(pow(w, j + h)) == pow(v, j)
        }),
{
    let w = F::root_spec(n_log);
    let t = pow(w, j);
    let h = pow2((n_log - 1) as nat);
    F::lemma_constants();
    F::lemma_roots(n_log);
    lemma_pow_wf(w, j);
    lemma_pow_of_square(w, j);
    lemma_root_half_turn::<F>(n_log);
    lemma_pow_add(w, j, h);
    lemma_mul_neg(t, F::one_spec());
    F::lemma_mul_one(t);
    F::lemma_closed(t, t);
    lemma_mul_neg(t, t.neg_spec());
    lemma_mul_neg(t, t);
    lemma_neg_neg(t.mul_spec(t));
}

/// A butterfly joins the values of the two halves of a polynomial.
proof fn lemma_butterfly<F: Field>(c: Seq<F>, n_log: nat, j: nat, e: F, o: F)
    requires
        1 <= n_log <= F::two_adicity_spec(),
        c.len() == pow2(n_log),
        all_wf(c),
        e == eval(evens(c), pow(F::root_spec((n_log - 1) as nat), j)),
        o == eval(odds(c), pow(F::root_spec((n_log - 1) as nat), j)),
    ensures
        ({
            let t = pow(F::root_spec(n_log), j);
            &&& eval(c, t) == e.add_spec(t.mul_spec(o))
            &&& eval(c, pow(F::root_spec(n_log), j + pow2((n_log - 1) as nat))) == e.add_spec(
                t.mul_spec(o).neg_spec(),
            )
            &&& t.wf()
            &&& e.wf()
            &&& o.wf()
        }),
{
    let w = F::root_spec(n_log);
    let t = pow(w, j);
    lemma_butterfly_points::<F>(n_log, j);
    lemma_pow2_unfold(n_log);
    F::lemma_closed(t, t);
    lemma_eval_split(c, t);
    lemma_eval_split(c, t.neg_spec());
    lemma_eval_wf(evens(c), t.mul_spec(t));
    lemma_eval_wf(odds(c), t.mul_spec(t));
    lemma_mul_neg(t, o);
}

/// The values of `c` at the powers of the generator of the subgroup of order `2^n_log`.
fn fft_rec<F: Field>(c: &Vec<F>, n_log: usize, table: &FftRootTable<F>) -> (r: Vec<F>)
    requires
        c@.len() == pow2(n_log as nat),
        all_wf(c@),
        n_log <= F::two_adicity_spec(),
        n_log <= table@.len(),
        forall|l: int| 0 <= l < n_log ==> is_root_row((#[trigger] table@[l])@, l as nat),
    ensures
        values_at_powers(c@, F::root_spec(n_log as nat), r@),
        all_wf(r@),
    decreases n_log,
{
    let mut r: Vec<F> = Vec::new();
    if n_log == 0 {
        proof {
            lemma2_to64();
            let one = F::one_spec();
            F::lemma_constants();
            assert(c@.skip(1).len() == 0);
            assert(eval(c@.skip(1), one) == F::zero_spec());
            lemma_mul_zero(one);
            F::lemma_add_zero(c@[0]);
            assert(pow(F::root_spec(0), 0) == one);
            assert(eval(c@, one) == c@[0]);
        }
        r.push(c[0]);
        return r;
    }
    let half: usize = c.len() / 2;
    let ghost w = F::root_spec(n_log as nat);
    proof {
        lemma_pow2_unfold(n_log as nat);
    }
    let mut even: Vec<F> = Vec::new();
    let mut odd: Vec<F> = Vec::new();
    let mut i: usize = 0;
    while i < half
        invariant
            c@.len() == 2 * half,
            2 * half <= usize::MAX,
            all_wf(c@),
            i <= half,
            even@.len() == i,
            odd@.len() == i,
            forall|k: int| 0 <= k < i ==> (#[trigger] even@[k]) == c@[2 * k],
            forall|k: int| 0 <= k < i ==> (#[trigger] odd@[k]) == c@[2 * k + 1],
        decreases half - i,
    {
        even.push(c[2 * i]);
        odd.push(c[2 * i + 1]);
        i = i + 1;
    }
    assert(even@ =~= evens(c@));
    assert(odd@ =~= odds(c@));
    let e: Vec<F> = fft_rec(&even, n_log - 1, table);
    let o: Vec<F> = fft_rec(&odd, n_log - 1, table);
    let row: &Vec<F> = &table[n_log - 1];
    assert(is_root_row(row@, (n_log - 1) as nat));
    let mut upper: Vec<F> = Vec::new();
    let mut j: usize = 0;
    while j < half
        invariant
            1 <= n_log <= F::two_adicity_spec(),
            c@.len() == pow2(n_log as nat),
            half == pow2((n_log - 1) as nat),
            w == F::root_spec(n_log as nat),
            all_wf(c@),
            values_at_powers(evens(c@), F::root_spec((n_log - 1) as nat), e@),
            values_at_powers(odds(c@), F::root_spec((n_log - 1) as nat), o@),
            e@.len() == half,
            o@.len() == half,
            is_root_row(row@, (n_log - 1) as nat),
            j <= half,
            r@.len() == j,
            upper@.len() == j,
            all_wf(r@),
            all_wf(upper@),
            forall|k: int| 0 <= k < j ==> (#[trigger] r@[k]) == eval(c@, pow(w, k as nat)),
            forall|k: int|
                0 <= k < j ==> (#[trigger] upper@[k]) == eval(c@, pow(w, (k + half) as nat)),
        decreases half - j,
    {
        proof {
            lemma_butterfly(c@, n_log as nat, j as nat, e@[j as int], o@[j as int]);
        }
        let t: F = row[j].mul(o[j]);
        r.push(e[j].add(t));
        upper.push(e[j].sub(t));
        j = j + 1;
    }
    r.append(&mut upper);
    assert(values_at_powers(c@, w, r@)) by {
        lemma_pow2_unfold(n_log as nat);
        assert forall|k: int| 0 <= k < c@.len() implies (#[trigger] r@[k]) == eval(
            c@,
            pow(w, k as nat),
        ) by {
            if k >= half {
                assert(r@[k] == eval(c@, pow(w, (k - half + half) as nat)));
            }
        }
    }
    r
}

/// Inverts one butterfly: `e` and `o` are such that `e + t o == x` and `e - t o == y`.
proof fn lemma_unbutterfly<F: Field>(x: F, y: F, t: F, s: F)
    requires
        x.wf(),
        y.wf(),
        t.wf(),
        s.wf(),
        t.mul_spec(s) == F::one_spec(),
    ensures
        ({
            let e = x.add_spec(y).mul_spec(F::half_spec());
            let o = x.add_spec(y.neg_spec()).mul_spec(F::half_spec()).mul_spec(s);
            &&& e.add_spec(t.mul_spec(o)) == x
            &&& e.add_spec(t.mul_spec(o).neg_spec()) == y
            &&& e.wf()
            &&& o.wf()
        }),
{
    F::lemma_constants();
    let g = F::half_spec();
    F::lemma_closed(x, y);
    F::lemma_closed(y, x);
    F::lemma_closed(x, y.neg_spec());
    let sum = x.add_spec(y);
    let dif = x.add_spec(y.neg_spec());
    F::lemma_closed(sum, g);
    F::lemma_closed(dif, g);
    let e = sum.mul_spec(g);
    let d = dif.mul_spec(g);
    let o = d.mul_spec(s);
    F::lemma_closed(d, s);
    F::lemma_closed(d, d);
    // t o == d
    F::lemma_mul_commutes(d, s);
    F::lemma_mul_associates(t, s, d);
    F::lemma_mul_commutes(F::one_spec(), d);
    F::lemma_mul_one(d);
    // e + d == ((x + y) + (x - y)) g == (x + x) g == x
    F::lemma_mul_commutes(sum, g);
    F::lemma_mul_commutes(dif, g);
    F::lemma_mul_distributes(g, sum, dif);
    lemma_add_swap_inner(x, y, x, y.neg_spec());
    F::lemma_add_neg(y);
    F::lemma_closed(x, x);
    F::lemma_add_zero(x.add_spec(x));
    lemma_twice_half(x);
    // e - d == ((x + y) - (x - y)) g == (y + y) g == y
    lemma_mul_neg(g, dif);
    F::lemma_closed(dif, dif);
    F::lemma_mul_distributes(g, sum, dif.neg_spec());
    // -(x - y) == y - x
    F::lemma_closed(y, x.neg_spec());
    lemma_add_swap_inner(x, y.neg_spec(), x.neg_spec(), y);
    F::lemma_add_commutes(x.neg_spec(), y);
    F::lemma_add_neg(x);
    F::lemma_add_commutes(y.neg_spec(), y);
    F::lemma_add_zero(F::zero_spec());
    lemma_neg_unique(dif, y.add_spec(x.neg_spec()));
    F::lemma_add_commutes(x, y);
    lemma_add_swap_inner(y, x, y, x.neg_spec());
    F::lemma_closed(y, y);
    F::lemma_add_zero(y.add_spec(y));
    lemma_twice_half(y);
}

/// `(x + x) / 2 == x`.
proof fn lemma_twice_half<F: Field>(x: F)
    requires
        x.wf(),
    ensures
        F::half_spec().mul_spec(x.add_spec(x)) == x,
{
    F::lemma_constants();
    let g = F::half_spec();
    F::lemma_mul_distributes(g, x, x);
    F::lemma_mul_commutes(g, x);
    F::lemma_mul_distributes(x, g, g);
    F::lemma_mul_one(x);
}

/// The inverse of a power of a root of unity.
proof fn lemma_root_inverse<F: Field>(n_log: nat, j: nat)
    requires
        1 <= n_log <= F::two_adicity_spec(),
        1 <= j <= pow2((n_log - 1) as nat),
    ensures
        ({
            let w = F::root_spec(n_log);
            let s = pow(w, (pow2((n_log - 1) as nat) - j) as nat);
            &&& s.wf()
            &&& pow(w, j).mul_spec(s.neg_spec()) == F::one_spec()
        }),
{
    let w = F::root_spec(n_log);
    let h = pow2((n_log - 1) as nat);
    let k = (h - j) as nat;
    F::lemma_constants();
    F::lemma_roots(n_log);
    lemma_pow_wf(w, j);
    lemma_pow_wf(w, k);
    lemma_root_half_turn::<F>(n_log);
    lemma_pow_add(w, j, k);
    lemma_mul_neg(pow(w, j), pow(w, k));
    lemma_neg_neg(F::one_spec());
}

/// The coefficients of the polynomial with the given values at the powers of
/// the generator of the subgroup of order `2^n_log`.
fn ifft_rec<F: Field>(v: &Vec<F>, n_log: usize, table: &FftRootTable<F>) -> (r: Vec<F>)
    requires
        v@.len() == pow2(n_log as nat),
        all_wf(v@),
        n_log <= F::two_adicity_spec(),
        n_log <= table@.len(),
        forall|l: int| 0 <= l < n_log ==> is_root_row((#[trigger] table@[l])@, l as nat),
    ensures
        values_at_powers(r@, F::root_spec(n_log as nat), v@),
        all_wf(r@),
    decreases n_log,
{
    let mut r: Vec<F> = Vec::new();
    if n_log == 0 {
        proof {
            lemma2_to64();
        }
        r.push(v[0]);
        proof {
            let one = F::one_spec();
            F::lemma_constants();
            assert(r@.skip(1).len() == 0);
            assert(eval(r@.skip(1), one) == F::zero_spec());
            lemma_mul_zero(one);
            F::lemma_add_zero(r@[0]);
            assert(pow(F::root_spec(0), 0) == one);
            assert(eval(r@, one) == r@[0]);
        }
        return r;
    }
    let half: usize = v.len() / 2;
    let ghost w = F::root_spec(n_log as nat);
    proof {
        lemma_pow2_unfold(n_log as nat);
    }
    let row: &Vec<F> = &table[n_log - 1];
    assert(is_root_row(row@, (n_log - 1) as nat));
    let scale: F = F::half();
    let mut even: Vec<F> = Vec::new();
    let mut odd: Vec<F> = Vec::new();
    let mut j: usize = 0;
    while j < half
        invariant
            1 <= n_log <= F::two_adicity_spec(),
            v@.len() == 2 * half,
            2 * half <= usize::MAX,
            half == pow2((n_log - 1) as nat),
            w == F::root_spec(n_log as nat),
            all_wf(v@),
            is_root_row(row@, (n_log - 1) as nat),
            scale == F::half_spec(),
            scale.wf(),
            j <= half,
            even@.len() == j,
            odd@.len() == j,
            all_wf(even@),
            all_wf(odd@),
            forall|k: int|
                #![trigger even@[k]]
                0 <= k < j ==> {
                    let t = pow(w, k as nat);
                    &&& even@[k].add_spec(t.mul_spec(odd@[k])) == v@[k]
                    &&& even@[k].add_spec(t.mul_spec(odd@[k]).neg_spec()) == v@[k + half]
                },
        decreases half - j,
    {
        let x: F = v[j];
        let y: F = v[j + half];
        let d: F = x.sub(y).mul(scale);
        let o: F;
        if j == 0 {
            proof {
                F::lemma_constants();
                F::lemma_mul_one(F::one_spec());
                lemma_unbutterfly(x, y, pow(w, 0), F::one_spec());
                F::lemma_mul_one(d);
            }
            o = d;
        } else {
            proof {
                lemma_root_inverse::<F>(n_log as nat, j as nat);
                F::lemma_roots(n_log as nat);
                lemma_pow_wf(w, j as nat);
                let s = pow(w, (half - j) as nat);
                F::lemma_closed(s, s);
                lemma_unbutterfly(x, y, pow(w, j as nat), s.neg_spec());
                // d (-s) == 0 - d s
                lemma_mul_neg(d, s);
                F::lemma_constants();
                F::lemma_closed(d, s);
                F::lemma_closed(d.mul_spec(s), s);
                F::lemma_add_commutes(F::zero_spec(), d.mul_spec(s).neg_spec());
                F::lemma_add_zero(d.mul_spec(s).neg_spec());
                assert(row@[half - j] == s);
            }
            o = F::zero().sub(d.mul(row[half - j]));
        }
        even.push(x.add(y).mul(scale));
        odd.push(o);
        j = j + 1;
    }
    let e: Vec<F> = ifft_rec(&even, n_log - 1, table);
    let o: Vec<F> = ifft_rec(&odd, n_log - 1, table);
    let mut i: usize = 0;
    while i < half
        invariant
            e@.len() == half,
            o@.len() == half,
            all_wf(e@),
            all_wf(o@),
            i <= half,
            r@.len() == 2 * i,
            2 * half == v@.len(),
            all_wf(r@),
            forall|k: int| 0 <= k < i ==> (#[trigger] e@[k]) == r@[2 * k],
            forall|k: int| 0 <= k < i ==> (#[trigger] o@[k]) == r@[2 * k + 1],
        decreases half - i,
    {
        r.push(e[i]);
        r.push(o[i]);
        i = i + 1;
    }
    proof {
        lemma_pow2_unfold(n_log as nat);
        assert(evens(r@) =~= e@);
        assert(odds(r@) =~= o@);
        assert forall|k: int| 0 <= k < r@.len() implies (#[trigger] v@[k]) == eval(
            r@,
            pow(w, k as nat),
        ) by {
            let b = if k < half {
                k
            } else {
                k - half
            };
            assert(even@[b] == eval(e@, pow(F::root_spec((n_log - 1) as nat), b as nat)));
            assert(odd@[b] == eval(o@, pow(F::root_spec((n_log - 1) as nat), b as nat)));
            lemma_butterfly(r@, n_log as nat, b as nat, even@[b], odd@[b]);
        }
    }
    r
}

/// The powers `1, x, x^2, ...`, `n` of them.
fn powers<F: Field>(x: F, n: usize) -> (r: Vec<F>)
    requires
        x.wf(),
    ensures
        r@.len() == n,
        all_wf(r@),
        forall|j: int| 0 <= j < n ==> (#[trigger] r@[j]) == pow(x, j as nat),
{
    let mut r: Vec<F> = Vec::new();
    let mut current: F = F::one();
    let mut j: usize = 0;
    while j < n
        invariant
            x.wf(),
            j <= n,
            current.wf(),
            current == pow(x, j as nat),
            r@.len() == j,
            all_wf(r@),
            forall|k: int| 0 <= k < j ==> (#[trigger] r@[k]) == pow(x, k as nat),
        decreases n - j,
    {
        r.push(current);
        current = x.mul(current);
        j = j + 1;
    }
    r
}

/// The number of entries of row `l`: half the subgroup, but two at least.
pub open spec fn root_row_len(l: nat) -> nat {
    if pow2(l) >= 2 {
        pow2(l)
    } else {
        2
    }
}

/// A subgroup of order `n` exists, which is a power of two.
pub open spec fn is_subgroup_order<F: Field>(n: nat) -> bool {
    is_power_of_two(n) && log2(n) <= F::two_adicity_spec()
}

/// The root table for transforms of size `n`.
pub fn fft_root_table<F: Field>(n: usize) -> (table: FftRootTable<F>)
    requires
        is_subgroup_order::<F>(n as nat),
    ensures
        is_root_table(table@, log2(n as nat)),
        forall|l: int|
            0 <= l < table@.len() ==> (#[trigger] table@[l])@ == Seq::new(
                root_row_len(l as nat),
                |j: int| pow(F::root_spec((l + 1) as nat), j as nat),
            ),
        pow2(table@.len()) == n,
        forall|l: int|
            0 <= l < table@.len() ==> (#[trigger] table@[l])@.len() == if l == 0 {
                2
            } else {
                pow2(l as nat)
            },
{
    let n_log: usize = log2_strict(n);
    let mut table: FftRootTable<F> = Vec::new();
    let mut half_m: usize = 1;
    let mut l: usize = 0;
    proof {
        lemma2_to64();
    }
    while l < n_log
        invariant
            n == pow2(n_log as nat),
            n_log <= F::two_adicity_spec(),
            l <= n_log,
            half_m == pow2(l as nat),
            table@.len() == l,
            forall|k: int|
                0 <= k < l ==> (#[trigger] table@[k])@ == Seq::new(
                    root_row_len(k as nat),
                    |j: int| pow(F::root_spec((k + 1) as nat), j as nat),
                ),
        decreases n_log - l,
    {
        let base: F = F::primitive_root_of_unity(l + 1);
        let len: usize = if half_m >= 2 {
            half_m
        } else {
            2
        };
        let row: Vec<F> = powers(base, len);
        assert(row@ =~= Seq::new(
            root_row_len(l as nat),
            |j: int| pow(F::root_spec((l + 1) as nat), j as nat),
        ));
        table.push(row);
        proof {
            lemma_pow2_unfold((l + 1) as nat);
            lemma_pow2_monotonic((l + 1) as nat, n_log as nat);
        }
        half_m = half_m * 2;
        l = l + 1;
    }
    proof {
        assert forall|l: int| 0 <= l < table@.len() implies (#[trigger] table@[l])@.len()
            == if l == 0 {
            2
        } else {
            pow2(l as nat)
        } by {
            lemma2_to64();
            if l > 0 {
                lemma_pow2_monotonic(1, l as nat);
            }
        }
    }
    table
}

impl<F: Field> PolynomialCoeffs<F> {
    /// The values over the subgroup whose order is the number of coefficients.
    ///
    /// Where a root table is given, it is the one for that order.
    pub fn fft_with_options(&self, root_table: Option<&FftRootTable<F>>) -> (r: PolynomialValues<F>)
        requires
            self.wf(),
            is_subgroup_order::<F>(self.coeffs@.len()),
            root_table matches Some(table) ==> is_root_table(table@, log2(self.coeffs@.len())),
        ensures
            r.wf(),
            values_at_powers(self.coeffs@, F::root_spec(log2(self.coeffs@.len())), r.values@),
            r.values@.len() == self.coeffs@.len(),
            forall|i: int|
                0 <= i < r.values@.len() ==> (#[trigger] r.values@[i]) == eval(
                    self.coeffs@,
                    pow(F::root_spec(log2(self.coeffs@.len())), i as nat),
                ),
    {
        let n: usize = self.coeffs.len();
        let n_log: usize = log2_strict(n);
        let values: Vec<F> = match root_table {
            Some(table) => fft_rec(&self.coeffs, n_log, table),
            None => {
                let table: FftRootTable<F> = fft_root_table(n);
                fft_rec(&self.coeffs, n_log, &table)
            },
        };
        PolynomialValues { values }
    }

    /// The values over the coset `shift * H`, where the order of `H` is the number of coefficients.
    pub fn coset_fft_with_options(&self, shift: F, root_table: Option<&FftRootTable<F>>) -> (r:
        PolynomialValues<F>)
        requires
            self.wf(),
            shift.wf(),
            is_subgroup_order::<F>(self.coeffs@.len()),
            root_table matches Some(table) ==> is_root_table(table@, log2(self.coeffs@.len())),
        ensures
            r.wf(),
            r.values@ == coset_values(self.coeffs@, shift, self.coeffs@.len()),
            r.values@.len() == self.coeffs@.len(),
            forall|i: int|
                0 <= i < r.values@.len() ==> (#[trigger] r.values@[i]) == eval(
                    self.coeffs@,
                    shift.mul_spec(pow(F::root_spec(log2(self.coeffs@.len())), i as nat)),
                ),
    {
        let shifts: Vec<F> = powers(shift, self.coeffs.len());
        let mut coeffs: Vec<F> = Vec::new();
        let mut i: usize = 0;
        while i < self.coeffs.len()
            invariant
                self.wf(),
                shifts@.len() == self.coeffs@.len(),
                all_wf(shifts@),
                forall|j: int|
                    0 <= j < shifts@.len() ==> (#[trigger] shifts@[j]) == pow(shift, j as nat),
                i <= self.coeffs@.len(),
                coeffs@.len() == i,
                all_wf(coeffs@),
                forall|j: int|
                    0 <= j < i ==> (#[trigger] coeffs@[j]) == pow(shift, j as nat).mul_spec(
                        self.coeffs@[j],
                    ),
            decreases self.coeffs@.len() - i,
        {
            coeffs.push(shifts[i].mul(self.coeffs[i]));
            i = i + 1;
        }
        assert(coeffs@ =~= poly_shift(self.coeffs@, shift));
        let r: PolynomialValues<F> = PolynomialCoeffs { coeffs }.fft_with_options(root_table);
        proof {
            let n = self.coeffs@.len();
            let w = F::root_spec(log2(n));
            F::lemma_roots(log2(n));
            assert forall|j: int| 0 <= j < n implies (#[trigger] r.values@[j]) == eval(
                self.coeffs@,
                coset_point(shift, log2(n), j as nat),
            ) by {
                lemma_pow_wf(w, j as nat);
                lemma_eval_shift(self.coeffs@, shift, pow(w, j as nat));
            }
            assert(r.values@ =~= coset_values(self.coeffs@, shift, n));
        }
        r
    }

    /// The values over the coset `shift * H`, where the order of `H` is the number of coefficients.
    pub fn coset_fft(&self, shift: F) -> (r: PolynomialValues<F>)
        requires
            self.wf(),
            shift.wf(),
            is_subgroup_order::<F>(self.coeffs@.len()),
        ensures
            r.wf(),
            r.values@ == coset_values(self.coeffs@, shift, self.coeffs@.len()),
            r.values@.len() == self.coeffs@.len(),
            forall|i: int|
                0 <= i < r.values@.len() ==> (#[trigger] r.values@[i]) == eval(
                    self.coeffs@,
                    shift.mul_spec(pow(F::root_spec(log2(self.coeffs@.len())), i as nat)),
                ),
    {
        self.coset_fft_with_options(shift, None)
    }
}

impl<F: Field> PolynomialValues<F> {
    /// The polynomial that takes these values over the subgroup of their number,
    /// with as many coefficients.
    pub fn ifft(&self) -> (r: PolynomialCoeffs<F>)
        requires
            self.wf(),
            is_subgroup_order::<F>(self.values@.len()),
        ensures
            r.wf(),
            values_at_powers(r.coeffs@, F::root_spec(log2(self.values@.len())), self.values@),
            r.coeffs@.len() == self.values@.len(),
            forall|i: int|
                0 <= i < self.values@.len() ==> (#[trigger] self.values@[i]) == eval(
                    r.coeffs@,
                    pow(F::root_spec(log2(self.values@.len())), i as nat),
                ),
    {
        let n: usize = self.values.len();
        let n_log: usize = log2_strict(n);
        let table: FftRootTable<F> = fft_root_table(n);
        PolynomialCoeffs { coeffs: ifft_rec(&self.values, n_log, &table) }
    }
}

/// A polynomial with as many coefficients as its subgroup has points is
/// determined by its values there.
pub proof fn lemma_interpolation_unique<F: Field>(c: Seq<F>, d: Seq<F>, n_log: nat)
    requires
        n_log <= F::two_adicity_spec(),
        c.len() == pow2(n_log),
        d.len() == pow2(n_log),
        all_wf(c),
        all_wf(d),
        forall|i: nat|
            i < pow2(n_log) ==> eval(c, #[trigger] pow(F::root_spec(n_log), i)) == eval(
                d,
                pow(F::root_spec(n_log), i),
            ),
    ensures
        c == d,
    decreases n_log,
{
    let w = F::root_spec(n_log);
    F::lemma_constants();
    if n_log == 0 {
        lemma2_to64();
        let one = F::one_spec();
        assert(pow(w, 0) == one);
        lemma_eval_constant(c, one);
        lemma_eval_constant(d, one);
        assert(c =~= d);
    } else {
        let m = (n_log - 1) as nat;
        lemma_pow2_unfold(n_log);
        assert forall|j: nat| j < pow2(m) implies eval(
            evens(c),
            #[trigger] pow(F::root_spec(m), j),
        ) == eval(evens(d), pow(F::root_spec(m), j)) && eval(odds(c), pow(F::root_spec(m), j))
            == eval(odds(d), pow(F::root_spec(m), j)) by {
            let v = pow(F::root_spec(m), j);
            let t = pow(w, j);
            assert(eval(c, t) == eval(d, t));
            assert(eval(c, pow(w, j + pow2(m))) == eval(d, pow(w, j + pow2(m))));
            lemma_butterfly(c, n_log, j, eval(evens(c), v), eval(odds(c), v));
            lemma_butterfly(d, n_log, j, eval(evens(d), v), eval(odds(d), v));
            lemma_root_invertible::<F>(n_log, j);
            let s = choose|s: F| s.wf() && #[trigger] t.mul_spec(s) == F::one_spec();
            lemma_butterfly_injective(
                eval(evens(c), v),
                eval(odds(c), v),
                eval(evens(d), v),
                eval(odds(d), v),
                t,
                s,
            );
        }
        lemma_eval_split(c, F::one_spec());
        lemma_eval_split(d, F::one_spec());
        lemma_interpolation_unique(evens(c), evens(d), m);
        lemma_interpolation_unique(odds(c), odds(d), m);
        assert forall|i: int| 0 <= i < c.len() implies c[i] == d[i] by {
            if i % 2 == 0 {
                assert(evens(c)[i / 2] == c[i]);
                assert(evens(d)[i / 2] == d[i]);
            } else {
                assert(odds(c)[i / 2] == c[i]);
                assert(odds(d)[i / 2] == d[i]);
            }
        }
        assert(c =~= d);
    }
}

/// The value of a polynomial of degree zero.
proof fn lemma_eval_constant<F: Field>(c: Seq<F>, x: F)
    requires
        c.len() == 1,
        all_wf(c),
        x.wf(),
    ensures
        eval(c, x) == c[0],
{
    assert(c.skip(1).len() == 0);
    assert(eval(c.skip(1), x) == F::zero_spec());
    lemma_mul_zero(x);
    F::lemma_add_zero(c[0]);
}

proof fn lemma_root_invertible<F: Field>(n_log: nat, j: nat)
    requires
        1 <= n_log <= F::two_adicity_spec(),
        j < pow2((n_log - 1) as nat),
    ensures
        exists|s: F|
            s.wf() && #[trigger] pow(F::root_spec(n_log), j).mul_spec(s) == F::one_spec(),
{
    let t = pow(F::root_spec(n_log), j);
    F::lemma_constants();
    if j == 0 {
        F::lemma_mul_one(F::one_spec());
        assert(t.mul_spec(F::one_spec()) == F::one_spec());
    } else {
        lemma_root_inverse::<F>(n_log, j);
        let s = pow(F::root_spec(n_log), (pow2((n_log - 1) as nat) - j) as nat);
        F::lemma_closed(s, s);
        assert(t.mul_spec(s.neg_spec()) == F::one_spec());
    }
}

/// A butterfly with an invertible factor loses nothing.
proof fn lemma_butterfly_injective<F: Field>(e: F, o: F, f: F, q: F, t: F, s: F)
    requires
        e.wf(),
        o.wf(),
        f.wf(),
        q.wf(),
        t.wf(),
        s.wf(),
        t.mul_spec(s) == F::one_spec(),
        e.add_spec(t.mul_spec(o)) == f.add_spec(t.mul_spec(q)),
        e.add_spec(t.mul_spec(o).neg_spec()) == f.add_spec(t.mul_spec(q).neg_spec()),
    ensures
        e == f,
        o == q,
{
    lemma_butterfly_recover(e, o, t, s);
    lemma_butterfly_recover(f, q, t, s);
}

/// The two inputs of a butterfly, from its outputs.
proof fn lemma_butterfly_recover<F: Field>(e: F, o: F, t: F, s: F)
    requires
        e.wf(),
        o.wf(),
        t.wf(),
        s.wf(),
        t.mul_spec(s) == F::one_spec(),
    ensures
        ({
            let x = e.add_spec(t.mul_spec(o));
            let y = e.add_spec(t.mul_spec(o).neg_spec());
            &&& e == F::half_spec().mul_spec(x.add_spec(y))
            &&& o == F::half_spec().mul_spec(x.add_spec(y.neg_spec())).mul_spec(s)
        }),
{
    F::lemma_constants();
    let d = t.mul_spec(o);
    F::lemma_closed(t, o);
    F::lemma_closed(d, d);
    F::lemma_closed(e, d);
    F::lemma_closed(e, d.neg_spec());
    let x = e.add_spec(d);
    let y = e.add_spec(d.neg_spec());
    // x + y == e + e
    lemma_add_swap_inner(e, d, e, d.neg_spec());
    F::lemma_add_neg(d);
    F::lemma_closed(e, e);
    F::lemma_add_zero(e.add_spec(e));
    lemma_twice_half(e);
    // x - y == d + d, where -y == -e + d
    lemma_add_swap_inner(e, d.neg_spec(), e.neg_spec(), d);
    F::lemma_add_neg(e);
    F::lemma_add_commutes(d.neg_spec(), d);
    F::lemma_add_zero(F::zero_spec());
    F::lemma_closed(e.neg_spec(), d);
    lemma_neg_unique(y, e.neg_spec().add_spec(d));
    lemma_add_swap_inner(e, d, e.neg_spec(), d);
    F::lemma_closed(d, d);
    F::lemma_add_commutes(F::zero_spec(), d.add_spec(d));
    F::lemma_add_zero(d.add_spec(d));
    lemma_twice_half(d);
    // (t o) s == o
    F::lemma_mul_commutes(t, o);
    F::lemma_mul_associates(o, t, s);
    F::lemma_mul_one(o);
}

} // verus!
