//! The algebra that the oracle works in: commutative rings with a chain of
//! two-adic roots of unity, their extensions, and powers of their elements.

use vstd::arithmetic::power2::{lemma_pow2_unfold, pow2};
use vstd::prelude::*;

use crate::sampling::Sampler;

verus! {

/// A prime field, or an extension of one, together with the two-adic subgroup
/// structure that the fast Fourier transform relies on.
///
/// The laws below compare elements by their representation, so they are stated
/// for canonical elements only. `same` tells whether two representations,
/// canonical or not, stand for one element.
pub trait Field: Sized + Copy {
    /// Whether the element is in its unique canonical representation.
    spec fn wf(self) -> bool;

    /// Whether both stand for the same element.
    spec fn same_spec(self, other: Self) -> bool;

    spec fn zero_spec() -> Self;

    spec fn one_spec() -> Self;

    spec fn add_spec(self, other: Self) -> Self;

    spec fn neg_spec(self) -> Self;

    spec fn mul_spec(self, other: Self) -> Self;

    /// The inverse of two.
    spec fn half_spec() -> Self;

    /// The largest `n_log` such that there is a subgroup of order `2^n_log`.
    spec fn two_adicity_spec() -> nat;

    /// The generator of the subgroup of order `2^n_log`.
    spec fn root_spec(n_log: nat) -> Self;

    /// The representative of the coset over which polynomials are extended.
    spec fn coset_shift_spec() -> Self;

    /// The number of draws that make up a random element.
    spec fn draw_count() -> nat;

    /// The bounds and the results of the draws that make up the element.
    spec fn draws(self) -> Seq<(u64, u64)>;

    /// Different draws give different elements.
    proof fn lemma_draws(a: Self, b: Self)
        requires
            a.wf(),
            b.wf(),
        ensures
            Self::draw_count() > 0,
            a.draws().len() == Self::draw_count(),
            a.draws() == b.draws() ==> a == b,
    ;

    proof fn lemma_constants()
        ensures
            Self::zero_spec().wf(),
            Self::one_spec().wf(),
            Self::coset_shift_spec().wf(),
            Self::half_spec().wf(),
            Self::half_spec().add_spec(Self::half_spec()) == Self::one_spec(),
    ;

    proof fn lemma_same(a: Self, b: Self)
        requires
            a.wf(),
            b.wf(),
        ensures
            a.same_spec(b) <==> a == b,
    ;

    proof fn lemma_coset_shift_invertible()
        ensures
            exists|s: Self|
                s.wf() && #[trigger] Self::coset_shift_spec().mul_spec(s) == Self::one_spec(),
    ;

    proof fn lemma_closed(a: Self, b: Self)
        requires
            a.wf(),
            b.wf(),
        ensures
            a.add_spec(b).wf(),
            a.mul_spec(b).wf(),
            a.neg_spec().wf(),
    ;

    proof fn lemma_add_commutes(a: Self, b: Self)
        requires
            a.wf(),
            b.wf(),
        ensures
            a.add_spec(b) == b.add_spec(a),
    ;

    proof fn lemma_add_associates(a: Self, b: Self, c: Self)
        requires
            a.wf(),
            b.wf(),
            c.wf(),
        ensures
            a.add_spec(b).add_spec(c) == a.add_spec(b.add_spec(c)),
    ;

    proof fn lemma_add_zero(a: Self)
        requires
            a.wf(),
        ensures
            a.add_spec(Self::zero_spec()) == a,
    ;

    proof fn lemma_add_neg(a: Self)
        requires
            a.wf(),
        ensures
            a.add_spec(a.neg_spec()) == Self::zero_spec(),
    ;

    proof fn lemma_mul_commutes(a: Self, b: Self)
        requires
            a.wf(),
            b.wf(),
        ensures
            a.mul_spec(b) == b.mul_spec(a),
    ;

    proof fn lemma_mul_associates(a: Self, b: Self, c: Self)
        requires
            a.wf(),
            b.wf(),
            c.wf(),
        ensures
            a.mul_spec(b).mul_spec(c) == a.mul_spec(b.mul_spec(c)),
    ;

    proof fn lemma_mul_one(a: Self)
        requires
            a.wf(),
        ensures
            a.mul_spec(Self::one_spec()) == a,
    ;

    proof fn lemma_mul_distributes(a: Self, b: Self, c: Self)
        requires
            a.wf(),
            b.wf(),
            c.wf(),
        ensures
            a.mul_spec(b.add_spec(c)) == a.mul_spec(b).add_spec(a.mul_spec(c)),
    ;

    /// Each root is a square root of the one before it, starting from `1` and `-1`.
    proof fn lemma_roots(n_log: nat)
        requires
            n_log <= Self::two_adicity_spec(),
        ensures
            Self::root_spec(n_log).wf(),
            n_log == 0 ==> Self::root_spec(n_log) == Self::one_spec(),
            n_log == 1 ==> Self::root_spec(n_log) == Self::one_spec().neg_spec(),
            n_log >= 1 ==> Self::root_spec(n_log).mul_spec(Self::root_spec(n_log))
                == Self::root_spec((n_log - 1) as nat),
    ;

    /// Whether both stand for the same element.
    fn same(self, other: Self) -> (r: bool)
        ensures
            r == self.same_spec(other),
    ;

    fn zero() -> (r: Self)
        ensures
            r == Self::zero_spec(),
            r.wf(),
    ;

    fn one() -> (r: Self)
        ensures
            r == Self::one_spec(),
            r.wf(),
    ;

    fn half() -> (r: Self)
        ensures
            r == Self::half_spec(),
            r.wf(),
    ;

    fn coset_shift() -> (r: Self)
        ensures
            r == Self::coset_shift_spec(),
            r.wf(),
    ;

    fn add(self, other: Self) -> (r: Self)
        requires
            self.wf(),
            other.wf(),
        ensures
            r == self.add_spec(other),
            r.wf(),
    ;

    fn sub(self, other: Self) -> (r: Self)
        requires
            self.wf(),
            other.wf(),
        ensures
            r == self.add_spec(other.neg_spec()),
            r.wf(),
    ;

    fn mul(self, other: Self) -> (r: Self)
        requires
            self.wf(),
            other.wf(),
        ensures
            r == self.mul_spec(other),
            r.wf(),
    ;

    fn two_adicity() -> (r: usize)
        ensures
            r == Self::two_adicity_spec(),
    ;

    /// The generator of the subgroup of order `2^n_log`.
    fn primitive_root_of_unity(n_log: usize) -> (r: Self)
        requires
            n_log <= Self::two_adicity_spec(),
        ensures
            r == Self::root_spec(n_log as nat),
            r.wf(),
    ;

    /// Draws an element at random from the given source.
    fn draw(sampler: &mut Sampler) -> (r: Self)
        ensures
            r.wf(),
            final(sampler).log() == old(sampler).log() + r.draws(),
    ;

    /// Draws an element at random.
    fn rand() -> (r: Self)
        ensures
            r.wf(),
            exists|sampler: Sampler| #[trigger] sampler.log() == r.draws(),
    ;
}

/// A field that contains `F`.
pub trait FieldExtension<F: Field>: Field {
    /// The dimension of the extension over `F`.
    spec fn degree_spec() -> nat;

    /// The image of an element of `F`.
    spec fn embed_spec(x: F) -> Self;

    proof fn lemma_embed(a: F, b: F)
        requires
            a.wf(),
            b.wf(),
        ensures
            Self::embed_spec(a).wf(),
            Self::embed_spec(F::zero_spec()) == Self::zero_spec(),
            Self::embed_spec(F::one_spec()) == Self::one_spec(),
            Self::embed_spec(a.add_spec(b)) == Self::embed_spec(a).add_spec(Self::embed_spec(b)),
            Self::embed_spec(a.mul_spec(b)) == Self::embed_spec(a).mul_spec(Self::embed_spec(b)),
    ;

    proof fn lemma_embed_roots(n_log: nat)
        requires
            n_log <= F::two_adicity_spec(),
        ensures
            n_log <= Self::two_adicity_spec(),
            Self::embed_spec(F::root_spec(n_log)) == Self::root_spec(n_log),
    ;

    fn degree() -> (r: usize)
        ensures
            r == Self::degree_spec(),
    ;

    fn from_basefield(x: F) -> (r: Self)
        requires
            x.wf(),
        ensures
            r == Self::embed_spec(x),
            r.wf(),
    ;

    /// The product with an element of `F`.
    fn scalar_mul(self, x: F) -> (r: Self)
        requires
            self.wf(),
            x.wf(),
        ensures
            r == self.mul_spec(Self::embed_spec(x)),
            r.wf(),
    ;
}

/// All elements of a sequence are canonical.
pub open spec fn all_wf<F: Field>(s: Seq<F>) -> bool {
    forall|i: int| 0 <= i < s.len() ==> (#[trigger] s[i]).wf()
}

/// `x^n`.
pub open spec fn pow<F: Field>(x: F, n: nat) -> F
    decreases n,
{
    if n == 0 {
        F::one_spec()
    } else {
        x.mul_spec(pow(x, (n - 1) as nat))
    }
}

pub proof fn lemma_mul_zero<F: Field>(a: F)
    requires
        a.wf(),
    ensures
        a.mul_spec(F::zero_spec()) == F::zero_spec(),
        F::zero_spec().mul_spec(a) == F::zero_spec(),
{
    let z = F::zero_spec();
    let p = a.mul_spec(z);
    F::lemma_constants();
    F::lemma_closed(a, z);
    F::lemma_closed(p, p);
    F::lemma_add_zero(z);
    F::lemma_mul_distributes(a, z, z);
    // p == p + p, so p + -p == (p + p) + -p == p + (p + -p)
    F::lemma_add_associates(p, p, p.neg_spec());
    F::lemma_add_neg(p);
    F::lemma_add_zero(p);
    F::lemma_mul_commutes(a, z);
}

/// An element that cancels `a` is its negation.
pub proof fn lemma_neg_unique<F: Field>(a: F, b: F)
    requires
        a.wf(),
        b.wf(),
        a.add_spec(b) == F::zero_spec(),
    ensures
        b == a.neg_spec(),
{
    let n = a.neg_spec();
    F::lemma_constants();
    F::lemma_closed(a, b);
    // n == n + (a + b) == (n + a) + b == b
    F::lemma_add_zero(n);
    F::lemma_add_associates(n, a, b);
    F::lemma_add_commutes(n, a);
    F::lemma_add_neg(a);
    F::lemma_add_commutes(F::zero_spec(), b);
    F::lemma_add_zero(b);
}

pub proof fn lemma_mul_neg<F: Field>(a: F, b: F)
    requires
        a.wf(),
        b.wf(),
    ensures
        a.neg_spec().mul_spec(b) == a.mul_spec(b).neg_spec(),
        a.mul_spec(b.neg_spec()) == a.mul_spec(b).neg_spec(),
{
    F::lemma_closed(a, b);
    F::lemma_closed(b, a);
    F::lemma_closed(a.neg_spec(), b);
    F::lemma_closed(a, b.neg_spec());
    F::lemma_mul_distributes(a, b, b.neg_spec());
    F::lemma_add_neg(b);
    lemma_mul_zero(a);
    lemma_neg_unique(a.mul_spec(b), a.mul_spec(b.neg_spec()));
    F::lemma_mul_distributes(b, a, a.neg_spec());
    F::lemma_add_neg(a);
    lemma_mul_zero(b);
    F::lemma_mul_commutes(a, b);
    F::lemma_mul_commutes(a.neg_spec(), b);
    lemma_neg_unique(a.mul_spec(b), a.neg_spec().mul_spec(b));
}

pub proof fn lemma_neg_neg<F: Field>(a: F)
    requires
        a.wf(),
    ensures
        a.neg_spec().neg_spec() == a,
{
    F::lemma_closed(a, a);
    F::lemma_add_neg(a);
    F::lemma_add_commutes(a, a.neg_spec());
    lemma_neg_unique(a.neg_spec(), a);
}

/// `(a + b) + (c + d) == (a + c) + (b + d)`.
pub proof fn lemma_add_swap_inner<F: Field>(a: F, b: F, c: F, d: F)
    requires
        a.wf(),
        b.wf(),
        c.wf(),
        d.wf(),
    ensures
        a.add_spec(b).add_spec(c.add_spec(d)) == a.add_spec(c).add_spec(b.add_spec(d)),
{
    F::lemma_closed(a, b);
    F::lemma_closed(c, d);
    F::lemma_closed(b, c);
    F::lemma_closed(b, d);
    F::lemma_closed(a, c);
    F::lemma_add_associates(a, b, c.add_spec(d));
    F::lemma_add_associates(b, c, d);
    F::lemma_add_commutes(b, c);
    F::lemma_add_associates(c, b, d);
    F::lemma_add_associates(a, c, b.add_spec(d));
}

/// `(a * b) * (c * d) == (a * c) * (b * d)`.
pub proof fn lemma_mul_swap_inner<F: Field>(a: F, b: F, c: F, d: F)
    requires
        a.wf(),
        b.wf(),
        c.wf(),
        d.wf(),
    ensures
        a.mul_spec(b).mul_spec(c.mul_spec(d)) == a.mul_spec(c).mul_spec(b.mul_spec(d)),
{
    F::lemma_closed(a, b);
    F::lemma_closed(c, d);
    F::lemma_closed(b, c);
    F::lemma_closed(b, d);
    F::lemma_closed(a, c);
    F::lemma_mul_associates(a, b, c.mul_spec(d));
    F::lemma_mul_associates(b, c, d);
    F::lemma_mul_commutes(b, c);
    F::lemma_mul_associates(c, b, d);
    F::lemma_mul_associates(a, c, b.mul_spec(d));
}

pub proof fn lemma_pow_wf<F: Field>(x: F, n: nat)
    requires
        x.wf(),
    ensures
        pow(x, n).wf(),
    decreases n,
{
    F::lemma_constants();
    if n > 0 {
        lemma_pow_wf(x, (n - 1) as nat);
        F::lemma_closed(x, pow(x, (n - 1) as nat));
    }
}

pub proof fn lemma_pow_add<F: Field>(x: F, a: nat, b: nat)
    requires
        x.wf(),
    ensures
        pow(x, a + b) == pow(x, a).mul_spec(pow(x, b)),
    decreases a,
{
    F::lemma_constants();
    lemma_pow_wf(x, a);
    lemma_pow_wf(x, b);
    if a == 0 {
        F::lemma_mul_commutes(F::one_spec(), pow(x, b));
        F::lemma_mul_one(pow(x, b));
    } else {
        let c = (a - 1) as nat;
        lemma_pow_add(x, c, b);
        assert((a + b - 1) as nat == c + b);
        lemma_pow_wf(x, c);
        F::lemma_mul_associates(x, pow(x, c), pow(x, b));
    }
}

pub proof fn lemma_pow_one<F: Field>(n: nat)
    ensures
        pow(F::one_spec(), n) == F::one_spec(),
    decreases n,
{
    F::lemma_constants();
    if n > 0 {
        lemma_pow_one::<F>((n - 1) as nat);
        F::lemma_mul_one(F::one_spec());
    }
}

pub proof fn lemma_pow_of_product<F: Field>(x: F, y: F, n: nat)
    requires
        x.wf(),
        y.wf(),
    ensures
        pow(x.mul_spec(y), n) == pow(x, n).mul_spec(pow(y, n)),
    decreases n,
{
    F::lemma_constants();
    if n == 0 {
        F::lemma_mul_one(F::one_spec());
    } else {
        let m = (n - 1) as nat;
        lemma_pow_of_product(x, y, m);
        lemma_pow_wf(x, m);
        lemma_pow_wf(y, m);
        lemma_mul_swap_inner(x, y, pow(x, m), pow(y, m));
    }
}

/// `(x^2)^n == x^(2n) == (x^n)^2`.
pub proof fn lemma_pow_of_square<F: Field>(x: F, n: nat)
    requires
        x.wf(),
    ensures
        pow(x.mul_spec(x), n) == pow(x, n).mul_spec(pow(x, n)),
        pow(x.mul_spec(x), n) == pow(x, 2 * n),
{
    lemma_pow_of_product(x, x, n);
    lemma_pow_add(x, n, n);
    assert(n + n == 2 * n);
}

/// `(x^a)^b == x^(a * b)`.
pub proof fn lemma_pow_of_pow<F: Field>(x: F, a: nat, b: nat)
    requires
        x.wf(),
    ensures
        pow(pow(x, a), b) == pow(x, a * b),
    decreases b,
{
    if b == 0 {
        assert(a * b == 0);
    } else {
        let c = (b - 1) as nat;
        lemma_pow_of_pow(x, a, c);
        lemma_pow_add(x, a, a * c);
        assert(a + a * c == a * b) by (nonlinear_arith)
            requires
                c == b - 1,
        ;
    }
}

/// Halfway round the subgroup of order `2^n_log` lies `-1`.
pub proof fn lemma_root_half_turn<F: Field>(n_log: nat)
    requires
        1 <= n_log <= F::two_adicity_spec(),
    ensures
        pow(F::root_spec(n_log), pow2((n_log - 1) as nat)) == F::one_spec().neg_spec(),
    decreases n_log,
{
    let w = F::root_spec(n_log);
    F::lemma_roots(n_log);
    F::lemma_constants();
    if n_log == 1 {
        vstd::arithmetic::power2::lemma2_to64();
        assert(pow(w, 1) == w.mul_spec(pow(w, 0)));
        F::lemma_mul_one(w);
    } else {
        let m = (n_log - 2) as nat;
        lemma_root_half_turn::<F>((n_log - 1) as nat);
        lemma_pow2_unfold((n_log - 1) as nat);
        lemma_pow_of_square(w, pow2(m));
    }
}

/// A whole turn round the subgroup of order `2^n_log` ends at `1`.
pub proof fn lemma_root_full_turn<F: Field>(n_log: nat)
    requires
        n_log <= F::two_adicity_spec(),
    ensures
        pow(F::root_spec(n_log), pow2(n_log)) == F::one_spec(),
{
    let w = F::root_spec(n_log);
    F::lemma_roots(n_log);
    F::lemma_constants();
    if n_log == 0 {
        lemma_pow_one::<F>(pow2(0));
    } else {
        let h = pow2((n_log - 1) as nat);
        lemma_root_half_turn::<F>(n_log);
        lemma_pow2_unfold(n_log);
        lemma_pow_add(w, h, h);
        let one = F::one_spec();
        F::lemma_closed(one, one);
        lemma_mul_neg(one, one.neg_spec());
        lemma_mul_neg(one, one);
        F::lemma_mul_one(one);
        lemma_neg_neg(one);
    }
}

/// Powers of the generator of the subgroup of order `2^n_log` repeat with that period.
pub proof fn lemma_root_periodic<F: Field>(n_log: nat, k: nat, turns: nat)
    requires
        n_log <= F::two_adicity_spec(),
    ensures
        pow(F::root_spec(n_log), k + turns * pow2(n_log)) == pow(F::root_spec(n_log), k),
{
    let w = F::root_spec(n_log);
    F::lemma_roots(n_log);
    lemma_root_full_turn::<F>(n_log);
    lemma_pow_of_pow(w, pow2(n_log), turns);
    lemma_pow_one::<F>(turns);
    assert(pow2(n_log) * turns == turns * pow2(n_log)) by (nonlinear_arith);
    lemma_pow_add(w, k, turns * pow2(n_log));
    lemma_pow_wf(w, k);
    F::lemma_mul_one(pow(w, k));
}

/// Raises to a power by repeated squaring.
pub fn exp_u64<F: Field>(x: F, power: u64) -> (r: F)
    requires
        x.wf(),
    ensures
        r == pow(x, power as nat),
        r.wf(),
{
    let mut current: F = x;
    let mut product: F = F::one();
    let mut rest: u64 = power;
    proof {
        lemma_pow_wf(x, power as nat);
        F::lemma_mul_commutes(F::one_spec(), pow(x, power as nat));
        F::lemma_mul_one(pow(x, power as nat));
    }
    while rest > 0
        invariant
            x.wf(),
            current.wf(),
            product.wf(),
            product.mul_spec(pow(current, rest as nat)) == pow(x, power as nat),
        decreases rest,
    {
        let ghost n: nat = rest as nat / 2;
        proof {
            lemma_pow_of_square(current, n);
            lemma_pow_wf(current, 2 * n);
            F::lemma_mul_associates(product, current, pow(current, 2 * n));
            assert(rest % 2 == 1 ==> rest as nat == 2 * n + 1);
            assert(rest % 2 == 0 ==> rest as nat == 2 * n);
        }
        if rest % 2 == 1 {
            product = product.mul(current);
        }
        current = current.mul(current);
        rest = rest / 2;
    }
    proof {
        F::lemma_mul_one(product);
    }
    product
}

} // verus!
