//! The quadratic extension of the Goldilocks field by a square root of seven.

use vstd::arithmetic::div_mod::{
    lemma_add_mod_noop, lemma_fundamental_div_mod_converse_mod, lemma_mod_bound,
    lemma_mul_mod_noop_left, lemma_mul_mod_noop_right, lemma_small_mod,
};
use vstd::prelude::*;

use crate::field::{Field, FieldExtension};
use crate::goldilocks::{GoldilocksField, ORDER, POWER_OF_TWO_GENERATOR};
use crate::sampling::Sampler;

verus! {

/// The square of the adjoined element.
pub const W: u64 = 7;

/// The two-adicity of the multiplicative group of the extension.
pub const EXT_TWO_ADICITY: usize = 33;

/// The coefficient of the adjoined element in the generator of the subgroup of
/// order `2^EXT_TWO_ADICITY`; the other coefficient is zero.
pub const EXT_POWER_OF_TWO_GENERATOR: u64 = 15659105665374529263;

/// The coefficients of a generator of the multiplicative group of the extension.
pub const EXT_GROUP_GENERATOR_A: u64 = 18081566051660590251;

pub const EXT_GROUP_GENERATOR_B: u64 = 16121475356294670766;

/// The element `a + b X`, where `X^2 == W`.
#[derive(Clone, Copy, Debug, PartialEq, Eq)]
pub struct QuadraticExtension {
    pub a: GoldilocksField,
    pub b: GoldilocksField,
}

/// The residue of `x`.
pub open spec fn residue(x: int) -> GoldilocksField {
    GoldilocksField((x % (ORDER as int)) as u64)
}

proof fn lemma_residue(x: int)
    ensures
        residue(x).wf(),
        residue(x).0 == x % (ORDER as int),
{
    lemma_mod_bound(x, ORDER as int);
}

/// Residues may be taken of the factors of a sum of two products first.
proof fn lemma_residue_of_products(x: int, y: int, u: int, v: int, c: int)
    ensures
        residue(residue(x).0 * y + c * (residue(u).0 * v)) == residue(x * y + c * (u * v)),
        residue(y * residue(x).0 + c * (v * residue(u).0)) == residue(x * y + c * (u * v)),
{
    let p = ORDER as int;
    lemma_residue(x);
    lemma_residue(u);
    let (rx, ru) = (x % p, u % p);
    lemma_mul_mod_noop_left(x, y, p);
    lemma_mul_mod_noop_left(u, v, p);
    lemma_mul_mod_noop_right(c, ru * v, p);
    lemma_mul_mod_noop_right(c, u * v, p);
    lemma_add_mod_noop(rx * y, c * (ru * v), p);
    lemma_add_mod_noop(x * y, c * (u * v), p);
    assert(y * rx == rx * y) by (nonlinear_arith);
    assert(v * ru == ru * v) by (nonlinear_arith);
}

proof fn lemma_expand(x: int, y: int, u: int, v: int, c: int, w: int)
    by (nonlinear_arith)
    ensures
        (x * y + c * (u * v)) * w == (x * y) * w + c * ((u * v) * w),
{
}

proof fn lemma_rotate(x: int, y: int, z: int)
    by (nonlinear_arith)
    ensures
        (y * z) * x == (x * y) * z,
{
}

impl Field for QuadraticExtension {
    open spec fn wf(self) -> bool {
        self.a.wf() && self.b.wf()
    }

    open spec fn same_spec(self, other: Self) -> bool {
        self.a.same_spec(other.a) && self.b.same_spec(other.b)
    }

    open spec fn zero_spec() -> Self {
        QuadraticExtension { a: GoldilocksField(0), b: GoldilocksField(0) }
    }

    open spec fn one_spec() -> Self {
        QuadraticExtension { a: GoldilocksField(1), b: GoldilocksField(0) }
    }

    open spec fn add_spec(self, other: Self) -> Self {
        QuadraticExtension { a: self.a.add_spec(other.a), b: self.b.add_spec(other.b) }
    }

    open spec fn neg_spec(self) -> Self {
        QuadraticExtension { a: self.a.neg_spec(), b: self.b.neg_spec() }
    }

    open spec fn mul_spec(self, other: Self) -> Self {
        QuadraticExtension {
            a: residue(self.a.0 * other.a.0 + W * (self.b.0 * other.b.0)),
            b: residue(self.a.0 * other.b.0 + self.b.0 * other.a.0),
        }
    }

    open spec fn half_spec() -> Self {
        QuadraticExtension { a: GoldilocksField::half_spec(), b: GoldilocksField(0) }
    }

    open spec fn two_adicity_spec() -> nat {
        EXT_TWO_ADICITY as nat
    }

    open spec fn root_spec(n_log: nat) -> Self {
        if n_log >= EXT_TWO_ADICITY {
            QuadraticExtension {
                a: GoldilocksField(0),
                b: GoldilocksField(EXT_POWER_OF_TWO_GENERATOR),
            }
        } else {
            QuadraticExtension { a: GoldilocksField::root_spec(n_log), b: GoldilocksField(0) }
        }
    }

    open spec fn coset_shift_spec() -> Self {
        QuadraticExtension {
            a: GoldilocksField(EXT_GROUP_GENERATOR_A),
            b: GoldilocksField(EXT_GROUP_GENERATOR_B),
        }
    }

    open spec fn draw_count() -> nat {
        2
    }

    open spec fn draws(self) -> Seq<(u64, u64)> {
        seq![(ORDER, self.a.0), (ORDER, self.b.0)]
    }

    proof fn lemma_draws(a: Self, b: Self) {
        assert(a.draws()[0] == (ORDER, a.a.0) && a.draws()[1] == (ORDER, a.b.0));
        assert(b.draws()[0] == (ORDER, b.a.0) && b.draws()[1] == (ORDER, b.b.0));
    }

    proof fn lemma_constants() {
    }

    proof fn lemma_same(a: Self, b: Self) {
    }

    proof fn lemma_coset_shift_invertible() {
        let s = QuadraticExtension {
            a: GoldilocksField(4200820191995977462),
            b: GoldilocksField(5279316680341795371),
        };
        let p = ORDER as int;
        let (a, b) = (EXT_GROUP_GENERATOR_A as int, EXT_GROUP_GENERATOR_B as int);
        let (c, d) = (s.a.0 as int, s.b.0 as int);
        assert(a * c + 7 * (b * d) == 36414557580810083303 * p + 1);
        assert(a * d + b * c == 8846099444469635053 * p);
        lemma_fundamental_div_mod_converse_mod(
            a * c + 7 * (b * d),
            p,
            36414557580810083303,
            1,
        );
        lemma_fundamental_div_mod_converse_mod(a * d + b * c, p, 8846099444469635053, 0);
        assert(Self::coset_shift_spec().mul_spec(s) == Self::one_spec());
    }

    proof fn lemma_closed(x: Self, y: Self) {
        GoldilocksField::lemma_closed(x.a, y.a);
        GoldilocksField::lemma_closed(x.b, y.b);
        lemma_residue(x.a.0 * y.a.0 + W * (x.b.0 * y.b.0));
        lemma_residue(x.a.0 * y.b.0 + x.b.0 * y.a.0);
    }

    proof fn lemma_add_commutes(x: Self, y: Self) {
    }

    proof fn lemma_add_associates(x: Self, y: Self, z: Self) {
        GoldilocksField::lemma_add_associates(x.a, y.a, z.a);
        GoldilocksField::lemma_add_associates(x.b, y.b, z.b);
    }

    proof fn lemma_add_zero(x: Self) {
        GoldilocksField::lemma_add_zero(x.a);
        GoldilocksField::lemma_add_zero(x.b);
    }

    proof fn lemma_add_neg(x: Self) {
        GoldilocksField::lemma_add_neg(x.a);
        GoldilocksField::lemma_add_neg(x.b);
    }

    proof fn lemma_mul_commutes(x: Self, y: Self) {
        let (xa, xb, ya, yb) = (x.a.0 as int, x.b.0 as int, y.a.0 as int, y.b.0 as int);
        assert(xa * ya == ya * xa) by (nonlinear_arith);
        assert(xb * yb == yb * xb) by (nonlinear_arith);
        assert(xa * yb == yb * xa) by (nonlinear_arith);
        assert(xb * ya == ya * xb) by (nonlinear_arith);
    }

    proof fn lemma_mul_associates(x: Self, y: Self, z: Self) {
        let (xa, xb, ya, yb, za, zb) = (
            x.a.0 as int,
            x.b.0 as int,
            y.a.0 as int,
            y.b.0 as int,
            z.a.0 as int,
            z.b.0 as int,
        );
        let l0 = xa * ya + 7 * (xb * yb);
        let l1 = xa * yb + xb * ya;
        let r0 = ya * za + 7 * (yb * zb);
        let r1 = ya * zb + yb * za;
        lemma_residue_of_products(l0, za, l1, zb, 7);
        lemma_residue_of_products(l0, zb, l1, za, 1);
        lemma_residue_of_products(r0, xa, r1, xb, 7);
        lemma_residue_of_products(r1, xa, r0, xb, 1);
        lemma_expand(xa, ya, xb, yb, 7, za);
        lemma_expand(xa, yb, xb, ya, 1, zb);
        lemma_expand(ya, za, yb, zb, 7, xa);
        lemma_expand(ya, zb, yb, za, 1, xb);
        lemma_expand(xa, ya, xb, yb, 7, zb);
        lemma_expand(xa, yb, xb, ya, 1, za);
        lemma_expand(ya, zb, yb, za, 1, xa);
        lemma_expand(ya, za, yb, zb, 7, xb);
        lemma_rotate(xa, ya, za);
        lemma_rotate(xa, yb, zb);
        lemma_rotate(xb, ya, zb);
        lemma_rotate(xb, yb, za);
        lemma_rotate(xa, ya, zb);
        lemma_rotate(xa, yb, za);
        lemma_rotate(xb, ya, za);
        lemma_rotate(xb, yb, zb);
    }

    proof fn lemma_mul_one(x: Self) {
        let (a, b) = (x.a.0 as int, x.b.0 as int);
        lemma_small_mod(x.a.0 as nat, ORDER as nat);
        lemma_small_mod(x.b.0 as nat, ORDER as nat);
        assert(a * 1 + W * (b * 0) == a && a * 0 + b * 1 == b) by (nonlinear_arith);
        assert(x.mul_spec(Self::one_spec()).a == x.a);
        assert(x.mul_spec(Self::one_spec()).b == x.b);
    }

    proof fn lemma_mul_distributes(x: Self, y: Self, z: Self) {
        let p = ORDER as int;
        let (xa, xb, ya, yb, za, zb) = (
            x.a.0 as int,
            x.b.0 as int,
            y.a.0 as int,
            y.b.0 as int,
            z.a.0 as int,
            z.b.0 as int,
        );
        lemma_residue_of_products(ya + za, xa, yb + zb, xb, 7);
        lemma_residue_of_products(yb + zb, xa, ya + za, xb, 1);
        let s0 = xa * ya + 7 * (xb * yb);
        let s1 = xa * za + 7 * (xb * zb);
        let t0 = xa * yb + xb * ya;
        let t1 = xa * zb + xb * za;
        lemma_residue(s0);
        lemma_residue(s1);
        lemma_residue(t0);
        lemma_residue(t1);
        lemma_add_mod_noop(s0, s1, p);
        lemma_add_mod_noop(t0, t1, p);
        assert((ya + za) * xa + 7 * ((yb + zb) * xb) == s0 + s1) by (nonlinear_arith)
            requires
                s0 == xa * ya + 7 * (xb * yb),
                s1 == xa * za + 7 * (xb * zb),
        ;
        assert((yb + zb) * xa + (ya + za) * xb == t0 + t1) by (nonlinear_arith)
            requires
                t0 == xa * yb + xb * ya,
                t1 == xa * zb + xb * za,
        ;
    }

    proof fn lemma_roots(n_log: nat) {
        if n_log >= EXT_TWO_ADICITY {
            let p = ORDER as int;
            let g: int = 15659105665374529263;
            assert(7 * (g * g) == 93049110738273779291 * 0xFFFF_FFFF_0000_0001 + 1753635133440165772);
            lemma_fundamental_div_mod_converse_mod(
                7 * (g * g),
                p,
                93049110738273779291,
                POWER_OF_TWO_GENERATOR as int,
            );
        } else {
            GoldilocksField::lemma_roots(n_log);
        }
    }

    fn same(self, other: Self) -> (r: bool) {
        self.a.same(other.a) && self.b.same(other.b)
    }

    fn zero() -> (r: Self) {
        QuadraticExtension { a: GoldilocksField(0), b: GoldilocksField(0) }
    }

    fn one() -> (r: Self) {
        QuadraticExtension { a: GoldilocksField(1), b: GoldilocksField(0) }
    }

    fn half() -> (r: Self) {
        QuadraticExtension { a: GoldilocksField::half(), b: GoldilocksField(0) }
    }

    fn coset_shift() -> (r: Self) {
        QuadraticExtension {
            a: GoldilocksField(EXT_GROUP_GENERATOR_A),
            b: GoldilocksField(EXT_GROUP_GENERATOR_B),
        }
    }

    fn add(self, other: Self) -> (r: Self) {
        QuadraticExtension { a: self.a.add(other.a), b: self.b.add(other.b) }
    }

    fn sub(self, other: Self) -> (r: Self) {
        QuadraticExtension { a: self.a.sub(other.a), b: self.b.sub(other.b) }
    }

    fn mul(self, other: Self) -> (r: Self) {
        let aa: GoldilocksField = self.a.mul(other.a);
        let bb: GoldilocksField = self.b.mul(other.b);
        let ab: GoldilocksField = self.a.mul(other.b);
        let ba: GoldilocksField = self.b.mul(other.a);
        let w: GoldilocksField = GoldilocksField(W);
        proof {
            let p = ORDER as int;
            let (xa, xb, ya, yb) = (
                self.a.0 as int,
                self.b.0 as int,
                other.a.0 as int,
                other.b.0 as int,
            );
            lemma_residue(xa * ya);
            lemma_residue(xb * yb);
            lemma_residue(xa * yb);
            lemma_residue(xb * ya);
            lemma_mul_mod_noop_right(7, xb * yb, p);
            lemma_residue(7 * (xb * yb));
            lemma_add_mod_noop(xa * ya, 7 * (xb * yb), p);
            lemma_add_mod_noop(xa * yb, xb * ya, p);
        }
        QuadraticExtension { a: aa.add(w.mul(bb)), b: ab.add(ba) }
    }

    fn two_adicity() -> (r: usize) {
        EXT_TWO_ADICITY
    }

    fn primitive_root_of_unity(n_log: usize) -> (r: Self) {
        proof {
            Self::lemma_roots(n_log as nat);
        }
        if n_log >= EXT_TWO_ADICITY {
            QuadraticExtension {
                a: GoldilocksField(0),
                b: GoldilocksField(EXT_POWER_OF_TWO_GENERATOR),
            }
        } else {
            QuadraticExtension {
                a: GoldilocksField::primitive_root_of_unity(n_log),
                b: GoldilocksField(0),
            }
        }
    }

    fn draw(sampler: &mut Sampler) -> (r: Self)
        ensures
            final(sampler).log() == old(sampler).log().push((ORDER, r.a.0)).push((ORDER, r.b.0)),
    {
        let a: GoldilocksField = GoldilocksField::draw(sampler);
        let b: GoldilocksField = GoldilocksField::draw(sampler);
        QuadraticExtension::from_basefield_array([a, b])
    }

    fn rand() -> (r: Self) {
        let mut sampler: Sampler = Sampler::new();
        let r: Self = Self::draw(&mut sampler);
        assert(sampler.log() =~= r.draws());
        r
    }
}

impl FieldExtension<GoldilocksField> for QuadraticExtension {
    open spec fn degree_spec() -> nat {
        2
    }

    open spec fn embed_spec(x: GoldilocksField) -> Self {
        QuadraticExtension { a: x, b: GoldilocksField(0) }
    }

    proof fn lemma_embed(x: GoldilocksField, y: GoldilocksField) {
    }

    proof fn lemma_embed_roots(n_log: nat) {
    }

    fn degree() -> (r: usize) {
        2
    }

    fn from_basefield(x: GoldilocksField) -> (r: Self) {
        QuadraticExtension { a: x, b: GoldilocksField(0) }
    }

    fn scalar_mul(self, x: GoldilocksField) -> (r: Self) {
        proof {
            let (a, b) = (self.a.0 as int, self.b.0 as int);
            assert(W * (b * 0) == 0 && a * 0 == 0) by (nonlinear_arith);
            assert(self.mul_spec(Self::embed_spec(x)).a == self.a.mul_spec(x));
            assert(self.mul_spec(Self::embed_spec(x)).b == self.b.mul_spec(x));
        }
        QuadraticExtension { a: self.a.mul(x), b: self.b.mul(x) }
    }
}

impl QuadraticExtension {
    /// The element `coeffs[0] + coeffs[1] X`.
    pub fn from_basefield_array(coeffs: [GoldilocksField; 2]) -> (r: Self)
        requires
            coeffs@[0].wf(),
            coeffs@[1].wf(),
        ensures
            r.a == coeffs@[0],
            r.b == coeffs@[1],
            r.wf(),
    {
        QuadraticExtension { a: coeffs[0], b: coeffs[1] }
    }
}

} // verus!
