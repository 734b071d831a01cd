//! The polynomial that opens committed polynomials at given points.

use vstd::arithmetic::power2::{lemma_pow2_pos, pow2};
use vstd::prelude::*;

use crate::bits::log2;
use crate::fft::{coset_values, is_subgroup_order};
use crate::field::{pow, Field, FieldExtension};
use crate::merkle::Hasher;
use crate::oracle::{lemma_coset_values_padded, PolynomialBatch};
use crate::polynomial::{
    eval, poly_add, poly_padded, poly_quotient, poly_scale, PolynomialCoeffs, PolynomialValues,
};
use crate::reducing::{coeff_seqs, poly_compose, ReducingFactor};

verus! {

/// Which polynomial of which oracle is opened.
#[derive(Clone, Copy, Debug, PartialEq, Eq)]
pub struct FriPolynomialInfo {
    pub oracle_index: usize,
    pub polynomial_index: usize,
}

/// A batch of openings at one point.
#[derive(Clone, Debug)]
pub struct FriBatchInfo<E: Field> {
    pub point: E,
    pub polynomials: Vec<FriPolynomialInfo>,
}

/// All batches of openings that one proof shows.
#[derive(Clone, Debug)]
pub struct FriInstanceInfo<E: Field> {
    pub batches: Vec<FriBatchInfo<E>>,
}

/// The polynomial that goes into FRI, padded to the size of the domain, and its values there.
#[derive(Clone, Debug)]
pub struct FriOpening<E: Field> {
    pub lde_final_poly: PolynomialCoeffs<E>,
    pub lde_final_values: PolynomialValues<E>,
}

/// The polynomials `f_ij` of a batch.
pub open spec fn batch_polys<F: Field, E: Field, H: Hasher<F>>(
    batch: FriBatchInfo<E>,
    oracles: Seq<&PolynomialBatch<F, H>>,
) -> Seq<Seq<F>> {
    Seq::new(
        batch.polynomials@.len(),
        |j: int|
            oracles[batch.polynomials@[j].oracle_index as int].polynomials@[batch.polynomials@[j].polynomial_index as int].coeffs@,
    )
}

/// The composition polynomial `F_i = sum alpha^j f_ij` of a batch.
pub open spec fn batch_composition<F: Field, E: FieldExtension<F>, H: Hasher<F>>(
    batch: FriBatchInfo<E>,
    oracles: Seq<&PolynomialBatch<F, H>>,
    alpha: E,
) -> Seq<E> {
    poly_compose::<F, E>(batch_polys(batch, oracles), alpha)
}

/// The quotient `(F_i(X) - F_i(z_i)) / (X - z_i)`, with a zero on top that makes
/// it as long as `F_i`.
pub open spec fn batch_quotient<F: Field, E: FieldExtension<F>, H: Hasher<F>>(
    batch: FriBatchInfo<E>,
    oracles: Seq<&PolynomialBatch<F, H>>,
    alpha: E,
) -> Seq<E> {
    poly_quotient(batch_composition(batch, oracles, alpha), batch.point).push(E::zero_spec())
}

/// The sum of the quotients, where each batch moves those before it up by as
/// many powers of `alpha` as it has polynomials.
pub open spec fn opening_poly<F: Field, E: FieldExtension<F>, H: Hasher<F>>(
    batches: Seq<FriBatchInfo<E>>,
    oracles: Seq<&PolynomialBatch<F, H>>,
    alpha: E,
) -> Seq<E>
    decreases batches.len(),
{
    if batches.len() == 0 {
        Seq::empty()
    } else {
        poly_add(
            poly_scale(
                opening_poly(batches.drop_last(), oracles, alpha),
                pow(alpha, batches.last().polynomials@.len()),
            ),
            batch_quotient(batches.last(), oracles, alpha),
        )
    }
}

/// The batch refers to polynomials that exist.
pub open spec fn batch_valid<F: Field, E: Field, H: Hasher<F>>(
    batch: FriBatchInfo<E>,
    oracles: Seq<&PolynomialBatch<F, H>>,
) -> bool {
    &&& batch.point.wf()
    &&& forall|j: int|
        0 <= j < batch.polynomials@.len() ==> {
            let info = #[trigger] batch.polynomials@[j];
            &&& info.oracle_index < oracles.len()
            &&& info.polynomial_index < oracles[info.oracle_index as int].polynomials@.len()
            &&& oracles[info.oracle_index as int].polynomials@[info.polynomial_index as int].wf()
        }
}

/// Every batch refers to polynomials that exist.
pub open spec fn instance_valid<F: Field, E: Field, H: Hasher<F>>(
    instance: FriInstanceInfo<E>,
    oracles: Seq<&PolynomialBatch<F, H>>,
) -> bool {
    forall|i: int|
        0 <= i < instance.batches@.len() ==> batch_valid(#[trigger] instance.batches@[i], oracles)
}

impl<F: Field, H: Hasher<F>> PolynomialBatch<F, H> {
    /// Produces what a batch opening proof is about: the final polynomial for
    /// the challenge `alpha`, and its values over the coset.
    pub fn prove_openings<E: FieldExtension<F>>(
        instance: &FriInstanceInfo<E>,
        oracles: &[&Self],
        alpha: E,
        rate_bits: usize,
    ) -> (r: FriOpening<E>)
        requires
            E::degree_spec() > 1,
            instance_valid(*instance, oracles@),
            alpha.wf(),
            is_subgroup_order::<E>(
                opening_poly(instance.batches@, oracles@, alpha).len() * pow2(rate_bits as nat),
            ),
            opening_poly(instance.batches@, oracles@, alpha).len() * pow2(rate_bits as nat)
                <= usize::MAX,
        ensures
            r.lde_final_poly.wf(),
            r.lde_final_values.wf(),
            r.lde_final_poly.coeffs@ == ({
                let final_poly = opening_poly(instance.batches@, oracles@, alpha);
                poly_padded(final_poly, final_poly.len() * pow2(rate_bits as nat))
            }),
            r.lde_final_values.values@ == ({
                let final_poly = opening_poly(instance.batches@, oracles@, alpha);
                coset_values(
                    final_poly,
                    E::embed_spec(F::coset_shift_spec()),
                    final_poly.len() * pow2(rate_bits as nat),
                )
            }),
            r.lde_final_poly.coeffs@.len() == opening_poly(instance.batches@, oracles@, alpha).len()
                * pow2(rate_bits as nat),
            r.lde_final_values.values@.len() == r.lde_final_poly.coeffs@.len(),
            forall|i: int|
                0 <= i < r.lde_final_poly.coeffs@.len() ==> (#[trigger] r.lde_final_poly.coeffs@[i])
                    == ({
                    let final_poly = opening_poly(instance.batches@, oracles@, alpha);
                    if i < final_poly.len() {
                        final_poly[i]
                    } else {
                        E::zero_spec()
                    }
                }),
            forall|i: int|
                0 <= i < r.lde_final_values.values@.len() ==> (
                #[trigger] r.lde_final_values.values@[i]) == eval(
                    opening_poly(instance.batches@, oracles@, alpha),
                    E::embed_spec(F::coset_shift_spec()).mul_spec(
                        pow(E::root_spec(log2(r.lde_final_values.values@.len())), i as nat),
                    ),
                ),
    {
        let mut alpha_powers: ReducingFactor<E> = ReducingFactor::new(alpha);
        let mut final_poly: PolynomialCoeffs<E> = PolynomialCoeffs::empty();
        let ghost batches = instance.batches@;
        assert(batches.take(0) =~= Seq::empty());
        let mut i: usize = 0;
        while i < instance.batches.len()
            invariant
                batches == instance.batches@,
                instance_valid(*instance, oracles@),
                alpha_powers.base == alpha,
                alpha_powers.count == 0,
                alpha.wf(),
                i <= batches.len(),
                final_poly.wf(),
                final_poly.coeffs@ == opening_poly(batches.take(i as int), oracles@, alpha),
            decreases batches.len() - i,
        {
            let batch: &FriBatchInfo<E> = &instance.batches[i];
            assert(batch_valid(batches[i as int], oracles@));
            let quotient: PolynomialCoeffs<E> = Self::open_batch(batch, oracles, &mut alpha_powers);
            alpha_powers.shift_poly(&mut final_poly);
            final_poly.add_assign(&quotient);
            proof {
                let next = batches.take(i + 1);
                assert(next.drop_last() =~= batches.take(i as int));
                assert(next.last() == batches[i as int]);
            }
            i = i + 1;
        }
        assert(batches.take(i as int) =~= batches);
        let lde_final_poly: PolynomialCoeffs<E> = final_poly.lde(rate_bits);
        let shift: E = E::from_basefield(F::coset_shift());
        let lde_final_values: PolynomialValues<E> = lde_final_poly.coset_fft(shift);
        proof {
            let n = final_poly.coeffs@.len() * pow2(rate_bits as nat);
            lemma_pow2_pos(rate_bits as nat);
            assert(final_poly.coeffs@.len() <= n) by (nonlinear_arith)
                requires
                    n == final_poly.coeffs@.len() * pow2(rate_bits as nat),
                    pow2(rate_bits as nat) >= 1,
            ;
            lemma_coset_values_padded(final_poly.coeffs@, shift, n);
        }
        FriOpening { lde_final_poly, lde_final_values }
    }

    /// The quotient of one batch.
    fn open_batch<E: FieldExtension<F>>(
        batch: &FriBatchInfo<E>,
        oracles: &[&Self],
        alpha_powers: &mut ReducingFactor<E>,
    ) -> (r: PolynomialCoeffs<E>)
        requires
            batch_valid(*batch, oracles@),
            old(alpha_powers).base.wf(),
            old(alpha_powers).count == 0,
        ensures
            r.wf(),
            r.coeffs@ == batch_quotient(*batch, oracles@, old(alpha_powers).base),
            final(alpha_powers).base == old(alpha_powers).base,
            final(alpha_powers).count == batch.polynomials@.len(),
    {
        let mut polys_coeff: Vec<&PolynomialCoeffs<F>> = Vec::new();
        let mut j: usize = 0;
        while j < batch.polynomials.len()
            invariant
                batch_valid(*batch, oracles@),
                j <= batch.polynomials@.len(),
                polys_coeff@.len() == j,
                forall|k: int|
                    0 <= k < j ==> (#[trigger] polys_coeff@[k]).wf() && polys_coeff@[k].coeffs@
                        == batch_polys(*batch, oracles@)[k],
            decreases batch.polynomials@.len() - j,
        {
            let info: FriPolynomialInfo = batch.polynomials[j];
            let oracle: &Self = oracles[info.oracle_index];
            polys_coeff.push(&oracle.polynomials[info.polynomial_index]);
            j = j + 1;
        }
        assert(coeff_seqs(polys_coeff@) =~= batch_polys(*batch, oracles@));
        let composition_poly: PolynomialCoeffs<E> = alpha_powers.reduce_polys_base(&polys_coeff);
        let mut quotient: PolynomialCoeffs<E> = composition_poly.divide_by_linear(batch.point);
        proof {
            E::lemma_constants();
        }
        // Pad back to a power of two.
        quotient.coeffs.push(E::zero());
        quotient
    }
}

} // verus!
