//! Random linear combinations of polynomials.

use vstd::prelude::*;

use crate::field::{exp_u64, pow, Field, FieldExtension};
use crate::polynomial::{poly_add, poly_embed, poly_scale, PolynomialCoeffs};

verus! {

/// The sum of `alpha^j f_j` over the polynomials `f_j`.
pub open spec fn poly_compose<F: Field, E: FieldExtension<F>>(
    polys: Seq<Seq<F>>,
    alpha: E,
) -> Seq<E>
    decreases polys.len(),
{
    if polys.len() == 0 {
        Seq::empty()
    } else {
        poly_add(
            poly_compose(polys.drop_last(), alpha),
            poly_scale(
                poly_embed::<F, E>(polys.last()),
                pow(alpha, (polys.len() - 1) as nat),
            ),
        )
    }
}

/// The contents of a list of polynomials.
pub open spec fn coeff_seqs<F: Field>(polys: Seq<&PolynomialCoeffs<F>>) -> Seq<Seq<F>> {
    Seq::new(polys.len(), |j: int| polys[j].coeffs@)
}

/// Combines polynomials with the powers of a challenge, and counts how many
/// powers were used since the last shift.
#[derive(Clone, Debug)]
pub struct ReducingFactor<E: Field> {
    pub base: E,
    pub count: u64,
}

impl<E: Field> ReducingFactor<E> {
    pub fn new(base: E) -> (r: Self)
        ensures
            r.base == base,
            r.count == 0,
    {
        ReducingFactor { base, count: 0 }
    }

    /// The sum of `base^j f_j` over the polynomials `f_j`.
    pub fn reduce_polys_base<F: Field>(&mut self, polys: &Vec<&PolynomialCoeffs<F>>) -> (r:
        PolynomialCoeffs<E>) where E: FieldExtension<F>
        requires
            old(self).base.wf(),
            old(self).count + polys@.len() <= u64::MAX,
            forall|j: int| 0 <= j < polys@.len() ==> (#[trigger] polys@[j]).wf(),
        ensures
            r.coeffs@ == poly_compose::<F, E>(coeff_seqs(polys@), old(self).base),
            r.wf(),
            final(self).base == old(self).base,
            final(self).count == old(self).count + polys@.len(),
    {
        let mut acc: PolynomialCoeffs<E> = PolynomialCoeffs::empty();
        let mut base_power: E = E::one();
        let ghost seqs = coeff_seqs(polys@);
        let mut j: usize = 0;
        assert(seqs.take(0) =~= Seq::empty());
        while j < polys.len()
            invariant
                seqs == coeff_seqs(polys@),
                self.base == old(self).base,
                self.base.wf(),
                old(self).count + polys@.len() <= u64::MAX,
                self.count == old(self).count + j,
                forall|j: int| 0 <= j < polys@.len() ==> (#[trigger] polys@[j]).wf(),
                j <= polys@.len(),
                base_power == pow(self.base, j as nat),
                base_power.wf(),
                acc.coeffs@ == poly_compose::<F, E>(seqs.take(j as int), self.base),
                acc.wf(),
            decreases polys@.len() - j,
        {
            let term: PolynomialCoeffs<E> = polys[j].mul_extension(base_power);
            acc.add_assign(&term);
            proof {
                let next = seqs.take(j + 1);
                assert(next.drop_last() =~= seqs.take(j as int));
                assert(next.last() == seqs[j as int]);
            }
            base_power = self.base.mul(base_power);
            self.count = self.count + 1;
            j = j + 1;
        }
        assert(seqs.take(j as int) =~= seqs);
        acc
    }

    /// Multiplies `p` by the first power that was not used since the last shift.
    pub fn shift_poly(&mut self, p: &mut PolynomialCoeffs<E>)
        requires
            old(self).base.wf(),
            old(p).wf(),
        ensures
            final(p).coeffs@ == poly_scale(old(p).coeffs@, pow(old(self).base, old(self).count as nat)),
            final(p).wf(),
            final(self).base == old(self).base,
            final(self).count == 0,
    {
        let factor: E = exp_u64(self.base, self.count);
        p.mul_assign(factor);
        self.count = 0;
    }
}

} // verus!
