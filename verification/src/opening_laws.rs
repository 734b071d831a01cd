//! What holds of every opening.

use vstd::arithmetic::power2::{lemma2_to64, pow2};
use vstd::prelude::*;

use crate::bits::log2;
use crate::commitment_laws::law_read_back;
use crate::fft::{coset_point, coset_values, is_subgroup_order};
use crate::field::{all_wf, lemma_mul_zero, lemma_pow_add, lemma_pow_wf, pow, Field, FieldExtension};
use crate::merkle::Hasher;
use crate::openings::{
    batch_composition, batch_polys, batch_quotient, batch_valid, opening_poly, FriBatchInfo,
};
use crate::oracle::{committable, PolynomialBatch};
use crate::polynomial::{
    eval, lemma_eval_add, lemma_eval_padded, lemma_eval_quotient, lemma_eval_scale, lemma_eval_wf,
    poly_embed, poly_padded, poly_quotient, poly_scale,
};
use crate::reducing::poly_compose;

verus! {

/// The sum of `terms[j] alpha^j`.
pub open spec fn power_sum<E: Field>(terms: Seq<E>, alpha: E) -> E
    decreases terms.len(),
{
    if terms.len() == 0 {
        E::zero_spec()
    } else {
        power_sum(terms.drop_last(), alpha).add_spec(
            terms.last().mul_spec(pow(alpha, (terms.len() - 1) as nat)),
        )
    }
}

/// The values of polynomials over `F` at a point of the extension.
pub open spec fn values_at<F: Field, E: FieldExtension<F>>(polys: Seq<Seq<F>>, x: E) -> Seq<E> {
    Seq::new(polys.len(), |j: int| eval(poly_embed::<F, E>(polys[j]), x))
}

/// All polynomials have canonical coefficients.
pub open spec fn all_polys_wf<F: Field>(polys: Seq<Seq<F>>) -> bool {
    forall|j: int| 0 <= j < polys.len() ==> all_wf(#[trigger] polys[j])
}

/// The number of polynomials in the batches after `i`: the exponent `k_i` by
/// which the quotient of batch `i` is multiplied.
pub open spec fn powers_after<E: Field>(batches: Seq<FriBatchInfo<E>>, i: int) -> nat
    decreases batches.len() - i,
{
    if i + 1 >= batches.len() {
        0
    } else {
        batches[i + 1].polynomials@.len() + powers_after(batches, i + 1)
    }
}

/// The sum of `alpha^(k_i) q_i(x)` over the first `count` batches, where `q_i`
/// is the quotient of batch `i`.
pub open spec fn opening_sum<F: Field, E: FieldExtension<F>, H: Hasher<F>>(
    batches: Seq<FriBatchInfo<E>>,
    oracles: Seq<&PolynomialBatch<F, H>>,
    alpha: E,
    x: E,
    count: nat,
) -> E
    decreases count,
{
    if count == 0 {
        E::zero_spec()
    } else {
        opening_sum(batches, oracles, alpha, x, (count - 1) as nat).add_spec(
            eval(batch_quotient(batches[count - 1], oracles, alpha), x).mul_spec(
                pow(alpha, powers_after(batches, count - 1)),
            ),
        )
    }
}

proof fn lemma_embed_wf<F: Field, E: FieldExtension<F>>(c: Seq<F>)
    requires
        all_wf(c),
    ensures
        all_wf(poly_embed::<F, E>(c)),
{
    assert forall|i: int| 0 <= i < c.len() implies (#[trigger] poly_embed::<F, E>(c)[i]).wf() by {
        assert(c[i].wf());
        E::lemma_embed(c[i], c[i]);
    }
}

/// The composition polynomial of a batch takes at every point the combination
/// of the values of the polynomials with the powers of `alpha`.
pub proof fn law_composition<F: Field, E: FieldExtension<F>>(
    polys: Seq<Seq<F>>,
    alpha: E,
    x: E,
)
    requires
        all_polys_wf(polys),
        alpha.wf(),
        x.wf(),
    ensures
        eval(poly_compose::<F, E>(polys, alpha), x) == power_sum(values_at(polys, x), alpha),
        all_wf(poly_compose::<F, E>(polys, alpha)),
    decreases polys.len(),
{
    if polys.len() > 0 {
        let head = polys.drop_last();
        let last = poly_embed::<F, E>(polys.last());
        let power = pow(alpha, (polys.len() - 1) as nat);
        assert(all_polys_wf(head)) by {
            assert forall|j: int| 0 <= j < head.len() implies all_wf(#[trigger] head[j]) by {
                assert(head[j] == polys[j]);
            }
        }
        law_composition::<F, E>(head, alpha, x);
        assert(all_wf(polys[polys.len() - 1]));
        lemma_embed_wf::<F, E>(polys.last());
        lemma_pow_wf(alpha, (polys.len() - 1) as nat);
        lemma_eval_scale(last, power, x);
        lemma_eval_add(poly_compose::<F, E>(head, alpha), poly_scale(last, power), x);
        assert(values_at::<F, E>(polys, x).drop_last() =~= values_at::<F, E>(head, x));
    }
}

proof fn lemma_batch_polys_wf<F: Field, E: Field, H: Hasher<F>>(
    batch: FriBatchInfo<E>,
    oracles: Seq<&PolynomialBatch<F, H>>,
)
    requires
        batch_valid(batch, oracles),
    ensures
        all_polys_wf(batch_polys(batch, oracles)),
{
    assert forall|j: int| 0 <= j < batch_polys(batch, oracles).len() implies all_wf(
        #[trigger] batch_polys(batch, oracles)[j],
    ) by {
        assert(oracles[batch.polynomials@[j].oracle_index as int].polynomials@[batch.polynomials@[j].polynomial_index as int].wf());
    }
}

/// The quotient of a batch times `x - z` is the difference of the values of the
/// composition polynomial at `x` and at the point `z` of the batch.
pub proof fn law_quotient<F: Field, E: FieldExtension<F>, H: Hasher<F>>(
    batch: FriBatchInfo<E>,
    oracles: Seq<&PolynomialBatch<F, H>>,
    alpha: E,
    x: E,
)
    requires
        batch_valid(batch, oracles),
        alpha.wf(),
        x.wf(),
    ensures
        eval(batch_composition(batch, oracles, alpha), x) == eval(
            batch_quotient(batch, oracles, alpha),
            x,
        ).mul_spec(x.add_spec(batch.point.neg_spec())).add_spec(
            eval(batch_composition(batch, oracles, alpha), batch.point),
        ),
        all_wf(batch_quotient(batch, oracles, alpha)),
{
    let composition = batch_composition(batch, oracles, alpha);
    let quotient = poly_quotient(composition, batch.point);
    lemma_batch_polys_wf(batch, oracles);
    law_composition::<F, E>(batch_polys(batch, oracles), alpha, x);
    lemma_eval_quotient(composition, batch.point, x);
    E::lemma_constants();
    assert(quotient.push(E::zero_spec()) =~= poly_padded(quotient, quotient.len() + 1));
    lemma_eval_padded(quotient, quotient.len() + 1, x);
}

/// A later batch moves the exponents of those before it up by its own size.
proof fn lemma_powers_after_prefix<E: Field>(batches: Seq<FriBatchInfo<E>>, i: int)
    requires
        0 <= i < batches.len() - 1,
    ensures
        powers_after(batches, i) == powers_after(batches.drop_last(), i)
            + batches.last().polynomials@.len(),
    decreases batches.len() - i,
{
    if i + 1 < batches.len() - 1 {
        lemma_powers_after_prefix(batches, i + 1);
    } else {
        assert(powers_after(batches, i + 1) == 0);
    }
}

proof fn lemma_opening_sum_prefix<F: Field, E: FieldExtension<F>, H: Hasher<F>>(
    batches: Seq<FriBatchInfo<E>>,
    oracles: Seq<&PolynomialBatch<F, H>>,
    alpha: E,
    x: E,
    count: nat,
)
    requires
        count < batches.len(),
        forall|i: int|
            0 <= i < batches.len() ==> batch_valid(#[trigger] batches[i], oracles),
        alpha.wf(),
        x.wf(),
    ensures
        opening_sum(batches, oracles, alpha, x, count) == opening_sum(
            batches.drop_last(),
            oracles,
            alpha,
            x,
            count,
        ).mul_spec(pow(alpha, batches.last().polynomials@.len())),
        opening_sum(batches.drop_last(), oracles, alpha, x, count).wf(),
    decreases count,
{
    let n = batches.last().polynomials@.len();
    let power = pow(alpha, n);
    lemma_pow_wf(alpha, n);
    E::lemma_constants();
    if count == 0 {
        lemma_mul_zero(power);
        E::lemma_mul_commutes(E::zero_spec(), power);
    } else {
        let i = count - 1;
        lemma_opening_sum_prefix(batches, oracles, alpha, x, i as nat);
        let head = opening_sum(batches.drop_last(), oracles, alpha, x, i as nat);
        assert(batch_valid(batches[i], oracles));
        let quotient = batch_quotient(batches[i], oracles, alpha);
        law_quotient(batches[i], oracles, alpha, x);
        lemma_eval_wf(quotient, x);
        let q = eval(quotient, x);
        let k = powers_after(batches.drop_last(), i);
        lemma_powers_after_prefix(batches, i);
        lemma_pow_wf(alpha, k);
        lemma_pow_add(alpha, k, n);
        let term = q.mul_spec(pow(alpha, k));
        E::lemma_closed(q, pow(alpha, k));
        E::lemma_closed(head, term);
        // (head + term) power == head power + q (alpha^k power)
        E::lemma_mul_commutes(head.add_spec(term), power);
        E::lemma_mul_distributes(power, head, term);
        E::lemma_mul_commutes(power, head);
        E::lemma_mul_commutes(power, term);
        E::lemma_mul_associates(q, pow(alpha, k), power);
        assert(batches.drop_last()[i] == batches[i]);
    }
}

/// The final polynomial is the sum of `alpha^(k_i) q_i`, where `k_i` is the
/// number of polynomials in the batches after `i`.
pub proof fn law_opening_sum<F: Field, E: FieldExtension<F>, H: Hasher<F>>(
    batches: Seq<FriBatchInfo<E>>,
    oracles: Seq<&PolynomialBatch<F, H>>,
    alpha: E,
    x: E,
)
    requires
        forall|i: int|
            0 <= i < batches.len() ==> batch_valid(#[trigger] batches[i], oracles),
        alpha.wf(),
        x.wf(),
    ensures
        eval(opening_poly(batches, oracles, alpha), x) == opening_sum(
            batches,
            oracles,
            alpha,
            x,
            batches.len(),
        ),
        all_wf(opening_poly(batches, oracles, alpha)),
    decreases batches.len(),
{
    if batches.len() > 0 {
        let head = batches.drop_last();
        let last = batches.last();
        let n = last.polynomials@.len();
        let power = pow(alpha, n);
        assert forall|i: int| 0 <= i < head.len() implies batch_valid(
            #[trigger] head[i],
            oracles,
        ) by {
            assert(head[i] == batches[i]);
        }
        law_opening_sum(head, oracles, alpha, x);
        assert(batch_valid(batches[batches.len() - 1], oracles));
        law_quotient(last, oracles, alpha, x);
        lemma_pow_wf(alpha, n);
        let scaled = poly_scale(opening_poly(head, oracles, alpha), power);
        let quotient = batch_quotient(last, oracles, alpha);
        lemma_eval_scale(opening_poly(head, oracles, alpha), power, x);
        lemma_eval_add(scaled, quotient, x);
        lemma_opening_sum_prefix(batches, oracles, alpha, x, head.len());
        assert(powers_after(batches, batches.len() - 1) == 0);
        assert(pow(alpha, 0) == E::one_spec());
        lemma_eval_wf(quotient, x);
        E::lemma_mul_one(eval(quotient, x));
    }
}

proof fn lemma_powers_after_decreases<E: Field>(
    batches: Seq<FriBatchInfo<E>>,
    i: int,
    later: int,
)
    requires
        0 <= i < later < batches.len(),
    ensures
        powers_after(batches, i) >= powers_after(batches, later)
            + batches[later].polynomials@.len(),
    decreases later - i,
{
    if i + 1 < later {
        lemma_powers_after_decreases(batches, i + 1, later);
    }
}

/// Each power of `alpha` appears only once in the final sum: polynomial `j` of
/// batch `i` comes with the exponent `k_i + j`, which belongs to no other.
pub proof fn law_powers_are_distinct<E: Field>(
    batches: Seq<FriBatchInfo<E>>,
    i: int,
    j: int,
    other_i: int,
    other_j: int,
)
    requires
        0 <= i < batches.len(),
        0 <= j < batches[i].polynomials@.len(),
        0 <= other_i < batches.len(),
        0 <= other_j < batches[other_i].polynomials@.len(),
        powers_after(batches, i) + j == powers_after(batches, other_i) + other_j,
    ensures
        i == other_i,
        j == other_j,
{
    if i < other_i {
        lemma_powers_after_decreases(batches, i, other_i);
    } else if other_i < i {
        lemma_powers_after_decreases(batches, other_i, i);
    }
}

/// A polynomial over `F` takes at points of `F` the same values in the extension.
pub proof fn law_values_of_embedded<F: Field, E: FieldExtension<F>>(c: Seq<F>, y: F)
    requires
        all_wf(c),
        y.wf(),
    ensures
        eval(poly_embed::<F, E>(c), E::embed_spec(y)) == E::embed_spec(eval(c, y)),
    decreases c.len(),
{
    let embedded = poly_embed::<F, E>(c);
    E::lemma_embed(y, y);
    if c.len() > 0 {
        let rest = c.skip(1);
        assert(all_wf(rest)) by {
            assert forall|i: int| 0 <= i < rest.len() implies (#[trigger] rest[i]).wf() by {
                assert(c[i + 1].wf());
            }
        }
        law_values_of_embedded::<F, E>(rest, y);
        assert(embedded.skip(1) =~= poly_embed::<F, E>(rest));
        lemma_eval_wf(rest, y);
        F::lemma_closed(y, eval(rest, y));
        assert(c[0].wf());
        E::lemma_embed(y, eval(rest, y));
        E::lemma_embed(c[0], y.mul_spec(eval(rest, y)));
    }
}

proof fn lemma_embed_pow<F: Field, E: FieldExtension<F>>(x: F, n: nat)
    requires
        x.wf(),
    ensures
        E::embed_spec(pow(x, n)) == pow(E::embed_spec(x), n),
    decreases n,
{
    E::lemma_embed(x, x);
    if n > 0 {
        lemma_embed_pow::<F, E>(x, (n - 1) as nat);
        lemma_pow_wf(x, (n - 1) as nat);
        E::lemma_embed(x, pow(x, (n - 1) as nat));
    }
}

/// The points at which the final polynomial is evaluated are the points at
/// which the committed polynomials were.
pub proof fn law_same_points<F: Field, E: FieldExtension<F>>(n_log: nat, i: nat)
    requires
        n_log <= F::two_adicity_spec(),
    ensures
        coset_point(E::embed_spec(F::coset_shift_spec()), n_log, i) == E::embed_spec(
            coset_point(F::coset_shift_spec(), n_log, i),
        ),
        coset_point(F::coset_shift_spec(), n_log, i).wf(),
{
    let w = F::root_spec(n_log);
    let shift = F::coset_shift_spec();
    F::lemma_constants();
    F::lemma_roots(n_log);
    E::lemma_embed_roots(n_log);
    lemma_embed_pow::<F, E>(w, i);
    lemma_pow_wf(w, i);
    F::lemma_closed(shift, pow(w, i));
    E::lemma_embed(shift, pow(w, i));
}

/// The value `i` of the final polynomial is the sum of `alpha^(k_i) q_i` at the
/// point `i` of the domain of the commitments.
pub proof fn law_final_values<F: Field, E: FieldExtension<F>, H: Hasher<F>>(
    batches: Seq<FriBatchInfo<E>>,
    oracles: Seq<&PolynomialBatch<F, H>>,
    alpha: E,
    n: nat,
    i: int,
)
    requires
        forall|i: int|
            0 <= i < batches.len() ==> batch_valid(#[trigger] batches[i], oracles),
        alpha.wf(),
        is_subgroup_order::<F>(n),
        0 <= i < n,
    ensures
        coset_values(
            opening_poly(batches, oracles, alpha),
            E::embed_spec(F::coset_shift_spec()),
            n,
        )[i] == opening_sum(
            batches,
            oracles,
            alpha,
            E::embed_spec(coset_point(F::coset_shift_spec(), log2(n), i as nat)),
            batches.len(),
        ),
{
    law_same_points::<F, E>(log2(n), i as nat);
    let y = coset_point(F::coset_shift_spec(), log2(n), i as nat);
    E::lemma_embed(y, y);
    law_opening_sum(batches, oracles, alpha, E::embed_spec(y));
}

/// The check of an opening: at a point `y` of `F`, the quotient of a batch can
/// be had from the values `f_ij(y)`, which the commitments hold, and the
/// claimed values `f_ij(z)`:
/// `q(y) (y - z) + sum alpha^j f_ij(z) == sum alpha^j f_ij(y)`.
pub proof fn law_opening_check<F: Field, E: FieldExtension<F>, H: Hasher<F>>(
    batch: FriBatchInfo<E>,
    oracles: Seq<&PolynomialBatch<F, H>>,
    alpha: E,
    y: F,
)
    requires
        batch_valid(batch, oracles),
        alpha.wf(),
        y.wf(),
    ensures
        eval(batch_quotient(batch, oracles, alpha), E::embed_spec(y)).mul_spec(
            E::embed_spec(y).add_spec(batch.point.neg_spec()),
        ).add_spec(
            power_sum(values_at(batch_polys(batch, oracles), batch.point), alpha),
        ) == power_sum(
            Seq::new(
                batch.polynomials@.len(),
                |j: int| E::embed_spec(eval(batch_polys(batch, oracles)[j], y)),
            ),
            alpha,
        ),
        ({
            let at_z = Seq::new(
                batch.polynomials@.len(),
                |j: int|
                    {
                        let info = batch.polynomials@[j];
                        let f =
                            oracles[info.oracle_index as int].polynomials@[info.polynomial_index as int].coeffs@;
                        eval(Seq::new(f.len(), |i: int| E::embed_spec(f[i])), batch.point)
                    },
            );
            let at_y = Seq::new(
                batch.polynomials@.len(),
                |j: int|
                    {
                        let info = batch.polynomials@[j];
                        let f =
                            oracles[info.oracle_index as int].polynomials@[info.polynomial_index as int].coeffs@;
                        E::embed_spec(eval(f, y))
                    },
            );
            eval(batch_quotient(batch, oracles, alpha), E::embed_spec(y)).mul_spec(
                E::embed_spec(y).add_spec(batch.point.neg_spec()),
            ).add_spec(power_sum(at_z, alpha)) == power_sum(at_y, alpha)
        }),
{
    lemma_opened_values(batch, oracles, batch.point);
    let polys = batch_polys(batch, oracles);
    let x = E::embed_spec(y);
    E::lemma_embed(y, y);
    lemma_batch_polys_wf(batch, oracles);
    law_quotient(batch, oracles, alpha, x);
    law_composition::<F, E>(polys, alpha, x);
    law_composition::<F, E>(polys, alpha, batch.point);
    assert forall|j: int| 0 <= j < polys.len() implies #[trigger] values_at::<F, E>(polys, x)[j]
        == E::embed_spec(eval(polys[j], y)) by {
        assert(all_wf(polys[j]));
        law_values_of_embedded::<F, E>(polys[j], y);
    }
    assert(values_at::<F, E>(polys, x) =~= Seq::new(
        batch.polynomials@.len(),
        |j: int| E::embed_spec(eval(polys[j], y)),
    ));
    assert(values_at::<F, E>(polys, x) =~= Seq::new(
        batch.polynomials@.len(),
        |j: int|
            {
                let info = batch.polynomials@[j];
                let f =
                    oracles[info.oracle_index as int].polynomials@[info.polynomial_index as int].coeffs@;
                E::embed_spec(eval(f, y))
            },
    ));
}

/// The values of the opened polynomials, each named by its entry of the batch.
proof fn lemma_opened_values<F: Field, E: FieldExtension<F>, H: Hasher<F>>(
    batch: FriBatchInfo<E>,
    oracles: Seq<&PolynomialBatch<F, H>>,
    x: E,
)
    ensures
        values_at::<F, E>(batch_polys(batch, oracles), x) == Seq::new(
            batch.polynomials@.len(),
            |j: int|
                {
                    let info = batch.polynomials@[j];
                    let f =
                        oracles[info.oracle_index as int].polynomials@[info.polynomial_index as int].coeffs@;
                    eval(Seq::new(f.len(), |i: int| E::embed_spec(f[i])), x)
                },
        ),
{
    let named = Seq::new(
        batch.polynomials@.len(),
        |j: int|
            {
                let info = batch.polynomials@[j];
                let f =
                    oracles[info.oracle_index as int].polynomials@[info.polynomial_index as int].coeffs@;
                eval(Seq::new(f.len(), |i: int| E::embed_spec(f[i])), x)
            },
    );
    assert forall|j: int| 0 <= j < named.len() implies #[trigger] values_at::<F, E>(
        batch_polys(batch, oracles),
        x,
    )[j] == named[j] by {
        let info = batch.polynomials@[j];
        let f = oracles[info.oracle_index as int].polynomials@[info.polynomial_index as int].coeffs@;
        assert(batch_polys(batch, oracles)[j] == f);
        assert(poly_embed::<F, E>(f) =~= Seq::new(f.len(), |i: int| E::embed_spec(f[i])));
    }
    assert(values_at::<F, E>(batch_polys(batch, oracles), x) =~= named);
}

/// The quotient of a batch at any point of the extension: the power `alpha^j` goes
/// with the polynomial that entry `j` of the batch names,
/// `q(x) (x - z) + sum alpha^j f_j(z) == sum alpha^j f_j(x)`.
pub proof fn law_quotient_of_named<F: Field, E: FieldExtension<F>, H: Hasher<F>>(
    batch: FriBatchInfo<E>,
    oracles: Seq<&PolynomialBatch<F, H>>,
    alpha: E,
    x: E,
)
    requires
        batch_valid(batch, oracles),
        alpha.wf(),
        x.wf(),
    ensures
        ({
            let at_z = Seq::new(
                batch.polynomials@.len(),
                |j: int|
                    {
                        let info = batch.polynomials@[j];
                        let f =
                            oracles[info.oracle_index as int].polynomials@[info.polynomial_index as int].coeffs@;
                        eval(Seq::new(f.len(), |i: int| E::embed_spec(f[i])), batch.point)
                    },
            );
            let at_x = Seq::new(
                batch.polynomials@.len(),
                |j: int|
                    {
                        let info = batch.polynomials@[j];
                        let f =
                            oracles[info.oracle_index as int].polynomials@[info.polynomial_index as int].coeffs@;
                        eval(Seq::new(f.len(), |i: int| E::embed_spec(f[i])), x)
                    },
            );
            eval(batch_quotient(batch, oracles, alpha), x).mul_spec(
                x.add_spec(batch.point.neg_spec()),
            ).add_spec(power_sum(at_z, alpha)) == power_sum(at_x, alpha)
        }),
{
    let polys = batch_polys(batch, oracles);
    lemma_batch_polys_wf(batch, oracles);
    law_quotient(batch, oracles, alpha, x);
    law_composition::<F, E>(polys, alpha, x);
    law_composition::<F, E>(polys, alpha, batch.point);
    lemma_opened_values(batch, oracles, x);
    lemma_opened_values(batch, oracles, batch.point);
}

/// The oracle is a commitment over a domain of `2^bits` points.
pub open spec fn is_commitment<F: Field, H: Hasher<F>>(
    oracle: PolynomialBatch<F, H>,
    bits: nat,
) -> bool {
    &&& oracle.degree_log + oracle.rate_bits == bits
    &&& exists|rate_bits: nat, blinding: bool, cap_height: nat, salts: Seq<Seq<F>>|
        committable(oracle.polynomials@, rate_bits) && #[trigger] oracle.commits_to(
            oracle.polynomials@,
            rate_bits,
            blinding,
            cap_height,
            salts,
        )
}

/// The check of an opening on what is read from the oracles: at point `i` of the
/// domain, `q(y) (y - z) + sum alpha^j f_j(z)` is the sum of `alpha^j` times the
/// value that the oracle which entry `j` names gives for the polynomial which it
/// names.
pub proof fn law_opening_check_on_rows<F: Field, E: FieldExtension<F>, H: Hasher<F>>(
    batch: FriBatchInfo<E>,
    oracles: Seq<&PolynomialBatch<F, H>>,
    alpha: E,
    bits: nat,
    i: nat,
)
    requires
        batch_valid(batch, oracles),
        alpha.wf(),
        bits <= F::two_adicity_spec(),
        i < pow2(bits),
        i <= usize::MAX,
        forall|j: int|
            0 <= j < batch.polynomials@.len() ==> is_commitment(
                *oracles[(#[trigger] batch.polynomials@[j]).oracle_index as int],
                bits,
            ),
    ensures
        ({
            let x = E::embed_spec(
                F::coset_shift_spec().mul_spec(pow(F::root_spec(bits), i)),
            );
            let at_z = Seq::new(
                batch.polynomials@.len(),
                |j: int|
                    {
                        let info = batch.polynomials@[j];
                        let f =
                            oracles[info.oracle_index as int].polynomials@[info.polynomial_index as int].coeffs@;
                        eval(Seq::new(f.len(), |i: int| E::embed_spec(f[i])), batch.point)
                    },
            );
            let read = Seq::new(
                batch.polynomials@.len(),
                |j: int|
                    {
                        let info = batch.polynomials@[j];
                        E::embed_spec(
                            oracles[info.oracle_index as int].lde_row(
                                i as int,
                                1,
                            )[info.polynomial_index as int],
                        )
                    },
            );
            eval(batch_quotient(batch, oracles, alpha), x).mul_spec(
                x.add_spec(batch.point.neg_spec()),
            ).add_spec(power_sum(at_z, alpha)) == power_sum(read, alpha)
        }),
{
    law_same_points::<F, E>(bits, i);
    let y = F::coset_shift_spec().mul_spec(pow(F::root_spec(bits), i));
    law_opening_check(batch, oracles, alpha, y);
    let read = Seq::new(
        batch.polynomials@.len(),
        |j: int|
            {
                let info = batch.polynomials@[j];
                E::embed_spec(
                    oracles[info.oracle_index as int].lde_row(
                        i as int,
                        1,
                    )[info.polynomial_index as int],
                )
            },
    );
    let at_y = Seq::new(
        batch.polynomials@.len(),
        |j: int|
            {
                let info = batch.polynomials@[j];
                let f =
                    oracles[info.oracle_index as int].polynomials@[info.polynomial_index as int].coeffs@;
                E::embed_spec(eval(f, y))
            },
    );
    assert forall|j: int| 0 <= j < read.len() implies read[j] == #[trigger] at_y[j] by {
        let info = batch.polynomials@[j];
        let oracle = *oracles[info.oracle_index as int];
        assert(is_commitment(oracle, bits));
        let (rate_bits, blinding, cap_height, salts) = choose|
            rate_bits: nat,
            blinding: bool,
            cap_height: nat,
            salts: Seq<Seq<F>>,
        |
            committable(oracle.polynomials@, rate_bits) && #[trigger] oracle.commits_to(
                oracle.polynomials@,
                rate_bits,
                blinding,
                cap_height,
                salts,
            );
        if bits == 0 {
            lemma2_to64();
        }
        law_read_back(
            oracle,
            oracle.polynomials@,
            rate_bits,
            blinding,
            cap_height,
            salts,
            i as int,
            1,
        );
        assert(oracle.lde_row(i as int, 1)[info.polynomial_index as int] == eval(
            oracle.polynomials@[info.polynomial_index as int].coeffs@,
            y,
        ));
    }
    assert(read =~= at_y);
}

/// The exponents follow on from each other: none is left out between the last
/// polynomial of a batch and the first of the batch before it, and the last batch
/// starts at zero.
pub proof fn law_powers_follow_on<E: Field>(batches: Seq<FriBatchInfo<E>>, i: int)
    requires
        0 <= i < batches.len(),
    ensures
        i == batches.len() - 1 ==> powers_after(batches, i) == 0,
        i < batches.len() - 1 ==> powers_after(batches, i) == powers_after(batches, i + 1)
            + batches[i + 1].polynomials@.len(),
{
}

/// The value of a polynomial is the sum of its coefficients times the powers of
/// the point.
pub proof fn law_value_is_sum_of_powers<F: Field>(c: Seq<F>, x: F)
    requires
        all_wf(c),
        x.wf(),
    ensures
        eval(c, x) == power_sum(c, x),
    decreases c.len(),
{
    if c.len() > 0 {
        law_value_is_sum_of_powers(c.drop_last(), x);
        lemma_eval_last(c, x);
    }
}

proof fn lemma_eval_last<F: Field>(c: Seq<F>, x: F)
    requires
        all_wf(c),
        x.wf(),
        c.len() > 0,
    ensures
        eval(c, x) == eval(c.drop_last(), x).add_spec(
            c.last().mul_spec(pow(x, (c.len() - 1) as nat)),
        ),
    decreases c.len(),
{
    let head = c.drop_last();
    let last = c.last();
    let (c0, rest) = (c[0], c.skip(1));
    F::lemma_constants();
    assert(c[c.len() - 1].wf());
    lemma_mul_zero(x);
    if c.len() == 1 {
        assert(eval(rest, x) == F::zero_spec());
        assert(eval(head, x) == F::zero_spec());
        assert(pow(x, 0) == F::one_spec());
        F::lemma_mul_one(last);
        F::lemma_add_zero(last);
        F::lemma_add_commutes(F::zero_spec(), last);
    } else {
        lemma_eval_last(rest, x);
        let inner = rest.drop_last();
        assert(head.skip(1) =~= inner);
        let k = (c.len() - 2) as nat;
        lemma_pow_wf(x, k);
        lemma_eval_wf(inner, x);
        let e = eval(inner, x);
        let t = last.mul_spec(pow(x, k));
        F::lemma_closed(last, pow(x, k));
        // x (e + t) == x e + last x^(k + 1)
        F::lemma_mul_distributes(x, e, t);
        F::lemma_mul_commutes(last, pow(x, k));
        F::lemma_mul_associates(x, pow(x, k), last);
        F::lemma_closed(x, pow(x, k));
        F::lemma_mul_commutes(x.mul_spec(pow(x, k)), last);
        assert(pow(x, k + 1) == x.mul_spec(pow(x, k)));
        F::lemma_closed(x, e);
        F::lemma_closed(x, t);
        F::lemma_add_associates(c0, x.mul_spec(e), x.mul_spec(t));
    }
}

proof fn lemma_compose_len<F: Field, E: FieldExtension<F>>(polys: Seq<Seq<F>>, alpha: E, n: nat)
    requires
        polys.len() > 0,
        forall|j: int| 0 <= j < polys.len() ==> (#[trigger] polys[j]).len() == n,
    ensures
        poly_compose::<F, E>(polys, alpha).len() == n,
    decreases polys.len(),
{
    let head = polys.drop_last();
    assert(polys[polys.len() - 1].len() == n);
    if head.len() > 0 {
        assert forall|j: int| 0 <= j < head.len() implies (#[trigger] head[j]).len() == n by {
            assert(head[j] == polys[j]);
        }
        lemma_compose_len::<F, E>(head, alpha, n);
    } else {
        assert(poly_compose::<F, E>(head, alpha).len() == 0);
    }
}

/// Where all opened polynomials have the same length and no batch is empty, the
/// final polynomial has that length too.
pub proof fn law_final_length<F: Field, E: FieldExtension<F>, H: Hasher<F>>(
    batches: Seq<FriBatchInfo<E>>,
    oracles: Seq<&PolynomialBatch<F, H>>,
    alpha: E,
    n: nat,
)
    requires
        n > 0,
        batches.len() > 0,
        forall|i: int| 0 <= i < batches.len() ==> (#[trigger] batches[i]).polynomials@.len() > 0,
        forall|i: int, j: int|
            #![trigger batch_polys(batches[i], oracles)[j]]
            0 <= i < batches.len() && 0 <= j < batches[i].polynomials@.len() ==> batch_polys(
                batches[i],
                oracles,
            )[j].len() == n,
    ensures
        opening_poly(batches, oracles, alpha).len() == n,
    decreases batches.len(),
{
    let head = batches.drop_last();
    let last = batches.len() - 1;
    assert(batches[last].polynomials@.len() > 0);
    let polys = batch_polys(batches[last], oracles);
    assert forall|j: int| 0 <= j < polys.len() implies (#[trigger] polys[j]).len() == n by {
        assert(batch_polys(batches[last], oracles)[j].len() == n);
    }
    lemma_compose_len::<F, E>(polys, alpha, n);
    if head.len() > 0 {
        assert forall|i: int| 0 <= i < head.len() implies (
        #[trigger] head[i]).polynomials@.len() > 0 by {
            assert(head[i] == batches[i]);
        }
        assert forall|i: int, j: int|
            #![trigger batch_polys(head[i], oracles)[j]]
            0 <= i < head.len() && 0 <= j < head[i].polynomials@.len() implies batch_polys(
            head[i],
            oracles,
        )[j].len() == n by {
            assert(batch_polys(batches[i], oracles)[j].len() == n);
        }
        law_final_length(head, oracles, alpha, n);
    } else {
        assert(opening_poly(head, oracles, alpha).len() == 0);
    }
}

} // verus!
