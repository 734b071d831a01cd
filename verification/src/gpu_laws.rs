//! What holds of every batch that a device works on.

use vstd::arithmetic::div_mod::{lemma_fundamental_div_mod, lemma_mod_bound};
use vstd::arithmetic::power2::{lemma_pow2_pos, pow2};
use vstd::prelude::*;

use crate::bits::{lemma_power_of_two_times, log2};
use crate::commitment_laws::law_digest_count;
use crate::field::{lemma_pow_of_product, lemma_pow_one, pow, Field};
use crate::gpu::{ext_values_len, num_digests, num_digests_and_caps, GpuPlan};
use crate::merkle::Hasher;
use crate::oracle::{committable, salt_size, PolynomialBatch};
use crate::polynomial::PolynomialCoeffs;

verus! {

proof fn lemma_log2_below(n: nat)
    requires
        n >= 1,
    ensures
        log2(n) < n,
    decreases n,
{
    if n > 1 {
        lemma_log2_below(n / 2);
    }
}

/// Every number of a plan is the one that it stands for: none is too large for
/// a machine word.
pub proof fn law_plan_numbers<F: Field>(plan: GpuPlan<F>)
    requires
        plan.wf(),
    ensures
        plan.degree_log == log2(plan.degree as nat),
        plan.degree == pow2(plan.degree_log as nat),
        plan.salt_size == salt_size(plan.blinding),
        plan.num_digests == num_digests(
            plan.degree as nat,
            plan.rate_bits as nat,
            plan.cap_height as nat,
        ),
        plan.num_digests_and_caps == num_digests_and_caps(
            plan.degree as nat,
            plan.rate_bits as nat,
            plan.cap_height as nat,
        ),
        plan.values_flatten_len == plan.num_polynomials * plan.degree,
        plan.ext_values_flatten_len == ext_values_len(
            plan.num_polynomials as nat,
            plan.degree as nat,
            plan.rate_bits as nat,
            plan.blinding,
        ),
        plan.pad_extvalues_len == plan.ext_values_flatten_len,
        plan.values_flatten_len <= plan.ext_values_flatten_len,
{
    let salt = salt_size(plan.blinding);
    let flat = plan.num_polynomials * plan.degree + salt * plan.degree;
    let scale = pow2(plan.rate_bits as nat) as int;
    lemma_pow2_pos(plan.rate_bits as nat);
    lemma_pow2_pos(plan.cap_height as nat);
    lemma_power_of_two_times(plan.degree as nat, 0);
    lemma_log2_below(plan.degree as nat);
    assert(plan.num_polynomials * plan.degree >= 0) by (nonlinear_arith);
    assert(salt * plan.degree >= 0) by (nonlinear_arith);
    assert(flat <= flat * scale) by (nonlinear_arith)
        requires
            flat >= 0,
            scale >= 1,
    ;
}

/// The coefficients lie where the leaves will be, the digests follow the
/// padding behind the leaves, and the end of the digests fits into a machine word.
pub proof fn law_device_layout<F: Field>(plan: GpuPlan<F>)
    requires
        plan.wf(),
    ensures
        plan.values_flatten_len <= plan.ext_values_flatten_len,
        plan.digests_start() == plan.ext_values_device_offset + 2 * plan.ext_values_flatten_len,
        plan.digests_start() + plan.digests_len() <= usize::MAX,
{
    law_plan_numbers(plan);
}

/// There is one leaf for each point of the extended domain, with an element for
/// each polynomial and for each salt.
pub proof fn law_device_leaves<F: Field>(plan: GpuPlan<F>)
    requires
        plan.wf(),
    ensures
        plan.ext_values_flatten_len == (plan.num_polynomials + plan.salt_size) * (plan.degree
            * pow2(plan.rate_bits as nat)),
{
    law_plan_numbers(plan);
    let n = plan.num_polynomials as int;
    let s = plan.salt_size as int;
    let d = plan.degree as int;
    let scale = pow2(plan.rate_bits as nat) as int;
    assert((n * d + s * d) * scale == (n + s) * (d * scale)) by (nonlinear_arith);
}

/// A device computes as many digests for a batch as the host does.
pub proof fn law_device_digest_count<F: Field, H: Hasher<F>>(
    plan: GpuPlan<F>,
    batch: PolynomialBatch<F, H>,
    polynomials: Seq<PolynomialCoeffs<F>>,
    salts: Seq<Seq<F>>,
)
    requires
        plan.wf(),
        committable(polynomials, plan.rate_bits as nat),
        polynomials[0].coeffs@.len() == plan.degree,
        batch.commits_to(
            polynomials,
            plan.rate_bits as nat,
            plan.blinding,
            plan.cap_height as nat,
            salts,
        ),
        plan.cap_height <= batch.lde_bits(),
    ensures
        batch.merkle_tree.digests@.len() == plan.num_digests,
        batch.merkle_tree.digests@.len() + batch.merkle_tree.cap.0@.len()
            == plan.num_digests_and_caps,
{
    law_plan_numbers(plan);
    law_digest_count(
        batch,
        polynomials,
        plan.rate_bits as nat,
        plan.blinding,
        plan.cap_height as nat,
        salts,
    );
}

/// The factor that goes into the inverse transform is the inverse of the degree.
pub proof fn law_inverse_of_degree<F: Field>(plan: GpuPlan<F>)
    requires
        plan.wf(),
    ensures
        plan.degree == pow2(plan.degree_log as nat),
        plan.n_inv.mul_spec(
            pow(F::one_spec().add_spec(F::one_spec()), plan.degree_log as nat),
        ) == F::one_spec(),
{
    law_plan_numbers(plan);
    let one = F::one_spec();
    let two = one.add_spec(one);
    let half = F::half_spec();
    F::lemma_constants();
    F::lemma_closed(one, one);
    F::lemma_mul_distributes(half, one, one);
    F::lemma_mul_one(half);
    lemma_pow_of_product(half, two, plan.degree_log as nat);
    lemma_pow_one::<F>(plan.degree_log as nat);
}

/// The polynomials of a batch hold all coefficients that the device handed
/// back, in the same order.
pub proof fn law_chunks<F: Field, H: Hasher<F>>(
    batch: PolynomialBatch<F, H>,
    plan: GpuPlan<F>,
    coeffs: Seq<F>,
    flatten_leaves: Seq<F>,
    leaves_len: int,
    digests_and_caps: Seq<H::Hash>,
    k: int,
)
    requires
        plan.wf(),
        batch.is_device_batch(plan, coeffs, flatten_leaves, leaves_len, digests_and_caps),
        coeffs.len() == plan.values_flatten_len,
        0 <= k < coeffs.len(),
    ensures
        0 <= k / (plan.degree as int) < batch.polynomials@.len(),
        batch.polynomials@[k / (plan.degree as int)].coeffs@.len() == plan.degree,
        batch.polynomials@[k / (plan.degree as int)].coeffs@[k % (plan.degree as int)] == coeffs[k],
{
    law_plan_numbers(plan);
    let d = plan.degree as int;
    let n = plan.num_polynomials as int;
    lemma_power_of_two_times(plan.degree as nat, 0);
    lemma_fundamental_div_mod(k, d);
    lemma_mod_bound(k, d);
    let j = k / d;
    assert(0 <= j < n) by (nonlinear_arith)
        requires
            k == d * j + k % d,
            0 <= k < n * d,
            0 <= k % d < d,
            d > 0,
    ;
    assert(j * d + d == (j + 1) * d && j * d == d * j && (j + 1) * d <= n * d) by (nonlinear_arith)
        requires
            j + 1 <= n,
            d > 0,
    ;
    assert(0 <= j * d) by (nonlinear_arith)
        requires
            j >= 0,
            d > 0,
    ;
    assert(batch.polynomials@[j].coeffs@ == coeffs.subrange(j * d, (j + 1) * d));
}

} // verus!
