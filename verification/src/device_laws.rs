//! What the work that is asked of a device comes to.

use vstd::arithmetic::power2::{lemma_pow2_pos, pow2};
use vstd::prelude::*;

use crate::bits::{lemma_power_of_two_times, log2};
use crate::field::{pow, Field};
use crate::gpu::{gpu_plan, gpu_sizes_fit, GpuAction, GpuPlan};
use crate::gpu_laws::{law_inverse_of_degree, law_plan_numbers};
use crate::merkle::Hasher;
use crate::oracle::PolynomialBatch;
use crate::polynomial::eval;

verus! {

/// The memory of the device, and what has been copied from it to the host.
pub struct DeviceState<F> {
    pub memory: Seq<F>,
    pub coeffs: Seq<F>,
    pub digests: Seq<F>,
}

/// The elements of the digests and the cap of the tree that the device builds,
/// from the coefficients, the number of polynomials, their length, the rate, the
/// number of salts and the height of the cap.
pub type TreeKernel<F> = spec_fn(Seq<F>, nat, nat, nat, nat, nat) -> Seq<F>;

/// The kernel gives four elements for each digest below the cap, of which there
/// are two for each leaf that the cap has not, and for each entry of the cap.
pub open spec fn is_tree_kernel<F>(tree: TreeKernel<F>) -> bool {
    forall|c: Seq<F>, n: nat, d: nat, rate_bits: nat, salts: nat, cap_height: nat|
        pow2(cap_height) <= d * pow2(rate_bits) ==> (#[trigger] tree(
            c,
            n,
            d,
            rate_bits,
            salts,
            cap_height,
        )).len() == 4 * (2 * (d * pow2(rate_bits) - pow2(cap_height)) + pow2(cap_height))
}

/// Outside of the given range the memory is as it was.
pub open spec fn keeps_outside<F>(before: Seq<F>, after: Seq<F>, start: int, end: int) -> bool {
    &&& after.len() == before.len()
    &&& forall|k: int|
        0 <= k < before.len() && !(start <= k < end) ==> (#[trigger] after[k]) == before[k]
}

/// What one action does, where `values` are the values on the host.
pub open spec fn performs<F: Field>(
    action: GpuAction<F>,
    values: Seq<F>,
    tree: TreeKernel<F>,
    before: DeviceState<F>,
    after: DeviceState<F>,
) -> bool {
    match action {
        GpuAction::CopyValuesToDevice { start, len } => {
            &&& after.coeffs == before.coeffs
            &&& after.digests == before.digests
            &&& keeps_outside(before.memory, after.memory, start as int, start + len)
            &&& len == values.len() ==> forall|k: int|
                0 <= k < len ==> after.memory[start + k] == (#[trigger] values[k])
        },
        GpuAction::Ifft { start, num_polynomials, degree, degree_log, n_inv } => {
            &&& after.coeffs == before.coeffs
            &&& after.digests == before.digests
            &&& keeps_outside(
                before.memory,
                after.memory,
                start as int,
                start + num_polynomials * degree,
            )
            &&& degree == pow2(degree_log as nat) && n_inv.mul_spec(
                pow(F::one_spec().add_spec(F::one_spec()), degree_log as nat),
            ) == F::one_spec() ==> forall|j: int, i: int|
                #![trigger before.memory[start + j * degree + i]]
                0 <= j < num_polynomials && 0 <= i < degree ==> eval(
                    after.memory.subrange(start + j * degree, start + (j + 1) * degree),
                    pow(F::root_spec(degree_log as nat), i as nat),
                ) == before.memory[start + j * degree + i]
        },
        GpuAction::CopyCoeffsToHost { start, len } => {
            &&& after.memory == before.memory
            &&& after.digests == before.digests
            &&& after.coeffs == before.memory.subrange(start as int, start + len)
        },
        GpuAction::MerkleTreeFromCoeffs {
            start,
            num_polynomials,
            degree,
            degree_log,
            rate_bits,
            salt_size,
            cap_height,
            pad_extvalues_len,
        } => {
            let leaves = (num_polynomials + salt_size) * (degree * pow2(rate_bits as nat));
            let at = start + leaves + pad_extvalues_len;
            let out = tree(
                before.memory.subrange(start as int, start + num_polynomials * degree),
                num_polynomials as nat,
                degree as nat,
                rate_bits as nat,
                salt_size as nat,
                cap_height as nat,
            );
            &&& after.coeffs == before.coeffs
            &&& after.digests == before.digests
            &&& keeps_outside(before.memory, after.memory, start as int, at + out.len())
            &&& degree == pow2(degree_log as nat) ==> after.memory.subrange(at, at + out.len())
                == out
        },
        GpuAction::CopyDigestsToHost { start, len } => {
            &&& after.memory == before.memory
            &&& after.coeffs == before.coeffs
            &&& after.digests == before.memory.subrange(start as int, start + len)
        },
    }
}

/// The states that a device goes through when it does the given work in order.
pub open spec fn runs<F: Field>(
    actions: Seq<GpuAction<F>>,
    values: Seq<F>,
    tree: TreeKernel<F>,
    states: Seq<DeviceState<F>>,
) -> bool {
    &&& states.len() == actions.len() + 1
    &&& forall|k: int|
        0 <= k < actions.len() ==> performs(
            #[trigger] actions[k],
            values,
            tree,
            states[k],
            states[k + 1],
        )
}

/// The number of elements in the memory of the device that a batch takes: the
/// leaves, as much again, and four for each digest and each entry of the cap.
pub open spec fn device_room(
    num_polynomials: nat,
    degree: nat,
    rate_bits: nat,
    salts: nat,
    cap_height: nat,
) -> int {
    2 * ((num_polynomials + salts) * (degree * pow2(rate_bits))) + 4 * (2 * (degree * pow2(
        rate_bits,
    ) - pow2(cap_height)) + pow2(cap_height))
}

proof fn lemma_plan<F: Field>(
    num_polynomials: usize,
    degree: usize,
    rate_bits: usize,
    blinding: bool,
    cap_height: usize,
    device_offset: usize,
) -> (plan: GpuPlan<F>)
    requires
        gpu_sizes_fit(
            num_polynomials as nat,
            degree as nat,
            rate_bits as nat,
            blinding,
            cap_height as nat,
            device_offset as nat,
        ),
    ensures
        plan == gpu_plan::<F>(
            num_polynomials,
            degree,
            rate_bits,
            blinding,
            cap_height,
            device_offset,
        ),
        plan.wf(),
        plan.num_polynomials == num_polynomials,
        plan.degree == degree,
        plan.degree == pow2(plan.degree_log as nat),
        plan.degree_log == log2(degree as nat),
        plan.rate_bits == rate_bits,
        plan.salt_size == if blinding {
            4int
        } else {
            0
        },
        plan.cap_height == cap_height,
        plan.values_flatten_len == num_polynomials * degree,
        plan.ext_values_flatten_len == (num_polynomials + plan.salt_size) * (degree * pow2(
            rate_bits as nat,
        )),
        plan.values_flatten_len <= plan.ext_values_flatten_len,
        plan.pad_extvalues_len == plan.ext_values_flatten_len,
        plan.ext_values_device_offset == device_offset,
        plan.num_digests == 2 * (degree * pow2(rate_bits as nat) - pow2(cap_height as nat)),
        plan.num_digests_and_caps == plan.num_digests + pow2(cap_height as nat),
        plan.digests_start() == device_offset + 2 * plan.ext_values_flatten_len,
        plan.digests_start() + plan.digests_len() <= usize::MAX,
        plan.digests_len() == 4 * plan.num_digests_and_caps,
        degree >= 1,
{
    let plan = gpu_plan::<F>(
        num_polynomials,
        degree,
        rate_bits,
        blinding,
        cap_height,
        device_offset,
    );
    lemma_pow2_pos(rate_bits as nat);
    lemma_pow2_pos(cap_height as nat);
    lemma_power_of_two_times(degree as nat, 0);
    assert(plan.wf());
    law_plan_numbers(plan);
    let (n, s, d) = (num_polynomials as int, plan.salt_size as int, degree as int);
    let scale = pow2(rate_bits as nat) as int;
    assert((n * d + s * d) * scale == (n + s) * (d * scale)) by (nonlinear_arith);
    plan
}

/// The tree that a schedule asks for is that of the batch: it has as many leaves
/// as the extended domain has points, each with an element for each polynomial and
/// each salt, which the plan sets aside the memory for, and a cap of the given
/// height. It is asked for once.
pub proof fn law_scheduled_tree<F: Field>(
    num_polynomials: usize,
    degree: usize,
    rate_bits: usize,
    blinding: bool,
    cap_height: usize,
    device_offset: usize,
    from_values: bool,
    k: int,
)
    requires
        gpu_sizes_fit(
            num_polynomials as nat,
            degree as nat,
            rate_bits as nat,
            blinding,
            cap_height as nat,
            device_offset as nat,
        ),
    ensures
        ({
            let plan = gpu_plan::<F>(
                num_polynomials,
                degree,
                rate_bits,
                blinding,
                cap_height,
                device_offset,
            );
            let schedule = if from_values {
                plan.values_schedule()
            } else {
                plan.coeffs_schedule()
            };
            &&& 0 <= k < schedule.len() && schedule[k] is MerkleTreeFromCoeffs ==> k
                == schedule.len() - 2
            &&& schedule[schedule.len() - 2] matches GpuAction::MerkleTreeFromCoeffs {
                start,
                num_polynomials: asked_polynomials,
                degree: asked_degree,
                degree_log,
                rate_bits: asked_rate_bits,
                salt_size,
                cap_height: asked_cap_height,
                pad_extvalues_len,
            } && {
                &&& start == device_offset
                &&& asked_polynomials == num_polynomials
                &&& asked_degree == degree
                &&& asked_degree == pow2(degree_log as nat)
                &&& asked_rate_bits == rate_bits
                &&& salt_size == if blinding {
                    4int
                } else {
                    0
                }
                &&& asked_cap_height == cap_height
                &&& (asked_polynomials + salt_size) * (asked_degree * pow2(asked_rate_bits as nat))
                    == plan.ext_values_flatten_len
                &&& pad_extvalues_len == plan.ext_values_flatten_len
                &&& pow2(asked_cap_height as nat) == plan.num_digests_and_caps - plan.num_digests
                &&& 2 * (asked_degree * pow2(asked_rate_bits as nat) - pow2(
                    asked_cap_height as nat,
                )) == plan.num_digests
            }
        }),
{
    let plan = lemma_plan::<F>(
        num_polynomials,
        degree,
        rate_bits,
        blinding,
        cap_height,
        device_offset,
    );
}

/// The work for coefficients that the device already holds: they end up on the
/// host, and so do the digests and the cap of the tree over them, for the given
/// rate, salts and height of the cap. Nothing else in the memory of the device
/// changes.
pub proof fn law_work_for_coeffs<F: Field>(
    num_polynomials: usize,
    degree: usize,
    rate_bits: usize,
    blinding: bool,
    cap_height: usize,
    device_offset: usize,
    values: Seq<F>,
    tree: TreeKernel<F>,
    states: Seq<DeviceState<F>>,
)
    requires
        gpu_sizes_fit(
            num_polynomials as nat,
            degree as nat,
            rate_bits as nat,
            blinding,
            cap_height as nat,
            device_offset as nat,
        ),
        is_tree_kernel(tree),
        runs(
            gpu_plan::<F>(
                num_polynomials,
                degree,
                rate_bits,
                blinding,
                cap_height,
                device_offset,
            ).coeffs_schedule(),
            values,
            tree,
            states,
        ),
        device_offset + device_room(
            num_polynomials as nat,
            degree as nat,
            rate_bits as nat,
            if blinding {
                4
            } else {
                0
            },
            cap_height as nat,
        ) <= states[0].memory.len(),
    ensures
        ({
            let salts: nat = if blinding {
                4
            } else {
                0
            };
            let (first, last) = (states[0], states.last());
            let coeffs = first.memory.subrange(
                device_offset as int,
                device_offset + num_polynomials * degree,
            );
            &&& last.coeffs == coeffs
            &&& last.digests == tree(
                coeffs,
                num_polynomials as nat,
                degree as nat,
                rate_bits as nat,
                salts,
                cap_height as nat,
            )
            &&& keeps_outside(
                first.memory,
                last.memory,
                device_offset as int,
                device_offset + device_room(
                    num_polynomials as nat,
                    degree as nat,
                    rate_bits as nat,
                    salts,
                    cap_height as nat,
                ),
            )
        }),
{
    let plan = lemma_plan::<F>(
        num_polynomials,
        degree,
        rate_bits,
        blinding,
        cap_height,
        device_offset,
    );
    let schedule = plan.coeffs_schedule();
    assert(schedule.len() == 3);
    assert(performs(schedule[0], values, tree, states[0], states[1]));
    assert(performs(schedule[1], values, tree, states[1], states[2]));
    assert(performs(schedule[2], values, tree, states[2], states[3]));
    let out = tree(
        states[1].memory.subrange(device_offset as int, device_offset + num_polynomials * degree),
        num_polynomials as nat,
        degree as nat,
        rate_bits as nat,
        plan.salt_size as nat,
        cap_height as nat,
    );
    assert(out.len() == plan.digests_len());
    assert(states.last() == states[3]);
}

/// The work for values on the host: the coefficients of the polynomials that take
/// them over the subgroup end up on the host, and so do the digests and the cap of
/// the tree over these polynomials, for the given rate, salts and height of the
/// cap. Nothing else in the memory of the device changes.
pub proof fn law_work_for_values<F: Field>(
    num_polynomials: usize,
    degree: usize,
    rate_bits: usize,
    blinding: bool,
    cap_height: usize,
    device_offset: usize,
    values: Seq<F>,
    tree: TreeKernel<F>,
    states: Seq<DeviceState<F>>,
)
    requires
        gpu_sizes_fit(
            num_polynomials as nat,
            degree as nat,
            rate_bits as nat,
            blinding,
            cap_height as nat,
            device_offset as nat,
        ),
        is_tree_kernel(tree),
        values.len() == num_polynomials * degree,
        runs(
            gpu_plan::<F>(
                num_polynomials,
                degree,
                rate_bits,
                blinding,
                cap_height,
                device_offset,
            ).values_schedule(),
            values,
            tree,
            states,
        ),
        device_offset + device_room(
            num_polynomials as nat,
            degree as nat,
            rate_bits as nat,
            if blinding {
                4
            } else {
                0
            },
            cap_height as nat,
        ) <= states[0].memory.len(),
    ensures
        ({
            let salts: nat = if blinding {
                4
            } else {
                0
            };
            let (first, last) = (states[0], states.last());
            &&& last.coeffs.len() == num_polynomials * degree
            &&& forall|j: int, i: int|
                #![trigger values[j * degree + i]]
                0 <= j < num_polynomials && 0 <= i < degree ==> eval(
                    last.coeffs.subrange(j * degree, (j + 1) * degree),
                    pow(F::root_spec(log2(degree as nat)), i as nat),
                ) == values[j * degree + i]
            &&& last.digests == tree(
                last.coeffs,
                num_polynomials as nat,
                degree as nat,
                rate_bits as nat,
                salts,
                cap_height as nat,
            )
            &&& keeps_outside(
                first.memory,
                last.memory,
                device_offset as int,
                device_offset + device_room(
                    num_polynomials as nat,
                    degree as nat,
                    rate_bits as nat,
                    salts,
                    cap_height as nat,
                ),
            )
        }),
{
    let plan = lemma_plan::<F>(
        num_polynomials,
        degree,
        rate_bits,
        blinding,
        cap_height,
        device_offset,
    );
    law_inverse_of_degree(plan);
    let schedule = plan.values_schedule();
    let rest = plan.coeffs_schedule();
    let later = states.skip(2);
    assert(schedule.len() == 5);
    assert(schedule.skip(2) =~= rest);
    assert(runs(rest, values, tree, later)) by {
        assert forall|k: int| 0 <= k < rest.len() implies performs(
            #[trigger] rest[k],
            values,
            tree,
            later[k],
            later[k + 1],
        ) by {
            assert(schedule[k + 2] == rest[k]);
            assert(performs(schedule[k + 2], values, tree, states[k + 2], states[k + 3]));
        }
    }
    assert(performs(schedule[0], values, tree, states[0], states[1]));
    assert(performs(schedule[1], values, tree, states[1], states[2]));
    law_work_for_coeffs(
        num_polynomials,
        degree,
        rate_bits,
        blinding,
        cap_height,
        device_offset,
        values,
        tree,
        later,
    );
    let last = states.last();
    assert(last == later.last());
    let d = degree as int;
    let start = device_offset as int;
    assert forall|j: int, i: int|
        #![trigger values[j * degree + i]]
        0 <= j < num_polynomials && 0 <= i < degree implies eval(
        last.coeffs.subrange(j * degree, (j + 1) * degree),
        pow(F::root_spec(log2(degree as nat)), i as nat),
    ) == values[j * degree + i] by {
        let n = num_polynomials as int;
        assert((j + 1) * d == j * d + d && (j + 1) * d <= n * d && 0 <= j * d) by (nonlinear_arith)
            requires
                0 <= j < n,
                d >= 1,
        ;
        assert(values[j * d + i] == states[1].memory[start + (j * d + i)]);
        assert(states[1].memory[start + j * degree + i] == values[j * d + i]);
        assert(last.coeffs.subrange(j * d, (j + 1) * d) =~= states[2].memory.subrange(
            start + j * d,
            start + (j + 1) * d,
        ));
    }
}

/// The batch made of what a device hands back for values holds the polynomials
/// that take them over the subgroup.
pub proof fn law_device_batch_for_values<F: Field, H: Hasher<F>>(
    batch: PolynomialBatch<F, H>,
    num_polynomials: usize,
    degree: usize,
    rate_bits: usize,
    blinding: bool,
    cap_height: usize,
    device_offset: usize,
    values: Seq<F>,
    tree: TreeKernel<F>,
    states: Seq<DeviceState<F>>,
    flatten_leaves: Seq<F>,
    leaves_len: int,
    digests_and_caps: Seq<H::Hash>,
    j: int,
    i: int,
)
    requires
        gpu_sizes_fit(
            num_polynomials as nat,
            degree as nat,
            rate_bits as nat,
            blinding,
            cap_height as nat,
            device_offset as nat,
        ),
        is_tree_kernel(tree),
        values.len() == num_polynomials * degree,
        runs(
            gpu_plan::<F>(
                num_polynomials,
                degree,
                rate_bits,
                blinding,
                cap_height,
                device_offset,
            ).values_schedule(),
            values,
            tree,
            states,
        ),
        device_offset + device_room(
            num_polynomials as nat,
            degree as nat,
            rate_bits as nat,
            if blinding {
                4
            } else {
                0
            },
            cap_height as nat,
        ) <= states[0].memory.len(),
        batch.is_device_batch(
            gpu_plan::<F>(
                num_polynomials,
                degree,
                rate_bits,
                blinding,
                cap_height,
                device_offset,
            ),
            states.last().coeffs,
            flatten_leaves,
            leaves_len,
            digests_and_caps,
        ),
        0 <= j < num_polynomials,
        0 <= i < degree,
    ensures
        batch.polynomials@.len() == num_polynomials,
        batch.polynomials@[j].coeffs@.len() == degree,
        eval(
            batch.polynomials@[j].coeffs@,
            pow(F::root_spec(log2(degree as nat)), i as nat),
        ) == values[j * degree + i],
        pow2(batch.degree_log as nat) == degree,
        batch.rate_bits == rate_bits,
        batch.blinding == blinding,
{
    law_work_for_values(
        num_polynomials,
        degree,
        rate_bits,
        blinding,
        cap_height,
        device_offset,
        values,
        tree,
        states,
    );
    let plan = lemma_plan::<F>(
        num_polynomials,
        degree,
        rate_bits,
        blinding,
        cap_height,
        device_offset,
    );
    let (n, d) = (num_polynomials as int, degree as int);
    assert((j + 1) * d == j * d + d && (j + 1) * d <= n * d && 0 <= j * d) by (nonlinear_arith)
        requires
            0 <= j < n,
            d >= 1,
    ;
    let value = values[j * degree + i];
    assert(batch.polynomials@[j].coeffs@ == states.last().coeffs.subrange(
        j * degree,
        (j + 1) * degree,
    ));
}

/// The parts of a batch that a device made: the cap is what stands behind the
/// digests, a leaf has an element for each polynomial and each salt, and the
/// leaves together are as many as the extended domain has points.
pub proof fn law_device_batch_parts<F: Field, H: Hasher<F>>(
    batch: PolynomialBatch<F, H>,
    num_polynomials: usize,
    degree: usize,
    rate_bits: usize,
    blinding: bool,
    cap_height: usize,
    device_offset: usize,
    coeffs: Seq<F>,
    flatten_leaves: Seq<F>,
    leaves_len: int,
    digests_and_caps: Seq<H::Hash>,
)
    requires
        gpu_sizes_fit(
            num_polynomials as nat,
            degree as nat,
            rate_bits as nat,
            blinding,
            cap_height as nat,
            device_offset as nat,
        ),
        digests_and_caps.len() == 2 * (degree * pow2(rate_bits as nat) - pow2(cap_height as nat))
            + pow2(cap_height as nat),
        batch.is_device_batch(
            gpu_plan::<F>(
                num_polynomials,
                degree,
                rate_bits,
                blinding,
                cap_height,
                device_offset,
            ),
            coeffs,
            flatten_leaves,
            leaves_len,
            digests_and_caps,
        ),
    ensures
        batch.merkle_tree.cap.0@.len() == pow2(cap_height as nat),
        forall|t: int|
            0 <= t < pow2(cap_height as nat) ==> (#[trigger] batch.merkle_tree.cap.0@[t])
                == digests_and_caps[digests_and_caps.len() - pow2(cap_height as nat) + t],
        batch.merkle_tree.leaves@.len() == 0,
        batch.merkle_tree.digests@.len() == 0,
        batch.merkle_tree.device matches Some(device) && {
            &&& device.leaf_len == num_polynomials + if blinding {
                4int
            } else {
                0
            }
            &&& device.flatten_leaves@ == flatten_leaves
            &&& device.leaves_len == leaves_len
            &&& device.device_offset == device_offset
            &&& device.digests_and_cap@ == digests_and_caps
        },
{
    let plan = lemma_plan::<F>(
        num_polynomials,
        degree,
        rate_bits,
        blinding,
        cap_height,
        device_offset,
    );
    lemma_pow2_pos(cap_height as nat);
}

} // verus!
