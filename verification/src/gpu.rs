//! Batches that a device extends and puts into a Merkle tree: what the device is
//! asked to do, and the batch that is made of what it hands back.

use std::sync::Arc;

use vstd::arithmetic::power2::{lemma_pow2_pos, pow2};
use vstd::prelude::*;

use crate::bits::{is_power_of_two, lemma_power_of_two_times, log2, log2_strict, shift_left};
use crate::field::{exp_u64, pow, Field};
use crate::merkle::{DeviceTree, Hasher, MerkleCap, MerkleTree};
use crate::oracle::{salt_size, PolynomialBatch, SALT_SIZE};
use crate::polynomial::PolynomialCoeffs;

verus! {

/// The number of field elements that make up a digest.
pub const DIGEST_ELEMENTS: usize = 4;

/// The buffers on the host that belong to the three stages of a proof, and the
/// layout of the memory on the device.
#[derive(Debug)]
pub struct CudaInvContext<F: Field, H: Hasher<F>> {
    pub ext_values_flatten: Arc<Vec<F>>,
    pub values_flatten: Arc<Vec<F>>,
    pub digests_and_caps_buf: Arc<Vec<H::Hash>>,
    pub ext_values_flatten2: Arc<Vec<F>>,
    pub values_flatten2: Arc<Vec<F>>,
    pub digests_and_caps_buf2: Arc<Vec<H::Hash>>,
    pub ext_values_flatten3: Arc<Vec<F>>,
    pub values_flatten3: Arc<Vec<F>>,
    pub digests_and_caps_buf3: Arc<Vec<H::Hash>>,
    /// Where the second stage starts in the memory of the device.
    pub second_stage_offset: usize,
}

/// A batch that a device is to work on.
#[derive(Clone, Copy, Debug)]
pub struct GpuPlan<F: Field> {
    pub num_polynomials: usize,
    pub degree: usize,
    pub degree_log: usize,
    pub rate_bits: usize,
    pub blinding: bool,
    pub salt_size: usize,
    pub cap_height: usize,
    /// The inverse of `degree`.
    pub n_inv: F,
    pub num_digests: usize,
    pub num_digests_and_caps: usize,
    /// The number of coefficients of all polynomials together.
    pub values_flatten_len: usize,
    /// The number of elements of all leaves together.
    pub ext_values_flatten_len: usize,
    /// The number of elements that the device uses between the leaves and the digests.
    pub pad_extvalues_len: usize,
    /// Where the batch starts in the memory of the device.
    pub ext_values_device_offset: usize,
}

/// One piece of work for a device. Positions and lengths count field elements
/// in the memory of the device.
#[derive(Clone, Copy, Debug)]
pub enum GpuAction<F: Field> {
    /// Copy the given values to the device and wait.
    CopyValuesToDevice { start: usize, len: usize },
    /// Replace the values by the coefficients of the polynomials that take them.
    Ifft { start: usize, num_polynomials: usize, degree: usize, degree_log: usize, n_inv: F },
    /// Start to copy the coefficients to the host.
    CopyCoeffsToHost { start: usize, len: usize },
    /// Extend the polynomials, and build the Merkle tree.
    MerkleTreeFromCoeffs {
        start: usize,
        num_polynomials: usize,
        degree: usize,
        degree_log: usize,
        rate_bits: usize,
        salt_size: usize,
        cap_height: usize,
        pad_extvalues_len: usize,
    },
    /// Copy the digests and the cap to the host and wait.
    CopyDigestsToHost { start: usize, len: usize },
}

/// What a device hands back: the coefficients of all polynomials in one list,
/// and the digests followed by the cap.
pub struct GpuOutput<F, T> {
    pub coeffs: Vec<F>,
    pub digests_and_caps: Vec<T>,
}

/// The number of digests below the cap.
pub open spec fn num_digests(degree: nat, rate_bits: nat, cap_height: nat) -> int {
    2 * (degree * pow2(rate_bits) - pow2(cap_height))
}

/// The number of digests below and in the cap.
pub open spec fn num_digests_and_caps(degree: nat, rate_bits: nat, cap_height: nat) -> int {
    num_digests(degree, rate_bits, cap_height) + pow2(cap_height)
}

/// The number of elements of all leaves together.
pub open spec fn ext_values_len(
    num_polynomials: nat,
    degree: nat,
    rate_bits: nat,
    blinding: bool,
) -> nat {
    (num_polynomials * degree + salt_size(blinding) * degree) * pow2(rate_bits)
}

/// The sizes of a batch that a device can take: the degree is a power of two,
/// there are at least as many leaves as the cap has entries, and every position in the
/// memory of the device can be written as a number.
pub open spec fn gpu_sizes_fit(
    num_polynomials: nat,
    degree: nat,
    rate_bits: nat,
    blinding: bool,
    cap_height: nat,
    device_offset: nat,
) -> bool {
    &&& is_power_of_two(degree)
    &&& pow2(cap_height) <= degree * pow2(rate_bits)
    &&& device_offset <= isize::MAX
    &&& device_offset + 2 * ext_values_len(num_polynomials, degree, rate_bits, blinding)
        + DIGEST_ELEMENTS * num_digests_and_caps(degree, rate_bits, cap_height) <= usize::MAX
}

/// The plan for a batch of the given sizes.
pub open spec fn gpu_plan<F: Field>(
    num_polynomials: usize,
    degree: usize,
    rate_bits: usize,
    blinding: bool,
    cap_height: usize,
    device_offset: usize,
) -> GpuPlan<F> {
    let ext_values_flatten_len = ext_values_len(
        num_polynomials as nat,
        degree as nat,
        rate_bits as nat,
        blinding,
    ) as usize;
    GpuPlan {
        num_polynomials,
        degree,
        degree_log: log2(degree as nat) as usize,
        rate_bits,
        blinding,
        salt_size: salt_size(blinding) as usize,
        cap_height,
        n_inv: pow(F::half_spec(), log2(degree as nat)),
        num_digests: num_digests(degree as nat, rate_bits as nat, cap_height as nat) as usize,
        num_digests_and_caps: num_digests_and_caps(
            degree as nat,
            rate_bits as nat,
            cap_height as nat,
        ) as usize,
        values_flatten_len: (num_polynomials * degree) as usize,
        ext_values_flatten_len,
        pad_extvalues_len: ext_values_flatten_len,
        ext_values_device_offset: device_offset,
    }
}

/// Another handle on the same shared value: `Arc::clone`, which returns a
/// pointer to the same allocation.
#[verifier::external_body]
fn share<T>(shared: &Arc<T>) -> (r: Arc<T>)
    ensures
        r == *shared,
{
    Arc::clone(shared)
}

impl<F: Field> GpuPlan<F> {
    /// Whether the plan was made from sizes that a device can take.
    pub open spec fn wf(self) -> bool {
        &&& gpu_sizes_fit(
            self.num_polynomials as nat,
            self.degree as nat,
            self.rate_bits as nat,
            self.blinding,
            self.cap_height as nat,
            self.ext_values_device_offset as nat,
        )
        &&& self == gpu_plan::<F>(
            self.num_polynomials,
            self.degree,
            self.rate_bits,
            self.blinding,
            self.cap_height,
            self.ext_values_device_offset,
        )
    }

    pub fn new(
        num_polynomials: usize,
        degree: usize,
        rate_bits: usize,
        blinding: bool,
        cap_height: usize,
        device_offset: usize,
    ) -> (r: Self)
        requires
            gpu_sizes_fit(
                num_polynomials as nat,
                degree as nat,
                rate_bits as nat,
                blinding,
                cap_height as nat,
                device_offset as nat,
            ),
        ensures
            r == gpu_plan::<F>(
                num_polynomials,
                degree,
                rate_bits,
                blinding,
                cap_height,
                device_offset,
            ),
            r.wf(),
            r.num_polynomials == num_polynomials,
            r.degree == degree,
            pow2(r.degree_log as nat) == degree,
            r.rate_bits == rate_bits,
            r.blinding == blinding,
            r.salt_size == if blinding {
                4int
            } else {
                0
            },
            r.cap_height == cap_height,
            r.n_inv == pow(F::half_spec(), r.degree_log as nat),
            r.num_digests == 2 * (degree * pow2(rate_bits as nat) - pow2(cap_height as nat)),
            r.num_digests_and_caps == r.num_digests + pow2(cap_height as nat),
            r.values_flatten_len == num_polynomials * degree,
            r.ext_values_flatten_len == (num_polynomials * degree + r.salt_size * degree) * pow2(
                rate_bits as nat,
            ),
            r.pad_extvalues_len == r.ext_values_flatten_len,
            r.ext_values_device_offset == device_offset,
    {
        let salt_size: usize = if blinding {
            SALT_SIZE
        } else {
            0
        };
        proof {
            F::lemma_constants();
            lemma_pow2_pos(rate_bits as nat);
            lemma_pow2_pos(cap_height as nat);
            let flat = num_polynomials * degree + salt_size * degree;
            let scale = pow2(rate_bits as nat) as int;
            assert(flat <= flat * scale) by (nonlinear_arith)
                requires
                    flat >= 0,
                    scale >= 1,
            ;
            assert(num_polynomials * degree >= 0) by (nonlinear_arith);
            assert(salt_size * degree >= 0) by (nonlinear_arith);
        }
        let degree_log: usize = log2_strict(degree);
        let n_inv: F = exp_u64(F::half(), degree_log as u64);
        let len_cap: usize = shift_left(1, cap_height);
        let num_digests: usize = 2 * (shift_left(degree, rate_bits) - len_cap);
        let num_digests_and_caps: usize = num_digests + len_cap;
        let values_flatten_len: usize = num_polynomials * degree;
        let ext_values_flatten_len: usize = shift_left(
            values_flatten_len + salt_size * degree,
            rate_bits,
        );
        GpuPlan {
            num_polynomials,
            degree,
            degree_log,
            rate_bits,
            blinding,
            salt_size,
            cap_height,
            n_inv,
            num_digests,
            num_digests_and_caps,
            values_flatten_len,
            ext_values_flatten_len,
            pad_extvalues_len: ext_values_flatten_len,
            ext_values_device_offset: device_offset,
        }
    }

    /// Where the digests start in the memory of the device.
    pub open spec fn digests_start(self) -> int {
        self.ext_values_device_offset + self.ext_values_flatten_len + self.pad_extvalues_len
    }

    /// The number of field elements of the digests and the cap.
    pub open spec fn digests_len(self) -> int {
        self.num_digests_and_caps * DIGEST_ELEMENTS
    }

    /// Whether a device with room for `cache_mem_len` elements holds the batch.
    pub fn fits(&self, cache_mem_len: usize) -> (r: bool)
        requires
            self.wf(),
        ensures
            r == (self.digests_start() + self.digests_len() <= cache_mem_len),
            r == (self.ext_values_device_offset + self.ext_values_flatten_len
                + self.pad_extvalues_len + 4 * self.num_digests_and_caps <= cache_mem_len),
    {
        let digests_start: usize = self.ext_values_device_offset + self.ext_values_flatten_len
            + self.pad_extvalues_len;
        digests_start + self.num_digests_and_caps * DIGEST_ELEMENTS <= cache_mem_len
    }

    /// The work that turns coefficients on the device into a tree.
    pub open spec fn coeffs_schedule(self) -> Seq<GpuAction<F>> {
        seq![
            GpuAction::CopyCoeffsToHost {
                start: self.ext_values_device_offset,
                len: self.values_flatten_len,
            },
            GpuAction::MerkleTreeFromCoeffs {
                start: self.ext_values_device_offset,
                num_polynomials: self.num_polynomials,
                degree: self.degree,
                degree_log: self.degree_log,
                rate_bits: self.rate_bits,
                salt_size: self.salt_size,
                cap_height: self.cap_height,
                pad_extvalues_len: self.pad_extvalues_len,
            },
            GpuAction::CopyDigestsToHost {
                start: self.digests_start() as usize,
                len: self.digests_len() as usize,
            },
        ]
    }

    /// The work that turns values on the host into a tree.
    pub open spec fn values_schedule(self) -> Seq<GpuAction<F>> {
        seq![
            GpuAction::CopyValuesToDevice {
                start: self.ext_values_device_offset,
                len: self.values_flatten_len,
            },
            GpuAction::Ifft {
                start: self.ext_values_device_offset,
                num_polynomials: self.num_polynomials,
                degree: self.degree,
                degree_log: self.degree_log,
                n_inv: self.n_inv,
            },
        ] + self.coeffs_schedule()
    }

    /// What the device does, in this order, for coefficients that it already holds.
    pub fn actions_from_coeffs(&self) -> (r: Vec<GpuAction<F>>)
        requires
            self.wf(),
        ensures
            r@ == self.coeffs_schedule(),
    {
        let mut r: Vec<GpuAction<F>> = Vec::new();
        self.push_coeffs_actions(&mut r);
        r
    }

    /// What the device does, in this order, for values that the host holds.
    pub fn actions_from_values(&self) -> (r: Vec<GpuAction<F>>)
        requires
            self.wf(),
        ensures
            r@ == self.values_schedule(),
    {
        let mut r: Vec<GpuAction<F>> = Vec::new();
        r.push(
            GpuAction::CopyValuesToDevice {
                start: self.ext_values_device_offset,
                len: self.values_flatten_len,
            },
        );
        r.push(
            GpuAction::Ifft {
                start: self.ext_values_device_offset,
                num_polynomials: self.num_polynomials,
                degree: self.degree,
                degree_log: self.degree_log,
                n_inv: self.n_inv,
            },
        );
        self.push_coeffs_actions(&mut r);
        r
    }

    fn push_coeffs_actions(&self, actions: &mut Vec<GpuAction<F>>)
        requires
            self.wf(),
        ensures
            final(actions)@ == old(actions)@ + self.coeffs_schedule(),
    {
        actions.push(
            GpuAction::CopyCoeffsToHost {
                start: self.ext_values_device_offset,
                len: self.values_flatten_len,
            },
        );
        actions.push(
            GpuAction::MerkleTreeFromCoeffs {
                start: self.ext_values_device_offset,
                num_polynomials: self.num_polynomials,
                degree: self.degree,
                degree_log: self.degree_log,
                rate_bits: self.rate_bits,
                salt_size: self.salt_size,
                cap_height: self.cap_height,
                pad_extvalues_len: self.pad_extvalues_len,
            },
        );
        actions.push(
            GpuAction::CopyDigestsToHost {
                start: self.ext_values_device_offset + self.ext_values_flatten_len
                    + self.pad_extvalues_len,
                len: self.num_digests_and_caps * DIGEST_ELEMENTS,
            },
        );
    }
}

impl<F: Field, H: Hasher<F>> CudaInvContext<F, H> {
    /// The extended values of a stage.
    pub open spec fn ext_values(self, stage: int) -> Seq<F> {
        if stage == 1 {
            self.ext_values_flatten@
        } else if stage == 2 {
            self.ext_values_flatten2@
        } else {
            self.ext_values_flatten3@
        }
    }

    /// The coefficients of a stage.
    pub open spec fn values(self, stage: int) -> Seq<F> {
        if stage == 1 {
            self.values_flatten@
        } else if stage == 2 {
            self.values_flatten2@
        } else {
            self.values_flatten3@
        }
    }

    /// The digests and the cap of a stage.
    pub open spec fn digests_and_caps(self, stage: int) -> Seq<H::Hash> {
        if stage == 1 {
            self.digests_and_caps_buf@
        } else if stage == 2 {
            self.digests_and_caps_buf2@
        } else {
            self.digests_and_caps_buf3@
        }
    }

    /// Where the first two stages start in the memory of the device.
    pub open spec fn stage_offset(self, stage: int) -> usize {
        if stage == 1 {
            0
        } else {
            self.second_stage_offset
        }
    }

    /// The context `after` differs from this one in the coefficients and the
    /// digests of one stage, which are the given ones.
    pub open spec fn stores(
        self,
        after: Self,
        stage: int,
        coeffs: Seq<F>,
        digests: Seq<H::Hash>,
    ) -> bool {
        &&& after.second_stage_offset == self.second_stage_offset
        &&& after.values(stage) == coeffs
        &&& after.digests_and_caps(stage) == digests
        &&& after.ext_values_flatten == self.ext_values_flatten
        &&& after.ext_values_flatten2 == self.ext_values_flatten2
        &&& after.ext_values_flatten3 == self.ext_values_flatten3
        &&& stage != 1 ==> after.values_flatten == self.values_flatten
            && after.digests_and_caps_buf == self.digests_and_caps_buf
        &&& stage != 2 ==> after.values_flatten2 == self.values_flatten2
            && after.digests_and_caps_buf2 == self.digests_and_caps_buf2
        &&& stage != 3 ==> after.values_flatten3 == self.values_flatten3
            && after.digests_and_caps_buf3 == self.digests_and_caps_buf3
    }

    /// Where the first two stages start in the memory of the device.
    pub fn device_offset(&self, stage: usize) -> (r: usize)
        requires
            stage == 1 || stage == 2,
        ensures
            r == self.stage_offset(stage as int),
            stage == 1 ==> r == 0,
            stage == 2 ==> r == self.second_stage_offset,
    {
        if stage == 1 {
            0
        } else {
            self.second_stage_offset
        }
    }
}

impl<F: Field, H: Hasher<F>> PolynomialBatch<F, H> {
    /// The batch that a device made: its polynomials are the chunks of
    /// `coeffs`, and its tree has only the cap on the host.
    pub open spec fn is_device_batch(
        self,
        plan: GpuPlan<F>,
        coeffs: Seq<F>,
        flatten_leaves: Seq<F>,
        leaves_len: int,
        digests_and_caps: Seq<H::Hash>,
    ) -> bool {
        &&& self.polynomials@.len() == plan.num_polynomials
        &&& forall|j: int|
            0 <= j < plan.num_polynomials ==> (#[trigger] self.polynomials@[j]).coeffs@
                == coeffs.subrange(j * plan.degree, (j + 1) * plan.degree)
        &&& self.merkle_tree.leaves@.len() == 0
        &&& self.merkle_tree.digests@.len() == 0
        &&& self.merkle_tree.cap.0@ == digests_and_caps.subrange(
            plan.num_digests as int,
            plan.num_digests_and_caps as int,
        )
        &&& self.merkle_tree.device matches Some(device) && {
            &&& device.leaf_len == plan.num_polynomials + plan.salt_size
            &&& device.flatten_leaves@ == flatten_leaves
            &&& device.leaves_len == leaves_len
            &&& device.device_offset == plan.ext_values_device_offset
            &&& device.digests_and_cap@ == digests_and_caps
        }
        &&& self.degree_log == plan.degree_log
        &&& self.rate_bits == plan.rate_bits
        &&& self.blinding == plan.blinding
    }

    /// The tree of the batch holds what these handles hold. Equality of two `Arc`s
    /// compares what they point to; that the handles also point to one allocation
    /// is what `Arc::clone` does, and is not stated.
    pub open spec fn shares(
        self,
        flatten_leaves: Arc<Vec<F>>,
        digests_and_caps: Arc<Vec<H::Hash>>,
    ) -> bool {
        self.merkle_tree.device matches Some(device) && device.flatten_leaves == flatten_leaves
            && device.digests_and_cap == digests_and_caps
    }

    /// The batch of the first or the second stage, made of what a device handed
    /// back for `GpuPlan::actions_from_values`.
    pub fn from_values_with_gpu(
        num_polynomials: usize,
        degree: usize,
        rate_bits: usize,
        blinding: bool,
        cap_height: usize,
        ctx: &mut CudaInvContext<F, H>,
        stage: usize,
        output: GpuOutput<F, H::Hash>,
    ) -> (r: Self)
        requires
            stage == 1 || stage == 2,
            gpu_sizes_fit(
                num_polynomials as nat,
                degree as nat,
                rate_bits as nat,
                blinding,
                cap_height as nat,
                old(ctx).stage_offset(stage as int) as nat,
            ),
            output.coeffs@.len() == num_polynomials * degree,
            output.digests_and_caps@.len() == num_digests_and_caps(
                degree as nat,
                rate_bits as nat,
                cap_height as nat,
            ),
            old(ctx).ext_values(stage as int).len() == ext_values_len(
                num_polynomials as nat,
                degree as nat,
                rate_bits as nat,
                blinding,
            ),
        ensures
            old(ctx).stores(
                *final(ctx),
                stage as int,
                output.coeffs@,
                output.digests_and_caps@,
            ),
            r.is_device_batch(
                gpu_plan(
                    num_polynomials,
                    degree,
                    rate_bits,
                    blinding,
                    cap_height,
                    old(ctx).stage_offset(stage as int),
                ),
                output.coeffs@,
                old(ctx).ext_values(stage as int),
                old(ctx).ext_values(stage as int).len() as int,
                output.digests_and_caps@,
            ),
            r.polynomials@.len() == num_polynomials,
            forall|j: int|
                0 <= j < num_polynomials ==> (#[trigger] r.polynomials@[j]).coeffs@
                    == output.coeffs@.subrange(j * degree, (j + 1) * degree),
            r.merkle_tree.leaves@.len() == 0,
            r.merkle_tree.digests@.len() == 0,
            r.merkle_tree.cap.0@ == output.digests_and_caps@.skip(
                2 * (degree * pow2(rate_bits as nat) - pow2(cap_height as nat)),
            ),
            pow2(r.degree_log as nat) == degree,
            r.rate_bits == rate_bits,
            r.blinding == blinding,
            r.merkle_tree.device matches Some(device) && {
                &&& device.leaf_len == num_polynomials + if blinding {
                    4int
                } else {
                    0
                }
                &&& device.leaves_len == device.leaf_len * (degree * pow2(rate_bits as nat))
                &&& device.device_offset == if stage == 1 {
                    0int
                } else {
                    old(ctx).second_stage_offset as int
                }
                &&& device.flatten_leaves@ == if stage == 1 {
                    old(ctx).ext_values_flatten@
                } else {
                    old(ctx).ext_values_flatten2@
                }
                &&& device.digests_and_cap@ == output.digests_and_caps@
            },
            final(ctx).second_stage_offset == old(ctx).second_stage_offset,
            stage == 1 ==> final(ctx).values_flatten@ == output.coeffs@
                && final(ctx).digests_and_caps_buf@ == output.digests_and_caps@,
            stage == 2 ==> final(ctx).values_flatten2@ == output.coeffs@
                && final(ctx).digests_and_caps_buf2@ == output.digests_and_caps@,
            stage == 1 ==> r.shares(
                final(ctx).ext_values_flatten,
                final(ctx).digests_and_caps_buf,
            ),
            stage == 2 ==> r.shares(
                final(ctx).ext_values_flatten2,
                final(ctx).digests_and_caps_buf2,
            ),
    {
        let plan: GpuPlan<F> = GpuPlan::new(
            num_polynomials,
            degree,
            rate_bits,
            blinding,
            cap_height,
            ctx.device_offset(stage),
        );
        let polynomials: Vec<PolynomialCoeffs<F>> = Self::chunks(&output.coeffs, &plan);
        let coeffs: Arc<Vec<F>> = Arc::new(output.coeffs);
        let digests_and_caps: Arc<Vec<H::Hash>> = Arc::new(output.digests_and_caps);
        let digests_of_tree: Arc<Vec<H::Hash>> = share(&digests_and_caps);
        let flatten_leaves: Arc<Vec<F>>;
        if stage == 1 {
            ctx.values_flatten = coeffs;
            ctx.digests_and_caps_buf = digests_and_caps;
            flatten_leaves = share(&ctx.ext_values_flatten);
        } else {
            ctx.values_flatten2 = coeffs;
            ctx.digests_and_caps_buf2 = digests_and_caps;
            flatten_leaves = share(&ctx.ext_values_flatten2);
        }
        let leaves_len: usize = flatten_leaves.len();
        proof {
            lemma_leaves_len(plan);
        }
        let r: Self = Self::device_batch(
            &plan,
            polynomials,
            flatten_leaves,
            leaves_len,
            digests_of_tree,
        );
        assert(r.merkle_tree.cap.0@ =~= output.digests_and_caps@.skip(plan.num_digests as int));
        r
    }

    /// The batch of the third stage, made of what a device handed back for
    /// `GpuPlan::actions_from_coeffs`. Its tree refers to the extended values of
    /// the first stage.
    pub fn from_coeffs_with_gpu(
        degree: usize,
        num_polynomials: usize,
        rate_bits: usize,
        blinding: bool,
        cap_height: usize,
        ctx: &mut CudaInvContext<F, H>,
        stage: usize,
        offset: usize,
        output: GpuOutput<F, H::Hash>,
    ) -> (r: Self)
        requires
            stage == 3,
            gpu_sizes_fit(
                num_polynomials as nat,
                degree as nat,
                rate_bits as nat,
                blinding,
                cap_height as nat,
                (old(ctx).second_stage_offset + offset) as nat,
            ),
            output.coeffs@.len() == num_polynomials * degree,
            output.digests_and_caps@.len() == num_digests_and_caps(
                degree as nat,
                rate_bits as nat,
                cap_height as nat,
            ),
            old(ctx).ext_values(3).len() == ext_values_len(
                num_polynomials as nat,
                degree as nat,
                rate_bits as nat,
                blinding,
            ),
        ensures
            old(ctx).stores(*final(ctx), 3, output.coeffs@, output.digests_and_caps@),
            r.is_device_batch(
                gpu_plan(
                    num_polynomials,
                    degree,
                    rate_bits,
                    blinding,
                    cap_height,
                    (old(ctx).second_stage_offset + offset) as usize,
                ),
                output.coeffs@,
                old(ctx).ext_values(1),
                old(ctx).ext_values(3).len() as int,
                output.digests_and_caps@,
            ),
            r.polynomials@.len() == num_polynomials,
            forall|j: int|
                0 <= j < num_polynomials ==> (#[trigger] r.polynomials@[j]).coeffs@
                    == output.coeffs@.subrange(j * degree, (j + 1) * degree),
            r.merkle_tree.leaves@.len() == 0,
            r.merkle_tree.digests@.len() == 0,
            r.merkle_tree.cap.0@ == output.digests_and_caps@.skip(
                2 * (degree * pow2(rate_bits as nat) - pow2(cap_height as nat)),
            ),
            pow2(r.degree_log as nat) == degree,
            r.rate_bits == rate_bits,
            r.blinding == blinding,
            r.merkle_tree.device matches Some(device) && {
                &&& device.leaf_len == num_polynomials + if blinding {
                    4int
                } else {
                    0
                }
                &&& device.leaves_len == device.leaf_len * (degree * pow2(rate_bits as nat))
                &&& device.device_offset == old(ctx).second_stage_offset + offset
                &&& device.flatten_leaves@ == old(ctx).ext_values_flatten@
                &&& device.digests_and_cap@ == output.digests_and_caps@
            },
            final(ctx).second_stage_offset == old(ctx).second_stage_offset,
            final(ctx).values_flatten3@ == output.coeffs@,
            final(ctx).digests_and_caps_buf3@ == output.digests_and_caps@,
            r.shares(final(ctx).ext_values_flatten, final(ctx).digests_and_caps_buf3),
    {
        let plan: GpuPlan<F> = GpuPlan::new(
            num_polynomials,
            degree,
            rate_bits,
            blinding,
            cap_height,
            ctx.second_stage_offset + offset,
        );
        let polynomials: Vec<PolynomialCoeffs<F>> = Self::chunks(&output.coeffs, &plan);
        let digests_and_caps: Arc<Vec<H::Hash>> = Arc::new(output.digests_and_caps);
        let digests_of_tree: Arc<Vec<H::Hash>> = share(&digests_and_caps);
        ctx.values_flatten3 = Arc::new(output.coeffs);
        ctx.digests_and_caps_buf3 = digests_and_caps;
        let flatten_leaves: Arc<Vec<F>> = share(&ctx.ext_values_flatten);
        proof {
            lemma_leaves_len(plan);
        }
        let r: Self = Self::device_batch(
            &plan,
            polynomials,
            flatten_leaves,
            plan.ext_values_flatten_len,
            digests_of_tree,
        );
        assert(r.merkle_tree.cap.0@ =~= output.digests_and_caps@.skip(plan.num_digests as int));
        r
    }

    /// The polynomials whose coefficients follow each other in `coeffs`.
    fn chunks(coeffs: &Vec<F>, plan: &GpuPlan<F>) -> (r: Vec<PolynomialCoeffs<F>>)
        requires
            coeffs@.len() == plan.num_polynomials * plan.degree,
        ensures
            r@.len() == plan.num_polynomials,
            forall|j: int|
                0 <= j < plan.num_polynomials ==> (#[trigger] r@[j]).coeffs@ == coeffs@.subrange(
                    j * plan.degree,
                    (j + 1) * plan.degree,
                ),
    {
        let total: usize = coeffs.len();
        let mut r: Vec<PolynomialCoeffs<F>> = Vec::new();
        let mut start: usize = 0;
        let mut j: usize = 0;
        while j < plan.num_polynomials
            invariant
                total == coeffs@.len(),
                total == plan.num_polynomials * plan.degree,
                j <= plan.num_polynomials,
                start == j * plan.degree,
                r@.len() == j,
                forall|k: int|
                    0 <= k < j ==> (#[trigger] r@[k]).coeffs@ == coeffs@.subrange(
                        k * plan.degree,
                        (k + 1) * plan.degree,
                    ),
            decreases plan.num_polynomials - j,
        {
            proof {
                assert((j + 1) * plan.degree == j * plan.degree + plan.degree) by (nonlinear_arith);
                assert((j + 1) * plan.degree <= plan.num_polynomials * plan.degree)
                    by (nonlinear_arith)
                    requires
                        j + 1 <= plan.num_polynomials,
                ;
            }
            let end: usize = start + plan.degree;
            let chunk: Vec<F> = copy_range(coeffs, start, end);
            r.push(PolynomialCoeffs { coeffs: chunk });
            start = end;
            j = j + 1;
        }
        r
    }

    /// Puts the parts of a batch together.
    fn device_batch(
        plan: &GpuPlan<F>,
        polynomials: Vec<PolynomialCoeffs<F>>,
        flatten_leaves: Arc<Vec<F>>,
        leaves_len: usize,
        digests_and_caps: Arc<Vec<H::Hash>>,
    ) -> (r: Self)
        requires
            plan.wf(),
            digests_and_caps@.len() == plan.num_digests_and_caps,
        ensures
            r.polynomials == polynomials,
            r.merkle_tree.leaves@.len() == 0,
            r.merkle_tree.digests@.len() == 0,
            r.merkle_tree.cap.0@ == digests_and_caps@.subrange(
                plan.num_digests as int,
                plan.num_digests_and_caps as int,
            ),
            r.merkle_tree.device matches Some(device) && {
                &&& device.leaf_len == plan.num_polynomials + plan.salt_size
                &&& device.flatten_leaves == flatten_leaves
                &&& device.leaves_len == leaves_len
                &&& device.device_offset == plan.ext_values_device_offset
                &&& device.digests_and_cap == digests_and_caps
            },
            r.degree_log == plan.degree_log,
            r.rate_bits == plan.rate_bits,
            r.blinding == plan.blinding,
    {
        proof {
            lemma_leaf_len_fits(*plan);
        }
        let cap: Vec<H::Hash> = copy_range(
            &digests_and_caps,
            plan.num_digests,
            plan.num_digests_and_caps,
        );
        let device: DeviceTree<F, H::Hash> = DeviceTree {
            leaf_len: plan.num_polynomials + plan.salt_size,
            flatten_leaves,
            leaves_len,
            device_offset: plan.ext_values_device_offset as isize,
            digests_and_cap: digests_and_caps,
        };
        PolynomialBatch {
            polynomials,
            merkle_tree: MerkleTree {
                leaves: Vec::new(),
                digests: Vec::new(),
                cap: MerkleCap(cap),
                device: Some(device),
            },
            degree_log: plan.degree_log,
            rate_bits: plan.rate_bits,
            blinding: plan.blinding,
        }
    }
}

/// All leaves together: one for each point, of one element for each polynomial
/// and each salt.
proof fn lemma_leaves_len<F: Field>(plan: GpuPlan<F>)
    requires
        plan.ext_values_flatten_len == (plan.num_polynomials * plan.degree + plan.salt_size
            * plan.degree) * pow2(plan.rate_bits as nat),
    ensures
        plan.ext_values_flatten_len == (plan.num_polynomials + plan.salt_size) * (plan.degree
            * pow2(plan.rate_bits as nat)),
{
    let (n, s, d) = (plan.num_polynomials as int, plan.salt_size as int, plan.degree as int);
    let scale = pow2(plan.rate_bits as nat) as int;
    assert((n * d + s * d) * scale == (n + s) * (d * scale)) by (nonlinear_arith);
}

/// A leaf is no longer than all leaves together.
proof fn lemma_leaf_len_fits<F: Field>(plan: GpuPlan<F>)
    requires
        plan.wf(),
    ensures
        plan.num_polynomials + plan.salt_size <= usize::MAX,
{
    let n = plan.num_polynomials as int;
    let s = salt_size(plan.blinding) as int;
    let d = plan.degree as int;
    let scale = pow2(plan.rate_bits as nat) as int;
    lemma_power_of_two_times(plan.degree as nat, 0);
    lemma_pow2_pos(plan.rate_bits as nat);
    lemma_pow2_pos(plan.cap_height as nat);
    assert(n + s <= (n * d + s * d) * scale) by (nonlinear_arith)
        requires
            n >= 0,
            s >= 0,
            d >= 1,
            scale >= 1,
    ;
}

/// The elements from `start` up to `end`.
fn copy_range<T: Copy>(v: &Vec<T>, start: usize, end: usize) -> (r: Vec<T>)
    requires
        start <= end <= v@.len(),
    ensures
        r@ == v@.subrange(start as int, end as int),
{
    let mut r: Vec<T> = Vec::new();
    let mut i: usize = start;
    while i < end
        invariant
            start <= i <= end <= v@.len(),
            r@ == v@.subrange(start as int, i as int),
        decreases end - i,
    {
        r.push(v[i]);
        i = i + 1;
    }
    r
}

} // verus!
