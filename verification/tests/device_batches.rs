use std::sync::Arc;

use fri_oracle::field::{exp_u64, Field};
use fri_oracle::goldilocks::GoldilocksField;
use fri_oracle::gpu::{CudaInvContext, GpuAction, GpuOutput, GpuPlan};
use fri_oracle::merkle::Hasher;
use fri_oracle::oracle::PolynomialBatch;

#[derive(Debug)]
struct Count;

impl Hasher<GoldilocksField> for Count {
    type Hash = u64;

    fn hash_or_noop(leaf: &Vec<GoldilocksField>) -> u64 {
        leaf.len() as u64
    }

    fn two_to_one(left: u64, right: u64) -> u64 {
        left.wrapping_add(right)
    }
}

type Batch = PolynomialBatch<GoldilocksField, Count>;
type Plan = GpuPlan<GoldilocksField>;

fn gf(n: u64) -> GoldilocksField {
    GoldilocksField::from_canonical_u64(n)
}

fn elements(from: u64, len: usize) -> Vec<GoldilocksField> {
    (from..from + len as u64).map(gf).collect()
}

fn context() -> CudaInvContext<GoldilocksField, Count> {
    CudaInvContext {
        ext_values_flatten: Arc::new(elements(1000, 56)),
        values_flatten: Arc::new(elements(0, 12)),
        digests_and_caps_buf: Arc::new(vec![1; 14]),
        ext_values_flatten2: Arc::new(elements(2000, 24)),
        values_flatten2: Arc::new(elements(0, 12)),
        digests_and_caps_buf2: Arc::new(vec![2; 14]),
        ext_values_flatten3: Arc::new(elements(3000, 24)),
        values_flatten3: Arc::new(elements(0, 12)),
        digests_and_caps_buf3: Arc::new(vec![3; 14]),
        second_stage_offset: 500,
    }
}

#[test]
fn sizes_of_a_plan() {
    let plan = Plan::new(3, 4, 1, true, 1, 70);
    assert_eq!(plan.degree_log, 2);
    assert_eq!(plan.salt_size, 4);
    assert_eq!(plan.num_digests, 12);
    assert_eq!(plan.num_digests_and_caps, 14);
    assert_eq!(plan.values_flatten_len, 12);
    assert_eq!(plan.ext_values_flatten_len, 56);
    assert_eq!(plan.pad_extvalues_len, 56);
    assert_eq!(plan.n_inv.mul(gf(4)), gf(1));
    assert_eq!(plan.ext_values_flatten_len, (3 + 4) * 8);
    // 70 + 56 + 56 + 4 * 14
    assert!(plan.fits(238));
    assert!(!plan.fits(237));
    let plain = Plan::new(3, 4, 1, false, 3, 0);
    assert_eq!(plain.num_digests, 0);
    assert_eq!(plain.num_digests_and_caps, 8);
    assert_eq!(plain.ext_values_flatten_len, 24);
    let large = Plan::new(1, 1 << 20, 3, false, 4, 0);
    assert_eq!(large.n_inv.mul(exp_u64(gf(2), 20)), gf(1));
}

#[test]
fn work_for_values() {
    let plan = Plan::new(3, 4, 1, true, 1, 70);
    let actions = plan.actions_from_values();
    assert_eq!(actions.len(), 5);
    assert!(matches!(actions[0], GpuAction::CopyValuesToDevice { start: 70, len: 12 }));
    assert!(matches!(
        actions[1],
        GpuAction::Ifft { start: 70, num_polynomials: 3, degree: 4, degree_log: 2, n_inv }
            if n_inv == plan.n_inv
    ));
    assert!(matches!(actions[2], GpuAction::CopyCoeffsToHost { start: 70, len: 12 }));
    assert!(matches!(
        actions[3],
        GpuAction::MerkleTreeFromCoeffs {
            start: 70,
            num_polynomials: 3,
            degree: 4,
            degree_log: 2,
            rate_bits: 1,
            salt_size: 4,
            cap_height: 1,
            pad_extvalues_len: 56,
        }
    ));
    assert!(matches!(actions[4], GpuAction::CopyDigestsToHost { start: 182, len: 56 }));
}

#[test]
fn work_for_coefficients() {
    let plan = Plan::new(3, 4, 1, false, 1, 0);
    let actions = plan.actions_from_coeffs();
    assert_eq!(actions.len(), 3);
    assert!(matches!(actions[0], GpuAction::CopyCoeffsToHost { start: 0, len: 12 }));
    assert!(matches!(actions[1], GpuAction::MerkleTreeFromCoeffs { salt_size: 0, .. }));
    assert!(matches!(actions[2], GpuAction::CopyDigestsToHost { start: 48, len: 56 }));
}

#[test]
fn a_batch_of_the_first_stage() {
    let mut ctx = context();
    let output = GpuOutput { coeffs: elements(50, 12), digests_and_caps: (0..14).collect() };
    let batch = Batch::from_values_with_gpu(3, 4, 1, true, 1, &mut ctx, 1, output);
    assert_eq!(batch.polynomials.len(), 3);
    assert_eq!(batch.polynomials[0].coeffs, elements(50, 4));
    assert_eq!(batch.polynomials[2].coeffs, elements(58, 4));
    assert_eq!(batch.merkle_tree.cap.0, vec![12, 13]);
    assert_eq!(batch.merkle_tree.leaves.len(), 0);
    assert_eq!(batch.merkle_tree.digests.len(), 0);
    let device = batch.merkle_tree.device.unwrap();
    assert_eq!(device.leaf_len, 7);
    assert_eq!(*device.flatten_leaves, elements(1000, 56));
    assert_eq!(device.leaves_len, 56);
    assert_eq!(device.device_offset, 0);
    assert_eq!(*device.digests_and_cap, (0..14).collect::<Vec<u64>>());
    assert!(Arc::ptr_eq(&device.flatten_leaves, &ctx.ext_values_flatten));
    assert!(Arc::ptr_eq(&device.digests_and_cap, &ctx.digests_and_caps_buf));
    assert_eq!((batch.degree_log, batch.rate_bits, batch.blinding), (2, 1, true));
    assert_eq!(*ctx.values_flatten, elements(50, 12));
    assert_eq!(*ctx.values_flatten2, elements(0, 12));
    assert_eq!(*ctx.digests_and_caps_buf2, vec![2; 14]);
}

#[test]
fn a_batch_of_the_second_stage() {
    let mut ctx = context();
    assert_eq!(ctx.device_offset(1), 0);
    assert_eq!(ctx.device_offset(2), 500);
    let output = GpuOutput { coeffs: elements(90, 12), digests_and_caps: (20..34).collect() };
    let batch = Batch::from_values_with_gpu(3, 4, 1, false, 1, &mut ctx, 2, output);
    let device = batch.merkle_tree.device.unwrap();
    assert_eq!(device.leaf_len, 3);
    assert_eq!(*device.flatten_leaves, elements(2000, 24));
    assert_eq!(device.leaves_len, 24);
    assert_eq!(device.device_offset, 500);
    assert_eq!(batch.merkle_tree.cap.0, vec![32, 33]);
    assert_eq!(*ctx.values_flatten2, elements(90, 12));
    assert_eq!(*ctx.digests_and_caps_buf2, (20..34).collect::<Vec<u64>>());
    assert_eq!(*ctx.values_flatten, elements(0, 12));
    assert_eq!(*ctx.digests_and_caps_buf, vec![1; 14]);
}

#[test]
fn a_batch_of_the_third_stage() {
    let mut ctx = context();
    let output = GpuOutput { coeffs: elements(70, 12), digests_and_caps: (40..54).collect() };
    let batch = Batch::from_coeffs_with_gpu(4, 3, 1, false, 1, &mut ctx, 3, 25, output);
    assert_eq!(batch.polynomials[1].coeffs, elements(74, 4));
    let device = batch.merkle_tree.device.unwrap();
    assert_eq!(device.leaf_len, 3);
    assert!(Arc::ptr_eq(&device.flatten_leaves, &ctx.ext_values_flatten));
    assert_eq!(device.leaves_len, 24);
    assert_eq!(device.device_offset, 525);
    assert_eq!(batch.merkle_tree.cap.0, vec![52, 53]);
    assert_eq!(*ctx.values_flatten3, elements(70, 12));
    assert_eq!(*ctx.digests_and_caps_buf3, (40..54).collect::<Vec<u64>>());
    assert_eq!(*ctx.ext_values_flatten3, elements(3000, 24));
    assert_eq!(*ctx.values_flatten, elements(0, 12));
}
