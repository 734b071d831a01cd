//! What holds of every commitment.

use vstd::arithmetic::div_mod::{lemma_div_denominator, lemma_fundamental_div_mod, lemma_mod_bound};
use vstd::arithmetic::power2::{
    lemma2_to64, lemma_pow2_adds, lemma_pow2_pos, lemma_pow2_unfold, pow2,
};
use vstd::prelude::*;

use crate::bits::{
    lemma_log2_of_pow2, lemma_power_of_two_times, lemma_reversed_bound, lemma_reversed_modulo,
    lemma_reversed_twice, log2, reversed,
};
use crate::fft::{
    coset_point, coset_values, is_subgroup_order, lemma_interpolation_unique, values_at_powers,
};
use crate::field::{
    all_wf, lemma_pow_of_product, lemma_pow_one, lemma_pow_wf, lemma_root_periodic, pow, Field,
};
use crate::merkle::{lemma_merkle_cap_digests_len, rows, Hasher};
use crate::oracle::{
    committable, draws_of, draws_of_lists, lde_leaf, lde_leaves, lde_len, leaves_of,
    lemma_coset_values_padded, salt_size, PolynomialBatch,
};
use crate::polynomial::{
    eval, lemma_eval_padded, lemma_eval_shift, poly_padded, poly_shift, PolynomialCoeffs,
};

verus! {

/// Going round the subgroup leads back to the same point of the coset.
pub proof fn law_coset_points_repeat<F: Field>(shift: F, n_log: nat, i: nat)
    requires
        n_log <= F::two_adicity_spec(),
    ensures
        coset_point(shift, n_log, i % pow2(n_log)) == coset_point(shift, n_log, i),
{
    lemma_pow2_pos(n_log);
    let n = pow2(n_log) as int;
    lemma_fundamental_div_mod(i as int, n);
    assert(n * (i as int / n) == (i as int / n) * n) by (nonlinear_arith);
    lemma_root_periodic::<F>(n_log, i % pow2(n_log), i / pow2(n_log));
}

/// A commitment has one leaf for each point of the extended domain, with one
/// element for each polynomial and one for each salt.
pub proof fn law_leaves<F: Field, H: Hasher<F>>(
    batch: PolynomialBatch<F, H>,
    polynomials: Seq<PolynomialCoeffs<F>>,
    rate_bits: nat,
    blinding: bool,
    cap_height: nat,
    salts: Seq<Seq<F>>,
)
    requires
        committable(polynomials, rate_bits),
        batch.commits_to(polynomials, rate_bits, blinding, cap_height, salts),
    ensures
        batch.merkle_tree.leaves@.len() == pow2(batch.lde_bits()),
        lde_len(polynomials, rate_bits) == pow2(batch.lde_bits()),
        log2(lde_len(polynomials, rate_bits)) == batch.lde_bits(),
        forall|i: int|
            0 <= i < batch.merkle_tree.leaves@.len() ==> (#[trigger] batch.merkle_tree.leaves@[i])@
                == lde_leaf(polynomials, salts, lde_len(polynomials, rate_bits), i as nat),
        forall|i: int|
            0 <= i < batch.merkle_tree.leaves@.len() ==> (
            #[trigger] batch.merkle_tree.leaves@[i])@.len() == polynomials.len() + salt_size(
                blinding,
            ),
{
    let n = lde_len(polynomials, rate_bits);
    lemma_power_of_two_times(polynomials[0].coeffs@.len(), rate_bits);
    let leaves = rows(batch.merkle_tree.leaves@);
    assert(leaves == lde_leaves(polynomials, salts, n));
    assert(leaves.len() == n);
    assert forall|i: int| 0 <= i < n implies (#[trigger] batch.merkle_tree.leaves@[i])@ == lde_leaf(
        polynomials,
        salts,
        n,
        i as nat,
    ) by {
        assert(leaves[i] == batch.merkle_tree.leaves@[i]@);
    }
}

/// What is read at the point `index * step` of a commitment is the value there of
/// each polynomial, in the order in which they were committed. Every point can
/// be read whose number fits into a machine word, except that a domain of a
/// single point has no point but the point `0`.
pub proof fn law_read_back<F: Field, H: Hasher<F>>(
    batch: PolynomialBatch<F, H>,
    polynomials: Seq<PolynomialCoeffs<F>>,
    rate_bits: nat,
    blinding: bool,
    cap_height: nat,
    salts: Seq<Seq<F>>,
    index: int,
    step: int,
)
    requires
        committable(polynomials, rate_bits),
        batch.commits_to(polynomials, rate_bits, blinding, cap_height, salts),
        0 <= index * step <= usize::MAX,
        batch.lde_bits() == 0 ==> index * step == 0,
    ensures
        batch.has_lde_row(index, step),
        batch.lde_row(index, step) == Seq::new(
            polynomials.len(),
            |j: int|
                eval(
                    polynomials[j].coeffs@,
                    coset_point(F::coset_shift_spec(), batch.lde_bits(), (index * step) as nat),
                ),
        ),
        batch.lde_row(index, step).len() == polynomials.len(),
        forall|j: int|
            0 <= j < polynomials.len() ==> (#[trigger] batch.lde_row(index, step)[j]) == eval(
                polynomials[j].coeffs@,
                F::coset_shift_spec().mul_spec(
                    pow(
                        F::root_spec((batch.degree_log + batch.rate_bits) as nat),
                        (index * step) as nat,
                    ),
                ),
            ),
{
    law_leaves(batch, polynomials, rate_bits, blinding, cap_height, salts);
    let n = lde_len(polynomials, rate_bits);
    let bits = batch.lde_bits();
    let k = (index * step) as nat;
    let r = reversed(k, bits);
    lemma_pow2_pos(bits);
    lemma_reversed_bound(k, bits);
    lemma_reversed_modulo(k, bits);
    lemma_mod_bound(k as int, pow2(bits) as int);
    lemma_reversed_twice(k % pow2(bits), bits);
    assert(reversed(r, bits) == k % pow2(bits));
    law_coset_points_repeat(F::coset_shift_spec(), bits, k);
    assert(batch.merkle_tree.leaves@[r as int]@ == lde_leaf(polynomials, salts, n, r));
    assert(batch.lde_row(index, step) =~= Seq::new(
        polynomials.len(),
        |j: int|
            eval(polynomials[j].coeffs@, coset_point(F::coset_shift_spec(), bits, k)),
    ));
}

/// Blinding does not show in what is read: two commitments to the same
/// polynomials, with whatever salts and caps, give the same values.
pub proof fn law_salt_is_not_read<F: Field, H: Hasher<F>>(
    a: PolynomialBatch<F, H>,
    b: PolynomialBatch<F, H>,
    polynomials: Seq<PolynomialCoeffs<F>>,
    rate_bits: nat,
    a_blinding: bool,
    b_blinding: bool,
    a_cap_height: nat,
    b_cap_height: nat,
    a_salts: Seq<Seq<F>>,
    b_salts: Seq<Seq<F>>,
    index: int,
    step: int,
)
    requires
        committable(polynomials, rate_bits),
        a.commits_to(polynomials, rate_bits, a_blinding, a_cap_height, a_salts),
        b.commits_to(polynomials, rate_bits, b_blinding, b_cap_height, b_salts),
        0 <= index * step <= usize::MAX,
        a.lde_bits() == 0 ==> index * step == 0,
    ensures
        a.lde_row(index, step) == b.lde_row(index, step),
{
    law_read_back(a, polynomials, rate_bits, a_blinding, a_cap_height, a_salts, index, step);
    law_read_back(b, polynomials, rate_bits, b_blinding, b_cap_height, b_salts, index, step);
}

/// Points whose numbers differ by a multiple of the size of the domain are the
/// same point, and the same values are read there.
pub proof fn law_reads_repeat<F: Field, H: Hasher<F>>(
    batch: PolynomialBatch<F, H>,
    index: int,
    other: int,
    step: int,
)
    requires
        0 <= index * step,
        0 <= other * step,
        (index * step) % (pow2(batch.lde_bits()) as int) == (other * step) % (pow2(
            batch.lde_bits(),
        ) as int),
    ensures
        batch.lde_row(index, step) == batch.lde_row(other, step),
{
    lemma_pow2_pos(batch.lde_bits());
    lemma_reversed_modulo((index * step) as nat, batch.lde_bits());
    lemma_reversed_modulo((other * step) as nat, batch.lde_bits());
}

/// Without blinding a commitment is determined by the polynomials, the rate and
/// the height of the cap.
pub proof fn law_unblinded_commitments_agree<F: Field, H: Hasher<F>>(
    a: PolynomialBatch<F, H>,
    b: PolynomialBatch<F, H>,
    polynomials: Seq<PolynomialCoeffs<F>>,
    rate_bits: nat,
    cap_height: nat,
    a_salts: Seq<Seq<F>>,
    b_salts: Seq<Seq<F>>,
)
    requires
        a.commits_to(polynomials, rate_bits, false, cap_height, a_salts),
        b.commits_to(polynomials, rate_bits, false, cap_height, b_salts),
    ensures
        rows(a.merkle_tree.leaves@) == rows(b.merkle_tree.leaves@),
        a.merkle_tree.digests@ == b.merkle_tree.digests@,
        a.merkle_tree.cap.0@ == b.merkle_tree.cap.0@,
{
    assert(a_salts =~= b_salts);
}

/// The cap has `2^cap_height` entries, and below it stand two digests for each
/// leaf that the cap has not.
pub proof fn law_digest_count<F: Field, H: Hasher<F>>(
    batch: PolynomialBatch<F, H>,
    polynomials: Seq<PolynomialCoeffs<F>>,
    rate_bits: nat,
    blinding: bool,
    cap_height: nat,
    salts: Seq<Seq<F>>,
)
    requires
        committable(polynomials, rate_bits),
        batch.commits_to(polynomials, rate_bits, blinding, cap_height, salts),
        cap_height <= batch.lde_bits(),
    ensures
        batch.merkle_tree.cap.0@.len() == pow2(cap_height),
        batch.merkle_tree.digests@.len() == 2 * (lde_len(polynomials, rate_bits) - pow2(
            cap_height,
        )),
{
    law_leaves(batch, polynomials, rate_bits, blinding, cap_height, salts);
    let n = lde_len(polynomials, rate_bits);
    let count = pow2(cap_height);
    let size = pow2((batch.lde_bits() - cap_height) as nat);
    lemma_pow2_pos(cap_height);
    lemma_pow2_pos((batch.lde_bits() - cap_height) as nat);
    lemma_pow2_adds(cap_height, (batch.lde_bits() - cap_height) as nat);
    assert(n == count * size);
    assert(n / count == size) by (nonlinear_arith)
        requires
            n == count * size,
            count > 0,
    ;
    let leaves = lde_leaves(polynomials, salts, n);
    lemma_merkle_cap_digests_len::<F, H>(leaves, size, count);
}

/// Values over the subgroup determine the polynomial that takes them: the
/// polynomials that are committed for given values are the only ones.
pub proof fn law_interpolation<F: Field>(c: Seq<F>, d: Seq<F>, values: Seq<F>)
    requires
        is_subgroup_order::<F>(values.len()),
        all_wf(c),
        all_wf(d),
        values_at_powers(c, F::root_spec(log2(values.len())), values),
        values_at_powers(d, F::root_spec(log2(values.len())), values),
    ensures
        c == d,
{
    let n_log = log2(values.len());
    let w = F::root_spec(n_log);
    assert forall|i: nat| i < pow2(n_log) implies eval(c, #[trigger] pow(w, i)) == eval(
        d,
        pow(w, i),
    ) by {
        assert(values[i as int] == eval(c, pow(w, i)));
        assert(values[i as int] == eval(d, pow(w, i)));
    }
    lemma_interpolation_unique(c, d, n_log);
}

/// To commit to the values that polynomials take over the subgroup is to commit
/// to these polynomials.
pub proof fn law_values_and_coeffs_agree<F: Field, H: Hasher<F>>(
    batch: PolynomialBatch<F, H>,
    polynomials: Seq<PolynomialCoeffs<F>>,
    values: Seq<Seq<F>>,
    n: nat,
)
    requires
        is_subgroup_order::<F>(n),
        values.len() == polynomials.len(),
        batch.polynomials@.len() == polynomials.len(),
        forall|j: int|
            0 <= j < values.len() ==> {
                &&& (#[trigger] values[j]).len() == n
                &&& polynomials[j].wf()
                &&& values_at_powers(polynomials[j].coeffs@, F::root_spec(log2(n)), values[j])
                &&& batch.polynomials@[j].wf()
                &&& values_at_powers(
                    batch.polynomials@[j].coeffs@,
                    F::root_spec(log2(n)),
                    values[j],
                )
            },
    ensures
        forall|j: int|
            0 <= j < polynomials.len() ==> (#[trigger] batch.polynomials@[j]).coeffs@
                == polynomials[j].coeffs@,
{
    assert forall|j: int| 0 <= j < polynomials.len() implies (
    #[trigger] batch.polynomials@[j]).coeffs@ == polynomials[j].coeffs@ by {
        assert(values[j].len() == n);
        law_interpolation(batch.polynomials@[j].coeffs@, polynomials[j].coeffs@, values[j]);
    }
}

/// Values over a coset determine the polynomial that takes them, where the shift
/// has an inverse.
pub proof fn law_coset_interpolation<F: Field>(
    c: Seq<F>,
    d: Seq<F>,
    shift: F,
    inverse: F,
    n: nat,
)
    requires
        is_subgroup_order::<F>(n),
        c.len() == n,
        d.len() == n,
        all_wf(c),
        all_wf(d),
        shift.wf(),
        inverse.wf(),
        shift.mul_spec(inverse) == F::one_spec(),
        coset_values(c, shift, n) == coset_values(d, shift, n),
    ensures
        c == d,
{
    let n_log = log2(n);
    let w = F::root_spec(n_log);
    F::lemma_roots(n_log);
    F::lemma_constants();
    lemma_pow_wf(w, 0);
    lemma_eval_shift(c, shift, pow(w, 0));
    lemma_eval_shift(d, shift, pow(w, 0));
    assert forall|i: nat| i < pow2(n_log) implies eval(
        poly_shift(c, shift),
        #[trigger] pow(w, i),
    ) == eval(poly_shift(d, shift), pow(w, i)) by {
        lemma_pow_wf(w, i);
        lemma_eval_shift(c, shift, pow(w, i));
        lemma_eval_shift(d, shift, pow(w, i));
        assert(coset_values(c, shift, n)[i as int] == eval(c, coset_point(shift, n_log, i)));
        assert(coset_values(d, shift, n)[i as int] == eval(d, coset_point(shift, n_log, i)));
    }
    lemma_interpolation_unique(poly_shift(c, shift), poly_shift(d, shift), n_log);
    assert forall|i: int| 0 <= i < n implies c[i] == d[i] by {
        assert(poly_shift(c, shift)[i] == poly_shift(d, shift)[i]);
        lemma_unshift(c[i], shift, inverse, i as nat);
        lemma_unshift(d[i], shift, inverse, i as nat);
    }
    assert(c =~= d);
}

/// The powers of the inverse undo those of the shift.
proof fn lemma_unshift<F: Field>(a: F, shift: F, inverse: F, n: nat)
    requires
        a.wf(),
        shift.wf(),
        inverse.wf(),
        shift.mul_spec(inverse) == F::one_spec(),
    ensures
        pow(inverse, n).mul_spec(pow(shift, n).mul_spec(a)) == a,
{
    lemma_pow_wf(shift, n);
    lemma_pow_wf(inverse, n);
    F::lemma_mul_commutes(shift, inverse);
    lemma_pow_of_product(inverse, shift, n);
    lemma_pow_one::<F>(n);
    F::lemma_mul_associates(pow(inverse, n), pow(shift, n), a);
    F::lemma_constants();
    F::lemma_mul_commutes(F::one_spec(), a);
    F::lemma_mul_one(a);
}

/// The extended values give the polynomial back: the only polynomial of the
/// length of the domain that takes them over the coset is the one that was
/// extended, followed by zeros.
pub proof fn law_extension_gives_back<F: Field>(c: Seq<F>, d: Seq<F>, n: nat)
    requires
        is_subgroup_order::<F>(n),
        c.len() <= n,
        d.len() == n,
        all_wf(c),
        all_wf(d),
        coset_values(d, F::coset_shift_spec(), n) == coset_values(c, F::coset_shift_spec(), n),
    ensures
        d == poly_padded(c, n),
{
    let shift = F::coset_shift_spec();
    F::lemma_constants();
    F::lemma_coset_shift_invertible();
    let inverse = choose|s: F| s.wf() && #[trigger] shift.mul_spec(s) == F::one_spec();
    lemma_coset_values_padded(c, shift, n);
    lemma_eval_padded(c, n, F::one_spec());
    law_coset_interpolation(poly_padded(c, n), d, shift, inverse, n);
}

/// Reversal turns the bits round: bit `b` of the result is bit `bits - 1 - b` of
/// the index.
pub proof fn law_bit_reversal(i: nat, bits: nat, b: nat)
    requires
        b < bits,
    ensures
        reversed(i, bits) < pow2(bits),
        (reversed(i, bits) / pow2(b)) % 2 == (i / pow2((bits - 1 - b) as nat)) % 2,
    decreases bits,
{
    lemma2_to64();
    lemma_reversed_bound(i, bits);
    let m = (bits - 1) as nat;
    let rest = reversed(i / 2, m);
    let low = i % 2;
    lemma_reversed_bound(i / 2, m);
    lemma_pow2_pos(m);
    lemma_pow2_pos(b);
    if b == m {
        let p = pow2(m);
        assert((low * p + rest) / p == low) by (nonlinear_arith)
            requires
                p > 0,
                0 <= rest < p,
        ;
        assert(i / 1 == i);
    } else {
        let k = (m - b - 1) as nat;
        law_bit_reversal(i / 2, m, b);
        lemma_pow2_adds(b, (m - b) as nat);
        lemma_pow2_unfold((m - b) as nat);
        lemma_pow2_pos(k);
        let (p, q) = (pow2(b), pow2(k));
        // low 2^m == (2 low 2^k) 2^b
        assert(low * pow2(m) == (2 * (low * q)) * p) by (nonlinear_arith)
            requires
                pow2(m) == p * (2 * q),
        ;
        let above = 2 * (low * q);
        assert((above * p + rest) / p == above + rest / p) by {
            vstd::arithmetic::div_mod::lemma_hoist_over_denominator(
                rest as int,
                above as int,
                p,
            );
        }
        lemma_div_denominator(i as int, 2, q as int);
        assert((above + rest / p) % 2 == (rest / p) % 2);
    }
}

/// A batch of which something is committed holds the polynomials themselves, the
/// logarithm of their length, the rate and whether it is blinded.
pub proof fn law_commitment_numbers<F: Field, H: Hasher<F>>(
    batch: PolynomialBatch<F, H>,
    polynomials: Seq<PolynomialCoeffs<F>>,
    rate_bits: nat,
    blinding: bool,
    cap_height: nat,
    salts: Seq<Seq<F>>,
)
    requires
        committable(polynomials, rate_bits),
        batch.commits_to(polynomials, rate_bits, blinding, cap_height, salts),
    ensures
        batch.polynomials@ == polynomials,
        pow2(batch.degree_log as nat) == polynomials[0].coeffs@.len(),
        batch.rate_bits == rate_bits,
        batch.blinding == blinding,
        batch.merkle_tree.leaves@.len() == polynomials[0].coeffs@.len() * pow2(rate_bits),
        salts.len() == if blinding {
            4int
        } else {
            0
        },
        forall|s: int|
            0 <= s < salts.len() ==> (#[trigger] salts[s]).len() == polynomials[0].coeffs@.len()
                * pow2(rate_bits),
{
    law_leaves(batch, polynomials, rate_bits, blinding, cap_height, salts);
}

/// The leaf for point `k` of the coset stands at the index whose bits are those
/// of `k` reversed. It holds the value there of each polynomial, then the salts
/// for that point and no other, and nothing else.
pub proof fn law_leaf_contents<F: Field, H: Hasher<F>>(
    batch: PolynomialBatch<F, H>,
    polynomials: Seq<PolynomialCoeffs<F>>,
    rate_bits: nat,
    blinding: bool,
    cap_height: nat,
    salts: Seq<Seq<F>>,
    k: nat,
)
    requires
        committable(polynomials, rate_bits),
        batch.commits_to(polynomials, rate_bits, blinding, cap_height, salts),
        k < polynomials[0].coeffs@.len() * pow2(rate_bits),
    ensures
        ({
            let bits = (batch.degree_log + batch.rate_bits) as nat;
            let leaf = batch.merkle_tree.leaves@[reversed(k, bits) as int]@;
            &&& reversed(k, bits) < batch.merkle_tree.leaves@.len()
            &&& leaf.len() == polynomials.len() + salts.len()
            &&& forall|j: int|
                0 <= j < polynomials.len() ==> (#[trigger] leaf[j]) == eval(
                    polynomials[j].coeffs@,
                    F::coset_shift_spec().mul_spec(pow(F::root_spec(bits), k)),
                )
            &&& forall|s: int|
                0 <= s < salts.len() ==> leaf[polynomials.len() + s] == (
                #[trigger] salts[s])[k as int]
        }),
{
    law_leaves(batch, polynomials, rate_bits, blinding, cap_height, salts);
    let bits = batch.lde_bits();
    let n = lde_len(polynomials, rate_bits);
    let i = reversed(k, bits);
    lemma_reversed_bound(k, bits);
    lemma_reversed_twice(k, bits);
    assert(batch.merkle_tree.leaves@[i as int]@ == lde_leaf(polynomials, salts, n, i));
}

/// The leaves made of given lists hold at the index with the bits of `k` reversed
/// the element `k` of each list.
pub proof fn law_leaves_of_lists<F>(lists: Seq<Seq<F>>, bits: nat, k: nat, j: int)
    requires
        k < pow2(bits),
        0 <= j < lists.len(),
    ensures
        leaves_of(lists, pow2(bits)).len() == pow2(bits),
        leaves_of(lists, pow2(bits))[reversed(k, bits) as int].len() == lists.len(),
        leaves_of(lists, pow2(bits))[reversed(k, bits) as int][j] == lists[j][k as int],
{
    lemma_log2_of_pow2(bits);
    lemma_reversed_bound(k, bits);
    lemma_reversed_twice(k, bits);
}

/// Each element of a list is a draw of its own: the draws of element `i` follow
/// those of the elements before it, and there are no others.
pub proof fn law_elements_are_separate_draws<F: Field>(v: Seq<F>, i: int)
    requires
        all_wf(v),
        0 <= i < v.len(),
    ensures
        draws_of(v).len() == v.len() * F::draw_count(),
        0 <= i * F::draw_count(),
        (i + 1) * F::draw_count() <= draws_of(v).len(),
        draws_of(v).subrange(i * F::draw_count(), (i + 1) * F::draw_count()) == v[i].draws(),
    decreases v.len(),
{
    let c = F::draw_count() as int;
    let head = v.drop_last();
    let m = head.len() as int;
    lemma_draws_len(head);
    F::lemma_draws(v.last(), v.last());
    assert(v[v.len() - 1].wf());
    assert((m + 1) * c == m * c + c && (i + 1) * c == i * c + c && 0 <= i * c && 0 <= m * c)
        by (nonlinear_arith)
        requires
            m >= 0,
            i >= 0,
            c >= 0,
    ;
    if i == m {
        assert(draws_of(v).subrange(i * c, (i + 1) * c) =~= v[i].draws());
    } else {
        law_elements_are_separate_draws(head, i);
        assert((i + 1) * c <= m * c) by (nonlinear_arith)
            requires
                i + 1 <= m,
                c >= 0,
        ;
        assert(draws_of(v).subrange(i * c, (i + 1) * c) =~= draws_of(head).subrange(
            i * c,
            (i + 1) * c,
        ));
    }
}

proof fn lemma_draws_len<F: Field>(v: Seq<F>)
    requires
        all_wf(v),
    ensures
        draws_of(v).len() == v.len() * F::draw_count(),
    decreases v.len(),
{
    let c = F::draw_count() as int;
    if v.len() > 0 {
        let m = v.len() - 1;
        lemma_draws_len(v.drop_last());
        assert(v[m].wf());
        F::lemma_draws(v.last(), v.last());
        assert((m + 1) * c == m * c + c) by (nonlinear_arith);
    } else {
        assert(0 * c == 0);
    }
}

proof fn lemma_list_draws_len<F: Field>(lists: Seq<Seq<F>>, n: nat)
    requires
        forall|s: int| 0 <= s < lists.len() ==> (#[trigger] lists[s]).len() == n && all_wf(lists[s]),
    ensures
        draws_of_lists(lists).len() == lists.len() * (n * F::draw_count()),
    decreases lists.len(),
{
    let d = n * F::draw_count();
    if lists.len() > 0 {
        let m = lists.len() - 1;
        assert(lists[m].len() == n);
        lemma_list_draws_len(lists.drop_last(), n);
        lemma_draws_len(lists.last());
        assert((m + 1) * d == m * d + d) by (nonlinear_arith);
    } else {
        assert(0 * d == 0);
    }
}

/// Each random element of a blinded commitment is a draw of its own: for each of
/// the lists and each of the `n` points the draws stand apart, one after the
/// other, and together they are all there are.
pub proof fn law_salts_are_separate_draws<F: Field>(salts: Seq<Seq<F>>, n: nat, s: int, k: int)
    requires
        forall|s: int| 0 <= s < salts.len() ==> (#[trigger] salts[s]).len() == n && all_wf(salts[s]),
        0 <= s < salts.len(),
        0 <= k < n,
    ensures
        draws_of_lists(salts).len() == salts.len() * (n * F::draw_count()),
        ({
            let start = s * (n * F::draw_count()) + k * F::draw_count();
            &&& 0 <= start
            &&& start + F::draw_count() <= draws_of_lists(salts).len()
            &&& draws_of_lists(salts).subrange(start, start + F::draw_count())
                == salts[s][k].draws()
        }),
    decreases salts.len(),
{
    let c = F::draw_count() as int;
    let d = (n * F::draw_count()) as int;
    let head = salts.drop_last();
    let m = head.len() as int;
    let start = s * d + k * c;
    assert(salts[m].len() == n && salts[s].len() == n);
    lemma_list_draws_len(salts, n);
    lemma_list_draws_len(head, n);
    lemma_draws_len(salts.last());
    law_elements_are_separate_draws(salts[s], k);
    assert((k + 1) * c == k * c + c && 0 <= s * d) by (nonlinear_arith)
        requires
            s >= 0,
            d >= 0,
    ;
    if s == m {
        assert((m + 1) * d == m * d + d) by (nonlinear_arith);
        assert(draws_of_lists(salts).subrange(start, start + c) =~= draws_of(salts[s]).subrange(
            k * c,
            (k + 1) * c,
        ));
    } else {
        law_salts_are_separate_draws(head, n, s, k);
        assert((m + 1) * d == m * d + d) by (nonlinear_arith);
        assert(draws_of_lists(salts).subrange(start, start + c) =~= draws_of_lists(
            head,
        ).subrange(start, start + c));
    }
}

} // verus!
