//! Batches of polynomials that have been extended over a coset and put into a Merkle tree.

use vstd::arithmetic::power2::{lemma_pow2_pos, lemma_pow2_unfold, pow2};
use vstd::prelude::*;
use vstd::slice::slice_subrange;

use crate::bits::{
    is_power_of_two, lemma_power_of_two_times, lemma_reversed_bound, log2, log2_strict,
    reverse_bits, reverse_index_bits_in_place, reversed, shift_left, transpose,
};
use crate::fft::{
    coset_point, coset_values, is_root_table, is_subgroup_order, values_at_powers, FftRootTable,
};
use crate::field::{all_wf, lemma_pow_wf, pow, Field};
use crate::merkle::{rows, Hasher, MerkleTree};
use crate::polynomial::{eval, lemma_eval_padded, poly_padded, PolynomialCoeffs, PolynomialValues};
use crate::sampling::Sampler;

verus! {

/// Four (~64 bit) field elements gives ~128 bit security.
pub const SALT_SIZE: usize = 4;

/// The number of random elements at the end of each leaf.
pub open spec fn salt_size(blinding: bool) -> nat {
    if blinding {
        SALT_SIZE as nat
    } else {
        0
    }
}

/// A FRI oracle: a batch of polynomials which have been Merklized.
#[derive(Debug, PartialEq, Eq)]
pub struct PolynomialBatch<F: Field, H: Hasher<F>> {
    pub polynomials: Vec<PolynomialCoeffs<F>>,
    pub merkle_tree: MerkleTree<F, H>,
    pub degree_log: usize,
    pub rate_bits: usize,
    pub blinding: bool,
}

/// The number of points over which polynomials of the length of the first are extended.
pub open spec fn lde_len<F: Field>(polynomials: Seq<PolynomialCoeffs<F>>, rate_bits: nat) -> nat {
    polynomials[0].coeffs@.len() * pow2(rate_bits)
}

/// Polynomials of equal length, for which there is a domain `2^rate_bits` times as large.
pub open spec fn committable<F: Field>(
    polynomials: Seq<PolynomialCoeffs<F>>,
    rate_bits: nat,
) -> bool {
    &&& polynomials.len() > 0
    &&& forall|j: int|
        0 <= j < polynomials.len() ==> (#[trigger] polynomials[j]).wf()
            && polynomials[j].coeffs@.len() == polynomials[0].coeffs@.len()
    &&& is_power_of_two(polynomials[0].coeffs@.len())
    &&& is_subgroup_order::<F>(lde_len(polynomials, rate_bits))
    &&& lde_len(polynomials, rate_bits) <= usize::MAX
}

/// One random element for each of `n` points, as many times as blinding asks for.
pub open spec fn valid_salts<F: Field>(salts: Seq<Seq<F>>, blinding: bool, n: nat) -> bool {
    &&& salts.len() == salt_size(blinding)
    &&& forall|s: int|
        0 <= s < salts.len() ==> (#[trigger] salts[s]).len() == n && all_wf(salts[s])
}

/// The leaf `i`: the values of all polynomials at the point whose index is `i`
/// with its bits reversed, and the salts for that point.
pub open spec fn lde_leaf<F: Field>(
    polynomials: Seq<PolynomialCoeffs<F>>,
    salts: Seq<Seq<F>>,
    n: nat,
    i: nat,
) -> Seq<F> {
    let k = reversed(i, log2(n));
    Seq::new(
        polynomials.len() + salts.len(),
        |j: int|
            if j < polynomials.len() {
                eval(polynomials[j].coeffs@, coset_point(F::coset_shift_spec(), log2(n), k))
            } else {
                salts[j - polynomials.len()][k as int]
            },
    )
}

/// All leaves.
pub open spec fn lde_leaves<F: Field>(
    polynomials: Seq<PolynomialCoeffs<F>>,
    salts: Seq<Seq<F>>,
    n: nat,
) -> Seq<Seq<F>> {
    Seq::new(n, |i: int| lde_leaf(polynomials, salts, n, i as nat))
}

/// The leaves made of lists of `n` extended values: the leaf `i` takes from each
/// list the value whose index is `i` with its bits reversed.
pub open spec fn leaves_of<F>(lists: Seq<Seq<F>>, n: nat) -> Seq<Seq<F>> {
    Seq::new(
        n,
        |i: int|
            Seq::new(
                lists.len(),
                |j: int| lists[j][reversed(i as nat, log2(n)) as int],
            ),
    )
}

/// The draws that make up the elements of a list, one after the other.
pub open spec fn draws_of<F: Field>(v: Seq<F>) -> Seq<(u64, u64)>
    decreases v.len(),
{
    if v.len() == 0 {
        Seq::empty()
    } else {
        draws_of(v.drop_last()) + v.last().draws()
    }
}

/// The draws that make up several lists, one after the other.
pub open spec fn draws_of_lists<F: Field>(lists: Seq<Seq<F>>) -> Seq<(u64, u64)>
    decreases lists.len(),
{
    if lists.len() == 0 {
        Seq::empty()
    } else {
        draws_of_lists(lists.drop_last()) + draws_of(lists.last())
    }
}

/// Draws `n` elements at random from the given source, each on its own.
pub fn draw_vec<F: Field>(sampler: &mut Sampler, n: usize) -> (r: Vec<F>)
    ensures
        r@.len() == n,
        all_wf(r@),
        final(sampler).log() == old(sampler).log() + draws_of(r@),
{
    let mut r: Vec<F> = Vec::new();
    let mut i: usize = 0;
    assert(sampler.log() =~= old(sampler).log() + draws_of(r@));
    while i < n
        invariant
            i <= n,
            r@.len() == i,
            all_wf(r@),
            sampler.log() == old(sampler).log() + draws_of(r@),
        decreases n - i,
    {
        let ghost before = r@;
        r.push(F::draw(sampler));
        proof {
            assert(r@.drop_last() =~= before);
            assert(sampler.log() =~= old(sampler).log() + draws_of(r@));
        }
        i = i + 1;
    }
    r
}

/// Draws `n` elements at random.
pub fn rand_vec<F: Field>(n: usize) -> (r: Vec<F>)
    ensures
        r@.len() == n,
        all_wf(r@),
        exists|sampler: Sampler| #[trigger] sampler.log() == draws_of(r@),
{
    let mut sampler: Sampler = Sampler::new();
    let r: Vec<F> = draw_vec(&mut sampler, n);
    assert(sampler.log() =~= draws_of(r@));
    r
}

impl<F: Field, H: Hasher<F>> Default for PolynomialBatch<F, H> {
    fn default() -> (r: Self)
        ensures
            r.polynomials@.len() == 0,
            r.merkle_tree.leaves@.len() == 0,
            r.merkle_tree.digests@.len() == 0,
            r.merkle_tree.cap.0@.len() == 0,
            r.merkle_tree.device is None,
            r.degree_log == 0,
            r.rate_bits == 0,
            !r.blinding,
    {
        PolynomialBatch {
            polynomials: Vec::new(),
            merkle_tree: MerkleTree::default(),
            degree_log: 0,
            rate_bits: 0,
            blinding: false,
        }
    }
}

impl<F: Field, H: Hasher<F>> PolynomialBatch<F, H> {
    /// The batch commits to `polynomials` with the given salts.
    pub open spec fn commits_to(
        self,
        polynomials: Seq<PolynomialCoeffs<F>>,
        rate_bits: nat,
        blinding: bool,
        cap_height: nat,
        salts: Seq<Seq<F>>,
    ) -> bool {
        let n = lde_len(polynomials, rate_bits);
        &&& valid_salts(salts, blinding, n)
        &&& self.polynomials@ == polynomials
        &&& self.merkle_tree.is_tree_over(lde_leaves(polynomials, salts, n), cap_height)
        &&& self.degree_log == log2(polynomials[0].coeffs@.len())
        &&& self.rate_bits == rate_bits
        &&& self.blinding == blinding
    }

    /// Creates a list polynomial commitment for the polynomials interpolating the values in `values`.
    pub fn from_values(
        values: Vec<PolynomialValues<F>>,
        rate_bits: usize,
        blinding: bool,
        cap_height: usize,
        fft_root_table: Option<&FftRootTable<F>>,
    ) -> (r: Self)
        requires
            values@.len() > 0,
            forall|j: int|
                0 <= j < values@.len() ==> (#[trigger] values@[j]).wf()
                    && values@[j].values@.len() == values@[0].values@.len(),
            is_power_of_two(values@[0].values@.len()),
            is_subgroup_order::<F>(values@[0].values@.len() * pow2(rate_bits as nat)),
            values@[0].values@.len() * pow2(rate_bits as nat) <= usize::MAX,
            cap_height <= log2(values@[0].values@.len() * pow2(rate_bits as nat)),
            fft_root_table matches Some(table) ==> is_root_table(
                table@,
                log2(values@[0].values@.len() * pow2(rate_bits as nat)),
            ),
        ensures
            r.polynomials@.len() == values@.len(),
            forall|j: int|
                0 <= j < values@.len() ==> (#[trigger] r.polynomials@[j]).wf() && values_at_powers(
                    r.polynomials@[j].coeffs@,
                    F::root_spec(log2(values@[0].values@.len())),
                    values@[j].values@,
                ),
            forall|j: int, i: int|
                #![trigger values@[j].values@[i]]
                0 <= j < values@.len() && 0 <= i < values@[j].values@.len() ==> eval(
                    r.polynomials@[j].coeffs@,
                    pow(F::root_spec(log2(values@[j].values@.len())), i as nat),
                ) == values@[j].values@[i],
            pow2(r.degree_log as nat) == values@[0].values@.len(),
            r.rate_bits == rate_bits,
            r.blinding == blinding,
            exists|salts: Seq<Seq<F>>, sampler: Sampler|
                #![trigger r.commits_to(
                    r.polynomials@,
                    rate_bits as nat,
                    blinding,
                    cap_height as nat,
                    salts,
                ), sampler.log()]
                r.commits_to(
                    r.polynomials@,
                    rate_bits as nat,
                    blinding,
                    cap_height as nat,
                    salts,
                ) && sampler.log() == draws_of_lists(salts),
    {
        let ghost degree = values@[0].values@.len();
        proof {
            lemma_power_of_two_times(degree, rate_bits as nat);
        }
        let mut coeffs: Vec<PolynomialCoeffs<F>> = Vec::new();
        let mut j: usize = 0;
        while j < values.len()
            invariant
                is_subgroup_order::<F>(degree),
                forall|j: int|
                    0 <= j < values@.len() ==> (#[trigger] values@[j]).wf()
                        && values@[j].values@.len() == degree,
                j <= values@.len(),
                coeffs@.len() == j,
                forall|k: int|
                    0 <= k < j ==> (#[trigger] coeffs@[k]).wf() && values_at_powers(
                        coeffs@[k].coeffs@,
                        F::root_spec(log2(degree)),
                        values@[k].values@,
                    ),
            decreases values@.len() - j,
        {
            coeffs.push(values[j].ifft());
            j = j + 1;
        }
        assert(coeffs@[0].coeffs@.len() == degree);
        let r: Self = Self::from_coeffs(coeffs, rate_bits, blinding, cap_height, fft_root_table);
        proof {
            assert forall|j: int, i: int|
                #![trigger values@[j].values@[i]]
                0 <= j < values@.len() && 0 <= i < values@[j].values@.len() implies eval(
                r.polynomials@[j].coeffs@,
                pow(F::root_spec(log2(values@[j].values@.len())), i as nat),
            ) == values@[j].values@[i] by {
                assert(values_at_powers(
                    r.polynomials@[j].coeffs@,
                    F::root_spec(log2(degree)),
                    values@[j].values@,
                ));
            }
        }
        r
    }

    /// Creates a list polynomial commitment for the polynomials `polynomials`.
    pub fn from_coeffs(
        polynomials: Vec<PolynomialCoeffs<F>>,
        rate_bits: usize,
        blinding: bool,
        cap_height: usize,
        fft_root_table: Option<&FftRootTable<F>>,
    ) -> (r: Self)
        requires
            committable(polynomials@, rate_bits as nat),
            cap_height <= log2(lde_len(polynomials@, rate_bits as nat)),
            fft_root_table matches Some(table) ==> is_root_table(
                table@,
                log2(lde_len(polynomials@, rate_bits as nat)),
            ),
        ensures
            r.polynomials == polynomials,
            pow2(r.degree_log as nat) == polynomials@[0].coeffs@.len(),
            r.rate_bits == rate_bits,
            r.blinding == blinding,
            exists|salts: Seq<Seq<F>>, sampler: Sampler|
                #![trigger r.commits_to(
                    polynomials@,
                    rate_bits as nat,
                    blinding,
                    cap_height as nat,
                    salts,
                ), sampler.log()]
                r.commits_to(
                    polynomials@,
                    rate_bits as nat,
                    blinding,
                    cap_height as nat,
                    salts,
                ) && sampler.log() == draws_of_lists(salts),
    {
        let salts: Vec<Vec<F>> = Self::draw_salts(
            shift_left(polynomials[0].len(), rate_bits),
            blinding,
        );
        Self::from_coeffs_with_salts(
            polynomials,
            rate_bits,
            blinding,
            salts,
            cap_height,
            fft_root_table,
        )
    }

    /// Random elements for each of `n` points, if there are to be any.
    pub fn draw_salts(n: usize, blinding: bool) -> (r: Vec<Vec<F>>)
        ensures
            r@.len() == if blinding {
                4int
            } else {
                0
            },
            valid_salts(rows(r@), blinding, n as nat),
            exists|sampler: Sampler| #[trigger] sampler.log() == draws_of_lists(rows(r@)),
    {
        let count: usize = if blinding {
            SALT_SIZE
        } else {
            0
        };
        let mut sampler: Sampler = Sampler::new();
        let mut r: Vec<Vec<F>> = Vec::new();
        let mut s: usize = 0;
        assert(sampler.log() =~= draws_of_lists(rows(r@)));
        while s < count
            invariant
                s <= count,
                r@.len() == s,
                forall|k: int| 0 <= k < s ==> (#[trigger] r@[k])@.len() == n && all_wf(r@[k]@),
                sampler.log() == draws_of_lists(rows(r@)),
            decreases count - s,
        {
            let ghost before = rows(r@);
            r.push(draw_vec(&mut sampler, n));
            assert(rows(r@).drop_last() =~= before);
            s = s + 1;
        }
        r
    }

    /// Like `from_coeffs`, with the random elements given.
    pub fn from_coeffs_with_salts(
        polynomials: Vec<PolynomialCoeffs<F>>,
        rate_bits: usize,
        blinding: bool,
        salts: Vec<Vec<F>>,
        cap_height: usize,
        fft_root_table: Option<&FftRootTable<F>>,
    ) -> (r: Self)
        requires
            committable(polynomials@, rate_bits as nat),
            valid_salts(rows(salts@), blinding, lde_len(polynomials@, rate_bits as nat)),
            cap_height <= log2(lde_len(polynomials@, rate_bits as nat)),
            fft_root_table matches Some(table) ==> is_root_table(
                table@,
                log2(lde_len(polynomials@, rate_bits as nat)),
            ),
        ensures
            r.polynomials == polynomials,
            pow2(r.degree_log as nat) == polynomials@[0].coeffs@.len(),
            r.rate_bits == rate_bits,
            r.blinding == blinding,
            r.commits_to(
                polynomials@,
                rate_bits as nat,
                blinding,
                cap_height as nat,
                rows(salts@),
            ),
    {
        let ghost n = lde_len(polynomials@, rate_bits as nat);
        let ghost salt_seqs = rows(salts@);
        let lde_values: Vec<Vec<F>> = Self::extend_all(&polynomials, rate_bits, fft_root_table);
        proof {
            let lists = rows(lde_values@) + salt_seqs;
            assert forall|i: int| 0 <= i < n implies #[trigger] leaves_of(lists, n)[i]
                == lde_leaves(polynomials@, salt_seqs, n)[i] by {
                let k = reversed(i as nat, log2(n)) as int;
                lemma_reversed_bound(i as nat, log2(n));
                assert forall|j: int| 0 <= j < lists.len() implies #[trigger] lists[j][k]
                    == lde_leaf(polynomials@, salt_seqs, n, i as nat)[j] by {
                    if j < polynomials@.len() {
                        assert(lists[j] == lde_values@[j]@);
                    } else {
                        assert(lists[j] == salt_seqs[j - polynomials@.len()]);
                    }
                }
                assert(leaves_of(lists, n)[i] =~= lde_leaf(
                    polynomials@,
                    salt_seqs,
                    n,
                    i as nat,
                ));
            }
            assert(leaves_of(lists, n) =~= lde_leaves(polynomials@, salt_seqs, n));
        }
        Self::from_lde_values(polynomials, lde_values, rate_bits, blinding, salts, cap_height)
    }

    /// Puts extended values, one list for each polynomial, and the random elements
    /// behind them into a Merkle tree.
    pub fn from_lde_values(
        polynomials: Vec<PolynomialCoeffs<F>>,
        lde_values: Vec<Vec<F>>,
        rate_bits: usize,
        blinding: bool,
        salts: Vec<Vec<F>>,
        cap_height: usize,
    ) -> (r: Self)
        requires
            committable(polynomials@, rate_bits as nat),
            lde_values@.len() > 0,
            valid_salts(rows(salts@), blinding, lde_len(polynomials@, rate_bits as nat)),
            forall|j: int|
                0 <= j < lde_values@.len() ==> (#[trigger] lde_values@[j])@.len() == lde_len(
                    polynomials@,
                    rate_bits as nat,
                ) && all_wf(lde_values@[j]@),
            cap_height <= log2(lde_len(polynomials@, rate_bits as nat)),
        ensures
            r.polynomials == polynomials,
            r.merkle_tree.is_tree_over(
                leaves_of(
                    rows(lde_values@) + rows(salts@),
                    lde_len(polynomials@, rate_bits as nat),
                ),
                cap_height as nat,
            ),
            r.degree_log == log2(polynomials@[0].coeffs@.len()),
            pow2(r.degree_log as nat) == polynomials@[0].coeffs@.len(),
            r.rate_bits == rate_bits,
            r.blinding == blinding,
    {
        let degree: usize = polynomials[0].len();
        let ghost n = lde_len(polynomials@, rate_bits as nat);
        let ghost lists = rows(lde_values@) + rows(salts@);
        let lde_values: Vec<Vec<F>> = Self::append_salts(lde_values, salts, Ghost(n));
        assert(rows(lde_values@) =~= lists);
        let mut leaves: Vec<Vec<F>> = transpose(&lde_values);
        let ghost columns = leaves@;
        reverse_index_bits_in_place(&mut leaves);
        proof {
            assert forall|i: int| 0 <= i < n implies (#[trigger] leaves@[i])@ == leaves_of(
                rows(lde_values@),
                n,
            )[i] && all_wf(leaves@[i]@) by {
                let k = reversed(i as nat, log2(n)) as int;
                lemma_reversed_bound(i as nat, log2(n));
                assert(leaves@[i] == columns[k]);
                assert forall|j: int| 0 <= j < lde_values@.len() implies (#[trigger] columns[k]@[j])
                    == rows(lde_values@)[j][k] && columns[k]@[j].wf() by {
                    assert(columns[k]@[j] == lde_values@[j]@[k]);
                    assert(all_wf(lde_values@[j]@));
                }
                assert(columns[k]@ =~= leaves_of(rows(lde_values@), n)[i]);
            }
            assert(rows(leaves@) =~= leaves_of(rows(lde_values@), n));
        }
        let merkle_tree: MerkleTree<F, H> = MerkleTree::new(leaves, cap_height);
        let degree_log: usize = log2_strict(degree);
        PolynomialBatch { polynomials, merkle_tree, degree_log, rate_bits, blinding }
    }

    /// The values of each polynomial over the coset, followed by the random
    /// elements that salt each leaf.
    pub fn lde_values(
        polynomials: &Vec<PolynomialCoeffs<F>>,
        rate_bits: usize,
        blinding: bool,
        fft_root_table: Option<&FftRootTable<F>>,
    ) -> (r: Vec<Vec<F>>)
        requires
            committable(polynomials@, rate_bits as nat),
            fft_root_table matches Some(table) ==> is_root_table(
                table@,
                log2(lde_len(polynomials@, rate_bits as nat)),
            ),
        ensures
            r@.len() == polynomials@.len() + salt_size(blinding),
            forall|j: int|
                0 <= j < polynomials@.len() ==> (#[trigger] r@[j])@ == coset_values(
                    polynomials@[j].coeffs@,
                    F::coset_shift_spec(),
                    lde_len(polynomials@, rate_bits as nat),
                ),
            forall|j: int|
                0 <= j < r@.len() ==> (#[trigger] r@[j])@.len() == lde_len(
                    polynomials@,
                    rate_bits as nat,
                ) && all_wf(r@[j]@),
            forall|j: int, i: int|
                #![trigger r@[j]@[i]]
                0 <= j < polynomials@.len() && 0 <= i < r@[j]@.len() ==> r@[j]@[i] == eval(
                    polynomials@[j].coeffs@,
                    F::coset_shift_spec().mul_spec(
                        pow(F::root_spec(log2(r@[j]@.len())), i as nat),
                    ),
                ),
            exists|sampler: Sampler|
                #[trigger] sampler.log() == draws_of_lists(
                    rows(r@).skip(polynomials@.len() as int),
                ),
    {
        let salts: Vec<Vec<F>> = Self::draw_salts(
            shift_left(polynomials[0].len(), rate_bits),
            blinding,
        );
        let ghost salt_seqs = rows(salts@);
        let r: Vec<Vec<F>> = Self::lde_values_with_salts(
            polynomials,
            rate_bits,
            blinding,
            salts,
            fft_root_table,
        );
        assert(rows(r@).skip(polynomials@.len() as int) =~= salt_seqs);
        r
    }

    /// Like `lde_values`, with the random elements given.
    pub fn lde_values_with_salts(
        polynomials: &Vec<PolynomialCoeffs<F>>,
        rate_bits: usize,
        blinding: bool,
        salts: Vec<Vec<F>>,
        fft_root_table: Option<&FftRootTable<F>>,
    ) -> (r: Vec<Vec<F>>)
        requires
            committable(polynomials@, rate_bits as nat),
            valid_salts(rows(salts@), blinding, lde_len(polynomials@, rate_bits as nat)),
            fft_root_table matches Some(table) ==> is_root_table(
                table@,
                log2(lde_len(polynomials@, rate_bits as nat)),
            ),
        ensures
            r@.len() == polynomials@.len() + salts@.len(),
            forall|j: int|
                0 <= j < polynomials@.len() ==> (#[trigger] r@[j])@ == coset_values(
                    polynomials@[j].coeffs@,
                    F::coset_shift_spec(),
                    lde_len(polynomials@, rate_bits as nat),
                ),
            forall|s: int|
                0 <= s < salts@.len() ==> r@[polynomials@.len() + s] == (#[trigger] salts@[s]),
            forall|j: int|
                0 <= j < r@.len() ==> (#[trigger] r@[j])@.len() == lde_len(
                    polynomials@,
                    rate_bits as nat,
                ) && all_wf(r@[j]@),
            forall|j: int, i: int|
                #![trigger r@[j]@[i]]
                0 <= j < polynomials@.len() && 0 <= i < r@[j]@.len() ==> r@[j]@[i] == eval(
                    polynomials@[j].coeffs@,
                    F::coset_shift_spec().mul_spec(
                        pow(F::root_spec(log2(r@[j]@.len())), i as nat),
                    ),
                ),
    {
        let ghost n = lde_len(polynomials@, rate_bits as nat);
        let lde_values: Vec<Vec<F>> = Self::extend_all(polynomials, rate_bits, fft_root_table);
        Self::append_salts(lde_values, salts, Ghost(n))
    }

    /// The lists of extended values, followed by the lists of random elements.
    fn append_salts(
        lde_values: Vec<Vec<F>>,
        salts: Vec<Vec<F>>,
        Ghost(n): Ghost<nat>,
    ) -> (r: Vec<Vec<F>>)
        requires
            forall|j: int|
                0 <= j < lde_values@.len() ==> (#[trigger] lde_values@[j])@.len() == n && all_wf(
                    lde_values@[j]@,
                ),
            forall|s: int|
                0 <= s < salts@.len() ==> (#[trigger] rows(salts@)[s]).len() == n && all_wf(
                    rows(salts@)[s],
                ),
        ensures
            r@ == lde_values@ + salts@,
            forall|j: int| 0 <= j < r@.len() ==> (#[trigger] r@[j])@.len() == n && all_wf(r@[j]@),
    {
        let mut r: Vec<Vec<F>> = lde_values;
        let mut salts: Vec<Vec<F>> = salts;
        proof {
            assert forall|s: int| 0 <= s < salts@.len() implies (#[trigger] salts@[s])@.len() == n
                && all_wf(salts@[s]@) by {
                assert(rows(salts@)[s] == salts@[s]@);
            }
        }
        r.append(&mut salts);
        r
    }

    /// The values of each polynomial over the coset.
    fn extend_all(
        polynomials: &Vec<PolynomialCoeffs<F>>,
        rate_bits: usize,
        fft_root_table: Option<&FftRootTable<F>>,
    ) -> (r: Vec<Vec<F>>)
        requires
            committable(polynomials@, rate_bits as nat),
            fft_root_table matches Some(table) ==> is_root_table(
                table@,
                log2(lde_len(polynomials@, rate_bits as nat)),
            ),
        ensures
            r@.len() == polynomials@.len(),
            forall|j: int|
                0 <= j < r@.len() ==> (#[trigger] r@[j])@ == coset_values(
                    polynomials@[j].coeffs@,
                    F::coset_shift_spec(),
                    lde_len(polynomials@, rate_bits as nat),
                ) && all_wf(r@[j]@),
    {
        let ghost n = lde_len(polynomials@, rate_bits as nat);
        let mut r: Vec<Vec<F>> = Vec::new();
        let mut j: usize = 0;
        while j < polynomials.len()
            invariant
                committable(polynomials@, rate_bits as nat),
                n == lde_len(polynomials@, rate_bits as nat),
                fft_root_table matches Some(table) ==> is_root_table(table@, log2(n)),
                j <= polynomials@.len(),
                r@.len() == j,
                forall|k: int|
                    0 <= k < j ==> (#[trigger] r@[k])@ == coset_values(
                        polynomials@[k].coeffs@,
                        F::coset_shift_spec(),
                        n,
                    ) && all_wf(r@[k]@),
            decreases polynomials@.len() - j,
        {
            r.push(Self::lde_onto_coset(&polynomials[j], rate_bits, fft_root_table));
            j = j + 1;
        }
        r
    }

    /// The values of one polynomial over the coset `2^rate_bits` times as large as its length.
    pub fn lde_onto_coset(
        p: &PolynomialCoeffs<F>,
        rate_bits: usize,
        fft_root_table: Option<&FftRootTable<F>>,
    ) -> (r: Vec<F>)
        requires
            p.wf(),
            is_subgroup_order::<F>(p.coeffs@.len() * pow2(rate_bits as nat)),
            p.coeffs@.len() * pow2(rate_bits as nat) <= usize::MAX,
            fft_root_table matches Some(table) ==> is_root_table(
                table@,
                log2(p.coeffs@.len() * pow2(rate_bits as nat)),
            ),
        ensures
            r@ == coset_values(
                p.coeffs@,
                F::coset_shift_spec(),
                p.coeffs@.len() * pow2(rate_bits as nat),
            ),
            all_wf(r@),
            r@.len() == p.coeffs@.len() * pow2(rate_bits as nat),
            forall|i: int|
                0 <= i < r@.len() ==> (#[trigger] r@[i]) == eval(
                    p.coeffs@,
                    F::coset_shift_spec().mul_spec(pow(F::root_spec(log2(r@.len())), i as nat)),
                ),
    {
        let ghost n = p.coeffs@.len() * pow2(rate_bits as nat);
        let shift: F = F::coset_shift();
        let extended: PolynomialCoeffs<F> = p.lde(rate_bits);
        let r: Vec<F> = extended.coset_fft_with_options(shift, fft_root_table).values;
        proof {
            lemma_pow2_pos(rate_bits as nat);
            assert(p.coeffs@.len() <= n) by (nonlinear_arith)
                requires
                    n == p.coeffs@.len() * pow2(rate_bits as nat),
                    pow2(rate_bits as nat) >= 1,
            ;
            lemma_coset_values_padded(p.coeffs@, shift, n);
        }
        r
    }

    /// The number of bits of an index into the extended domain.
    pub open spec fn lde_bits(self) -> nat {
        (self.degree_log + self.rate_bits) as nat
    }

    /// The leaf that holds the values at the point `index * step`.
    pub open spec fn lde_leaf_at(self, index: int, step: int) -> Seq<F> {
        self.merkle_tree.leaves@[reversed((index * step) as nat, self.lde_bits()) as int]@
    }

    /// The values at the point `index * step`: its leaf without the salt.
    pub open spec fn lde_row(self, index: int, step: int) -> Seq<F> {
        let leaf = self.lde_leaf_at(index, step);
        leaf.take(leaf.len() - salt_size(self.blinding))
    }

    /// There is a point `index * step`, its leaf is on the host, and the leaf is
    /// long enough to hold the salt.
    pub open spec fn has_lde_row(self, index: int, step: int) -> bool {
        &&& 0 <= index * step <= usize::MAX
        &&& pow2(self.lde_bits()) - 1 <= usize::MAX
        &&& self.lde_bits() == 0 ==> index * step == 0
        &&& reversed((index * step) as nat, self.lde_bits()) < self.merkle_tree.leaves@.len()
        &&& salt_size(self.blinding) <= self.lde_leaf_at(index, step).len()
    }

    /// Fetches LDE values at the `index * step`th point.
    pub fn get_lde_values(&self, index: usize, step: usize) -> (r: &[F])
        requires
            self.has_lde_row(index as int, step as int),
        ensures
            r@ == self.lde_row(index as int, step as int),
            ({
                let leaf = self.merkle_tree.leaves@[reversed(
                    (index * step) as nat,
                    (self.degree_log + self.rate_bits) as nat,
                ) as int]@;
                r@ == leaf.take(leaf.len() - if self.blinding {
                    4int
                } else {
                    0
                })
            }),
    {
        let index: usize = index * step;
        proof {
            lemma_bits_fit(self.lde_bits());
        }
        let index: usize = reverse_bits(index, self.degree_log + self.rate_bits);
        let leaf: &Vec<F> = &self.merkle_tree.leaves[index];
        let salt: usize = if self.blinding {
            SALT_SIZE
        } else {
            0
        };
        slice_subrange(leaf.as_slice(), 0, leaf.len() - salt)
    }

    /// Like `get_lde_values`, but fetches LDE values from a batch of `WIDTH` points, and returns
    /// packed values.
    pub fn get_lde_values_packed<const WIDTH: usize>(
        &self,
        index_start: usize,
        step: usize,
    ) -> (r: Vec<[F; WIDTH]>)
        requires
            0 < WIDTH,
            index_start + WIDTH - 1 <= usize::MAX,
            forall|k: int|
                index_start <= k < index_start + WIDTH ==> #[trigger] self.has_lde_row(
                    k,
                    step as int,
                ) && self.lde_row(index_start as int, step as int).len() <= self.lde_row(
                    k,
                    step as int,
                ).len(),
        ensures
            r@.len() == self.lde_row(index_start as int, step as int).len(),
            forall|j: int, i: int|
                #![trigger r@[j]@[i]]
                0 <= j < r@.len() && 0 <= i < WIDTH ==> r@[j]@[i] == self.lde_row(
                    index_start + i,
                    step as int,
                )[j],
    {
        let mut row_wise: Vec<&[F]> = Vec::new();
        let mut i: usize = 0;
        while i < WIDTH
            invariant
                i <= WIDTH,
                index_start + WIDTH - 1 <= usize::MAX,
                forall|k: int|
                    index_start <= k < index_start + WIDTH ==> #[trigger] self.has_lde_row(
                        k,
                        step as int,
                    ) && self.lde_row(index_start as int, step as int).len() <= self.lde_row(
                        k,
                        step as int,
                    ).len(),
                row_wise@.len() == i,
                forall|k: int|
                    0 <= k < i ==> (#[trigger] row_wise@[k])@ == self.lde_row(
                        index_start + k,
                        step as int,
                    ) && self.lde_row(index_start as int, step as int).len() <= row_wise@[k]@.len(),
            decreases WIDTH - i,
        {
            assert(self.has_lde_row(index_start + i, step as int));
            row_wise.push(self.get_lde_values(index_start + i, step));
            i = i + 1;
        }
        let leaf_size: usize = row_wise[0].len();
        let mut r: Vec<[F; WIDTH]> = Vec::new();
        let mut j: usize = 0;
        while j < leaf_size
            invariant
                j <= leaf_size,
                row_wise@.len() == WIDTH,
                forall|k: int|
                    #![trigger row_wise@[k]]
                    0 <= k < WIDTH ==> leaf_size <= row_wise@[k]@.len() && row_wise@[k]@
                        == self.lde_row(index_start + k, step as int),
                r@.len() == j,
                forall|k: int, i: int|
                    #![trigger r@[k]@[i]]
                    0 <= k < j && 0 <= i < WIDTH ==> r@[k]@[i] == self.lde_row(
                        index_start + i,
                        step as int,
                    )[k],
            decreases leaf_size - j,
        {
            let mut packed: [F; WIDTH] = [F::zero();WIDTH];
            let mut i: usize = 0;
            while i < WIDTH
                invariant
                    i <= WIDTH,
                    j < leaf_size,
                    row_wise@.len() == WIDTH,
                    forall|k: int|
                        #![trigger row_wise@[k]]
                        0 <= k < WIDTH ==> leaf_size <= row_wise@[k]@.len() && row_wise@[k]@
                            == self.lde_row(index_start + k, step as int),
                    forall|k: int|
                        0 <= k < i ==> packed@[k] == self.lde_row(index_start + k, step as int)[
                            j as int
                        ],
                decreases WIDTH - i,
            {
                packed[i] = row_wise[i][j];
                i = i + 1;
            }
            r.push(packed);
            j = j + 1;
        }
        r
    }
}

/// An index that fits into a machine word has few enough bits.
proof fn lemma_bits_fit(bits: nat)
    requires
        pow2(bits) - 1 <= usize::MAX,
    ensures
        bits <= usize::MAX,
{
    if bits > usize::MAX {
        lemma_pow2_strictly_exceeds(bits);
    }
}

/// A power of two exceeds its exponent.
proof fn lemma_pow2_strictly_exceeds(n: nat)
    ensures
        n < pow2(n),
    decreases n,
{
    if n == 0 {
        lemma_pow2_pos(0);
    } else {
        lemma_pow2_strictly_exceeds((n - 1) as nat);
        lemma_pow2_unfold(n);
    }
}

/// Padding a polynomial to the size of the domain does not change its values there.
pub proof fn lemma_coset_values_padded<F: Field>(c: Seq<F>, shift: F, n: nat)
    requires
        all_wf(c),
        shift.wf(),
        is_subgroup_order::<F>(n),
        c.len() <= n,
    ensures
        coset_values(poly_padded(c, n), shift, n) == coset_values(c, shift, n),
{
    let w = F::root_spec(log2(n));
    F::lemma_roots(log2(n));
    assert forall|i: int| 0 <= i < n implies eval(
        poly_padded(c, n),
        #[trigger] coset_point(shift, log2(n), i as nat),
    ) == eval(c, coset_point(shift, log2(n), i as nat)) by {
        lemma_pow_wf(w, i as nat);
        F::lemma_closed(shift, pow(w, i as nat));
        lemma_eval_padded(c, n, coset_point(shift, log2(n), i as nat));
    }
    assert(coset_values(poly_padded(c, n), shift, n) =~= coset_values(c, shift, n));
}

} // verus!
