//! Powers of two, reversal of the bits of an index, and transposition.

use vstd::arithmetic::power2::{lemma_pow2_adds, lemma_pow2_pos, lemma_pow2_unfold, pow2};
use vstd::prelude::*;

verus! {

/// The largest `k` with `2^k <= n`; zero for `n == 0`.
pub open spec fn log2(n: nat) -> nat
    decreases n,
{
    if n <= 1 {
        0
    } else {
        1 + log2(n / 2)
    }
}

pub open spec fn is_power_of_two(n: nat) -> bool {
    n == pow2(log2(n))
}

/// The index whose lowest `bits` bits are those of `i` in the opposite order.
/// The bits of `i` beyond them play no part.
pub open spec fn reversed(i: nat, bits: nat) -> nat
    decreases bits,
{
    if bits == 0 {
        0
    } else {
        (i % 2) * pow2((bits - 1) as nat) + reversed(i / 2, (bits - 1) as nat)
    }
}

pub proof fn lemma_log2_of_pow2(k: nat)
    ensures
        log2(pow2(k)) == k,
        is_power_of_two(pow2(k)),
    decreases k,
{
    vstd::arithmetic::power2::lemma2_to64();
    if k > 0 {
        lemma_pow2_unfold(k);
        lemma_pow2_pos((k - 1) as nat);
        lemma_log2_of_pow2((k - 1) as nat);
        assert(pow2(k) / 2 == pow2((k - 1) as nat));
    }
}

/// The product of two powers of two.
pub proof fn lemma_power_of_two_times(n: nat, k: nat)
    requires
        is_power_of_two(n),
    ensures
        is_power_of_two(n * pow2(k)),
        log2(n * pow2(k)) == log2(n) + k,
        n >= 1,
{
    lemma_pow2_pos(log2(n));
    lemma_pow2_adds(log2(n), k);
    lemma_log2_of_pow2(log2(n) + k);
}

pub proof fn lemma_pow2_monotonic(a: nat, b: nat)
    requires
        a <= b,
    ensures
        pow2(a) <= pow2(b),
{
    if a < b {
        vstd::arithmetic::power2::lemma_pow2_strictly_increases(a, b);
    }
}

pub proof fn lemma_reversed_bound(i: nat, bits: nat)
    ensures
        reversed(i, bits) < pow2(bits),
    decreases bits,
{
    lemma_pow2_pos(bits);
    if bits > 0 {
        let m = (bits - 1) as nat;
        lemma_pow2_unfold(bits);
        lemma_reversed_bound(i / 2, m);
        assert((i % 2) * pow2(m) <= pow2(m)) by (nonlinear_arith)
            requires
                i % 2 <= 1,
        ;
    }
}

/// The highest bit goes to the lowest place.
proof fn lemma_reversed_high(i: nat, high: nat, bits: nat)
    requires
        i < pow2(bits),
        high <= 1,
    ensures
        reversed(high * pow2(bits) + i, bits + 1) == 2 * reversed(i, bits) + high,
    decreases bits,
{
    let x = high * pow2(bits) + i;
    let top = pow2(bits);
    assert(x == i || x == top + i) by {
        assert(0 * top == 0 && 1 * top == top);
    }
    if bits == 0 {
        vstd::arithmetic::power2::lemma2_to64();
        assert(reversed(x / 2, 0) == 0);
        assert((x % 2) * pow2(0) == x % 2);
    } else {
        let m = (bits - 1) as nat;
        lemma_pow2_unfold(bits);
        let h = pow2(m);
        assert(high * top == 2 * (high * h)) by (nonlinear_arith)
            requires
                top == 2 * h,
        ;
        assert(x / 2 == high * h + i / 2);
        assert(x % 2 == i % 2);
        lemma_reversed_high(i / 2, high, m);
        assert((i % 2) * top == 2 * ((i % 2) * h)) by (nonlinear_arith)
            requires
                top == 2 * h,
        ;
    }
}

/// Reversing twice restores an index.
pub proof fn lemma_reversed_twice(i: nat, bits: nat)
    requires
        i < pow2(bits),
    ensures
        reversed(reversed(i, bits), bits) == i,
    decreases bits,
{
    if bits == 0 {
        vstd::arithmetic::power2::lemma2_to64();
    } else {
        let m = (bits - 1) as nat;
        lemma_pow2_unfold(bits);
        let s = reversed(i / 2, m);
        lemma_reversed_bound(i / 2, m);
        lemma_reversed_high(s, i % 2, m);
        lemma_reversed_twice(i / 2, m);
    }
}

/// Only the lowest `bits` bits matter.
pub proof fn lemma_reversed_modulo(i: nat, bits: nat)
    ensures
        reversed(i, bits) == reversed(i % pow2(bits), bits),
    decreases bits,
{
    lemma_pow2_pos(bits);
    if bits > 0 {
        let m = (bits - 1) as nat;
        lemma_pow2_unfold(bits);
        lemma_pow2_pos(m);
        lemma_reversed_modulo(i / 2, m);
        let h = pow2(m);
        let r = i % pow2(bits);
        // i == 2 h q + r, so i / 2 == h q + r / 2 and i % 2 == r % 2
        let q = i / pow2(bits);
        vstd::arithmetic::div_mod::lemma_fundamental_div_mod(i as int, pow2(bits) as int);
        vstd::arithmetic::div_mod::lemma_mod_bound(i as int, pow2(bits) as int);
        assert(pow2(bits) * q == 2 * (h * q)) by (nonlinear_arith)
            requires
                pow2(bits) == 2 * h,
        ;
        assert(i % 2 == r % 2);
        assert(i / 2 == h * q + r / 2);
        vstd::arithmetic::div_mod::lemma_mod_multiples_vanish(q as int, (r / 2) as int, h as int);
        vstd::arithmetic::div_mod::lemma_small_mod(r / 2, h);
        assert((i / 2) % h == r / 2);
    }
}

/// `log_2(n)` of a power of two.
pub fn log2_strict(n: usize) -> (r: usize)
    requires
        is_power_of_two(n as nat),
    ensures
        r == log2(n as nat),
        n == pow2(r as nat),
{
    let mut r: usize = 0;
    let mut m: usize = n;
    while m > 1
        invariant
            m <= n,
            r + m <= n || n == 0,
            r + log2(m as nat) == log2(n as nat),
        decreases m,
    {
        m = m / 2;
        r = r + 1;
    }
    r
}

/// The lowest `num_bits` bits of `n` in the opposite order.
pub fn reverse_bits(n: usize, num_bits: usize) -> (r: usize)
    requires
        pow2(num_bits as nat) - 1 <= usize::MAX,
    ensures
        r == reversed(n as nat, num_bits as nat),
        r < pow2(num_bits as nat),
{
    let mut r: usize = 0;
    let mut rest: usize = n;
    let mut k: usize = 0;
    proof {
        assert(0 * pow2(num_bits as nat) == 0);
        lemma_reversed_bound(n as nat, num_bits as nat);
    }
    while k < num_bits
        invariant
            pow2(num_bits as nat) - 1 <= usize::MAX,
            reversed(n as nat, num_bits as nat) < pow2(num_bits as nat),
            k <= num_bits,
            reversed(n as nat, num_bits as nat) == r * pow2((num_bits - k) as nat) + reversed(
                rest as nat,
                (num_bits - k) as nat,
            ),
        decreases num_bits - k,
    {
        let ghost m = (num_bits - k - 1) as nat;
        let ghost h = pow2(m);
        let bit: usize = rest % 2;
        proof {
            lemma_pow2_unfold((num_bits - k) as nat);
            lemma_pow2_pos(m);
            assert(r * (2 * h) + bit * h == (2 * r + bit) * h) by (nonlinear_arith);
            assert((2 * r + bit) * h >= 2 * r + bit) by (nonlinear_arith)
                requires
                    h >= 1,
                    2 * r + bit >= 0,
            ;
        }
        r = r * 2 + bit;
        rest = rest / 2;
        k = k + 1;
    }
    proof {
        vstd::arithmetic::power2::lemma2_to64();
        assert(r * pow2(0) == r);
    }
    r
}

fn swap<T>(v: &mut Vec<T>, i: usize, j: usize)
    requires
        i < j < old(v)@.len(),
    ensures
        final(v)@ == old(v)@.update(i as int, old(v)@[j as int]).update(
            j as int,
            old(v)@[i as int],
        ),
{
    let (low, high) = v.as_mut_slice().split_at_mut(j);
    core::mem::swap(&mut low[i], &mut high[0]);
}

/// Moves each item to the place whose index has the bits of its own reversed.
pub fn reverse_index_bits_in_place<T>(arr: &mut Vec<T>)
    requires
        is_power_of_two(old(arr)@.len()),
    ensures
        final(arr)@.len() == old(arr)@.len(),
        forall|i: int|
            0 <= i < final(arr)@.len() ==> (#[trigger] final(arr)@[i]) == old(arr)@[reversed(
                i as nat,
                log2(old(arr)@.len()),
            ) as int],
{
    let n: usize = arr.len();
    let n_log: usize = log2_strict(n);
    let ghost before = arr@;
    let ghost bits = n_log as nat;
    let mut i: usize = 0;
    while i < n
        invariant
            n == pow2(bits),
            n == before.len(),
            bits == n_log,
            arr@.len() == n,
            i <= n,
            forall|p: int|
                0 <= p < n ==> (#[trigger] arr@[p]) == (if p < i || reversed(p as nat, bits) < i {
                    before[reversed(p as nat, bits) as int]
                } else {
                    before[p]
                }),
        decreases n - i,
    {
        let j: usize = reverse_bits(i, n_log);
        let ghost current = arr@;
        proof {
            lemma_reversed_twice(i as nat, bits);
        }
        if i < j {
            swap(arr, i, j);
        }
        proof {
            assert forall|p: int| 0 <= p < n implies (#[trigger] arr@[p]) == (if p < i + 1
                || reversed(p as nat, bits) < i + 1 {
                before[reversed(p as nat, bits) as int]
            } else {
                before[p]
            }) by {
                lemma_reversed_twice(p as nat, bits);
                lemma_reversed_bound(p as nat, bits);
                assert(current[p] == (if p < i || reversed(p as nat, bits) < i {
                    before[reversed(p as nat, bits) as int]
                } else {
                    before[p]
                }));
            }
        }
        i = i + 1;
    }
}

/// The rows of the result are the columns of `matrix`, as many as its first row has entries.
pub fn transpose<T: Copy>(matrix: &Vec<Vec<T>>) -> (r: Vec<Vec<T>>)
    requires
        matrix@.len() > 0,
        forall|j: int|
            0 <= j < matrix@.len() ==> (#[trigger] matrix@[j])@.len() >= matrix@[0]@.len(),
    ensures
        r@.len() == matrix@[0]@.len(),
        forall|i: int|
            0 <= i < r@.len() ==> (#[trigger] r@[i])@ == Seq::new(
                matrix@.len(),
                |j: int| matrix@[j]@[i],
            ),
{
    let len: usize = matrix[0].len();
    let mut r: Vec<Vec<T>> = Vec::new();
    let mut i: usize = 0;
    while i < len
        invariant
            matrix@.len() > 0,
            len == matrix@[0]@.len(),
            forall|j: int| 0 <= j < matrix@.len() ==> (#[trigger] matrix@[j])@.len() >= len,
            i <= len,
            r@.len() == i,
            forall|k: int|
                0 <= k < i ==> (#[trigger] r@[k])@ == Seq::new(
                    matrix@.len(),
                    |j: int| matrix@[j]@[k],
                ),
        decreases len - i,
    {
        let mut column: Vec<T> = Vec::new();
        let mut j: usize = 0;
        while j < matrix.len()
            invariant
                i < len,
                forall|j: int| 0 <= j < matrix@.len() ==> (#[trigger] matrix@[j])@.len() >= len,
                j <= matrix@.len(),
                column@.len() == j,
                forall|k: int| 0 <= k < j ==> (#[trigger] column@[k]) == matrix@[k]@[i as int],
            decreases matrix@.len() - j,
        {
            column.push(matrix[j][i]);
            j = j + 1;
        }
        assert(column@ =~= Seq::new(matrix@.len(), |j: int| matrix@[j]@[i as int]));
        r.push(column);
        i = i + 1;
    }
    r
}

/// `n << bits`, for a result that fits.
pub fn shift_left(n: usize, bits: usize) -> (r: usize)
    requires
        n * pow2(bits as nat) <= usize::MAX,
    ensures
        r == n * pow2(bits as nat),
{
    let mut r: usize = n;
    let mut i: usize = 0;
    proof {
        vstd::arithmetic::power2::lemma2_to64();
        assert(n * pow2(0) == n);
    }
    if n == 0 {
        return 0;
    }
    while i < bits
        invariant
            n > 0,
            i <= bits,
            n * pow2(bits as nat) <= usize::MAX,
            r == n * pow2(i as nat),
        decreases bits - i,
    {
        proof {
            lemma_pow2_unfold((i + 1) as nat);
            let rest = (bits - i - 1) as nat;
            lemma_pow2_adds((i + 1) as nat, rest);
            lemma_pow2_pos(rest);
            assert(n * pow2((i + 1) as nat) <= n * (pow2((i + 1) as nat) * pow2(rest)))
                by (nonlinear_arith)
                requires
                    pow2(rest) >= 1,
            ;
            assert(n * (2 * pow2(i as nat)) == 2 * (n * pow2(i as nat))) by (nonlinear_arith);
        }
        r = r * 2;
        i = i + 1;
    }
    r
}

} // verus!
