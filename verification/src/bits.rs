//! Powers of two: the integer logarithms the allocator rounds by, and the
//! bit tricks it computes them with.
use vstd::prelude::*;
use vstd::arithmetic::power2::{pow2, is_pow2, lemma_pow2_pos, lemma_pow2_unfold, lemma_pow2_adds, lemma2_to64};
use vstd::arithmetic::div_mod::{lemma_fundamental_div_mod, lemma_mod_multiples_basic, lemma_mod_add_multiples_vanish};
use vstd::arithmetic::mul::lemma_mul_is_associative;
use vstd::bits::{lemma_usize_shl_is_mul, lemma_usize_pow2_no_overflow};
use vstd::std_specs::bits::{u64_leading_zeros, u64_trailing_zeros, axiom_u64_trailing_zeros};
use vstd::bits::lemma_u64_shl_is_mul;

verus! {

/// The floor of the base-2 logarithm (0 for 0 and 1).
pub open spec fn log2(n: nat) -> nat
    decreases n,
{
    if n < 2 {
        0
    } else {
        1 + log2(n / 2)
    }
}

/// `pow2(log2(n))` is the largest power of two that is at most `n`.
pub proof fn lemma_log2_bounds(n: nat)
    requires
        n >= 1,
    ensures
        pow2(log2(n)) <= n < 2 * pow2(log2(n)),
        pow2(log2(n) + 1) == 2 * pow2(log2(n)),
    decreases n,
{
    lemma_pow2_unfold(log2(n) + 1);
    if n < 2 {
        lemma2_to64();
    } else {
        lemma_log2_bounds(n / 2);
        lemma_pow2_unfold(log2(n));
    }
}

/// The exponent of a power of two is its logarithm.
pub proof fn lemma_log2_pow2(k: nat)
    ensures
        log2(pow2(k)) == k,
    decreases k,
{
    if k == 0 {
        lemma2_to64();
    } else {
        lemma_pow2_unfold(k);
        lemma_pow2_pos((k - 1) as nat);
        lemma_log2_pow2((k - 1) as nat);
        assert(pow2(k) / 2 == pow2((k - 1) as nat));
    }
}

/// A value of `usize` has a logarithm below the word width.
pub proof fn lemma_log2_usize(n: usize)
    requires
        n >= 1,
    ensures
        log2(n as nat) < usize::BITS,
        pow2(log2(n as nat)) <= usize::MAX,
{
    lemma_log2_bounds(n as nat);
    if log2(n as nat) >= usize::BITS {
        lemma_pow2_monotone(usize::BITS as nat, log2(n as nat));
        lemma2_to64();
        vstd::arithmetic::power2::lemma2_to64_rest();
        assert(false);
    }
}

/// `pow2` never decreases.
pub proof fn lemma_pow2_monotone(a: nat, b: nat)
    requires
        a <= b,
    ensures
        pow2(a) <= pow2(b),
    decreases b - a,
{
    if a < b {
        lemma_pow2_monotone(a, (b - 1) as nat);
        lemma_pow2_unfold(b);
        lemma_pow2_pos((b - 1) as nat);
    }
}

/// The leading-zero count of a positive 64-bit value is `63 - log2`.
pub proof fn lemma_leading_zeros_log2(n: u64)
    requires
        n >= 1,
    ensures
        u64_leading_zeros(n) == 63 - log2(n as nat),
    decreases n,
{
    reveal(u64_leading_zeros);
    if n == 1 {
        assert(u64_leading_zeros(0) == 64);
    } else {
        lemma_leading_zeros_log2(n / 2);
    }
}

/// The largest power of two that is at most `num`.
pub fn prev_power_of_2(num: usize) -> (r: usize)
    requires
        num >= 1,
    ensures
        r == pow2(log2(num as nat)),
        r <= num < 2 * r,
{
    proof {
        lemma_leading_zeros_log2(num as u64);
        lemma_log2_usize(num);
        lemma_log2_bounds(num as nat);
    }
    let lz = (num as u64).leading_zeros();
    let shift: usize = (63 - lz) as usize;
    proof {
        lemma_usize_shl_is_mul(1, shift);
    }
    1usize << shift
}


/// The ceiling of the base-2 logarithm (0 for 0 and 1).
pub open spec fn ceil_log2(n: nat) -> nat
    decreases n,
{
    if n <= 1 {
        0
    } else {
        1 + ceil_log2(((n + 1) / 2) as nat)
    }
}

/// `pow2(ceil_log2(n))` is the smallest power of two that is at least `n`.
pub proof fn lemma_ceil_log2_bounds(n: nat)
    ensures
        n <= pow2(ceil_log2(n)),
        ceil_log2(n) > 0 ==> pow2((ceil_log2(n) - 1) as nat) < n,
    decreases n,
{
    if n <= 1 {
        lemma2_to64();
    } else {
        let h = ((n + 1) / 2) as nat;
        lemma_ceil_log2_bounds(h);
        lemma_pow2_unfold(ceil_log2(n));
        if ceil_log2(h) > 0 {
            lemma_pow2_unfold(ceil_log2(h));
        } else {
            lemma2_to64();
        }
    }
}

/// Above 1, the ceiling of the logarithm is one more than the floor of the
/// logarithm of the number below.
pub proof fn lemma_ceil_log2_from_log2(n: nat)
    requires
        n >= 2,
    ensures
        ceil_log2(n) == log2((n - 1) as nat) + 1,
{
    let c = ceil_log2(n);
    let l = log2((n - 1) as nat);
    lemma_ceil_log2_bounds(n);
    lemma_log2_bounds((n - 1) as nat);
    assert(c > 0);
    if c - 1 < l {
        lemma_pow2_monotone(c, l);
    } else if c - 1 > l {
        lemma_pow2_monotone(l + 1, (c - 1) as nat);
    }
}

/// The smallest power of two that is at least `n` (1 for 0 and 1), as
/// `usize::next_power_of_two` gives it; the caller keeps it in range.
pub fn next_power_of_two(n: usize) -> (r: usize)
    requires
        pow2(ceil_log2(n as nat)) <= usize::MAX,
    ensures
        r == pow2(ceil_log2(n as nat)),
{
    if n <= 1 {
        proof {
            lemma2_to64();
        }
        return 1;
    }
    let p = prev_power_of_2(n - 1);
    proof {
        lemma_ceil_log2_from_log2(n as nat);
        lemma_pow2_unfold(ceil_log2(n as nat));
    }
    p * 2
}

/// The order of a power of two, computed from its trailing zeros.
pub fn order_of(size: usize) -> (k: usize)
    requires
        exists|e: nat| e < usize::BITS && pow2(e) == size,
    ensures
        pow2(k as nat) == size,
        k < usize::BITS,
{
    let ghost e = choose|e: nat| e < usize::BITS && pow2(e) == size;
    proof {
        lemma_usize_pow2_no_overflow(e);
        lemma_u64_shl_is_mul(1, e as u64);
        axiom_u64_trailing_zeros(size as u64);
        let x = size as u64;
        let ee = e as u64;
        let t = u64_trailing_zeros(x) as u64;
        assert(x == 1u64 << ee);
        assert(t < 64) by {
            assert(x != 0);
        }
        assert(t == ee) by (bit_vector)
            requires
                x == 1u64 << ee,
                ee < 64,
                t < 64,
                (x >> t) & 1u64 == 1u64,
        ;
    }
    (size as u64).trailing_zeros() as usize
}

/// The exponent of the lowest set bit of a positive number.
pub open spec fn low_order(c: nat) -> nat
    decreases c,
{
    if c == 0 || c % 2 == 1 {
        0
    } else {
        1 + low_order(c / 2)
    }
}

/// `pow2(low_order(c))` divides `c`.
pub proof fn lemma_low_order_divides(c: nat)
    requires
        c > 0,
    ensures
        c % pow2(low_order(c)) == 0,
        (c / pow2(low_order(c))) % 2 == 1,
    decreases c,
{
    if c % 2 == 1 {
        lemma2_to64();
        assert(low_order(c) == 0);
        assert(c / pow2(0) == c);
    } else {
        let h = c / 2;
        lemma_low_order_divides(h);
        let k = low_order(h);
        lemma_pow2_unfold(k + 1);
        lemma_pow2_pos(k);
        let q = h / pow2(k);
        vstd::arithmetic::div_mod::lemma_fundamental_div_mod(h as int, pow2(k) as int);
        assert(h == pow2(k) * q);
        assert(c == pow2(k + 1) * q) by (nonlinear_arith)
            requires
                c == 2 * h,
                h == pow2(k) * q,
                pow2(k + 1) == 2 * pow2(k),
        ;
        vstd::arithmetic::div_mod::lemma_mod_multiples_basic(q as int, pow2(k + 1) as int);
        vstd::arithmetic::div_mod::lemma_div_multiples_vanish(q as int, pow2(k + 1) as int);
        vstd::arithmetic::mul::lemma_mul_is_commutative(q as int, pow2(k + 1) as int);
        assert(low_order(c) == k + 1);
        assert(c / pow2(low_order(c)) == q);
        assert(q % 2 == 1);
    }
}

/// `x & (!x + 1)` isolates the lowest set bit of a positive `x`.
pub proof fn lemma_lowbit(x: u64)
    requires
        x > 0,
    ensures
        !x < u64::MAX,
        x & ((!x + 1) as u64) == pow2(low_order(x as nat)),
    decreases x,
{
    assert(!x < u64::MAX) by (bit_vector)
        requires
            x > 0,
    ;
    let n = (!x + 1) as u64;
    if x % 2 == 1 {
        assert(x & n == 1) by (bit_vector)
            requires
                x % 2 == 1,
                n == !x + 1,
        ;
        lemma2_to64();
    } else {
        let h = x / 2;
        assert(!h < u64::MAX) by (bit_vector)
            requires
                h > 0,
        ;
        let m = (!h + 1) as u64;
        assert(x & n == 2 * (h & m)) by (bit_vector)
            requires
                x % 2 == 0,
                x != 0,
                h == x / 2,
                n == !x + 1,
                m == !h + 1,
        ;
        lemma_lowbit(h);
        lemma_pow2_unfold(low_order(x as nat));
    }
}


/// A power of two is `pow2` of its logarithm.
pub proof fn lemma_is_pow2_log2(n: int)
    requires
        is_pow2(n),
    ensures
        n > 0,
        n == pow2(log2(n as nat)),
    decreases n,
{
    reveal(is_pow2);
    if n == 1 {
        lemma2_to64();
    } else {
        lemma_is_pow2_log2(n / 2);
        lemma_pow2_unfold(log2(n as nat));
    }
}

/// A multiple of `pow2(k)` is a multiple of every smaller power of two.
pub proof fn lemma_align_smaller(a: int, k: nat, l: nat)
    requires
        a % (pow2(k) as int) == 0,
        l <= k,
    ensures
        a % (pow2(l) as int) == 0,
{
    lemma_pow2_pos(k);
    lemma_pow2_pos(l);
    lemma_pow2_adds(l, (k - l) as nat);
    lemma_fundamental_div_mod(a, pow2(k) as int);
    let q = a / (pow2(k) as int);
    lemma_mul_is_associative(pow2(l) as int, pow2((k - l) as nat) as int, q);
    assert(a == (pow2((k - l) as nat) * q) * pow2(l)) by (nonlinear_arith)
        requires
            a == pow2(k) * q,
            pow2(k) == pow2(l) * pow2((k - l) as nat),
    ;
    lemma_mod_multiples_basic(pow2((k - l) as nat) * q, pow2(l) as int);
}

/// Adding the block size keeps a multiple of it a multiple of it.
pub proof fn lemma_align_add(a: int, k: nat)
    requires
        a % (pow2(k) as int) == 0,
    ensures
        (a + pow2(k)) % (pow2(k) as int) == 0,
        (a - pow2(k)) % (pow2(k) as int) == 0,
{
    lemma_pow2_pos(k);
    lemma_mod_add_multiples_vanish(a, pow2(k) as int);
    vstd::arithmetic::div_mod::lemma_mod_sub_multiples_vanish(a, pow2(k) as int);
}

} // verus!
