use vstd::prelude::*;

verus! {

/// Two to the power `k`.
pub open spec fn exp2(k: nat) -> nat
    decreases k,
{
    if k == 0 {
        1
    } else {
        2 * exp2((k - 1) as nat)
    }
}

/// `x` is a power of two.
pub open spec fn is_pow2(x: int) -> bool {
    exists|k: nat| #[trigger] exp2(k) == x
}

/// The smallest `k` with `x <= 2^k` (zero for `x <= 1`).
pub open spec fn log2_ceil(x: nat) -> nat
    decreases x,
{
    if x <= 1 {
        0
    } else {
        1 + log2_ceil(((x + 1) / 2) as nat)
    }
}

/// The smallest power of two that is at least `x` (one for `x == 0`).
pub open spec fn next_pow2(x: nat) -> nat {
    exp2(log2_ceil(x))
}

pub proof fn lemma_exp2_pos(k: nat)
    ensures
        exp2(k) >= 1,
    decreases k,
{
    if k > 0 {
        lemma_exp2_pos((k - 1) as nat);
    }
}

pub proof fn lemma_exp2_monotone(j: nat, k: nat)
    requires
        j <= k,
    ensures
        exp2(j) <= exp2(k),
        j < k ==> 2 * exp2(j) <= exp2(k),
    decreases k,
{
    lemma_exp2_pos(j);
    if j < k {
        lemma_exp2_monotone(j, (k - 1) as nat);
    }
}

/// Equal powers of two have equal exponents.
pub proof fn lemma_exp2_injective(j: nat, k: nat)
    requires
        exp2(j) == exp2(k),
    ensures
        j == k,
{
    if j < k {
        lemma_exp2_monotone(j, k);
        lemma_exp2_pos(j);
    } else if k < j {
        lemma_exp2_monotone(k, j);
        lemma_exp2_pos(k);
    }
}

/// A smaller power of two divides a larger one.
pub proof fn lemma_exp2_divides(j: nat, k: nat)
    requires
        j <= k,
    ensures
        exp2(k) % exp2(j) == 0,
        exp2(k) == exp2(j) * exp2((k - j) as nat),
    decreases k,
{
    lemma_exp2_pos(j);
    if j < k {
        lemma_exp2_divides(j, (k - 1) as nat);
        let q = exp2((k - 1 - j) as nat);
        let d = (k - j) as nat;
        assert(exp2(d) == 2 * exp2((d - 1) as nat));
        assert((d - 1) as nat == (k - 1 - j) as nat);
        assert(exp2(k) == exp2(j) * (2 * q)) by (nonlinear_arith)
            requires
                exp2(k) == 2 * exp2((k - 1) as nat),
                exp2((k - 1) as nat) == exp2(j) * q;
        assert(exp2(d) == 2 * q);
        vstd::arithmetic::div_mod::lemma_mod_multiples_basic(2 * q as int, exp2(j) as int);
        assert((2 * q) * exp2(j) == exp2(j) * (2 * q)) by (nonlinear_arith);
    } else {
        assert(exp2((k - j) as nat) == 1);
        assert(exp2(k) == exp2(j) * 1) by (nonlinear_arith)
            requires j == k;
    }
}

pub proof fn lemma_exp2_values()
    ensures
        exp2(0) == 1,
        exp2(1) == 2,
        exp2(2) == 4,
        exp2(3) == 8,
        exp2(31) == 0x8000_0000,
        exp2(32) == 0x1_0000_0000,
        exp2(63) == 0x8000_0000_0000_0000,
        exp2(64) == 0x1_0000_0000_0000_0000,
{
    reveal_with_fuel(exp2, 65);
}

/// `log2_ceil(x)` names the smallest power of two that is at least `x`.
pub proof fn lemma_log2_ceil(x: nat)
    ensures
        x <= exp2(log2_ceil(x)),
        log2_ceil(x) > 0 ==> exp2((log2_ceil(x) - 1) as nat) < x,
    decreases x,
{
    if x > 1 {
        let h = ((x + 1) / 2) as nat;
        lemma_log2_ceil(h);
        lemma_exp2_pos(log2_ceil(h));
        if log2_ceil(h) > 0 {
            assert(exp2(log2_ceil(h)) == 2 * exp2((log2_ceil(h) - 1) as nat));
        }
    }
}

/// A power of two that is at least `x` is at least `next_pow2(x)`.
pub proof fn lemma_log2_ceil_least(x: nat, k: nat)
    requires
        x <= exp2(k),
    ensures
        log2_ceil(x) <= k,
{
    lemma_log2_ceil(x);
    if log2_ceil(x) > k {
        lemma_exp2_monotone(k, (log2_ceil(x) - 1) as nat);
    }
}

/// `log2_ceil` of a power of two is its exponent.
pub proof fn lemma_log2_ceil_exp2(k: nat)
    ensures
        log2_ceil(exp2(k)) == k,
{
    lemma_log2_ceil_least(exp2(k), k);
    lemma_log2_ceil(exp2(k));
    let j = log2_ceil(exp2(k));
    if j < k {
        lemma_exp2_monotone(j, k);
    }
}

/// Whether `x` is a power of two.
pub fn is_power_of_two(x: usize) -> (b: bool)
    ensures
        b == is_pow2(x as int),
{
    if x == 0 {
        proof {
            assert forall|k: nat| exp2(k) != 0 by {
                lemma_exp2_pos(k);
            }
        }
        return false;
    }
    let mut p: usize = 1;
    let ghost mut k: nat = 0;
    while p < x
        invariant
            1 <= x,
            p == exp2(k),
            1 <= p <= x,
        decreases x - p,
    {
        if p > usize::MAX / 2 {
            // p is 2^63 and x lies strictly between 2^63 and 2^64
            proof {
                assert forall|j: nat| exp2(j) != x as int by {
                    if j <= k {
                        lemma_exp2_monotone(j, k);
                    } else {
                        lemma_exp2_monotone(k, j);
                    }
                }
            }
            return false;
        }
        p = p * 2;
        proof {
            k = k + 1;
        }
        if p > x {
            proof {
                assert forall|j: nat| exp2(j) != x as int by {
                    if j < k {
                        lemma_exp2_monotone(j, (k - 1) as nat);
                    } else {
                        lemma_exp2_monotone(k, j);
                    }
                }
            }
            return false;
        }
    }
    assert(exp2(k) == x);
    true
}

/// The exponent of a power of two.
pub fn log2_exact(x: usize) -> (k: u32)
    requires
        is_pow2(x as int),
    ensures
        exp2(k as nat) == x,
        k < 64,
{
    let ghost e = choose|e: nat| exp2(e) == x as int;
    proof {
        lemma_exp2_values();
        if e >= 64 {
            lemma_exp2_monotone(64, e);
        }
    }
    let mut p: usize = 1;
    let mut k: u32 = 0;
    while p < x
        invariant
            p == exp2(k as nat),
            k <= e,
            exp2(e) == x,
            e < 64,
        decreases e - k,
    {
        proof {
            if k == e {
                assert(false);
            }
            lemma_exp2_monotone((k + 1) as nat, e);
        }
        p = p * 2;
        k = k + 1;
    }
    proof {
        lemma_exp2_monotone(k as nat, e);
        lemma_exp2_injective(k as nat, e);
    }
    k
}

/// The smallest power of two that is at least `x`.
pub fn next_power_of_two(x: usize) -> (p: usize)
    requires
        x <= usize::MAX / 2 + 1,
    ensures
        p == next_pow2(x as nat),
{
    let mut p: usize = 1;
    let ghost mut k: nat = 0;
    proof {
        lemma_log2_ceil(x as nat);
        lemma_exp2_values();
        lemma_exp2_pos(0);
    }
    while p < x
        invariant
            p == exp2(k),
            p >= 1,
            x <= usize::MAX / 2 + 1,
            k <= log2_ceil(x as nat),
            x <= exp2(log2_ceil(x as nat)),
            log2_ceil(x as nat) > 0 ==> exp2((log2_ceil(x as nat) - 1) as nat) < x,
        decreases log2_ceil(x as nat) - k,
    {
        proof {
            if k == log2_ceil(x as nat) {
                assert(false);
            }
            lemma_exp2_monotone(k, (log2_ceil(x as nat) - 1) as nat);
        }
        p = p * 2;
        proof {
            k = k + 1;
        }
    }
    proof {
        if k < log2_ceil(x as nat) {
            lemma_exp2_monotone(k, (log2_ceil(x as nat) - 1) as nat);
        }
    }
    p
}

/// Align `addr` downwards to the nearest multiple of `align`.
///
/// The result is always at most `addr`. `align` must be a power of two.
pub fn align_down(addr: usize, align: usize) -> (r: usize)
    requires
        is_pow2(align as int),
    ensures
        r == addr - addr % align,
        r <= addr,
        r % align == 0,
        addr - r < align,
{
    proof {
        let k = choose|k: nat| exp2(k) == align as int;
        lemma_exp2_pos(k);
        vstd::arithmetic::div_mod::lemma_fundamental_div_mod(addr as int, align as int);
        vstd::arithmetic::div_mod::lemma_mod_multiples_basic(addr as int / align as int, align as int);
    }
    addr - addr % align
}

/// Align `addr` upwards to the nearest multiple of `align`.
///
/// The result is always at least `addr`. `align` must be a power of two,
/// and the aligned address must fit in a `usize`.
pub fn align_up(addr: usize, align: usize) -> (r: usize)
    requires
        is_pow2(align as int),
        addr % align != 0 ==> addr + (align - addr % align) <= usize::MAX,
    ensures
        r == if addr % align == 0 {
            addr as int
        } else {
            addr + (align - addr % align)
        },
        r >= addr,
        r % align == 0,
        r - addr < align,
{
    proof {
        let k = choose|k: nat| exp2(k) == align as int;
        lemma_exp2_pos(k);
        vstd::arithmetic::div_mod::lemma_fundamental_div_mod(addr as int, align as int);
        vstd::arithmetic::div_mod::lemma_mod_multiples_basic(
            addr as int / align as int + 1,
            align as int,
        );
        assert((addr as int / align as int + 1) * align == align * (addr as int / align as int)
            + align) by (nonlinear_arith);
    }
    if addr % align == 0 {
        addr
    } else {
        addr + (align - addr % align)
    }
}

} // verus!
