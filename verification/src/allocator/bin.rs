use vstd::prelude::*;

use crate::allocator::util::{
    exp2, is_pow2, is_power_of_two, lemma_exp2_divides, lemma_exp2_monotone, lemma_exp2_pos,
    lemma_exp2_values, lemma_log2_ceil, lemma_log2_ceil_exp2, log2_ceil, log2_exact,
    next_pow2, next_power_of_two,
};
use crate::allocator::{AllocErr, Layout};

verus! {

/// The number of bins: bin `k` holds free blocks of `2^k` bytes.
pub const BIN_SIZE: usize = 32;

/// The exponent of the smallest block handed out.
pub const MIN_BITS: usize = 3;

/// The smallest block handed out, in bytes.
pub const MIN_SIZE: usize = 8;

/// The block of `2^k` bytes at `a` lies in `[lo, hi)` and is aligned to its
/// size.
pub open spec fn fits(a: int, k: nat, lo: int, hi: int) -> bool {
    &&& lo <= a
    &&& a + exp2(k) <= hi
    &&& a % (exp2(k) as int) == 0
}

/// The blocks of `2^k` bytes at `a` and of `2^l` bytes at `b` do not overlap.
pub open spec fn apart(a: int, k: nat, b: int, l: nat) -> bool {
    a + exp2(k) <= b || b + exp2(l) <= a
}

/// The block of `2^k` bytes at `a` overlaps no free block of `bins`.
pub open spec fn apart_all(a: int, k: nat, bins: Seq<Seq<usize>>) -> bool {
    forall|m: int, i: int|
        0 <= m < 32 && 0 <= i < bins[m].len() ==> apart(a, k, #[trigger] bins[m][i] as int, m as nat)
}

/// The free lists are well formed: 32 bins, each block fits the region and is
/// aligned to its size, and no two free blocks overlap.
pub open spec fn bins_wf(bins: Seq<Seq<usize>>, lo: int, hi: int) -> bool {
    &&& bins.len() == 32
    &&& forall|m: int, i: int|
        0 <= m < 32 && 0 <= i < bins[m].len() ==> fits(#[trigger] bins[m][i] as int, m as nat, lo, hi)
    &&& forall|m1: int, i1: int, m2: int, i2: int|
        0 <= m1 < 32 && 0 <= i1 < bins[m1].len() && 0 <= m2 < 32 && 0 <= i2 < bins[m2].len() && (m1
            != m2 || i1 != i2) ==> apart(
            #[trigger] bins[m1][i1] as int,
            m1 as nat,
            #[trigger] bins[m2][i2] as int,
            m2 as nat,
        )
}

/// The allocated blocks are well formed: each fits the region, and no two
/// overlap, nor overlaps a free block.
pub open spec fn live_wf(live: Seq<(int, nat)>, bins: Seq<Seq<usize>>, lo: int, hi: int) -> bool {
    &&& forall|j: int|
        0 <= j < live.len() ==> (#[trigger] live[j]).1 < 32 && fits(live[j].0, live[j].1, lo, hi)
    &&& forall|j1: int, j2: int|
        0 <= j1 < live.len() && 0 <= j2 < live.len() && j1 != j2 ==> apart(
            (#[trigger] live[j1]).0,
            live[j1].1,
            (#[trigger] live[j2]).0,
            live[j2].1,
        )
    &&& forall|j: int| 0 <= j < live.len() ==> apart_all((#[trigger] live[j]).0, live[j].1, bins)
}

/// The number of free bytes held in the first `n` bins.
pub open spec fn free_sum(bins: Seq<Seq<usize>>, n: nat) -> nat
    decreases n,
{
    if n == 0 {
        0
    } else {
        free_sum(bins, (n - 1) as nat) + bins[n - 1].len() * exp2((n - 1) as nat)
    }
}

/// The number of bytes held by the blocks of `live`.
pub open spec fn live_sum(live: Seq<(int, nat)>) -> nat
    decreases live.len(),
{
    if live.len() == 0 {
        0
    } else {
        live_sum(live.drop_last()) + exp2(live.last().1)
    }
}

proof fn lemma_free_sum_update(b1: Seq<Seq<usize>>, b2: Seq<Seq<usize>>, n: nat, k: nat)
    requires
        k < n,
        forall|m: int| 0 <= m < n && m != k ==> #[trigger] b2[m].len() == b1[m].len(),
    ensures
        free_sum(b2, n) == free_sum(b1, n) + (b2[k as int].len() - b1[k as int].len()) * exp2(
            k,
        ),
    decreases n,
{
    if n - 1 == k {
        if k > 0 {
            lemma_free_sum_same(b1, b2, k);
        }
        assert(free_sum(b2, n) == free_sum(b1, k) + b2[k as int].len() * exp2(k));
        assert(b2[k as int].len() * exp2(k) == b1[k as int].len() * exp2(k) + (b2[k as int].len()
            - b1[k as int].len()) * exp2(k)) by (nonlinear_arith);
    } else {
        lemma_free_sum_update(b1, b2, (n - 1) as nat, k);
    }
}

proof fn lemma_free_sum_same(b1: Seq<Seq<usize>>, b2: Seq<Seq<usize>>, n: nat)
    requires
        forall|m: int| 0 <= m < n ==> #[trigger] b2[m].len() == b1[m].len(),
    ensures
        free_sum(b2, n) == free_sum(b1, n),
    decreases n,
{
    if n > 0 {
        lemma_free_sum_same(b1, b2, (n - 1) as nat);
    }
}

proof fn lemma_live_sum_push(live: Seq<(int, nat)>, b: (int, nat))
    ensures
        live_sum(live.push(b)) == live_sum(live) + exp2(b.1),
{
    assert(live.push(b).drop_last() =~= live);
}

proof fn lemma_live_sum_remove(live: Seq<(int, nat)>, j: int)
    requires
        0 <= j < live.len(),
    ensures
        live_sum(live.remove(j)) + exp2(live[j].1) == live_sum(live),
    decreases live.len(),
{
    if j == live.len() - 1 {
        assert(live.remove(j) =~= live.drop_last());
    } else {
        lemma_live_sum_remove(live.drop_last(), j);
        assert(live.remove(j).drop_last() =~= live.drop_last().remove(j));
        assert(live.remove(j).last() == live.last());
    }
}

/// Pushing a block that fits and overlaps no free block keeps the free lists
/// well formed.
proof fn lemma_push(bins: Seq<Seq<usize>>, lo: int, hi: int, k: nat, a: usize)
    requires
        bins_wf(bins, lo, hi),
        k < 32,
        fits(a as int, k, lo, hi),
        apart_all(a as int, k, bins),
    ensures
        ({
            let b2 = bins.update(k as int, bins[k as int].push(a));
            &&& bins_wf(b2, lo, hi)
            &&& forall|x: int, l: nat|
                apart_all(x, l, bins) && apart(x, l, a as int, k) ==> #[trigger] apart_all(x, l, b2)
            &&& free_sum(b2, 32) == free_sum(bins, 32) + exp2(k)
        }),
{
    let b2 = bins.update(k as int, bins[k as int].push(a));
    let n = bins[k as int].len();
    assert forall|m: int, i: int| 0 <= m < 32 && 0 <= i < b2[m].len() implies #[trigger] b2[m][i]
        == if m == k && i == n {
        a
    } else {
        bins[m][i]
    } by {}
    assert forall|m1: int, i1: int, m2: int, i2: int|
        0 <= m1 < 32 && 0 <= i1 < b2[m1].len() && 0 <= m2 < 32 && 0 <= i2 < b2[m2].len() && (m1
            != m2 || i1 != i2) implies apart(
        #[trigger] b2[m1][i1] as int,
        m1 as nat,
        #[trigger] b2[m2][i2] as int,
        m2 as nat,
    ) by {
        if m1 == k && i1 == n {
            assert(apart(a as int, k, bins[m2][i2] as int, m2 as nat));
        } else if m2 == k && i2 == n {
            assert(apart(a as int, k, bins[m1][i1] as int, m1 as nat));
        } else {
            assert(apart(bins[m1][i1] as int, m1 as nat, bins[m2][i2] as int, m2 as nat));
        }
    }
    assert forall|x: int, l: nat|
        apart_all(x, l, bins) && apart(x, l, a as int, k) implies #[trigger] apart_all(
        x,
        l,
        b2,
    ) by {
        assert forall|m: int, i: int| 0 <= m < 32 && 0 <= i < b2[m].len() implies apart(
            x,
            l,
            #[trigger] b2[m][i] as int,
            m as nat,
        ) by {
            if !(m == k && i == n) {
                assert(apart(x, l, bins[m][i] as int, m as nat));
            }
        }
    }
    assert forall|m: int, i: int| 0 <= m < 32 && 0 <= i < b2[m].len() implies fits(
        #[trigger] b2[m][i] as int,
        m as nat,
        lo,
        hi,
    ) by {
        if !(m == k && i == n) {
            assert(fits(bins[m][i] as int, m as nat, lo, hi));
        }
    }
    lemma_free_sum_update(bins, b2, 32, k);
    assert((b2[k as int].len() - bins[k as int].len()) * exp2(k) == exp2(k) as int)
        by (nonlinear_arith)
        requires
            b2[k as int].len() - bins[k as int].len() == 1,
    ;
}

/// Removing the free block at position `p` of bin `k` keeps the free lists
/// well formed; the removed block then overlaps no remaining free block.
proof fn lemma_remove(bins: Seq<Seq<usize>>, lo: int, hi: int, k: nat, p: int)
    requires
        bins_wf(bins, lo, hi),
        k < 32,
        0 <= p < bins[k as int].len(),
    ensures
        ({
            let x = bins[k as int][p];
            let b2 = bins.update(k as int, bins[k as int].remove(p));
            &&& bins_wf(b2, lo, hi)
            &&& fits(x as int, k, lo, hi)
            &&& apart_all(x as int, k, b2)
            &&& forall|y: int, l: nat| apart_all(y, l, bins) ==> #[trigger] apart_all(y, l, b2)
            &&& free_sum(b2, 32) + exp2(k) == free_sum(bins, 32)
        }),
{
    let x = bins[k as int][p];
    let b2 = bins.update(k as int, bins[k as int].remove(p));
    assert forall|m: int, i: int| 0 <= m < 32 && 0 <= i < b2[m].len() implies #[trigger] b2[m][i]
        == if m == k && i >= p {
        bins[m][i + 1]
    } else {
        bins[m][i]
    } by {}
    assert forall|m1: int, i1: int, m2: int, i2: int|
        0 <= m1 < 32 && 0 <= i1 < b2[m1].len() && 0 <= m2 < 32 && 0 <= i2 < b2[m2].len() && (m1
            != m2 || i1 != i2) implies apart(
        #[trigger] b2[m1][i1] as int,
        m1 as nat,
        #[trigger] b2[m2][i2] as int,
        m2 as nat,
    ) by {
        let j1 = if m1 == k && i1 >= p {
            i1 + 1
        } else {
            i1
        };
        let j2 = if m2 == k && i2 >= p {
            i2 + 1
        } else {
            i2
        };
        assert(apart(bins[m1][j1] as int, m1 as nat, bins[m2][j2] as int, m2 as nat));
    }
    assert forall|m: int, i: int| 0 <= m < 32 && 0 <= i < b2[m].len() implies apart(
        x as int,
        k,
        #[trigger] b2[m][i] as int,
        m as nat,
    ) by {
        let j = if m == k && i >= p {
            i + 1
        } else {
            i
        };
        assert(apart(bins[k as int][p] as int, k, bins[m][j] as int, m as nat));
    }
    assert forall|y: int, l: nat| apart_all(y, l, bins) implies #[trigger] apart_all(y, l, b2) by {
        assert forall|m: int, i: int| 0 <= m < 32 && 0 <= i < b2[m].len() implies apart(
            y,
            l,
            #[trigger] b2[m][i] as int,
            m as nat,
        ) by {
            let j = if m == k && i >= p {
                i + 1
            } else {
                i
            };
            assert(apart(y, l, bins[m][j] as int, m as nat));
        }
    }
    assert forall|m: int, i: int| 0 <= m < 32 && 0 <= i < b2[m].len() implies fits(
        #[trigger] b2[m][i] as int,
        m as nat,
        lo,
        hi,
    ) by {
        let j = if m == k && i >= p {
            i + 1
        } else {
            i
        };
        assert(fits(bins[m][j] as int, m as nat, lo, hi));
    }
    assert(fits(bins[k as int][p] as int, k, lo, hi));
    lemma_free_sum_update(bins, b2, 32, k);
    assert(b2[k as int].len() == bins[k as int].len() - 1);
    assert((b2[k as int].len() - bins[k as int].len()) * exp2(k) == -(exp2(k) as int))
        by (nonlinear_arith)
        requires
            b2[k as int].len() - bins[k as int].len() == -1,
    ;
}


/// The number of trailing zero bits of `x` (zero for `x == 0`).
pub open spec fn tz(x: nat) -> nat
    decreases x,
{
    if x == 0 || x % 2 == 1 {
        0
    } else {
        1 + tz(x / 2)
    }
}

/// The exponent of the largest power of two not above `d` (for `d >= 1`).
pub open spec fn log2_floor(d: nat) -> nat {
    if exp2(log2_ceil(d)) == d {
        log2_ceil(d)
    } else {
        (log2_ceil(d) - 1) as nat
    }
}

/// The exponent of the chunk that `new` carves at `cur` from a region ending
/// at `end`: the largest power of two not above `end - cur`, limited to the
/// largest power of two that divides `cur`.
pub open spec fn chunk_exp(cur: int, end: int) -> nat {
    let below = log2_floor((end - cur) as nat);
    let low = tz(cur as nat);
    if below < low {
        below
    } else {
        low
    }
}

/// `2^log2_floor(d)` is the largest power of two not above `d`.
pub proof fn lemma_log2_floor(d: nat)
    requires
        d >= 1,
    ensures
        exp2(log2_floor(d)) <= d < 2 * exp2(log2_floor(d)),
{
    lemma_log2_ceil(d);
    let c = log2_ceil(d);
    if exp2(c) != d {
        if c == 0 {
            lemma_exp2_values();
        } else {
            assert(exp2(c) == 2 * exp2((c - 1) as nat));
        }
    } else {
        lemma_exp2_pos(c);
    }
}

/// `m` is a multiple of 4 GiB.
pub open spec fn is_4g_aligned(m: int) -> bool {
    m % 0x1_0000_0000 == 0
}

/// The region `[lo, hi)` holds no whole 4 GiB block aligned to 4 GiB: such a
/// block would not fit the largest bin.
pub open spec fn no_4g_block(lo: int, hi: int) -> bool {
    forall|m: int| #[trigger] is_4g_aligned(m) && lo <= m ==> m + 0x1_0000_0000 > hi
}

/// Thirty-two empty bins.
pub open spec fn empty_bins() -> Seq<Seq<usize>> {
    Seq::new(32, |m: int| Seq::<usize>::empty())
}

/// The free lists after carving `[cur, end)` into chunks as `new` does: while
/// at least `MIN_SIZE` bytes remain, the chunk of `2^chunk_exp(cur, end)` bytes
/// at `cur` goes to its bin.
pub open spec fn fill(bins: Seq<Seq<usize>>, cur: int, end: int) -> Seq<Seq<usize>>
    decreases end - cur,
{
    if 0 < cur && cur + MIN_SIZE <= end {
        let k = chunk_exp(cur, end);
        proof {
            let d = (end - cur) as nat;
            lemma_log2_floor(d);
            lemma_exp2_monotone(k, log2_floor(d));
            lemma_exp2_pos(k);
        }
        fill(bins.update(k as int, bins[k as int].push(cur as usize)), cur + exp2(k), end)
    } else {
        bins
    }
}

proof fn lemma_tz_divides(x: nat)
    requires
        x > 0,
    ensures
        x % exp2(tz(x)) == 0,
        (x / exp2(tz(x))) % 2 == 1,
    decreases x,
{
    if x % 2 == 1 {
        assert(exp2(0) == 1);
        assert(x / 1 == x);
    } else {
        lemma_tz_divides(x / 2);
        let t = tz(x / 2);
        lemma_exp2_pos(t);
        assert(exp2(tz(x)) == 2 * exp2(t));
        let q = (x / 2) / exp2(t);
        assert(x / 2 == q * exp2(t)) by {
            vstd::arithmetic::div_mod::lemma_fundamental_div_mod((x / 2) as int, exp2(t) as int);
        }
        assert(x == q * (2 * exp2(t))) by (nonlinear_arith)
            requires
                x / 2 == q * exp2(t),
                x % 2 == 0,
        ;
        vstd::arithmetic::div_mod::lemma_mod_multiples_basic(q as int, (2 * exp2(t)) as int);
        vstd::arithmetic::div_mod::lemma_div_multiples_vanish(q as int, (2 * exp2(t)) as int);
        assert(q * (2 * exp2(t)) == (2 * exp2(t)) * q) by (nonlinear_arith);
        assert(x / exp2(tz(x)) == q);
    }
}

/// If `x` is a multiple of `2^k` then it is a multiple of every smaller power
/// of two.
proof fn lemma_mod_exp2_smaller(x: int, j: nat, k: nat)
    requires
        j <= k,
        x % (exp2(k) as int) == 0,
    ensures
        x % (exp2(j) as int) == 0,
{
    lemma_exp2_divides(j, k);
    lemma_exp2_pos(j);
    lemma_exp2_pos(k);
    let q = x / (exp2(k) as int);
    let r = exp2((k - j) as nat) as int;
    vstd::arithmetic::div_mod::lemma_fundamental_div_mod(x, exp2(k) as int);
    assert(x == (q * r) * exp2(j)) by (nonlinear_arith)
        requires
            x == exp2(k) * q + x % (exp2(k) as int),
            x % (exp2(k) as int) == 0,
            exp2(k) == exp2(j) * r,
    ;
    vstd::arithmetic::div_mod::lemma_mod_multiples_basic(q * r, exp2(j) as int);
}

/// The largest power of two that divides `x`.
fn lowbit(x: usize) -> (p: usize)
    requires
        x > 0,
    ensures
        p == exp2(tz(x as nat)),
{
    let mut p: usize = 1;
    let ghost mut j: nat = 0;
    proof {
        vstd::arithmetic::div_mod::lemma_div_basics(x as int);
    }
    while (x / p) % 2 == 0
        invariant
            x > 0,
            p == exp2(j),
            1 <= p <= x,
            x / p > 0,
            tz(x as nat) == j + tz((x / p) as nat),
        decreases x / p,
    {
        proof {
            vstd::arithmetic::div_mod::lemma_div_denominator(x as int, p as int, 2);
            vstd::arithmetic::div_mod::lemma_fundamental_div_mod(x as int, p as int);
            assert(x / p >= 2);
            assert(p * (x / p) <= x) by {
                vstd::arithmetic::div_mod::lemma_mod_pos_bound(x as int, p as int);
            }
            assert(2 * p <= x) by (nonlinear_arith)
                requires
                    p * (x / p) <= x,
                    x / p >= 2,
                    p >= 1,
            ;
            vstd::arithmetic::div_mod::lemma_div_is_ordered_by_denominator(x as int, p as int, 2 * p as int);
            vstd::arithmetic::div_mod::lemma_div_pos_is_pos(x as int, 2 * p as int);
        }
        p = p * 2;
        proof {
            j = j + 1;
        }
    }
    p
}

/// A simple allocator that allocates based on size classes: bin `k` holds
/// free blocks of `2^k` bytes, each aligned to its size; requests are rounded
/// up to a power of two of at least `MIN_SIZE` bytes and larger blocks are
/// split in halves (a buddy system). Freed blocks merge with their free buddy.
pub struct Allocator {
    list: Vec<Vec<usize>>,
    allocated: usize,
    total: usize,
    lo: Ghost<int>,
    hi: Ghost<int>,
    live: Ghost<Seq<(int, nat)>>,
}

impl Allocator {
    /// The free lists: `bins()[k]` holds the addresses of the free blocks of
    /// `2^k` bytes, the most recently freed last.
    pub closed spec fn bins(&self) -> Seq<Seq<usize>> {
        self.list@.map_values(|v: Vec<usize>| v@)
    }

    /// The blocks handed out and not yet freed, as (address, exponent) pairs.
    pub closed spec fn live(&self) -> Seq<(int, nat)> {
        self.live@
    }

    /// The region `[lo, hi)` that all blocks lie in.
    pub closed spec fn region(&self) -> (int, int) {
        (self.lo@, self.hi@)
    }

    /// The number of bytes handed out and not yet freed.
    pub closed spec fn spec_allocated(&self) -> usize {
        self.allocated
    }

    /// The number of bytes the allocator manages.
    pub closed spec fn spec_total(&self) -> usize {
        self.total
    }

    /// The allocator's invariant: the free lists and the allocated blocks are
    /// well formed in a region that holds no whole 4 GiB-aligned 4 GiB block
    /// (the bins go up to `2^31` bytes), the byte counts agree with them, and
    /// no free block has its buddy free in the same bin.
    pub closed spec fn wf(&self) -> bool {
        &&& self.wf_parts()
        &&& fully_merged(self.bins())
    }

    /// The invariant but for the merging of buddies, which holds again once
    /// a split is done.
    closed spec fn wf_parts(&self) -> bool {
        &&& self.list@.len() == 32
        &&& 0 <= self.lo@ <= self.hi@ <= usize::MAX
        &&& no_4g_block(self.lo@, self.hi@)
        &&& (self.lo@ > 0 || self.lo@ == self.hi@)
        &&& bins_wf(self.bins(), self.lo@, self.hi@)
        &&& live_wf(self.live@, self.bins(), self.lo@, self.hi@)
        &&& self.allocated == live_sum(self.live@)
        &&& self.total == self.allocated + free_sum(self.bins(), 32)
        &&& self.total <= self.hi@ - self.lo@
    }

    /// Creates a new bin allocator that will allocate memory from the region
    /// starting at address `start` and ending at address `end`.
    ///
    /// While at least `MIN_SIZE` bytes remain, the chunk at the current
    /// address is the largest power of two not above the remaining length,
    /// limited to the largest power of two dividing the address; it
    /// goes to its bin. A non-empty region must start above address 0 (whose
    /// alignment has no largest power of two), hold no whole 4 GiB-aligned
    /// 4 GiB block (no chunk may exceed the largest bin, `2^31` bytes), and
    /// span at most half the address space, clear of `usize::MAX`.
    pub fn new(start: usize, end: usize) -> (a: Allocator)
        requires
            start <= usize::MAX - MIN_SIZE,
            end <= usize::MAX - MIN_SIZE,
            start + MIN_SIZE <= end ==> 0 < start && no_4g_block(start as int, end as int) && end
                - start <= usize::MAX / 2 + 1,
        ensures
            a.wf(),
            a.bins() == fill(empty_bins(), start as int, end as int),
            a.live() == Seq::<(int, nat)>::empty(),
            a.spec_allocated() == 0,
            a.spec_total() == free_sum(a.bins(), 32),
            start + MIN_SIZE <= end ==> a.region() == (start as int, end as int),
    {
        let mut current = start;
        let mut total: usize = 0;
        let mut list: Vec<Vec<usize>> = Vec::new();
        let mut n: usize = 0;
        while n < BIN_SIZE
            invariant
                n <= 32,
                list@.len() == n,
                forall|m: int| 0 <= m < n ==> (#[trigger] list@[m])@ == Seq::<usize>::empty(),
            decreases 32 - n,
        {
            list.push(Vec::new());
            n = n + 1;
        }
        proof {
            assert(list@.map_values(|v: Vec<usize>| v@) =~= empty_bins());
            lemma_free_sum_same(empty_bins(), list@.map_values(|v: Vec<usize>| v@), 32);
            lemma_free_sum_zero(32);
            lemma_exp2_values();
        }
        while current + MIN_SIZE <= end
            invariant
                start <= current,
                current == start || current <= end,
                start <= usize::MAX - MIN_SIZE,
                end <= usize::MAX - MIN_SIZE,
                start + MIN_SIZE <= end ==> 0 < start && no_4g_block(start as int, end as int) && end
                    - start <= usize::MAX / 2 + 1,
                list@.len() == 32,
                bins_wf(list@.map_values(|v: Vec<usize>| v@), start as int, end as int),
                forall|m: int, i: int|
                    0 <= m < 32 && 0 <= i < list@[m]@.len() ==> #[trigger] list@[m]@[i] + exp2(
                        m as nat,
                    ) <= current,
                fill(list@.map_values(|v: Vec<usize>| v@), current as int, end as int) == fill(
                    empty_bins(),
                    start as int,
                    end as int,
                ),
                total == current - start,
                total == free_sum(list@.map_values(|v: Vec<usize>| v@), 32),
                exp2(32) == 0x1_0000_0000,
            decreases end - current,
        {
            let ghost bins = list@.map_values(|v: Vec<usize>| v@);
            let rest = end - current;
            let up = next_power_of_two(rest);
            let half = if up == rest {
                up
            } else {
                up / 2
            };
            let low = lowbit(current);
            let size = if half < low {
                half
            } else {
                low
            };
            proof {
                let d = rest as nat;
                lemma_log2_ceil(d);
                lemma_log2_floor(d);
                lemma_exp2_values();
                if exp2(log2_ceil(d)) != d {
                    if log2_ceil(d) == 0 {
                        assert(d <= 1);
                    }
                    assert(exp2(log2_ceil(d)) == 2 * exp2((log2_ceil(d) - 1) as nat));
                }
                assert(half == exp2(log2_floor(d)));
                let below = log2_floor(d);
                let t = tz(current as nat);
                if below < t {
                    lemma_exp2_monotone(below, t);
                } else {
                    lemma_exp2_monotone(t, below);
                }
                assert(size == exp2(chunk_exp(current as int, end as int)));
                lemma_tz_divides(current as nat);
                lemma_mod_exp2_smaller(
                    current as int,
                    chunk_exp(current as int, end as int),
                    tz(current as nat),
                );
                if chunk_exp(current as int, end as int) >= 32 {
                    lemma_exp2_monotone(32, chunk_exp(current as int, end as int));
                    lemma_mod_exp2_smaller(current as int, 32, chunk_exp(current as int, end as int));
                    assert(is_4g_aligned(current as int));
                    assert(false);
                }
            }
            let k = log2_exact(size) as usize;
            proof {
                crate::allocator::util::lemma_exp2_injective(
                    k as nat,
                    chunk_exp(current as int, end as int),
                );
                assert forall|m: int, i: int| 0 <= m < 32 && 0 <= i < bins[m].len() implies apart(
                    current as int,
                    k as nat,
                    #[trigger] bins[m][i] as int,
                    m as nat,
                ) by {
                    assert(list@[m]@[i] + exp2(m as nat) <= current);
                }
                lemma_push(bins, start as int, end as int, k as nat, current);
            }
            list[k].push(current);
            proof {
                assert(list@.map_values(|v: Vec<usize>| v@) =~= bins.update(
                    k as int,
                    bins[k as int].push(current),
                ));
            }
            proof {
                lemma_exp2_pos(k as nat);
                assert(half <= rest) by {
                    lemma_log2_floor(rest as nat);
                }
            }
            current = current + size;
            total = total + size;
        }
        let ghost hi = if current == start {
            start as int
        } else {
            end as int
        };
        let a = Allocator {
            list,
            allocated: 0,
            total,
            lo: Ghost(start as int),
            hi: Ghost(hi),
            live: Ghost(Seq::empty()),
        };
        proof {
            assert(a.bins() =~= list@.map_values(|v: Vec<usize>| v@));
            if current == start {
                assert forall|m: int| 0 <= m < 32 implies #[trigger] a.bins()[m].len() == 0 by {
                    if a.bins()[m].len() > 0 {
                        assert(list@[m]@[0] + exp2(m as nat) <= current);
                        lemma_exp2_pos(m as nat);
                    }
                }
            }
            if 0 < start && start + MIN_SIZE <= end {
                lemma_new_fully_merged(start as int, end as int);
            } else {
                assert(fill(empty_bins(), start as int, end as int) == empty_bins());
            }
            assert(fully_merged(fill(empty_bins(), start as int, end as int)));
        }
        a
    }
}

proof fn lemma_free_sum_zero(n: nat)
    requires
        n <= 32,
    ensures
        free_sum(empty_bins(), n) == 0,
    decreases n,
{
    if n > 0 {
        lemma_free_sum_zero((n - 1) as nat);
    }
}


proof fn lemma_apart_all_sub(b: int, j: nat, c: int, m: nat, bins: Seq<Seq<usize>>)
    requires
        apart_all(b, j, bins),
        b <= c,
        c + exp2(m) <= b + exp2(j),
    ensures
        apart_all(c, m, bins),
{
    assert forall|n: int, i: int| 0 <= n < 32 && 0 <= i < bins[n].len() implies apart(
        c,
        m,
        #[trigger] bins[n][i] as int,
        n as nat,
    ) by {
        assert(apart(b, j, bins[n][i] as int, n as nat));
    }
}

/// The block sizes of bin `j` are twice those of bin `j - 1`, and a block of
/// bin `j` splits in two aligned halves.
proof fn lemma_halves(b: int, j: nat)
    requires
        j > 0,
        b % (exp2(j) as int) == 0,
    ensures
        exp2(j) == 2 * exp2((j - 1) as nat),
        b % (exp2((j - 1) as nat) as int) == 0,
        (b + exp2((j - 1) as nat)) % (exp2((j - 1) as nat) as int) == 0,
{
    lemma_mod_exp2_smaller(b, (j - 1) as nat, j);
    lemma_exp2_pos((j - 1) as nat);
    vstd::arithmetic::div_mod::lemma_mod_adds(b, exp2((j - 1) as nat) as int, exp2((j - 1) as nat) as int);
    vstd::arithmetic::div_mod::lemma_mod_self_0(exp2((j - 1) as nat) as int);
}

/// One split step: the last free block `b` of bin `j` is replaced by its two
/// halves in bin `j - 1`, upper half first.
pub open spec fn split_step(bins: Seq<Seq<usize>>, j: int) -> Seq<Seq<usize>> {
    let b = bins[j].last();
    let b1 = bins.update(j, bins[j].drop_last());
    b1.update(j - 1, b1[j - 1].push((b + exp2((j - 1) as nat)) as usize).push(b))
}

proof fn lemma_split_step(bins: Seq<Seq<usize>>, lo: int, hi: int, live: Seq<(int, nat)>, j: nat)
    requires
        bins_wf(bins, lo, hi),
        live_wf(live, bins, lo, hi),
        0 < j < 32,
        bins[j as int].len() > 0,
        hi <= usize::MAX,
    ensures
        bins_wf(split_step(bins, j as int), lo, hi),
        live_wf(live, split_step(bins, j as int), lo, hi),
        free_sum(split_step(bins, j as int), 32) == free_sum(bins, 32),
        bins[j as int].last() + exp2(j) <= hi,
{
    let n = bins[j as int].len();
    let b = bins[j as int].last();
    let half = exp2((j - 1) as nat);
    let c = (b + half) as usize;
    assert(bins[j as int].remove(n - 1) =~= bins[j as int].drop_last());
    lemma_remove(bins, lo, hi, j, n - 1);
    let b1 = bins.update(j as int, bins[j as int].drop_last());
    lemma_halves(b as int, j);
    lemma_apart_all_sub(b as int, j, c as int, (j - 1) as nat, b1);
    lemma_push(b1, lo, hi, (j - 1) as nat, c);
    let b1p = b1.update(j - 1, b1[j - 1].push(c));
    lemma_apart_all_sub(b as int, j, b as int, (j - 1) as nat, b1);
    lemma_push(b1p, lo, hi, (j - 1) as nat, b);
    let b2 = b1p.update(j - 1, b1p[j - 1].push(b));
    assert(b2 =~= split_step(bins, j as int));
    assert forall|jj: int| 0 <= jj < live.len() implies apart_all(
        (#[trigger] live[jj]).0,
        live[jj].1,
        b2,
    ) by {
        assert(apart_all(live[jj].0, live[jj].1, bins));
        assert(apart(live[jj].0, live[jj].1, bins[j as int][n - 1] as int, j));
        assert(apart_all(live[jj].0, live[jj].1, b1));
        assert(apart_all(live[jj].0, live[jj].1, b1p));
    }
}

/// The block size in bytes of a request: its size rounded up to a power of
/// two, at least its alignment and at least `MIN_SIZE`.
pub open spec fn class_bytes(l: Layout) -> nat {
    let p = next_pow2(l.spec_size() as nat);
    let q = if l.spec_align() >= MIN_SIZE {
        l.spec_align() as nat
    } else {
        MIN_SIZE as nat
    };
    if p >= q {
        p
    } else {
        q
    }
}

/// The bin of a request: the exponent of its block size.
pub open spec fn class_index(l: Layout) -> nat {
    log2_ceil(class_bytes(l))
}

/// The first nonempty bin at or above `from`, or 32 when there is none.
pub open spec fn first_nonempty(bins: Seq<Seq<usize>>, from: int) -> int
    decreases 32 - from,
{
    if from >= 32 {
        32
    } else if bins[from].len() > 0 {
        from
    } else {
        first_nonempty(bins, from + 1)
    }
}

/// The free lists after handing out the last free block `b` of bin `i` for a
/// request of bin `k`: `b` leaves bin `i`, and each bin `m` from `k` up to
/// `i - 1` gains the upper half `b + 2^m` split off on the way down.
pub open spec fn split_bins(bins: Seq<Seq<usize>>, k: int, i: int, b: usize) -> Seq<Seq<usize>> {
    Seq::new(
        32,
        |m: int|
            if m == i {
                bins[m].drop_last()
            } else if k <= m < i {
                bins[m].push((b + exp2(m as nat)) as usize)
            } else {
                bins[m]
            },
    )
}

/// The free lists while splitting the last block `b` of bin `i`, when the
/// split has reached bin `j`.
pub open spec fn split_state(bins: Seq<Seq<usize>>, i: int, j: int, b: usize) -> Seq<
    Seq<usize>,
> {
    Seq::new(
        32,
        |m: int|
            if j == i {
                bins[m]
            } else if m == i {
                bins[m].drop_last()
            } else if m == j {
                bins[m].push((b + exp2(m as nat)) as usize).push(b)
            } else if j < m < i {
                bins[m].push((b + exp2(m as nat)) as usize)
            } else {
                bins[m]
            },
    )
}

proof fn lemma_first_nonempty(bins: Seq<Seq<usize>>, from: int, i: int)
    requires
        0 <= from <= i <= 32,
        forall|m: int| from <= m < i ==> #[trigger] bins[m].len() == 0,
        i < 32 ==> bins[i].len() > 0,
    ensures
        first_nonempty(bins, from) == i,
    decreases i - from,
{
    if from < i {
        lemma_first_nonempty(bins, from + 1, i);
    }
}

impl Allocator {
    /// Allocates memory: returns the address of a block meeting the size and
    /// alignment of `layout`.
    ///
    /// The request is rounded up to the block size `2^k` of `class_index`.
    /// Returns `Unsupported` for a zero size. Returns `Exhausted`, changing
    /// nothing, when no bin from `k` up holds a free block. Otherwise the last
    /// free block `b` of the first nonempty bin `i >= k` is split down to
    /// bin `k` (each bin from `k` to `i - 1` keeps the upper half split off)
    /// and `b` is returned, aligned to the request and lying in the region.
    pub fn allocate(&mut self, layout: Layout) -> (r: Result<usize, AllocErr>)
        requires
            old(self).wf(),
        ensures
            final(self).wf(),
            final(self).region() == old(self).region(),
            final(self).spec_total() == old(self).spec_total(),
            ({
                let k = class_index(layout);
                let i = first_nonempty(old(self).bins(), k as int);
                if layout.spec_size() == 0 || !is_pow2(layout.spec_align() as int) {
                    &&& r matches Err(AllocErr::Unsupported { .. })
                    &&& final(self).bins() == old(self).bins()
                    &&& final(self).live() == old(self).live()
                    &&& final(self).spec_allocated() == old(self).spec_allocated()
                } else if i >= 32 {
                    &&& r matches Err(AllocErr::Exhausted { request }) && request == layout
                    &&& final(self).bins() == old(self).bins()
                    &&& final(self).live() == old(self).live()
                    &&& final(self).spec_allocated() == old(self).spec_allocated()
                } else {
                    let b = old(self).bins()[i].last();
                    &&& r == Ok::<usize, AllocErr>(b)
                    &&& final(self).bins() == split_bins(old(self).bins(), k as int, i, b)
                    &&& final(self).live() == old(self).live().push((b as int, k))
                    &&& final(self).spec_allocated() == old(self).spec_allocated() + exp2(k)
                }
            }),
            r matches Ok(a) ==> {
                &&& a != 0
                &&& a % layout.spec_align() == 0
                &&& final(self).region().0 <= a
                &&& a + layout.spec_size() <= final(self).region().1
            },
    {
        proof {
            use_type_invariant(&layout);
        }
        if !is_power_of_two(layout.align()) || layout.size() == 0 {
            return Err(AllocErr::Unsupported { details: "Unsupported" });
        }
        let p = next_power_of_two(layout.size());
        let q = if layout.align() >= MIN_SIZE {
            layout.align()
        } else {
            MIN_SIZE
        };
        let size = if p >= q {
            p
        } else {
            q
        };
        let ghost k = class_index(layout);
        proof {
            lemma_exp2_values();
            let ea = choose|e: nat| exp2(e) == layout.spec_align() as int;
            let en = log2_ceil(layout.spec_size() as nat);
            if size == p {
                lemma_log2_ceil_exp2(en);
            } else if q == MIN_SIZE {
                lemma_log2_ceil_exp2(3);
            } else {
                lemma_log2_ceil_exp2(ea);
            }
            assert(exp2(k) == size);
            assert(is_pow2(size as int));
            lemma_log2_ceil(layout.spec_size() as nat);
        }
        let index = log2_exact(size) as usize;
        proof {
            crate::allocator::util::lemma_exp2_injective(index as nat, k);
        }
        let mut i = index;
        while i < BIN_SIZE && self.list[i].len() == 0
            invariant
                self.wf(),
                index <= i,
                i == index || i <= 32,
                *self == *old(self),
                forall|m: int| index <= m < i ==> #[trigger] self.bins()[m].len() == 0,
            decreases 32 - i,
        {
            i = i + 1;
        }
        proof {
            if index < 32 {
                lemma_first_nonempty(self.bins(), index as int, i as int);
            }
        }
        if i >= BIN_SIZE {
            return Err(AllocErr::Exhausted { request: layout });
        }
        let ghost old_bins = self.bins();
        let ghost b = old_bins[i as int].last();
        let mut level: usize = size;
        let mut t = index;
        while t < i
            invariant
                index <= t <= i < 32,
                level == exp2(t as nat),
                exp2(31) == 0x8000_0000,
            decreases i - t,
        {
            proof {
                lemma_exp2_monotone((t + 1) as nat, 31);
            }
            level = level * 2;
            t = t + 1;
        }
        let mut j = i;
        proof {
            assert(self.bins() =~= split_state(old_bins, i as int, j as int, b));
        }
        while j > index
            invariant
                self.wf_parts(),
                fully_merged(old_bins),
                first_nonempty(old_bins, index as int) == i,
                index <= j <= i < 32,
                level == exp2(j as nat),
                self.bins() == split_state(old_bins, i as int, j as int, b),
                self.bins()[j as int].len() > 0 && self.bins()[j as int].last() == b,
                self.live() == old(self).live(),
                self.spec_allocated() == old(self).spec_allocated(),
                self.spec_total() == old(self).spec_total(),
                self.region() == old(self).region(),
                old_bins[i as int].len() > 0,
                b == old_bins[i as int].last(),
            decreases j,
        {
            let ghost before = self.bins();
            proof {
                lemma_split_step(before, self.lo@, self.hi@, self.live@, j as nat);
                lemma_halves(b as int, j as nat);
            }
            let block = self.list[j].pop().unwrap();
            let half = level / 2;
            self.list[j - 1].push(block + half);
            self.list[j - 1].push(block);
            proof {
                assert(self.bins() =~= split_step(before, j as int));
                assert(split_step(before, j as int) =~~= split_state(
                    old_bins,
                    i as int,
                    j - 1,
                    b,
                ));
            }
            j = j - 1;
            level = half;
        }
        let ghost before = self.bins();
        let n = self.list[index].len();
        proof {
            assert(before[index as int].remove(n - 1) =~= before[index as int].drop_last());
            lemma_remove(before, self.lo@, self.hi@, index as nat, n - 1);
        }
        let start = self.list[index].pop().unwrap();
        let ghost live0 = self.live@;
        self.live = Ghost(self.live@.push((start as int, index as nat)));
        proof {
            let after = before.update(index as int, before[index as int].drop_last());
            assert(self.bins() =~= after);
            assert(after =~~= split_bins(old_bins, index as int, i as int, b));
            lemma_split_keeps_merged(old_bins, index as int, b);
            lemma_live_sum_push(live0, (start as int, index as nat));
            assert forall|jj: int| 0 <= jj < live0.len() implies apart(
                (#[trigger] live0[jj]).0,
                live0[jj].1,
                start as int,
                index as nat,
            ) by {
                assert(apart_all(live0[jj].0, live0[jj].1, before));
                assert(apart(live0[jj].0, live0[jj].1, before[index as int][n - 1] as int, index as nat));
            }
            assert(self.live@[live0.len() as int] == (start as int, index as nat));
            assert forall|jj: int| 0 <= jj < self.live@.len() implies apart_all(
                (#[trigger] self.live@[jj]).0,
                self.live@[jj].1,
                after,
            ) by {
                if jj < live0.len() {
                    assert(self.live@[jj] == live0[jj]);
                    assert(apart_all(live0[jj].0, live0[jj].1, before));
                }
            }
            assert forall|j1: int, j2: int|
                0 <= j1 < self.live@.len() && 0 <= j2 < self.live@.len() && j1 != j2 implies apart(
                (#[trigger] self.live@[j1]).0,
                self.live@[j1].1,
                (#[trigger] self.live@[j2]).0,
                self.live@[j2].1,
            ) by {
                if j1 < live0.len() && j2 < live0.len() {
                    assert(self.live@[j1] == live0[j1]);
                    assert(self.live@[j2] == live0[j2]);
                } else if j1 < live0.len() {
                    assert(self.live@[j1] == live0[j1]);
                } else {
                    assert(self.live@[j2] == live0[j2]);
                }
            }
            lemma_exp2_divides(index as nat, k);
            assert(size % layout.spec_align() == 0) by {
                let ea = choose|e: nat| exp2(e) == layout.spec_align() as int;
                if ea > k {
                    lemma_exp2_monotone(k, ea);
                }
                lemma_exp2_divides(ea, k);
            }
            let ea = choose|e: nat| exp2(e) == layout.spec_align() as int;
            if ea > k {
                lemma_exp2_monotone(k, ea);
            }
            lemma_mod_exp2_smaller(start as int, ea, k);
        }
        self.allocated = self.allocated + size;
        Ok(start)
    }
}


/// The buddy of the block of `2^k` bytes at `a`: the other half of the block
/// of `2^(k + 1)` bytes that contains it.
pub open spec fn buddy(a: int, k: nat) -> int {
    if (a / (exp2(k) as int)) % 2 == 0 {
        a + exp2(k)
    } else {
        a - exp2(k)
    }
}

/// The last position of `v` in `s`, or -1 when `v` does not occur.
pub open spec fn last_index_of(s: Seq<usize>, v: usize) -> int
    decreases s.len(),
{
    if s.len() == 0 {
        -1
    } else if s.last() == v {
        s.len() - 1
    } else {
        last_index_of(s.drop_last(), v)
    }
}

/// The free lists after freeing the block of `2^k` bytes at `a`: while its
/// buddy is free (searched from the most recently freed end of bin `k`), the
/// buddy leaves bin `k` and the merged block moves up a bin; the block that
/// can merge no further joins its bin.
pub open spec fn release(bins: Seq<Seq<usize>>, a: int, k: nat) -> Seq<Seq<usize>>
    decreases 32 - k,
{
    let c = buddy(a, k);
    if k < 31 && 0 <= c <= usize::MAX && last_index_of(bins[k as int], c as usize) >= 0 {
        let p = last_index_of(bins[k as int], c as usize);
        release(
            bins.update(k as int, bins[k as int].remove(p)),
            if a <= c {
                a
            } else {
                c
            },
            k + 1,
        )
    } else {
        bins.update(k as int, bins[k as int].push(a as usize))
    }
}

proof fn lemma_last_index_of(s: Seq<usize>, v: usize, p: int)
    requires
        -1 <= p < s.len(),
        p >= 0 ==> s[p] == v,
        forall|q: int| p < q < s.len() ==> s[q] != v,
    ensures
        last_index_of(s, v) == p,
    decreases s.len(),
{
    if s.len() > 0 && s.last() != v {
        lemma_last_index_of(s.drop_last(), v, p);
    }
}

/// The last position of `x` in `v`.
fn find_last(v: &Vec<usize>, x: usize) -> (r: Option<usize>)
    ensures
        match r {
            Some(p) => p == last_index_of(v@, x) && p < v@.len() && v@[p as int] == x,
            None => last_index_of(v@, x) == -1,
        },
{
    let mut p = v.len();
    while p > 0
        invariant
            p <= v@.len(),
            forall|q: int| p <= q < v@.len() ==> v@[q] != x,
        decreases p,
    {
        if v[p - 1] == x {
            proof {
                lemma_last_index_of(v@, x, p - 1);
            }
            return Some(p - 1);
        }
        p = p - 1;
    }
    proof {
        lemma_last_index_of(v@, x, -1);
    }
    None
}

/// A block and its buddy: the buddy is aligned to the block size, and the two
/// make up the block of twice the size at the lower address.
proof fn lemma_buddy(a: int, k: nat)
    requires
        a >= 0,
        a % (exp2(k) as int) == 0,
    ensures
        ({
            let c = buddy(a, k);
            let m = if a <= c {
                a
            } else {
                c
            };
            &&& c >= 0
            &&& c % (exp2(k) as int) == 0
            &&& (c == a + exp2(k) || c == a - exp2(k))
            &&& m % (exp2(k + 1) as int) == 0
            &&& m + exp2(k + 1) == (if a <= c {
                c
            } else {
                a
            }) + exp2(k)
        }),
{
    let e = exp2(k) as int;
    lemma_exp2_pos(k);
    assert(exp2(k + 1) == 2 * e);
    let q = a / e;
    vstd::arithmetic::div_mod::lemma_fundamental_div_mod(a, e);
    assert(a == e * q);
    vstd::arithmetic::div_mod::lemma_div_pos_is_pos(a, e);
    if q % 2 == 0 {
        let h = q / 2;
        assert(a == (2 * e) * h) by (nonlinear_arith)
            requires
                a == e * q,
                q == 2 * h,
        ;
        vstd::arithmetic::div_mod::lemma_mod_multiples_basic(h, 2 * e);
        assert(a + e == e * (q + 1)) by (nonlinear_arith)
            requires
                a == e * q,
        ;
        vstd::arithmetic::div_mod::lemma_mod_multiples_basic(q + 1, e);
        assert((q + 1) * e == e * (q + 1)) by (nonlinear_arith);
    } else {
        let h = q / 2;
        assert(q == 2 * h + 1);
        assert(a - e == (2 * e) * h) by (nonlinear_arith)
            requires
                a == e * q,
                q == 2 * h + 1,
        ;
        assert(h >= 0);
        assert((2 * e) * h >= 0) by (nonlinear_arith)
            requires
                e >= 1,
                h >= 0,
        ;
        vstd::arithmetic::div_mod::lemma_mod_multiples_basic(h, 2 * e);
        assert(a - e == e * (2 * h)) by (nonlinear_arith)
            requires
                a - e == (2 * e) * h,
        ;
        vstd::arithmetic::div_mod::lemma_mod_multiples_basic(2 * h, e);
        assert((2 * h) * e == e * (2 * h)) by (nonlinear_arith);
        assert(h * (2 * e) == (2 * e) * h) by (nonlinear_arith);
    }
    assert(q * (2 * e) == (2 * e) * q) by (nonlinear_arith);
}

/// A block that overlaps neither half of a larger block overlaps none of it.
proof fn lemma_apart_union(x: int, l: nat, a: int, c: int, k: nat)
    requires
        apart(x, l, a, k),
        apart(x, l, c, k),
        c == a + exp2(k),
    ensures
        apart(x, l, a, k + 1),
{
    assert(exp2(k + 1) == 2 * exp2(k));
    lemma_exp2_pos(l);
}

/// The block size and bin of a request.
fn size_class(layout: &Layout) -> (r: (usize, usize))
    ensures
        r.0 == exp2(class_index(*layout)),
        r.1 == class_index(*layout),
        r.1 < 64,
{
    proof {
        use_type_invariant(layout);
    }
    let p = next_power_of_two(layout.size());
    let q = if layout.align() >= MIN_SIZE {
        layout.align()
    } else {
        MIN_SIZE
    };
    let size = if p >= q {
        p
    } else {
        q
    };
    let ghost k = class_index(*layout);
    proof {
        lemma_exp2_values();
        let ea = choose|e: nat| exp2(e) == layout.spec_align() as int;
        let en = log2_ceil(layout.spec_size() as nat);
        if size == p {
            lemma_log2_ceil_exp2(en);
        } else if q == MIN_SIZE {
            lemma_log2_ceil_exp2(3);
        } else {
            lemma_log2_ceil_exp2(ea);
        }
        assert(exp2(k) == size);
        assert(is_pow2(size as int));
    }
    let index = log2_exact(size) as usize;
    proof {
        crate::allocator::util::lemma_exp2_injective(index as nat, k);
    }
    (size, index)
}

impl Allocator {
    /// Deallocates the block at `ptr` that `allocate` handed out for
    /// `layout`, which must be one of the live blocks.
    ///
    /// The block returns to the free lists as `release` states: while its
    /// buddy is free the two merge into a block of the next bin.
    pub fn dealloc(&mut self, ptr: usize, layout: Layout)
        requires
            old(self).wf(),
            old(self).live().contains((ptr as int, class_index(layout))),
        ensures
            final(self).wf(),
            final(self).region() == old(self).region(),
            final(self).spec_total() == old(self).spec_total(),
            final(self).bins() == release(old(self).bins(), ptr as int, class_index(layout)),
            final(self).live() == old(self).live().remove(
                old(self).live().index_of((ptr as int, class_index(layout))),
            ),
            final(self).spec_allocated() == old(self).spec_allocated() - exp2(
                class_index(layout),
            ),
    {
        let (size, index) = size_class(&layout);
        let ghost k = index as nat;
        let ghost old_bins = self.bins();
        let ghost jl = self.live@.index_of((ptr as int, k));
        let ghost live0 = self.live@;
        proof {
            lemma_live_sum_remove(live0, jl);
            lemma_exp2_values();
            assert(live0[jl] == (ptr as int, k));
            lemma_release_keeps_merged(old_bins, ptr as int, k);
        }
        self.live = Ghost(live0.remove(jl));
        proof {
            assert forall|jj: int| 0 <= jj < self.live@.len() implies apart(
                (#[trigger] self.live@[jj]).0,
                self.live@[jj].1,
                ptr as int,
                k,
            ) by {
                let o = if jj < jl {
                    jj
                } else {
                    jj + 1
                };
                assert(self.live@[jj] == live0[o]);
                assert(live0[jl] == (ptr as int, k));
            }
            assert forall|j1: int, j2: int|
                0 <= j1 < self.live@.len() && 0 <= j2 < self.live@.len() && j1 != j2 implies apart(
                (#[trigger] self.live@[j1]).0,
                self.live@[j1].1,
                (#[trigger] self.live@[j2]).0,
                self.live@[j2].1,
            ) by {
                let o1 = if j1 < jl {
                    j1
                } else {
                    j1 + 1
                };
                let o2 = if j2 < jl {
                    j2
                } else {
                    j2 + 1
                };
                assert(self.live@[j1] == live0[o1]);
                assert(self.live@[j2] == live0[o2]);
            }
            assert forall|jj: int| 0 <= jj < self.live@.len() implies (#[trigger] self.live@[jj]).1
                < 32 && fits(self.live@[jj].0, self.live@[jj].1, self.lo@, self.hi@)
                && apart_all(self.live@[jj].0, self.live@[jj].1, old_bins) by {
                let o = if jj < jl {
                    jj
                } else {
                    jj + 1
                };
                assert(self.live@[jj] == live0[o]);
            }
            assert(live0[jl] == (ptr as int, k));
            assert(apart_all(ptr as int, k, old_bins));
        }
        let mut addr = ptr;
        let mut current = index;
        let mut csize = size;
        let mut done = false;
        while !done
            invariant
                self.list@.len() == 32,
                0 <= self.lo@ <= self.hi@ <= usize::MAX,
                no_4g_block(self.lo@, self.hi@),
                self.lo@ > 0 || self.lo@ == self.hi@,
                exp2(32) == 0x1_0000_0000,
                bins_wf(self.bins(), self.lo@, self.hi@),
                live_wf(self.live@, self.bins(), self.lo@, self.hi@),
                current < 32,
                csize == exp2(current as nat),
                !done ==> fits(addr as int, current as nat, self.lo@, self.hi@),
                !done ==> apart_all(addr as int, current as nat, self.bins()),
                !done ==> forall|jj: int|
                    0 <= jj < self.live@.len() ==> apart(
                        (#[trigger] self.live@[jj]).0,
                        self.live@[jj].1,
                        addr as int,
                        current as nat,
                    ),
                !done ==> release(self.bins(), addr as int, current as nat) == release(
                    old_bins,
                    ptr as int,
                    k,
                ),
                !done ==> free_sum(self.bins(), 32) + exp2(current as nat) == free_sum(old_bins, 32)
                    + exp2(k),
                done ==> self.bins() == release(old_bins, ptr as int, k),
                done ==> free_sum(self.bins(), 32) == free_sum(old_bins, 32) + exp2(k),
                self.live@ == live0.remove(jl),
                self.lo == old(self).lo,
                self.hi == old(self).hi,
                self.allocated == old(self).allocated,
                self.total == old(self).total,
            decreases 32 - current + (if done {
                0int
            } else {
                1int
            }),
        {
            let ghost before = self.bins();
            proof {
                lemma_buddy(addr as int, current as nat);
                lemma_exp2_pos(current as nat);
            }
            let c = if (addr / csize) % 2 == 0 {
                addr + csize
            } else {
                addr - csize
            };
            let found = find_last(&self.list[current], c);
            match found {
                Some(p) => {
                    proof {
                        let m = if addr <= c {
                            addr as int
                        } else {
                            c as int
                        };
                        assert(before[current as int][p as int] == c);
                        assert(fits(before[current as int][p as int] as int, current as nat, self.lo@, self.hi@));
                        if current == 31 {
                            assert(m + exp2(32) <= self.hi@);
                            assert(is_4g_aligned(m));
                            assert(false);
                        }
                        lemma_remove(before, self.lo@, self.hi@, current as nat, p as int);
                        let b1 = before.update(current as int, before[current as int].remove(p as int));
                        assert(apart_all(addr as int, current as nat, b1));
                        assert forall|n: int, i: int| 0 <= n < 32 && 0 <= i < b1[n].len() implies apart(
                            m,
                            (current + 1) as nat,
                            #[trigger] b1[n][i] as int,
                            n as nat,
                        ) by {
                            let y = b1[n][i] as int;
                            assert(apart(addr as int, current as nat, y, n as nat));
                            assert(apart(c as int, current as nat, y, n as nat));
                            lemma_apart_union(y, n as nat, m, m + exp2(current as nat), current as nat);
                        }
                        assert forall|jj: int| 0 <= jj < self.live@.len() implies apart(
                            (#[trigger] self.live@[jj]).0,
                            self.live@[jj].1,
                            m,
                            (current + 1) as nat,
                        ) by {
                            let x = self.live@[jj];
                            assert(apart_all(x.0, x.1, before));
                            assert(apart(x.0, x.1, before[current as int][p as int] as int, current as nat));
                            assert(apart(x.0, x.1, addr as int, current as nat));
                            lemma_apart_union(x.0, x.1, m, m + exp2(current as nat), current as nat);
                        }
                        assert(before[current as int][p as int] == c);
                    }
                    self.list[current].remove(p);
                    proof {
                        assert(self.bins() =~= before.update(
                            current as int,
                            before[current as int].remove(p as int),
                        ));
                    }
                    addr = if addr <= c {
                        addr
                    } else {
                        c
                    };
                    current = current + 1;
                    csize = csize * 2;
                },
                None => {
                    proof {
                        lemma_push(before, self.lo@, self.hi@, current as nat, addr);
                    }
                    self.list[current].push(addr);
                    proof {
                        assert(self.bins() =~= before.update(
                            current as int,
                            before[current as int].push(addr),
                        ));
                    }
                    done = true;
                },
            }
        }
        self.allocated = self.allocated - size;
        proof {
            assert(live0[jl] == (ptr as int, k));
        }
    }
}


/// The allocator's invariant, spelled out: every free and every allocated
/// block lies in the region aligned to its size, and no two of them overlap.
pub proof fn lemma_blocks_disjoint(a: Allocator)
    requires
        a.wf(),
    ensures
        bins_wf(a.bins(), a.region().0, a.region().1),
        live_wf(a.live(), a.bins(), a.region().0, a.region().1),
        a.spec_allocated() == live_sum(a.live()),
        a.spec_total() == a.spec_allocated() + free_sum(a.bins(), 32),
{
}

/// Free buddies are always merged: in every allocator that `new`,
/// `allocate` and `dealloc` give, no bin below the largest holds a free block
/// together with its buddy.
pub proof fn lemma_no_free_buddies(a: Allocator)
    requires
        a.wf(),
    ensures
        fully_merged(a.bins()),
{
}

impl Allocator {
    /// The number of bytes handed out and not yet freed.
    pub fn allocated(&self) -> (n: usize)
        ensures
            n == self.spec_allocated(),
    {
        self.allocated
    }

    /// The number of bytes the allocator manages.
    pub fn total(&self) -> (n: usize)
        ensures
            n == self.spec_total(),
    {
        self.total
    }

    /// The free lists: entry `k` holds the addresses of the free blocks of
    /// `2^k` bytes.
    pub fn free_lists(&self) -> (l: &Vec<Vec<usize>>)
        ensures
            l@.map_values(|v: Vec<usize>| v@) == self.bins(),
    {
        &self.list
    }
}

/// A block aligned to `2^i` is the lower half of its pair at every smaller
/// size: its buddy of `2^m` bytes, for `m < i`, lies just above it.
proof fn lemma_buddy_above(b: int, m: nat, i: nat)
    requires
        0 <= b,
        m < i,
        b % (exp2(i) as int) == 0,
    ensures
        buddy(b, m) == b + exp2(m),
{
    lemma_exp2_divides(m, i);
    lemma_exp2_pos(m);
    lemma_exp2_pos(i);
    let ei = exp2(i) as int;
    let em = exp2(m) as int;
    let h = exp2((i - m - 1) as nat) as int;
    assert(exp2((i - m) as nat) == 2 * exp2((i - m - 1) as nat));
    vstd::arithmetic::div_mod::lemma_fundamental_div_mod(b, ei);
    let q = b / ei;
    vstd::arithmetic::div_mod::lemma_div_pos_is_pos(b, ei);
    let x = q * h;
    assert(b == (2 * x) * em) by (nonlinear_arith)
        requires
            b == ei * q + b % ei,
            b % ei == 0,
            ei == em * (2 * h),
            x == q * h,
    ;
    assert(x >= 0) by (nonlinear_arith)
        requires
            q >= 0,
            h >= 0,
            x == q * h,
    ;
    vstd::arithmetic::div_mod::lemma_div_by_multiple(2 * x, em);
    vstd::arithmetic::div_mod::lemma_mod_multiples_basic(x, 2);
    assert((2 * x) % 2 == 0) by {
        assert(x * 2 == 2 * x);
    }
}

/// Freeing from split level `m` on: the pushed upper halves of levels `m`
/// to `i - 1` merge back, and the block returns to bin `i`.
proof fn lemma_release_split(bins: Seq<Seq<usize>>, m: int, i: int, b: usize)
    requires
        bins.len() == 32,
        0 <= m <= i < 32,
        bins[i].len() > 0,
        b == bins[i].last(),
        (b as int) % (exp2(i as nat) as int) == 0,
        b + exp2(i as nat) <= usize::MAX,
        !(i < 31 && 0 <= buddy(b as int, i as nat) <= usize::MAX && last_index_of(
            bins[i].drop_last(),
            buddy(b as int, i as nat) as usize,
        ) >= 0),
    ensures
        release(split_bins(bins, m, i, b), b as int, m as nat) == bins,
    decreases i - m,
{
    let s = split_bins(bins, m, i, b);
    if m < i {
        lemma_buddy_above(b as int, m as nat, i as nat);
        lemma_exp2_monotone(m as nat, i as nat);
        let c = (b + exp2(m as nat)) as usize;
        assert(s[m] == bins[m].push(c));
        assert(last_index_of(s[m], c) == s[m].len() - 1);
        assert(s[m].remove(s[m].len() - 1) =~= bins[m]);
        assert(s.update(m, bins[m]) =~= split_bins(bins, m + 1, i, b));
        lemma_release_split(bins, m + 1, i, b);
    } else {
        assert(s[i] == bins[i].drop_last());
        assert(bins[i].drop_last().push(b) =~= bins[i]);
        assert(s.update(i, bins[i].drop_last().push(b)) =~= bins);
    }
}

/// Freeing a block just allocated gives the free lists back: allocating
/// from bin `i` for bin `k` splits the block `b` down, and freeing `b`
/// merges every split half back, unless the buddy of `b` at size `2^i` is
/// itself free (then the two merge further).
pub proof fn lemma_dealloc_undoes_allocate(bins: Seq<Seq<usize>>, lo: int, hi: int, k: nat)
    requires
        bins_wf(bins, lo, hi),
        hi <= usize::MAX,
        k < 32,
        first_nonempty(bins, k as int) < 32,
        ({
            let i = first_nonempty(bins, k as int);
            let b = bins[i].last();
            !(i < 31 && 0 <= buddy(b as int, i as nat) <= usize::MAX && last_index_of(
                bins[i].drop_last(),
                buddy(b as int, i as nat) as usize,
            ) >= 0)
        }),
    ensures
        ({
            let i = first_nonempty(bins, k as int);
            let b = bins[i].last();
            release(split_bins(bins, k as int, i, b), b as int, k) == bins
        }),
{
    let i = first_nonempty(bins, k as int);
    lemma_first_nonempty_found(bins, k as int);
    let b = bins[i].last();
    assert(fits(bins[i][bins[i].len() - 1] as int, i as nat, lo, hi));
    lemma_release_split(bins, k as int, i, b);
}

/// The first nonempty bin from `from` lies at or above it, and holds a block
/// when it is one of the 32 bins.
proof fn lemma_first_nonempty_found(bins: Seq<Seq<usize>>, from: int)
    requires
        0 <= from <= 32,
    ensures
        from <= first_nonempty(bins, from) <= 32,
        first_nonempty(bins, from) < 32 ==> bins[first_nonempty(bins, from)].len() > 0,
    decreases 32 - from,
{
    if from < 32 && bins[from].len() == 0 {
        lemma_first_nonempty_found(bins, from + 1);
    }
}

/// The bytes of the block of `2^k` bytes at `a`.
pub open spec fn block(a: int, k: nat) -> Set<int> {
    Set::new(|x: int| a <= x < a + exp2(k))
}

/// The free bytes: those of every block in the free lists.
pub open spec fn free_bytes(bins: Seq<Seq<usize>>) -> Set<int> {
    Set::new(
        |x: int|
            exists|m: int, i: int|
                0 <= m < 32 && 0 <= i < bins[m].len() && #[trigger] block(bins[m][i] as int, m as nat).contains(x),
    )
}

/// Facts about `last_index_of`: it is -1 or the index of `v`.
proof fn lemma_last_index_found(s: Seq<usize>, v: usize)
    ensures
        -1 <= last_index_of(s, v) < s.len(),
        last_index_of(s, v) >= 0 ==> s[last_index_of(s, v)] == v,
    decreases s.len(),
{
    if s.len() > 0 && s.last() != v {
        lemma_last_index_found(s.drop_last(), v);
    }
}

/// The blocks of `2^k` bytes at `x` and `y` are buddies: the two halves,
/// in either order, of one block of `2^(k + 1)` bytes aligned to its size.
pub open spec fn buddies(x: int, y: int, k: nat) -> bool {
    ||| x % (exp2(k + 1) as int) == 0 && y == x + exp2(k)
    ||| y % (exp2(k + 1) as int) == 0 && x == y + exp2(k)
}

/// Every pair of free buddies has been merged: no bin below the largest
/// holds a block together with its buddy.
pub open spec fn fully_merged(bins: Seq<Seq<usize>>) -> bool {
    forall|k: int, i: int, j: int|
        0 <= k < 31 && 0 <= i < bins[k].len() && 0 <= j < bins[k].len() ==> !buddies(
            #[trigger] bins[k][i] as int,
            #[trigger] bins[k][j] as int,
            k as nat,
        )
}

/// Freeing a block leaves no free buddies behind: after `dealloc`, whose
/// free lists `release` states, no free block has its buddy free in the same
/// bin, wherever the buddy sat in the bin's list.
pub proof fn lemma_dealloc_leaves_no_free_buddies(before: Allocator, ptr: usize, k: nat)
    requires
        before.wf(),
        before.live().contains((ptr as int, k)),
    ensures
        fully_merged(release(before.bins(), ptr as int, k)),
{
    let j = before.live().index_of((ptr as int, k));
    assert(before.live()[j] == (ptr as int, k));
    lemma_release_keeps_merged(before.bins(), ptr as int, k);
}

/// The bins below the first nonempty one from `from` are empty.
proof fn lemma_first_nonempty_below(bins: Seq<Seq<usize>>, from: int, m: int)
    requires
        0 <= from <= m < first_nonempty(bins, from),
    ensures
        bins[m].len() == 0,
    decreases 32 - from,
{
    if from < m {
        lemma_first_nonempty_below(bins, from + 1, m);
    }
}

/// Allocating keeps the bins fully merged: each bin that gains the upper
/// half of a split block was empty, and the bin the block leaves only loses
/// one.
pub proof fn lemma_split_keeps_merged(bins: Seq<Seq<usize>>, k: int, b: usize)
    requires
        bins.len() == 32,
        0 <= k <= first_nonempty(bins, k) < 32,
        fully_merged(bins),
    ensures
        fully_merged(split_bins(bins, k, first_nonempty(bins, k), b)),
{
    let i = first_nonempty(bins, k);
    lemma_first_nonempty_found(bins, k);
    let sb = split_bins(bins, k, i, b);
    assert forall|m: int, x: int, y: int|
        0 <= m < 31 && 0 <= x < sb[m].len() && 0 <= y < sb[m].len() implies !buddies(
        #[trigger] sb[m][x] as int,
        #[trigger] sb[m][y] as int,
        m as nat,
    ) by {
        if m == i {
            assert(sb[m][x] == bins[m][x]);
            assert(sb[m][y] == bins[m][y]);
        } else if k <= m < i {
            lemma_first_nonempty_below(bins, k, m);
            assert(x == 0 && y == 0);
            lemma_exp2_pos(m as nat);
        } else {
            assert(sb[m][x] == bins[m][x]);
            assert(sb[m][y] == bins[m][y]);
        }
    }
}

/// Every free block of `bins` is a chunk that carving a region ending at
/// `end` would cut at its address: it lies above 0 and below `end`, and its
/// size is the chunk size there.
spec fn carved(bins: Seq<Seq<usize>>, end: int) -> bool {
    forall|m: int, i: int|
        0 <= m < 32 && 0 <= i < bins[m].len() ==> {
            let x = #[trigger] bins[m][i] as int;
            &&& 0 < x
            &&& x + exp2(m as nat) <= end
            &&& chunk_exp(x, end) == m
        }
}

/// A positive multiple of `2^m` has at least `m` trailing zero bits.
proof fn lemma_tz_at_least(x: nat, m: nat)
    requires
        x > 0,
        x % exp2(m) == 0,
    ensures
        tz(x) >= m,
    decreases m,
{
    if m > 0 {
        lemma_exp2_values();
        lemma_mod_exp2_smaller(x as int, 1, m);
        assert(x % 2 == 0);
        let e = exp2((m - 1) as nat);
        assert(exp2(m) == 2 * e);
        lemma_exp2_pos((m - 1) as nat);
        let q = x / exp2(m);
        vstd::arithmetic::div_mod::lemma_fundamental_div_mod(x as int, exp2(m) as int);
        assert(x == 2 * (e * q)) by (nonlinear_arith)
            requires
                x == exp2(m) * q + 0,
                exp2(m) == 2 * e,
        ;
        assert(x / 2 == e * q);
        assert(x / 2 > 0);
        vstd::arithmetic::div_mod::lemma_mod_multiples_basic(q as int, e as int);
        assert(q * e == e * q) by (nonlinear_arith);
        lemma_tz_at_least(x / 2, (m - 1) as nat);
    }
}

/// Carved chunks hold no buddies: of two buddies `x` and `x + 2^k`, the
/// carving would have cut `x` at `2^(k + 1)` bytes or more.
proof fn lemma_carved_merged(bins: Seq<Seq<usize>>, end: int)
    requires
        bins.len() == 32,
        carved(bins, end),
    ensures
        fully_merged(bins),
{
    assert forall|k: int, i: int, j: int|
        0 <= k < 31 && 0 <= i < bins[k].len() && 0 <= j < bins[k].len() implies !buddies(
        #[trigger] bins[k][i] as int,
        #[trigger] bins[k][j] as int,
        k as nat,
    ) by {
        let a = bins[k][i] as int;
        let b = bins[k][j] as int;
        if buddies(a, b, k as nat) {
            let x = if a % (exp2((k + 1) as nat) as int) == 0 && b == a + exp2(k as nat) {
                a
            } else {
                b
            };
            let y = if x == a {
                b
            } else {
                a
            };
            assert(x % (exp2((k + 1) as nat) as int) == 0 && y == x + exp2(k as nat));
            assert(exp2((k + 1) as nat) == 2 * exp2(k as nat));
            assert(x > 0 && y + exp2(k as nat) <= end && chunk_exp(x, end) == k);
            let d = (end - x) as nat;
            assert(d >= exp2((k + 1) as nat));
            lemma_exp2_pos((k + 1) as nat);
            lemma_log2_floor(d);
            if log2_floor(d) <= k {
                lemma_exp2_monotone(log2_floor(d), (k + 1) as nat);
                assert(false);
            }
            lemma_tz_at_least(x as nat, (k + 1) as nat);
            assert(false);
        }
    }
}

/// Carving a region keeps every free block a carved chunk.
proof fn lemma_fill_carved(bins: Seq<Seq<usize>>, cur: int, end: int)
    requires
        bins.len() == 32,
        carved(bins, end),
        0 <= cur,
        end <= usize::MAX,
        no_4g_block(cur, end),
    ensures
        fill(bins, cur, end).len() == 32,
        carved(fill(bins, cur, end), end),
    decreases end - cur,
{
    if 0 < cur && cur + MIN_SIZE <= end {
        let k = chunk_exp(cur, end);
        let d = (end - cur) as nat;
        lemma_log2_floor(d);
        lemma_exp2_monotone(k, log2_floor(d));
        lemma_exp2_pos(k);
        lemma_exp2_values();
        if k >= 32 {
            lemma_tz_divides(cur as nat);
            lemma_mod_exp2_smaller(cur, 32, tz(cur as nat));
            lemma_exp2_monotone(32, log2_floor(d));
            assert(is_4g_aligned(cur));
            assert(false);
        }
        let nb = bins.update(k as int, bins[k as int].push(cur as usize));
        assert forall|m: int, i: int| 0 <= m < 32 && 0 <= i < nb[m].len() implies {
            let x = #[trigger] nb[m][i] as int;
            &&& 0 < x
            &&& x + exp2(m as nat) <= end
            &&& chunk_exp(x, end) == m
        } by {
            if m == k && i == bins[m].len() {
            } else {
                assert(nb[m][i] == bins[m][i]);
            }
        }
        lemma_fill_carved(nb, cur + exp2(k), end);
    }
}

/// Carving a fresh region leaves no free buddies: `new` starts out fully
/// merged.
pub proof fn lemma_new_fully_merged(start: int, end: int)
    requires
        0 <= start,
        end <= usize::MAX,
        no_4g_block(start, end),
    ensures
        fully_merged(fill(empty_bins(), start, end)),
{
    lemma_fill_carved(empty_bins(), start, end);
    lemma_carved_merged(fill(empty_bins(), start, end), end);
}

/// The buddy of an aligned block is the one block it is buddies with.
proof fn lemma_buddy_unique(a: int, y: int, k: nat)
    requires
        a >= 0,
        a % (exp2(k) as int) == 0,
        buddies(a, y, k),
    ensures
        y == buddy(a, k),
{
    let e = exp2(k) as int;
    lemma_exp2_pos(k);
    assert(exp2(k + 1) == 2 * e);
    if a % (2 * e) == 0 && y == a + e {
        vstd::arithmetic::div_mod::lemma_fundamental_div_mod(a, 2 * e);
        let q = a / (2 * e);
        assert(a == (2 * q) * e + 0) by (nonlinear_arith)
            requires
                a == (2 * e) * q + 0,
        ;
        vstd::arithmetic::div_mod::lemma_fundamental_div_mod_converse(a, e, 2 * q, 0);
    } else {
        assert(y % (2 * e) == 0 && a == y + e);
        vstd::arithmetic::div_mod::lemma_fundamental_div_mod(y, 2 * e);
        let q = y / (2 * e);
        assert(a == (2 * q + 1) * e + 0) by (nonlinear_arith)
            requires
                y == (2 * e) * q + 0,
                a == y + e,
        ;
        vstd::arithmetic::div_mod::lemma_fundamental_div_mod_converse(a, e, 2 * q + 1, 0);
    }
}

/// Freeing keeps the bins fully merged: whatever bin the freed block's
/// buddy sits in and wherever in the bin's list, the two merge, and so on up;
/// so after freeing, no free block has its buddy free in the same bin.
pub proof fn lemma_release_keeps_merged(bins: Seq<Seq<usize>>, a: int, k: nat)
    requires
        bins.len() == 32,
        k < 32,
        0 <= a <= usize::MAX,
        a % (exp2(k) as int) == 0,
        fully_merged(bins),
    ensures
        fully_merged(release(bins, a, k)),
    decreases 32 - k,
{
    let c = buddy(a, k);
    let bk = bins[k as int];
    lemma_last_index_found(bk, c as usize);
    if k < 31 && 0 <= c <= usize::MAX && last_index_of(bk, c as usize) >= 0 {
        let p = last_index_of(bk, c as usize);
        let b1 = bins.update(k as int, bk.remove(p));
        assert forall|kk: int, i: int, j: int|
            0 <= kk < 31 && 0 <= i < b1[kk].len() && 0 <= j < b1[kk].len() implies !buddies(
            #[trigger] b1[kk][i] as int,
            #[trigger] b1[kk][j] as int,
            kk as nat,
        ) by {
            if kk == k {
                let i0 = if i < p {
                    i
                } else {
                    i + 1
                };
                let j0 = if j < p {
                    j
                } else {
                    j + 1
                };
                assert(b1[kk][i] == bins[kk][i0]);
                assert(b1[kk][j] == bins[kk][j0]);
            } else {
                assert(b1[kk][i] == bins[kk][i]);
                assert(b1[kk][j] == bins[kk][j]);
            }
        }
        lemma_buddy(a, k);
        let m = if a <= c {
            a
        } else {
            c
        };
        lemma_release_keeps_merged(b1, m, k + 1);
    } else {
        let nb = bins.update(k as int, bins[k as int].push(a as usize));
        assert forall|kk: int, i: int, j: int|
            0 <= kk < 31 && 0 <= i < nb[kk].len() && 0 <= j < nb[kk].len() implies !buddies(
            #[trigger] nb[kk][i] as int,
            #[trigger] nb[kk][j] as int,
            kk as nat,
        ) by {
            if kk == k {
                let n = bins[kk].len() as int;
                if i < n && j < n {
                    assert(nb[kk][i] == bins[kk][i]);
                    assert(nb[kk][j] == bins[kk][j]);
                } else if i == n && j == n {
                    lemma_exp2_pos(k);
                } else {
                    let o = if i < n {
                        i
                    } else {
                        j
                    };
                    let x = bins[kk][o];
                    assert(nb[kk][o] == x);
                    if buddies(a, x as int, k) || buddies(x as int, a, k) {
                        lemma_buddy_unique(a, x as int, k);
                        lemma_last_index_present(bins[k as int], x, o);
                        assert(false);
                    }
                }
            } else {
                assert(nb[kk][i] == bins[kk][i]);
                assert(nb[kk][j] == bins[kk][j]);
            }
        }
    }
}

/// A value that occurs in a sequence has a last position.
proof fn lemma_last_index_present(s: Seq<usize>, v: usize, o: int)
    requires
        0 <= o < s.len(),
        s[o] == v,
    ensures
        last_index_of(s, v) >= 0,
    decreases s.len(),
{
    if s.last() != v {
        assert(o < s.len() - 1);
        assert(s.drop_last()[o] == v);
        lemma_last_index_present(s.drop_last(), v, o);
    }
}

/// Pushing the block at `a` onto bin `k` adds its bytes to the free bytes.
proof fn lemma_free_bytes_push(bins: Seq<Seq<usize>>, k: int, a: usize)
    requires
        bins.len() == 32,
        0 <= k < 32,
    ensures
        free_bytes(bins.update(k, bins[k].push(a))) == free_bytes(bins).union(block(a as int, k as nat)),
{
    let b2 = bins.update(k, bins[k].push(a));
    assert forall|x: int| free_bytes(b2).contains(x) <==> free_bytes(bins).union(
        block(a as int, k as nat),
    ).contains(x) by {
        if free_bytes(b2).contains(x) {
            let (m, i) = choose|m: int, i: int|
                0 <= m < 32 && 0 <= i < b2[m].len() && #[trigger] block(b2[m][i] as int, m as nat).contains(x);
            if !(m == k && i == bins[k].len()) {
                assert(b2[m][i] == bins[m][i]);
                assert(block(bins[m][i] as int, m as nat).contains(x));
            }
        }
        if free_bytes(bins).contains(x) {
            let (m, i) = choose|m: int, i: int|
                0 <= m < 32 && 0 <= i < bins[m].len() && #[trigger] block(bins[m][i] as int, m as nat).contains(x);
            assert(b2[m][i] == bins[m][i]);
            assert(block(b2[m][i] as int, m as nat).contains(x));
        }
        if block(a as int, k as nat).contains(x) {
            assert(b2[k][bins[k].len() as int] == a);
            assert(block(b2[k][bins[k].len() as int] as int, k as nat).contains(x));
        }
    }
    assert(free_bytes(b2) =~= free_bytes(bins).union(block(a as int, k as nat)));
}

/// Taking entry `p` out of bin `k` loses at most the bytes of its block.
proof fn lemma_free_bytes_remove(bins: Seq<Seq<usize>>, k: int, p: int)
    requires
        bins.len() == 32,
        0 <= k < 32,
        0 <= p < bins[k].len(),
    ensures
        free_bytes(bins.update(k, bins[k].remove(p))).union(block(bins[k][p] as int, k as nat))
            == free_bytes(bins),
{
    let b2 = bins.update(k, bins[k].remove(p));
    let c = bins[k][p];
    assert forall|x: int| free_bytes(b2).union(block(c as int, k as nat)).contains(x)
        <==> free_bytes(bins).contains(x) by {
        if free_bytes(b2).contains(x) {
            let (m, i) = choose|m: int, i: int|
                0 <= m < 32 && 0 <= i < b2[m].len() && #[trigger] block(b2[m][i] as int, m as nat).contains(x);
            if m == k && i >= p {
                assert(b2[m][i] == bins[m][i + 1]);
                assert(block(bins[m][i + 1] as int, m as nat).contains(x));
            } else {
                assert(b2[m][i] == bins[m][i]);
                assert(block(bins[m][i] as int, m as nat).contains(x));
            }
        }
        if block(c as int, k as nat).contains(x) {
            assert(block(bins[k][p] as int, k as nat).contains(x));
        }
        if free_bytes(bins).contains(x) {
            let (m, i) = choose|m: int, i: int|
                0 <= m < 32 && 0 <= i < bins[m].len() && #[trigger] block(bins[m][i] as int, m as nat).contains(x);
            if m == k && i == p {
            } else if m == k && i > p {
                assert(b2[m][i - 1] == bins[m][i]);
                assert(block(b2[m][i - 1] as int, m as nat).contains(x));
            } else {
                assert(b2[m][i] == bins[m][i]);
                assert(block(b2[m][i] as int, m as nat).contains(x));
            }
        }
    }
    assert(free_bytes(b2).union(block(c as int, k as nat)) =~= free_bytes(bins));
}

/// Freeing the block of `2^k` bytes at `a`, which fits the region and
/// overlaps no free block, adds exactly its bytes to the free bytes,
/// however far it merges with its buddies.
proof fn lemma_release_free_bytes(bins: Seq<Seq<usize>>, lo: int, hi: int, a: int, k: nat)
    requires
        bins_wf(bins, lo, hi),
        0 <= lo,
        hi <= usize::MAX,
        k < 32,
        fits(a, k, lo, hi),
        apart_all(a, k, bins),
    ensures
        free_bytes(release(bins, a, k)) == free_bytes(bins).union(block(a, k)),
    decreases 32 - k,
{
    let c = buddy(a, k);
    lemma_last_index_found(bins[k as int], c as usize);
    if k < 31 && 0 <= c <= usize::MAX && last_index_of(bins[k as int], c as usize) >= 0 {
        let p = last_index_of(bins[k as int], c as usize);
        let b2 = bins.update(k as int, bins[k as int].remove(p));
        lemma_remove(bins, lo, hi, k, p);
        lemma_buddy(a, k);
        let m = if a <= c {
            a
        } else {
            c
        };
        let top = if a <= c {
            c
        } else {
            a
        };
        assert(exp2(k + 1) == 2 * exp2(k));
        assert(apart_all(a, k, b2));
        assert(fits(m, k + 1, lo, hi));
        assert forall|n: int, i: int| 0 <= n < 32 && 0 <= i < b2[n].len() implies apart(
            m,
            k + 1,
            #[trigger] b2[n][i] as int,
            n as nat,
        ) by {
            let x = b2[n][i] as int;
            assert(apart(a, k, x, n as nat));
            assert(apart(c, k, x, n as nat));
            lemma_apart_union(x, n as nat, m, top, k);
        }
        lemma_release_free_bytes(b2, lo, hi, m, k + 1);
        lemma_free_bytes_remove(bins, k as int, p);
        assert(block(m, k + 1) =~= block(a, k).union(block(c, k)));
        assert(free_bytes(release(bins, a, k)) =~= free_bytes(bins).union(block(a, k)));
    } else {
        lemma_free_bytes_push(bins, k as int, a as usize);
    }
}

/// A byte of the block of `2^i` bytes at `b` lies in its first `2^k` bytes
/// or in one of the upper halves split off at the sizes `2^k` to `2^(i-1)`.
proof fn lemma_split_cover(b: int, k: nat, i: nat, x: int)
    requires
        k <= i,
        block(b, i).contains(x),
    ensures
        block(b, k).contains(x) || exists|m: nat|
            k <= m < i && #[trigger] block(b + exp2(m), m).contains(x),
    decreases i,
{
    if i > k && !block(b, k).contains(x) {
        assert(exp2(i) == 2 * exp2((i - 1) as nat));
        if x < b + exp2((i - 1) as nat) {
            lemma_split_cover(b, k, (i - 1) as nat, x);
        } else {
            assert(block(b + exp2((i - 1) as nat), (i - 1) as nat).contains(x));
        }
    }
}

/// Splitting the last block `b` of bin `i` down to bin `k` keeps the free
/// bytes, but for the first `2^k` bytes of `b`.
proof fn lemma_split_free_bytes(bins: Seq<Seq<usize>>, k: int, i: int, b: usize)
    requires
        bins.len() == 32,
        0 <= k <= i < 32,
        bins[i].len() > 0,
        b == bins[i].last(),
        b + exp2(i as nat) <= usize::MAX,
    ensures
        free_bytes(split_bins(bins, k, i, b)).union(block(b as int, k as nat)) == free_bytes(bins),
{
    let s2 = split_bins(bins, k, i, b);
    let last = bins[i].len() - 1;
    lemma_exp2_monotone(k as nat, i as nat);
    assert forall|x: int| free_bytes(s2).union(block(b as int, k as nat)).contains(x)
        <==> free_bytes(bins).contains(x) by {
        if free_bytes(s2).contains(x) {
            let (m, j) = choose|m: int, j: int|
                0 <= m < 32 && 0 <= j < s2[m].len() && #[trigger] block(s2[m][j] as int, m as nat).contains(x);
            if k <= m < i && j == bins[m].len() {
                lemma_exp2_monotone((m + 1) as nat, i as nat);
                lemma_exp2_monotone(m as nat, i as nat);
                assert(s2[m][j] == (b + exp2(m as nat)) as usize);
                assert(exp2((m + 1) as nat) == 2 * exp2(m as nat));
                assert(block(bins[i][last] as int, i as nat).contains(x));
            } else {
                assert(s2[m][j] == bins[m][j]);
                assert(block(bins[m][j] as int, m as nat).contains(x));
            }
        }
        if block(b as int, k as nat).contains(x) {
            assert(block(bins[i][last] as int, i as nat).contains(x));
        }
        if free_bytes(bins).contains(x) {
            let (m, j) = choose|m: int, j: int|
                0 <= m < 32 && 0 <= j < bins[m].len() && #[trigger] block(bins[m][j] as int, m as nat).contains(x);
            if m == i && j == last {
                lemma_split_cover(b as int, k as nat, i as nat, x);
                if !block(b as int, k as nat).contains(x) {
                    let h = choose|h: nat| k <= h < i && #[trigger] block(b + exp2(h), h).contains(x);
                    lemma_exp2_monotone(h, i as nat);
                    assert(s2[h as int][bins[h as int].len() as int] == (b + exp2(h)) as usize);
                    assert(block(s2[h as int][bins[h as int].len() as int] as int, h).contains(x));
                }
            } else {
                assert(s2[m][j] == bins[m][j]);
                assert(block(s2[m][j] as int, m as nat).contains(x));
            }
        }
    }
    assert(free_bytes(s2).union(block(b as int, k as nat)) =~= free_bytes(bins));
}

/// Freeing a block right after allocating it gives back the free bytes: the
/// allocator `between` is what `allocate` left of `before` when it handed
/// out the block `b` of bin `k`, split from the first nonempty bin `i`; the
/// free lists that `dealloc` then leaves, `release(..)`, hold exactly the
/// free bytes of `before`, whichever blocks merge.
pub proof fn lemma_dealloc_restores_free_bytes(before: Allocator, between: Allocator, k: nat)
    requires
        before.wf(),
        between.wf(),
        k < 32,
        first_nonempty(before.bins(), k as int) < 32,
        between.region() == before.region(),
        ({
            let i = first_nonempty(before.bins(), k as int);
            let b = before.bins()[i].last();
            &&& between.bins() == split_bins(before.bins(), k as int, i, b)
            &&& between.live() == before.live().push((b as int, k))
        }),
    ensures
        ({
            let i = first_nonempty(before.bins(), k as int);
            let b = before.bins()[i].last();
            free_bytes(release(between.bins(), b as int, k)) == free_bytes(before.bins())
        }),
{
    let bins = before.bins();
    let i = first_nonempty(bins, k as int);
    lemma_first_nonempty_found(bins, k as int);
    let b = bins[i].last();
    let (lo, hi) = between.region();
    let live = between.live();
    let j = live.len() - 1;
    assert(live[j] == (b as int, k));
    assert(fits(live[j].0, live[j].1, lo, hi));
    assert(apart_all(live[j].0, live[j].1, between.bins()));
    lemma_release_free_bytes(between.bins(), lo, hi, b as int, k);
    assert(fits(bins[i][bins[i].len() - 1] as int, i as nat, before.region().0, before.region().1));
    lemma_split_free_bytes(bins, k as int, i, b);
}

} // verus!
