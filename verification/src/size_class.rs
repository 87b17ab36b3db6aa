//! Size-class arithmetic for the segregated free lists.
//!
//! A block size is mapped to a pair `(first level, second level)`. The first
//! level is keyed by the position of the highest set bit above the minimum
//! block exponent; the second level splits the range between two consecutive
//! powers of two into 32 equal buckets. Class `(f, s)` begins at byte size
//! `2^(f + 5) + s * 2^f` and the class starts are strictly increasing in
//! lexicographic class order, so classes tile the whole size range.
//!
//! A block is keyed by the class its size falls into (so every block in class
//! `(f, s)` is at least `class_start((f, s))` bytes long), while a request is
//! keyed by the first class whose start is at least the requested size. Any
//! block found in a class at or above a request's class is therefore large
//! enough to serve it.

use vstd::prelude::*;
use vstd::arithmetic::div_mod::{
    lemma_div_denominator, lemma_fundamental_div_mod, lemma_mod_division_less_than_divisor,
    lemma_multiply_divide_lt,
};
use vstd::arithmetic::mul::{lemma_mul_inequality, lemma_mul_strict_inequality};
use vstd::arithmetic::power2::{
    lemma2_to64, lemma2_to64_rest, lemma_pow2_adds, lemma_pow2_pos, lemma_pow2_strictly_increases,
    lemma_pow2_unfold, pow2,
};

verus! {

/// The minimum block size in bytes; block sizes and offsets are multiples of it.
pub const MIN_BLOCK_SIZE: usize = 32;

/// Log2 of the minimum block size: the number of low first levels that the
/// minimum block size makes unreachable.
pub const MISSING_MIN_BLOCKS: u32 = 5;

/// Log2 of the number of second-level buckets within one first-level class.
pub const SECOND_LEVEL_INDEX: u32 = 5;

/// The number of second-level buckets within one first-level class.
pub const SECOND_LEVEL_COUNT: u32 = 32;

/// The position of the highest set bit of `n`, i.e. the floor of the base-2
/// logarithm; 0 when `n` is 0.
pub open spec fn log2(n: nat) -> nat
    decreases n,
{
    if n < 2 {
        0
    } else {
        1 + log2(n / 2)
    }
}

/// The smallest block size that belongs to class `c`.
pub open spec fn class_start(c: (nat, nat)) -> nat {
    pow2(c.0 + 5) + c.1 * pow2(c.0)
}

/// The class that follows `c` in lexicographic order.
pub open spec fn next_class(c: (nat, nat)) -> (nat, nat) {
    if c.1 + 1 < 32 {
        (c.0, c.1 + 1)
    } else {
        ((c.0 + 1) as nat, 0nat)
    }
}

/// Lexicographic order on classes.
pub open spec fn class_le(a: (nat, nat), b: (nat, nat)) -> bool {
    a.0 < b.0 || (a.0 == b.0 && a.1 <= b.1)
}

/// Strict lexicographic order on classes.
pub open spec fn class_lt(a: (nat, nat), b: (nat, nat)) -> bool {
    class_le(a, b) && a != b
}

/// The class a block of size `s` is keyed under (meaningful for `s >= 32`):
/// the class whose size range contains `s`.
pub open spec fn block_class(s: nat) -> (nat, nat) {
    let f = (log2(s) - 5) as nat;
    (f, ((s - pow2(f + 5)) as nat) / pow2(f))
}

/// The class a request of `r` bytes is keyed under: the first class whose
/// start is at least `r`. Every block stored in that class or a later one is
/// at least `r` bytes long.
pub open spec fn request_class(r: nat) -> (nat, nat) {
    if r <= 32 {
        (0nat, 0nat)
    } else if r == class_start(block_class(r)) {
        block_class(r)
    } else {
        next_class(block_class(r))
    }
}

/// The request size rounded up to the minimum block granularity.
pub open spec fn round_up_to_min_block(r: nat) -> nat {
    ((r + 31) / 32) * 32
}

/// `pow2(log2(n))` and `pow2(log2(n) + 1)` bracket every positive `n`.
pub proof fn lemma_log2_bounds(n: nat)
    requires
        n >= 1,
    ensures
        pow2(log2(n)) <= n < pow2(log2(n) + 1),
    decreases n,
{
    lemma2_to64();
    if n < 2 {
        assert(log2(n) == 0);
    } else {
        let m = n / 2;
        lemma_log2_bounds(m);
        assert(n == 2 * m + n % 2) by {
            lemma_fundamental_div_mod(n as int, 2);
            lemma_mod_division_less_than_divisor(n as int, 2);
        }
        assert(n % 2 < 2) by {
            lemma_mod_division_less_than_divisor(n as int, 2);
        }
        assert(pow2(log2(n)) == 2 * pow2(log2(m))) by {
            lemma_pow2_unfold(log2(n));
        }
        assert(pow2(log2(n) + 1) == 2 * pow2(log2(m) + 1)) by {
            lemma_pow2_unfold(log2(n) + 1);
        }
    }
}

/// `log2` is determined by its bracketing powers of two.
pub proof fn lemma_log2_unique(n: nat, k: nat)
    requires
        pow2(k) <= n < pow2(k + 1),
    ensures
        log2(n) == k,
{
    lemma_pow2_pos(k);
    lemma_log2_bounds(n);
    if log2(n) < k {
        lemma_pow2_strictly_increases(log2(n), k);
        if log2(n) + 1 < k {
            lemma_pow2_strictly_increases(log2(n) + 1, k);
        }
        assert(n < pow2(k));
    } else if log2(n) > k {
        if k + 1 < log2(n) {
            lemma_pow2_strictly_increases(k + 1, log2(n));
        }
        assert(pow2(k + 1) <= pow2(log2(n)));
    }
}

/// `log2` is monotone.
pub proof fn lemma_log2_mono(a: nat, b: nat)
    requires
        1 <= a <= b,
    ensures
        log2(a) <= log2(b),
{
    lemma_log2_bounds(a);
    lemma_log2_bounds(b);
    if log2(a) > log2(b) {
        if log2(b) + 1 < log2(a) {
            lemma_pow2_strictly_increases(log2(b) + 1, log2(a));
        }
        assert(pow2(log2(b) + 1) <= pow2(log2(a)));
    }
}

/// `pow2` is monotone.
pub proof fn lemma_pow2_le(e1: nat, e2: nat)
    requires
        e1 <= e2,
    ensures
        pow2(e1) <= pow2(e2),
{
    if e1 < e2 {
        lemma_pow2_strictly_increases(e1, e2);
    }
}

/// For a size of at least 32 bytes, the block class is well formed and its
/// size range `[class_start, class_start + pow2(f))` contains the size.
pub proof fn lemma_block_class(s: nat)
    requires
        s >= 32,
    ensures
        log2(s) >= 5,
        block_class(s).0 == log2(s) - 5,
        block_class(s).1 < 32,
        class_start(block_class(s)) <= s,
        s < class_start(block_class(s)) + pow2(block_class(s).0),
{
    lemma2_to64();
    assert(log2(32nat) == 5) by {
        lemma_log2_unique(32, 5);
    }
    lemma_log2_mono(32, s);
    let k = log2(s);
    let f = (k - 5) as nat;
    let d = pow2(f);
    lemma_pow2_pos(f);
    lemma_log2_bounds(s);
    assert(pow2(f + 5) == d * 32) by {
        lemma_pow2_adds(f, 5);
    }
    let rem = (s - pow2(k)) as nat;
    assert(rem < pow2(k)) by {
        lemma_pow2_unfold(k + 1);
    }
    let sl = rem / d;
    assert(sl < 32) by {
        assert(rem < 32 * d);
        lemma_multiply_divide_lt(rem as int, d as int, 32);
    }
    assert(d * sl <= rem && rem < d * sl + d) by {
        lemma_fundamental_div_mod(rem as int, d as int);
        lemma_mod_division_less_than_divisor(rem as int, d as int);
    }
    assert(block_class(s) == (f, sl));
    assert(class_start((f, sl)) == pow2(k) + sl * d);
}

/// The start of the next class is exactly one second-level step further.
pub proof fn lemma_class_start_next(c: (nat, nat))
    requires
        c.1 < 32,
    ensures
        class_start(next_class(c)) == class_start(c) + pow2(c.0),
{
    lemma2_to64();
    let f = c.0;
    let s = c.1;
    if s + 1 < 32 {
        assert((s + 1) * pow2(f) == s * pow2(f) + pow2(f)) by {
            vstd::arithmetic::mul::lemma_mul_is_distributive_add_other_way(
                pow2(f) as int,
                s as int,
                1,
            );
        }
    } else {
        assert(pow2(f + 5) == 32 * pow2(f)) by {
            lemma_pow2_adds(f, 5);
        }
        assert(pow2(f + 1 + 5) == 2 * pow2(f + 5)) by {
            lemma_pow2_unfold(f + 6);
        }
        assert(31 * pow2(f) + pow2(f) == 32 * pow2(f));
        assert(class_start(((f + 1) as nat, 0nat)) == pow2(f + 6) + 0 * pow2((f + 1) as nat));
    }
}

/// Class starts are strictly increasing in lexicographic class order.
pub proof fn lemma_class_start_lt(a: (nat, nat), b: (nat, nat))
    requires
        a.1 < 32,
        b.1 < 32,
        class_lt(a, b),
    ensures
        class_start(a) < class_start(b),
{
    lemma2_to64();
    lemma_pow2_pos(a.0);
    lemma_pow2_pos(b.0);
    if a.0 == b.0 {
        lemma_mul_strict_inequality(a.1 as int, b.1 as int, pow2(a.0) as int);
    } else {
        assert(a.0 < b.0);
        assert(a.1 * pow2(a.0) <= 31 * pow2(a.0)) by {
            lemma_mul_inequality(a.1 as int, 31, pow2(a.0) as int);
        }
        assert(pow2(a.0 + 5) == 32 * pow2(a.0)) by {
            lemma_pow2_adds(a.0, 5);
        }
        assert(pow2(a.0 + 6) == 2 * pow2(a.0 + 5)) by {
            lemma_pow2_unfold(a.0 + 6);
        }
        assert(class_start(a) < pow2(a.0 + 6));
        assert(pow2(a.0 + 6) <= pow2(b.0 + 5)) by {
            lemma_pow2_le(a.0 + 6, b.0 + 5);
        }
        assert(0 <= b.1 * pow2(b.0)) by {
            lemma_mul_inequality(0, b.1 as int, pow2(b.0) as int);
        }
    }
}

/// Class starts are non-decreasing in lexicographic class order.
pub proof fn lemma_class_start_le(a: (nat, nat), b: (nat, nat))
    requires
        a.1 < 32,
        b.1 < 32,
        class_le(a, b),
    ensures
        class_start(a) <= class_start(b),
{
    if a != b {
        lemma_class_start_lt(a, b);
    }
}

/// A class strictly below the successor of `c` is at most `c`.
pub proof fn lemma_class_lt_next(a: (nat, nat), c: (nat, nat))
    requires
        a.1 < 32,
        c.1 < 32,
        class_lt(a, next_class(c)),
    ensures
        class_le(a, c),
{
    let n = next_class(c);
    if a.0 == n.0 && a.1 == n.1 {
        assert(a == n);
    }
}

/// The request class of `r` is the first class whose start is at least `r`:
/// its start covers `r`, and no earlier class start does.
pub proof fn lemma_request_class(r: nat)
    requires
        r >= 1,
    ensures
        request_class(r).1 < 32,
        class_start(request_class(r)) >= r,
        forall|c: (nat, nat)|
            c.1 < 32 && class_start(c) >= r ==> class_le(#[trigger] request_class(r), c),
{
    lemma2_to64();
    if r <= 32 {
        assert(request_class(r) == (0nat, 0nat));
        assert(class_start((0nat, 0nat)) == pow2(5) + 0 * pow2(0));
    } else {
        lemma_block_class(r);
        let fc = block_class(r);
        if r == class_start(fc) {
            assert forall|c: (nat, nat)| c.1 < 32 && class_start(c) >= r implies class_le(
                #[trigger] request_class(r),
                c,
            ) by {
                if class_lt(c, fc) {
                    lemma_class_start_lt(c, fc);
                }
            }
        } else {
            lemma_class_start_next(fc);
            assert(class_start(next_class(fc)) >= r);
            assert forall|c: (nat, nat)| c.1 < 32 && class_start(c) >= r implies class_le(
                #[trigger] request_class(r),
                c,
            ) by {
                if class_lt(c, next_class(fc)) {
                    lemma_class_lt_next(c, fc);
                    lemma_class_start_le(c, fc);
                }
            }
        }
    }
}

/// Keying a request at a larger size never moves it to an earlier class.
pub proof fn lemma_request_class_monotonic(r1: nat, r2: nat)
    requires
        1 <= r1 <= r2,
    ensures
        class_le(request_class(r1), request_class(r2)),
{
    lemma_request_class(r1);
    lemma_request_class(r2);
    assert(class_start(request_class(r2)) >= r1);
}

/// Rounding up to the minimum granularity stays within one granule.
pub proof fn lemma_round_up(r: nat)
    ensures
        r <= round_up_to_min_block(r) < r + 32,
        round_up_to_min_block(r) % 32 == 0,
{
    let q = (r + 31) / 32;
    assert(32 * q <= r + 31 && r + 31 < 32 * q + 32) by {
        lemma_fundamental_div_mod(r as int + 31, 32);
        lemma_mod_division_less_than_divisor(r as int + 31, 32);
    }
    assert(round_up_to_min_block(r) % 32 == 0) by {
        vstd::arithmetic::div_mod::lemma_mod_multiples_basic(q as int, 32);
    }
}

/// The round-up is the least multiple of 32 at or above `r`.
pub proof fn lemma_round_up_least(r: nat, s: nat)
    requires
        s % 32 == 0,
        s >= r,
    ensures
        s >= round_up_to_min_block(r),
{
    lemma_round_up(r);
    let q = (r + 31) / 32;
    assert(32 * q <= r + 31) by {
        lemma_fundamental_div_mod(r as int + 31, 32);
        lemma_mod_division_less_than_divisor(r as int + 31, 32);
    }
    let m = s / 32;
    assert(s == 32 * m) by {
        lemma_fundamental_div_mod(s as int, 32);
    }
    assert(32 * q < 32 * m + 32 ==> q <= m) by {
        if q > m {
            lemma_mul_inequality(m as int + 1, q as int, 32);
        }
    }
}

/// A block whose class is at or above a request's class is large enough for
/// the request, even after the request is rounded up to the granularity.
pub proof fn lemma_block_serves_request(s: nat, r: nat)
    requires
        s >= 32,
        s % 32 == 0,
        r >= 1,
        class_le(request_class(r), block_class(s)),
    ensures
        s >= round_up_to_min_block(r) >= r,
{
    lemma_block_class(s);
    lemma_request_class(r);
    lemma_class_start_le(request_class(r), block_class(s));
    lemma_round_up(r);
    lemma_round_up_least(r, s);
}

/// Computes `pow2(e)` on machine words.
pub(crate) fn pow2_usize(e: u32) -> (r: usize)
    requires
        pow2(e as nat) <= usize::MAX,
    ensures
        r as nat == pow2(e as nat),
{
    let mut r: usize = 1;
    let mut i: u32 = 0;
    assert(pow2(0) == 1) by {
        lemma2_to64();
    }
    while i < e
        invariant
            i <= e,
            r as nat == pow2(i as nat),
            pow2(e as nat) <= usize::MAX,
        decreases e - i,
    {
        proof {
            lemma_pow2_unfold(i as nat + 1);
            lemma_pow2_le(i as nat + 1, e as nat);
        }
        r = r * 2;
        i = i + 1;
    }
    r
}

/// The position of the highest set bit of `x`, found by repeated halving.
pub(crate) fn log2_floor(x: usize) -> (r: u32)
    requires
        x >= 1,
    ensures
        r == log2(x as nat),
        r < 64,
        pow2(r as nat) <= x < pow2(r as nat + 1),
{
    let mut v: usize = x;
    let mut k: u32 = 0;
    assert(pow2(0) == 1) by {
        lemma2_to64();
    }
    assert(x as nat / pow2(0) == x as nat) by {
        vstd::arithmetic::div_mod::lemma_div_basics_1(x as int);
    }
    assert((x as nat) < pow2(64)) by {
        lemma2_to64_rest();
        assert(x <= usize::MAX);
    }
    while v >= 2
        invariant
            1 <= v,
            v as nat == (x as nat) / pow2(k as nat),
            pow2(k as nat) <= x as nat,
            (x as nat) < pow2(64),
            k < 64,
        decreases v,
    {
        proof {
            lemma_pow2_pos(k as nat);
            lemma_div_denominator(x as int, pow2(k as nat) as int, 2);
            lemma_pow2_unfold(k as nat + 1);
            // v / 2 >= 1, so x / pow2(k + 1) >= 1, so pow2(k + 1) <= x
            assert(pow2(k as nat + 1) <= x as nat) by {
                lemma_fundamental_div_mod(x as int, pow2(k as nat + 1) as int);
                lemma_mod_division_less_than_divisor(x as int, pow2(k as nat + 1) as int);
                lemma_pow2_pos(k as nat + 1);
                let d = pow2(k as nat + 1) as int;
                let q = x as int / d;
                assert(q >= 1);
                assert(d * q >= d) by (nonlinear_arith)
                    requires
                        d > 0 && q >= 1,
                ;
            }
            assert(k as nat + 1 < 64) by {
                if k as nat + 1 >= 64 {
                    lemma_pow2_le(64, k as nat + 1);
                }
            }
        }
        v = v / 2;
        k = k + 1;
    }
    proof {
        // v == 1: x / pow2(k) == 1 brackets x between pow2(k) and pow2(k + 1)
        lemma_pow2_pos(k as nat);
        lemma_fundamental_div_mod(x as int, pow2(k as nat) as int);
        lemma_mod_division_less_than_divisor(x as int, pow2(k as nat) as int);
        lemma_pow2_unfold(k as nat + 1);
        lemma_log2_unique(x as nat, k as nat);
    }
    k
}

} // verus!
