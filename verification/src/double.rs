//! IEEE 754 binary64 numbers, held as their bit pattern and computed on
//! integers, so that every operation is exactly specified and machine
//! independent.
//!
//! A finite magnitude is `sig * 2^exp` with an integer `sig < 2^53`. Every
//! arithmetic operation returns the double nearest to the exact result, a tie
//! going to the even neighbour ([`nearest`]).

use vstd::prelude::*;

verus! {

/// A binary64 number, as its bit pattern.
#[derive(Debug, Clone, Copy, PartialEq, Eq, Structural)]
pub struct Double {
    pub bits: u64,
}

/// Magnitude bits of infinity.
pub const INF_BITS: u64 = 0x7FF0_0000_0000_0000;

/// The sign bit.
pub const SIGN_BIT: u64 = 0x8000_0000_0000_0000;

/// The quiet NaN that an invalid operation returns.
pub const NAN_BITS: u64 = 0x7FF8_0000_0000_0000;

/// Bits of the number one.
pub const ONE_BITS: u64 = 0x3FF0_0000_0000_0000;

/// `2^52`: the smallest significand of a normal number.
pub const TWO_52: u64 = 0x10_0000_0000_0000;

/// `2^53`: the bound of every significand.
pub const TWO_53: u64 = 0x20_0000_0000_0000;

/// `2^n`, for `n >= 0`.
pub open spec fn p2(n: int) -> int {
    vstd::arithmetic::power2::pow2(n as nat) as int
}

/// `x * 2^s` where `s` is positive, `x` otherwise.
pub open spec fn up(x: int, s: int) -> int {
    if s > 0 {
        x * p2(s)
    } else {
        x
    }
}

/// The integer part of `n/d * 2^e` measured in units of `2^k`.
pub open spec fn quot(n: int, d: int, e: int, k: int) -> int {
    up(n, e - k) / up(d, k - e)
}

/// `2^k` is the unit in the last place of the binade that holds `n/d * 2^e`:
/// the value has a 53-bit integer part in these units, or a shorter one in the
/// smallest unit there is.
pub open spec fn is_ulp(n: int, d: int, e: int, k: int) -> bool {
    &&& -1074 <= k
    &&& quot(n, d, e, k) < TWO_53
    &&& k == -1074 || quot(n, d, e, k) >= TWO_52
}

/// The integer nearest to `n/d * 2^e` in units of `2^k`, ties to even.
pub open spec fn rounded(n: int, d: int, e: int, k: int) -> int {
    let a = up(n, e - k);
    let b = up(d, k - e);
    let q = a / b;
    let r = a % b;
    if 2 * r > b || (2 * r == b && q % 2 == 1) {
        q + 1
    } else {
        q
    }
}

/// Magnitude bits of `q * 2^k`, infinity where it is too large. A `q` of
/// exactly `2^53` carries into the next binade by itself.
pub open spec fn encode(k: int, q: int) -> int {
    let m = (k + 1074) * TWO_52 + q;
    if m >= INF_BITS {
        INF_BITS as int
    } else {
        m
    }
}

/// Magnitude bits of the double nearest to `n/d * 2^e`, ties to even.
pub open spec fn nearest(n: int, d: int, e: int) -> int {
    let k = choose|k: int| is_ulp(n, d, e, k);
    encode(k, rounded(n, d, e, k))
}

/// `m` units of `2^e`, plus a fraction of a unit where `sticky`, stand for
/// `n/d * 2^x`.
pub open spec fn stands_for(m: int, sticky: bool, e: int, n: int, d: int, x: int) -> bool {
    &&& n >= 0
    &&& d > 0
    &&& m == quot(n, d, x, e)
    &&& sticky == (up(n, x - e) % up(d, e - x) != 0)
}

// ── Powers of two ────────────────────────────────────────────────────────────

proof fn lemma_p2_pos(n: int)
    requires
        n >= 0,
    ensures
        p2(n) >= 1,
{
    vstd::arithmetic::power2::lemma_pow2_pos(n as nat);
}

proof fn lemma_p2_add(a: int, b: int)
    requires
        a >= 0,
        b >= 0,
    ensures
        p2(a + b) == p2(a) * p2(b),
{
    vstd::arithmetic::power2::lemma_pow2_adds(a as nat, b as nat);
    assert((a + b) as nat == a as nat + b as nat);
}

proof fn lemma_p2_mono(a: int, b: int)
    requires
        0 <= a <= b,
    ensures
        p2(a) <= p2(b),
{
    if a < b {
        vstd::arithmetic::power2::lemma_pow2_strictly_increases(a as nat, b as nat);
    }
}

proof fn lemma_p2_values()
    ensures
        p2(0) == 1,
        p2(1) == 2,
        p2(2) == 4,
        p2(4) == 16,
        p2(8) == 256,
        p2(16) == 0x1_0000,
        p2(32) == 0x1_0000_0000,
        p2(52) == TWO_52,
        p2(53) == TWO_53,
        p2(54) == 2 * TWO_53,
        p2(63) == SIGN_BIT,
        p2(64) == 0x1_0000_0000_0000_0000,
        p2(127) == 0x8000_0000_0000_0000_0000_0000_0000_0000,
        p2(128) == 0x1_0000_0000_0000_0000_0000_0000_0000_0000,
{
    vstd::arithmetic::power2::lemma2_to64();
    vstd::arithmetic::power2::lemma2_to64_rest();
    lemma_p2_add(63, 64);
    lemma_p2_add(64, 64);
    assert(p2(127) == 0x8000_0000_0000_0000_0000_0000_0000_0000) by (nonlinear_arith)
        requires
            p2(127) == p2(63) * p2(64),
            p2(63) == SIGN_BIT,
            p2(64) == 0x1_0000_0000_0000_0000,
    ;
    assert(p2(128) == 0x1_0000_0000_0000_0000_0000_0000_0000_0000) by (nonlinear_arith)
        requires
            p2(128) == p2(64) * p2(64),
            p2(64) == 0x1_0000_0000_0000_0000,
    ;
}

proof fn lemma_up_pos(x: int, s: int)
    requires
        x > 0,
    ensures
        up(x, s) > 0,
{
    if s > 0 {
        lemma_p2_pos(s);
        assert(x * p2(s) > 0) by (nonlinear_arith)
            requires
                x > 0,
                p2(s) >= 1,
        ;
    }
}

proof fn lemma_up_nonneg(x: int, s: int)
    requires
        x >= 0,
    ensures
        up(x, s) >= 0,
{
    if x > 0 {
        lemma_up_pos(x, s);
    } else {
        assert(0 * p2(s) == 0);
    }
}

// ── Rounding ─────────────────────────────────────────────────────────────────

/// Measuring in units `2^j` times as large divides the value by `2^j`.
proof fn lemma_coarsen(n: int, d: int, x: int, e: int, k: int)
    requires
        n >= 0,
        d > 0,
        k >= e,
    ensures
        up(n, x - e) >= 0,
        up(n, x - k) >= 0,
        up(d, e - x) > 0,
        up(d, k - x) > 0,
        up(n, x - k) * (up(d, e - x) * p2(k - e)) == up(n, x - e) * up(d, k - x),
{
    lemma_up_nonneg(n, x - e);
    lemma_up_nonneg(n, x - k);
    lemma_up_pos(d, e - x);
    lemma_up_pos(d, k - x);
    lemma_p2_values();
    let j = k - e;
    if x >= k {
        lemma_p2_add(x - k, j);
        let (a, b) = (p2(x - k), p2(j));
        assert(x - e == (x - k) + j);
        assert((n * a) * (d * b) == (n * (a * b)) * d) by (nonlinear_arith);
        assert(up(n, x - k) == n * a) by (nonlinear_arith)
            requires
                up(n, x - k) == if x - k > 0 {
                    n * a
                } else {
                    n
                },
                x - k > 0 || a == 1,
        ;
        assert(up(n, x - e) == n * (a * b)) by (nonlinear_arith)
            requires
                up(n, x - e) == if x - e > 0 {
                    n * (a * b)
                } else {
                    n
                },
                x - e > 0 || a * b == 1,
        ;
        assert(up(d, e - x) == d);
        assert(up(d, k - x) == d);
    } else if x >= e {
        lemma_p2_add(x - e, k - x);
        let (a, b) = (p2(x - e), p2(k - x));
        assert(up(n, x - k) == n);
        assert(up(n, x - e) == n * a) by (nonlinear_arith)
            requires
                up(n, x - e) == if x - e > 0 {
                    n * a
                } else {
                    n
                },
                x - e > 0 || a == 1,
        ;
        assert(up(d, e - x) == d);
        assert(up(d, k - x) == d * b);
        assert(n * (d * (a * b)) == (n * a) * (d * b)) by (nonlinear_arith);
        assert(j == (x - e) + (k - x));
    } else {
        lemma_p2_add(e - x, j);
        let (a, b) = (p2(e - x), p2(j));
        assert(k - x == (e - x) + j);
        assert(n * ((d * a) * b) == n * (d * (a * b))) by (nonlinear_arith);
    }
}

/// Equal ratios have equal quotients and proportional remainders.
proof fn lemma_same_ratio(a: int, b: int, c: int, d: int)
    requires
        a >= 0,
        b > 0,
        c >= 0,
        d > 0,
        a * d == c * b,
    ensures
        a / b == c / d,
        (a % b) * d == (c % d) * b,
        0 <= a % b < b,
        0 <= c % d < d,
{
    let q = a / b;
    let r = a % b;
    vstd::arithmetic::div_mod::lemma_fundamental_div_mod(a, b);
    vstd::arithmetic::div_mod::lemma_mod_pos_bound(a, b);
    vstd::arithmetic::div_mod::lemma_mod_pos_bound(c, d);
    let s = c - q * d;
    assert(s * b == r * d) by (nonlinear_arith)
        requires
            s == c - q * d,
            a * d == c * b,
            a == b * q + r,
    ;
    assert(0 <= s < d) by (nonlinear_arith)
        requires
            s * b == r * d,
            0 <= r < b,
            d > 0,
            b > 0,
    ;
    assert(c == q * d + s);
    vstd::arithmetic::div_mod::lemma_fundamental_div_mod_converse(c, d, q, s);
}

/// The unit in the last place is unique.
proof fn lemma_ulp_unique(n: int, d: int, e: int, k: int, l: int)
    requires
        n >= 0,
        d > 0,
        is_ulp(n, d, e, k),
        is_ulp(n, d, e, l),
    ensures
        k == l,
{
    if k < l {
        lemma_ulp_not_coarser(n, d, e, k, l);
    } else if l < k {
        lemma_ulp_not_coarser(n, d, e, l, k);
    }
}

proof fn lemma_ulp_not_coarser(n: int, d: int, e: int, k: int, l: int)
    requires
        n >= 0,
        d > 0,
        is_ulp(n, d, e, k),
        k < l,
    ensures
        quot(n, d, e, l) < TWO_52,
{
    lemma_coarsen(n, d, e, k, l);
    lemma_quot_coarsen(n, d, e, k, l);
    let q = quot(n, d, e, k);
    lemma_p2_mono(1, l - k);
    lemma_p2_values();
    let j = p2(l - k);
    assert(q / j < TWO_52) by (nonlinear_arith)
        requires
            0 <= q < 2 * TWO_52,
            j >= 2,
    ;
}

/// The quotient in larger units is the quotient of the quotient.
proof fn lemma_quot_coarsen(n: int, d: int, x: int, e: int, k: int)
    requires
        n >= 0,
        d > 0,
        k >= e,
    ensures
        quot(n, d, x, e) >= 0,
        p2(k - e) >= 1,
        quot(n, d, x, k) == quot(n, d, x, e) / p2(k - e),
{
    lemma_coarsen(n, d, x, e, k);
    lemma_p2_pos(k - e);
    let a = up(n, x - e);
    let b = up(d, e - x);
    let j = p2(k - e);
    assert(b * j > 0) by (nonlinear_arith)
        requires
            b > 0,
            j >= 1,
    ;
    lemma_same_ratio(up(n, x - k), up(d, k - x), a, b * j);
    vstd::arithmetic::div_mod::lemma_div_denominator(a, b, j);
    vstd::arithmetic::div_mod::lemma_div_pos_is_pos(a, b);
}

/// Rounding a value that is known in units of `2^e` to larger units: the
/// integer part is shifted out, the rest compared with one half.
proof fn lemma_round_coarse(m: int, sticky: bool, e: int, k: int, n: int, d: int, x: int)
    requires
        stands_for(m, sticky, e, n, d, x),
        k > e,
    ensures
        m >= 0,
        quot(n, d, x, k) == m / p2(k - e),
        rounded(n, d, x, k) == {
            let q = m / p2(k - e);
            let r = m % p2(k - e);
            let half = p2(k - e - 1);
            if r > half || (r == half && (sticky || q % 2 == 1)) {
                q + 1
            } else {
                q
            }
        },
{
    lemma_quot_coarsen(n, d, x, e, k);
    lemma_coarsen(n, d, x, e, k);
    let a = up(n, x - e);
    let b = up(d, e - x);
    let j = p2(k - e);
    let half = p2(k - e - 1);
    lemma_p2_add(k - e - 1, 1);
    lemma_p2_values();
    lemma_p2_pos(k - e - 1);
    assert(j == 2 * half);
    let big = b * j;
    assert(big > 0) by (nonlinear_arith)
        requires
            b > 0,
            j >= 1,
            big == b * j,
    ;
    let ak = up(n, x - k);
    let bk = up(d, k - x);
    lemma_same_ratio(ak, bk, a, big);
    // The remainder in large units is the shifted-out part plus the fraction.
    vstd::arithmetic::div_mod::lemma_fundamental_div_mod(a, b);
    vstd::arithmetic::div_mod::lemma_mod_pos_bound(a, b);
    vstd::arithmetic::div_mod::lemma_fundamental_div_mod(m, j);
    vstd::arithmetic::div_mod::lemma_mod_pos_bound(m, j);
    let f = a % b;
    let r = m % j;
    let q = m / j;
    let rest = b * r + f;
    assert(a == q * big + rest) by (nonlinear_arith)
        requires
            a == b * m + f,
            m == j * q + r,
            big == b * j,
            rest == b * r + f,
    ;
    assert(0 <= rest < big) by (nonlinear_arith)
        requires
            rest == b * r + f,
            0 <= f < b,
            0 <= r < j,
            big == b * j,
    ;
    vstd::arithmetic::div_mod::lemma_fundamental_div_mod_converse(a, big, q, rest);
    let rk = ak % bk;
    assert(rk * big == rest * bk);
    assert(big == 2 * (b * half)) by (nonlinear_arith)
        requires
            big == b * j,
            j == 2 * half,
    ;
    // rk / bk == rest / big, so both compare alike with one half.
    if r > half {
        assert(rest > b * half) by (nonlinear_arith)
            requires
                rest == b * r + f,
                r >= half + 1,
                0 <= f,
                b > 0,
        ;
    } else if r < half {
        assert(rest < b * half) by (nonlinear_arith)
            requires
                rest == b * r + f,
                r + 1 <= half,
                f < b,
                b > 0,
        ;
    } else {
        assert(rest == b * half + f);
    }
    assert(2 * rest > big ==> 2 * rk > bk) by (nonlinear_arith)
        requires
            rk * big == rest * bk,
            bk > 0,
            big > 0,
    ;
    assert(2 * rest < big ==> 2 * rk < bk) by (nonlinear_arith)
        requires
            rk * big == rest * bk,
            bk > 0,
            big > 0,
    ;
    assert(2 * rest == big ==> 2 * rk == bk) by (nonlinear_arith)
        requires
            rk * big == rest * bk,
            bk > 0,
            big > 0,
    ;
}

/// A value that is a whole number of units is a whole number of smaller units.
proof fn lemma_round_fine(m: int, e: int, k: int, n: int, d: int, x: int)
    requires
        stands_for(m, false, e, n, d, x),
        k <= e,
    ensures
        m >= 0,
        quot(n, d, x, k) == m * p2(e - k),
        rounded(n, d, x, k) == m * p2(e - k),
{
    lemma_coarsen(n, d, x, k, e);
    let a = up(n, x - e);
    let b = up(d, e - x);
    let ak = up(n, x - k);
    let bk = up(d, k - x);
    let j = p2(e - k);
    lemma_p2_pos(e - k);
    vstd::arithmetic::div_mod::lemma_fundamental_div_mod(a, b);
    vstd::arithmetic::div_mod::lemma_div_pos_is_pos(a, b);
    assert(ak == (m * j) * bk) by (nonlinear_arith)
        requires
            a * (bk * j) == ak * b,
            a == b * m,
            b > 0,
    ;
    vstd::arithmetic::div_mod::lemma_fundamental_div_mod_converse(ak, bk, m * j, 0);
}

proof fn lemma_nearest_at(n: int, d: int, e: int, k: int)
    requires
        n >= 0,
        d > 0,
        is_ulp(n, d, e, k),
    ensures
        nearest(n, d, e) == encode(k, rounded(n, d, e, k)),
{
    let l = choose|l: int| is_ulp(n, d, e, l);
    lemma_ulp_unique(n, d, e, k, l);
}

// ── Executable rounding ──────────────────────────────────────────────────────

proof fn lemma_shifted_one(j: u32)
    requires
        j < 128,
    ensures
        (1u128 << j) == p2(j as int),
    decreases j,
{
    lemma_p2_values();
    if j == 0 {
        assert((1u128 << 0u32) == 1u128) by (bit_vector);
    } else {
        let i: u32 = (j - 1) as u32;
        lemma_shifted_one(i);
        lemma_p2_add(i as int, 1);
        assert((1u128 << j) == 2 * (1u128 << i)) by (bit_vector)
            requires
                0 < j < 128,
                i == j - 1,
        ;
    }
}

/// `2^j`.
fn two_to(j: u32) -> (p: u128)
    requires
        j < 128,
    ensures
        p == p2(j as int),
{
    proof {
        lemma_shifted_one(j);
    }
    1u128 << j
}

/// `n` divided by `2^j`.
fn shifted_down(n: u128, j: u32) -> (q: u128)
    requires
        j < 128,
    ensures
        q == n as int / p2(j as int),
{
    proof {
        vstd::bits::lemma_u128_shr_is_div(n, j as u128);
        assert((n >> j) == (n >> (j as u128)));
    }
    n >> j
}

/// The number of binary digits of `n`.
fn bit_length(n: u128) -> (l: u32)
    ensures
        l <= 128,
        n < p2(l as int),
        l == 0 <==> n == 0,
        l > 0 ==> p2(l - 1) <= n,
{
    let mut x: u128 = n;
    let mut l: u32 = 0;
    let mut s: u32 = 64;
    proof {
        lemma_p2_values();
    }
    while s > 0
        invariant
            s == 64 || s == 32 || s == 16 || s == 8 || s == 4 || s == 2 || s == 1 || s == 0,
            s > 0 ==> x < p2(2 * s),
            s == 0 ==> x < 2,
            s > 0 ==> l + 2 * s <= 128,
            s == 0 ==> l <= 127,
            n > 0 ==> x > 0,
            n == 0 ==> x == 0 && l == 0,
            x * p2(l as int) <= n < (x + 1) * p2(l as int),
        decreases s,
    {
        proof {
            lemma_p2_values();
            lemma_p2_add(s as int, s as int);
            lemma_p2_pos(s as int);
        }
        let p: u128 = two_to(s);
        if x >= p {
            let y: u128 = shifted_down(x, s);
            proof {
                lemma_p2_add(l as int, s as int);
                let (a, b, c) = (p2(l as int), p2(s as int), p2(l + s));
                vstd::arithmetic::div_mod::lemma_fundamental_div_mod(x as int, b);
                vstd::arithmetic::div_mod::lemma_mod_pos_bound(x as int, b);
                assert(y * c <= n < (y + 1) * c && y < b && y > 0) by (nonlinear_arith)
                    requires
                        c == a * b,
                        a >= 0,
                        b <= x < b * b,
                        x * a <= n < (x + 1) * a,
                        x == b * y + x as int % b,
                        0 <= x as int % b < b,
                ;
            }
            x = y;
            l = l + s;
        }
        s = s / 2;
    }
    proof {
        lemma_p2_add(l as int, 1);
        lemma_p2_pos(l as int);
        assert(x == 0 || x == 1);
        assert(x == 1 ==> x * p2(l as int) == p2(l as int) && (x + 1) * p2(l as int) == 2 * p2(
            l as int,
        )) by (nonlinear_arith);
    }
    if x == 0 {
        l
    } else {
        l + 1
    }
}

/// Magnitude bits of the double nearest to a value that is `n` units of `2^e`,
/// plus a fraction of a unit where `sticky`.
fn round_pack(n: u128, sticky: bool, e: i32) -> (m: u64)
    requires
        n < p2(127),
        -4000 <= e <= 4000,
        sticky ==> n >= TWO_53,
    ensures
        m <= INF_BITS,
        forall|a: int, d: int, x: int|
            stands_for(n as int, sticky, e as int, a, d, x) ==> m == #[trigger] nearest(a, d, x),
{
    let l: i32 = bit_length(n) as i32;
    proof {
        lemma_p2_values();
        if l > 127 {
            lemma_p2_mono(127, l - 1);
        }
        if sticky && l <= 53 {
            lemma_p2_mono(l as int, 53);
        }
    }
    if n == 0 {
        proof {
            assert forall|a: int, d: int, x: int|
                stands_for(0, sticky, e as int, a, d, x) implies 0 == #[trigger] nearest(a, d, x) by {
                lemma_pack_unit(0, sticky, e as int, 0, -1074, a, d, x);
                lemma_nearest_at(a, d, x, -1074);
                if -1074 <= e {
                    lemma_round_fine(0, e as int, -1074, a, d, x);
                } else {
                    lemma_round_coarse(0, sticky, e as int, -1074, a, d, x);
                    lemma_p2_pos(-1074 - e - 1);
                    lemma_p2_pos(-1074 - e);
                    vstd::arithmetic::div_mod::lemma_div_basics(p2(-1074 - e));
                    vstd::arithmetic::div_mod::lemma_small_mod(0, p2(-1074 - e) as nat);
                }
            }
        }
        return 0;
    }
    let k: i32 = if e + l - 53 > -1074 {
        e + l - 53
    } else {
        -1074
    };
    if k > 971 {
        proof {
            assert forall|a: int, d: int, x: int|
                stands_for(n as int, sticky, e as int, a, d, x) implies INF_BITS == #[trigger] nearest(
                a,
                d,
                x,
            ) by {
                lemma_pack_unit(n as int, sticky, e as int, l as int, k as int, a, d, x);
                lemma_nearest_at(a, d, x, k as int);
            }
        }
        return INF_BITS;
    }
    let q: u64 = if k <= e {
        proof {
            lemma_pack_fine(n as int, l as int, e - k);
        }
        let p: u128 = two_to((e - k) as u32);
        (n * p) as u64
    } else if k - e > 127 {
        0
    } else {
        let j: u32 = (k - e) as u32;
        let q: u128 = shifted_down(n, j);
        let p: u128 = two_to(j);
        proof {
            lemma_pack_coarse(n as int, l as int, j as int);
            lemma_p2_pos(j as int);
            vstd::arithmetic::div_mod::lemma_fundamental_div_mod(n as int, p as int);
            vstd::arithmetic::div_mod::lemma_mod_pos_bound(n as int, p as int);
            lemma_p2_add(j - 1, 1);
            assert(q * p <= n) by (nonlinear_arith)
                requires
                    n == p * q + n as int % p as int,
                    n as int % p as int >= 0,
            ;
            assert(p * q == q * p) by (nonlinear_arith);
        }
        let r: u128 = n - q * p;
        let half: u128 = p / 2;
        if r > half || (r == half && (sticky || q % 2 == 1)) {
            (q + 1) as u64
        } else {
            q as u64
        }
    };
    proof {
        assert forall|a: int, d: int, x: int|
            stands_for(n as int, sticky, e as int, a, d, x) implies encode(k as int, q as int)
            == #[trigger] nearest(a, d, x) by {
            lemma_pack_unit(n as int, sticky, e as int, l as int, k as int, a, d, x);
            lemma_nearest_at(a, d, x, k as int);
            if k <= e {
                lemma_round_fine(n as int, e as int, k as int, a, d, x);
            } else {
                lemma_round_coarse(n as int, sticky, e as int, k as int, a, d, x);
                if k - e > 127 {
                    lemma_p2_mono(127, k - e - 1);
                    lemma_p2_mono(k - e - 1, k - e);
                    vstd::arithmetic::div_mod::lemma_basic_div(n as int, p2(k - e));
                    vstd::arithmetic::div_mod::lemma_small_mod(n as nat, p2(k - e) as nat);
                }
            }
        }
    }
    (k + 1074) as u64 * TWO_52 + q
}

/// `k` is the unit in the last place of every value that stands behind `n`.
proof fn lemma_pack_unit(
    n: int,
    sticky: bool,
    e: int,
    l: int,
    k: int,
    a: int,
    d: int,
    x: int,
)
    requires
        stands_for(n, sticky, e, a, d, x),
        0 <= l,
        n < p2(l),
        l == 0 <==> n == 0,
        l > 0 ==> p2(l - 1) <= n,
        sticky ==> n >= TWO_53,
        k == if n > 0 && e + l - 53 > -1074 {
            e + l - 53
        } else {
            -1074
        },
    ensures
        is_ulp(a, d, x, k),
{
    lemma_p2_values();
    if sticky && l <= 53 {
        lemma_p2_mono(l, 53);
    }
    if k <= e {
        lemma_round_fine(n, e, k, a, d, x);
        lemma_pack_fine(n, l, e - k);
        if k > -1074 {
            lemma_p2_add(l - 1, e - k);
            lemma_p2_pos(e - k);
            assert(n * p2(e - k) >= p2(l - 1) * p2(e - k)) by (nonlinear_arith)
                requires
                    n >= p2(l - 1),
                    p2(e - k) >= 1,
            ;
        }
    } else {
        lemma_quot_coarsen(a, d, x, e, k);
        lemma_pack_coarse(n, l, k - e);
    }
}

/// A whole number of `l` digits stays below `2^53` when scaled up to at most
/// 53 digits.
proof fn lemma_pack_fine(n: int, l: int, s: int)
    requires
        0 <= l,
        0 <= s,
        0 <= n < p2(l),
        n == 0 || l + s <= 53,
    ensures
        0 <= n * p2(s) < TWO_53,
{
    lemma_p2_values();
    if n > 0 {
        lemma_p2_add(l, s);
        lemma_p2_mono(l + s, 53);
        lemma_p2_pos(s);
        assert(0 <= n * p2(s) < p2(l) * p2(s)) by (nonlinear_arith)
            requires
                0 <= n < p2(l),
                p2(s) >= 1,
        ;
    }
}

/// A number of `l` digits scaled down to at most 53 digits.
proof fn lemma_pack_coarse(n: int, l: int, j: int)
    requires
        0 <= l,
        0 < j,
        0 <= n < p2(l),
        l > 0 ==> p2(l - 1) <= n,
        n == 0 || l - j <= 53,
    ensures
        0 <= n / p2(j) < TWO_53,
        l - j == 53 ==> n / p2(j) >= TWO_52,
{
    lemma_p2_values();
    lemma_p2_pos(j);
    let p = p2(j);
    if n == 0 {
        vstd::arithmetic::div_mod::lemma_div_basics(p);
        if l > 0 {
            lemma_p2_pos(l - 1);
        }
    } else {
        lemma_p2_add(53, j);
        lemma_p2_mono(l, 53 + j);
        vstd::arithmetic::div_mod::lemma_fundamental_div_mod(n, p);
        vstd::arithmetic::div_mod::lemma_mod_pos_bound(n, p);
        let q = n / p;
        assert(0 <= q < TWO_53) by (nonlinear_arith)
            requires
                n == p * q + n % p,
                0 <= n % p < p,
                0 <= n < TWO_53 * p,
                p >= 1,
        ;
        if l - j == 53 {
            lemma_p2_add(52, j);
            assert(l - 1 == 52 + j);
            assert(q >= TWO_52) by (nonlinear_arith)
                requires
                    n == p * q + n % p,
                    0 <= n % p < p,
                    n >= TWO_52 * p,
                    p >= 1,
            ;
        }
    }
}

// ── The type ─────────────────────────────────────────────────────────────────

/// A whole number of units stands for itself.
proof fn lemma_stands_exact(n: int, e: int)
    requires
        n >= 0,
    ensures
        stands_for(n, false, e, n, 1, e),
{
    assert(up(1, 0) == 1 && up(n, 0) == n);
    assert(n / 1 == n && n % 1 == 0);
}

proof fn lemma_nearest_range(n: int, d: int, e: int, k: int)
    requires
        n >= 0,
        d > 0,
        is_ulp(n, d, e, k),
    ensures
        0 <= nearest(n, d, e) <= INF_BITS,
{
    lemma_nearest_at(n, d, e, k);
    lemma_coarsen(n, d, e, k, k);
    let a = up(n, e - k);
    let b = up(d, k - e);
    vstd::arithmetic::div_mod::lemma_div_pos_is_pos(a, b);
    assert((k + 1074) * TWO_52 >= 0) by (nonlinear_arith)
        requires
            k >= -1074,
    ;
}

/// A signed integer from its sign and magnitude.
pub open spec fn signed_int(negative: bool, m: int) -> int {
    if negative {
        -m
    } else {
        m
    }
}

/// The double nearest to `v * 2^e`, where the sign of a zero is given.
pub open spec fn nearest_signed(v: int, e: int, negative_zero: bool) -> Double {
    if v == 0 {
        Double::of_parts(negative_zero, 0)
    } else if v > 0 {
        Double::of_parts(false, nearest(v, 1, e))
    } else {
        Double::of_parts(true, nearest(-v, 1, e))
    }
}

impl Double {
    /// The sign bit is set.
    pub open spec fn negative(self) -> bool {
        self.bits >= SIGN_BIT
    }

    /// The bits without the sign bit. Magnitudes are ordered as these are.
    pub open spec fn mag(self) -> int {
        if self.bits >= SIGN_BIT {
            self.bits - SIGN_BIT
        } else {
            self.bits as int
        }
    }

    pub open spec fn nan(self) -> bool {
        self.mag() > INF_BITS
    }

    pub open spec fn infinite(self) -> bool {
        self.mag() == INF_BITS
    }

    pub open spec fn finite(self) -> bool {
        self.mag() < INF_BITS
    }

    pub open spec fn vanishes(self) -> bool {
        self.mag() == 0
    }

    /// The significand of a finite number.
    pub open spec fn sig(self) -> int {
        if self.mag() < TWO_52 {
            self.mag()
        } else {
            self.mag() % (TWO_52 as int) + TWO_52
        }
    }

    /// The exponent of a finite number: its magnitude is `sig * 2^exp`.
    pub open spec fn exp(self) -> int {
        if self.mag() < TWO_52 {
            -1074
        } else {
            self.mag() / (TWO_52 as int) - 1075
        }
    }

    /// The number with this sign and these magnitude bits.
    pub open spec fn of_parts(negative: bool, mag: int) -> Double {
        Double {
            bits: (if negative {
                mag + SIGN_BIT
            } else {
                mag
            }) as u64,
        }
    }

    /// The signed significand, scaled up by `2^s`.
    pub open spec fn signed(self, s: int) -> int {
        signed_int(self.negative(), self.sig() * p2(s))
    }

    pub open spec fn spec_negated(self) -> Double {
        Double::of_parts(!self.negative(), self.mag())
    }

    pub open spec fn spec_abs(self) -> Double {
        Double::of_parts(false, self.mag())
    }

    /// The nearest double to the exact sum. A sum that cancels is positive
    /// zero; a sum of infinities of opposite signs is no number.
    #[verifier::opaque]
    pub open spec fn spec_plus(self, other: Double) -> Double {
        if self.nan() || other.nan() {
            Double { bits: NAN_BITS }
        } else if self.infinite() {
            if other.infinite() && self.negative() != other.negative() {
                Double { bits: NAN_BITS }
            } else {
                self
            }
        } else if other.infinite() {
            other
        } else {
            let e = if self.exp() <= other.exp() {
                self.exp()
            } else {
                other.exp()
            };
            nearest_signed(
                self.signed(self.exp() - e) + other.signed(other.exp() - e),
                e,
                self.negative() && other.negative(),
            )
        }
    }

    pub open spec fn spec_minus(self, other: Double) -> Double {
        self.spec_plus(other.spec_negated())
    }

    /// The nearest double to the exact product.
    #[verifier::opaque]
    pub open spec fn spec_times(self, other: Double) -> Double {
        let negative = self.negative() != other.negative();
        if self.nan() || other.nan() {
            Double { bits: NAN_BITS }
        } else if self.infinite() || other.infinite() {
            if self.vanishes() || other.vanishes() {
                Double { bits: NAN_BITS }
            } else {
                Double::of_parts(negative, INF_BITS as int)
            }
        } else {
            Double::of_parts(
                negative,
                nearest(self.sig() * other.sig(), 1, self.exp() + other.exp()),
            )
        }
    }

    /// The nearest double to the exact quotient.
    #[verifier::opaque]
    pub open spec fn spec_over(self, other: Double) -> Double {
        let negative = self.negative() != other.negative();
        if self.nan() || other.nan() || (self.infinite() && other.infinite()) || (self.vanishes()
            && other.vanishes()) {
            Double { bits: NAN_BITS }
        } else if self.infinite() || other.vanishes() {
            Double::of_parts(negative, INF_BITS as int)
        } else if other.infinite() {
            Double::of_parts(negative, 0)
        } else {
            Double::of_parts(
                negative,
                nearest(self.sig(), other.sig(), self.exp() - other.exp()),
            )
        }
    }

    proof fn lemma_parts(self)
        requires
            self.finite(),
        ensures
            0 <= self.sig() < TWO_53,
            -1074 <= self.exp() <= 971,
            self.mag() == (self.exp() + 1074) * TWO_52 + self.sig(),
            self.exp() > -1074 ==> self.sig() >= TWO_52,
            self.sig() == 0 <==> self.vanishes(),
    {
    }

    pub open spec fn spec_from_bits(bits: u64) -> Double {
        Double { bits }
    }

    /// The number with these bits.
    #[verifier::when_used_as_spec(spec_from_bits)]
    pub fn from_bits(bits: u64) -> (r: Double)
        ensures
            r == Double::spec_from_bits(bits),
    {
        Double { bits }
    }

    pub open spec fn spec_zero() -> Double {
        Double { bits: 0 }
    }

    /// The number zero.
    #[verifier::when_used_as_spec(spec_zero)]
    pub fn zero() -> (r: Double)
        ensures
            r == Double::spec_zero(),
    {
        Double { bits: 0 }
    }

    pub open spec fn spec_one() -> Double {
        Double { bits: ONE_BITS }
    }

    /// The number one.
    #[verifier::when_used_as_spec(spec_one)]
    pub fn one() -> (r: Double)
        ensures
            r == Double::spec_one(),
    {
        Double { bits: ONE_BITS }
    }

    /// Whether the sign bit is set.
    pub fn is_negative(self) -> (r: bool)
        ensures
            r == self.negative(),
    {
        self.bits >= SIGN_BIT
    }

    fn magnitude(self) -> (m: u64)
        ensures
            m == self.mag(),
    {
        if self.bits >= SIGN_BIT {
            self.bits - SIGN_BIT
        } else {
            self.bits
        }
    }

    fn pack(negative: bool, m: u64) -> (r: Double)
        requires
            m <= INF_BITS,
        ensures
            r == Double::of_parts(negative, m as int),
            r.mag() == m,
            r.negative() == negative,
    {
        if negative {
            Double { bits: m + SIGN_BIT }
        } else {
            Double { bits: m }
        }
    }

    /// Significand and exponent.
    fn parts(self) -> (r: (u64, i32))
        requires
            self.finite(),
        ensures
            r.0 == self.sig(),
            r.1 == self.exp(),
            0 <= self.sig() < TWO_53,
            -1074 <= self.exp() <= 971,
            self.exp() > -1074 ==> self.sig() >= TWO_52,
            self.sig() == 0 <==> self.vanishes(),
    {
        let m: u64 = self.magnitude();
        if m < TWO_52 {
            (m, -1074)
        } else {
            (m % TWO_52 + TWO_52, (m / TWO_52) as i32 - 1075)
        }
    }

    /// Whether this is no number.
    pub fn is_nan(self) -> (r: bool)
        ensures
            r == self.nan(),
    {
        self.magnitude() > INF_BITS
    }

    /// Whether this is neither infinite nor NaN.
    pub fn is_finite(self) -> (r: bool)
        ensures
            r == self.finite(),
    {
        self.magnitude() < INF_BITS
    }

    /// The number with the other sign.
    #[verifier::when_used_as_spec(spec_negated)]
    pub fn negated(self) -> (r: Double)
        ensures
            r == self.spec_negated(),
    {
        if self.bits >= SIGN_BIT {
            Double { bits: self.bits - SIGN_BIT }
        } else {
            Double { bits: self.bits + SIGN_BIT }
        }
    }

    /// The absolute value.
    #[verifier::when_used_as_spec(spec_abs)]
    pub fn abs(self) -> (r: Double)
        ensures
            r == self.spec_abs(),
    {
        Double { bits: self.magnitude() }
    }

    /// The product.
    #[verifier::when_used_as_spec(spec_times)]
    pub fn times(self, other: Double) -> (r: Double)
        ensures
            r == self.spec_times(other),
    {
        reveal(Double::spec_times);
        let negative: bool = self.is_negative() != other.is_negative();
        let (a, b) = (self.magnitude(), other.magnitude());
        if a > INF_BITS || b > INF_BITS {
            return Double { bits: NAN_BITS };
        }
        if a == INF_BITS || b == INF_BITS {
            return if a == 0 || b == 0 {
                Double { bits: NAN_BITS }
            } else {
                Double::pack(negative, INF_BITS)
            };
        }
        let (s, e) = self.parts();
        let (t, f) = other.parts();
        proof {
            lemma_p2_values();
            assert(0 <= s * t < TWO_53 * TWO_53) by (nonlinear_arith)
                requires
                    0 <= s < TWO_53,
                    0 <= t < TWO_53,
            ;
            lemma_stands_exact(s * t, e + f);
        }
        let n: u128 = (s as u128) * (t as u128);
        Double::pack(negative, round_pack(n, false, e + f))
    }

    /// The quotient.
    #[verifier::when_used_as_spec(spec_over)]
    pub fn over(self, other: Double) -> (r: Double)
        ensures
            r == self.spec_over(other),
    {
        reveal(Double::spec_over);
        let negative: bool = self.is_negative() != other.is_negative();
        let (a, b) = (self.magnitude(), other.magnitude());
        if a > INF_BITS || b > INF_BITS || (a == INF_BITS && b == INF_BITS) || (a == 0 && b == 0) {
            return Double { bits: NAN_BITS };
        }
        if a == INF_BITS || b == 0 {
            return Double::pack(negative, INF_BITS);
        }
        if b == INF_BITS {
            return Double::pack(negative, 0);
        }
        let (s, e) = self.parts();
        let (t, f) = other.parts();
        if s == 0 {
            proof {
                lemma_p2_values();
                assert(up(0, 0) / up(t as int, 0) == 0 && up(0, 0) % up(t as int, 0) == 0)
                    by (nonlinear_arith)
                    requires
                        t > 0,
                        up(0, 0) == 0,
                        up(t as int, 0) == t,
                ;
                assert(stands_for(0, false, e - f, 0, t as int, e - f));
            }
            return Double::pack(negative, round_pack(0, false, e - f));
        }
        let l: u32 = bit_length(s as u128);
        proof {
            lemma_p2_values();
            if l > 53 {
                lemma_p2_mono(53, l - 1);
            }
            lemma_p2_add(l as int, 126 - l);
            lemma_p2_add(l - 1, 126 - l);
            lemma_p2_add(1, 126);
            lemma_p2_add(53, 72);
            lemma_p2_pos(126 - l);
            let p = p2(126 - l);
            assert(s * p < p2(126) && s * p >= p2(125)) by (nonlinear_arith)
                requires
                    p2(l - 1) <= s < p2(l as int),
                    p2(126) == p2(l as int) * p,
                    p2(125) == p2(l - 1) * p,
                    p >= 1,
            ;
        }
        let p: u128 = two_to(126 - l);
        let n: u128 = (s as u128) * p;
        let q: u128 = n / (t as u128);
        let r: u128 = n % (t as u128);
        proof {
            lemma_p2_mono(53, 72);
            let w: int = t as int;
            vstd::arithmetic::div_mod::lemma_fundamental_div_mod(n as int, w);
            vstd::arithmetic::div_mod::lemma_mod_pos_bound(n as int, w);
            assert(q <= n && q >= TWO_53) by (nonlinear_arith)
                requires
                    n == w * q + r,
                    0 <= r < w,
                    0 < w < TWO_53,
                    n >= TWO_53 * p2(72),
                    p2(72) >= TWO_53,
            ;
            assert(stands_for(
                q as int,
                r != 0,
                e - f - (126 - l),
                s as int,
                w,
                e - f,
            ));
        }
        Double::pack(negative, round_pack(q, r != 0, e - f - (126 - l as i32)))
    }

    /// The sum.
    #[verifier::when_used_as_spec(spec_plus)]
    pub fn plus(self, other: Double) -> (r: Double)
        ensures
            r == self.spec_plus(other),
    {
        reveal(Double::spec_plus);
        let (a, b) = (self.magnitude(), other.magnitude());
        if a > INF_BITS || b > INF_BITS {
            return Double { bits: NAN_BITS };
        }
        if a == INF_BITS {
            return if b == INF_BITS && self.is_negative() != other.is_negative() {
                Double { bits: NAN_BITS }
            } else {
                self
            };
        }
        if b == INF_BITS {
            return other;
        }
        let (s, e) = self.parts();
        let (t, f) = other.parts();
        proof {
            lemma_p2_values();
            assert(s * p2(0) == s && t * p2(0) == t) by (nonlinear_arith)
                requires
                    p2(0) == 1,
            ;
        }
        if e >= f {
            sum_of(self.is_negative(), s, e, other.is_negative(), t, f)
        } else {
            sum_of(other.is_negative(), t, f, self.is_negative(), s, e)
        }
    }

    /// The difference.
    #[verifier::when_used_as_spec(spec_minus)]
    pub fn minus(self, other: Double) -> (r: Double)
        ensures
            r == self.spec_minus(other),
    {
        self.plus(other.negated())
    }
}

/// The sum of `+-s * 2^e` and `+-t * 2^f`, rounded.
fn sum_of(sn: bool, s: u64, e: i32, tn: bool, t: u64, f: i32) -> (r: Double)
    requires
        s < TWO_53,
        t < TWO_53,
        -1074 <= f <= e <= 971,
        e > -1074 ==> s >= TWO_52,
    ensures
        r == nearest_signed(
            signed_int(sn, s * p2(e - f)) + signed_int(tn, t as int),
            f as int,
            sn && tn,
        ),
{
    let d: u32 = (e - f) as u32;
    proof {
        lemma_p2_values();
        lemma_p2_pos(d as int);
    }
    if d <= 60 {
        proof {
            lemma_p2_mono(d as int, 63);
            lemma_p2_add(53, 63);
            lemma_p2_mono(116, 126);
            lemma_p2_add(1, 126);
            assert(0 <= s * p2(d as int) < TWO_53 * SIGN_BIT) by (nonlinear_arith)
                requires
                    s < TWO_53,
                    1 <= p2(d as int) <= SIGN_BIT,
            ;
        }
        let x: u128 = (s as u128) * two_to(d);
        let y: u128 = t as u128;
        let (negative, n) = if sn == tn {
            (sn, x + y)
        } else if x >= y {
            (sn, x - y)
        } else {
            (tn, y - x)
        };
        if n == 0 {
            return Double::pack(sn && tn, 0);
        }
        proof {
            lemma_stands_exact(n as int, f as int);
        }
        Double::pack(negative, round_pack(n, false, f))
    } else if t == 0 {
        proof {
            let p = p2(d as int);
            lemma_far(s as int, p, 0);
            assert(s * p > 0) by (nonlinear_arith)
                requires
                    s > 0,
                    p >= 1,
            ;
            assert(stands_for(s as int, false, e as int, s * p, 1, f as int)) by {
                lemma_far(s as int, p, 0);
                assert(1 * p == p);
            }
        }
        Double::pack(sn, round_pack(s as u128, false, e))
    } else {
        let n: u128 = if sn == tn {
            16 * (s as u128)
        } else {
            16 * (s as u128) - 1
        };
        proof {
            lemma_p2_add(d - 4, 4);
            lemma_p2_mono(57, d - 4);
            lemma_p2_add(53, 4);
            let p = p2(d - 4);
            let v = if sn == tn {
                s * p2(d as int) + t
            } else {
                s * p2(d as int) - t
            };
            assert(s * p2(d as int) == (16 * s) * p) by (nonlinear_arith)
                requires
                    p2(d as int) == p * 16,
            ;
            assert((16 * s) * p >= p) by (nonlinear_arith)
                requires
                    s >= 1,
                    p >= 1,
            ;
            if sn == tn {
                lemma_far(n as int, p, t as int);
            } else {
                assert((16 * s) * p == n * p + p) by (nonlinear_arith)
                    requires
                        n == 16 * s - 1,
                ;
                lemma_far(n as int, p, p - t);
            }
            assert(1 * p == p);
            assert(stands_for(n as int, true, e - 4, v, 1, f as int));
        }
        Double::pack(sn, round_pack(n, true, e - 4))
    }
}

/// Quotient and remainder of `n * p + r` by `p`.
proof fn lemma_far(n: int, p: int, r: int)
    requires
        0 <= r < p,
    ensures
        (n * p + r) / p == n,
        (n * p + r) % p == r,
{
    vstd::arithmetic::div_mod::lemma_fundamental_div_mod_converse(n * p + r, p, n, r);
}

// ── Comparison ───────────────────────────────────────────────────────────────

impl Double {
    /// Numbers other than NaN are ordered as their keys are.
    pub open spec fn key(self) -> int {
        signed_int(self.negative(), self.mag())
    }

    /// Place in the total order, in which negative zero stands below positive
    /// zero and every NaN has a place.
    pub open spec fn rank(self) -> int {
        if self.negative() {
            -self.mag() - 1
        } else {
            self.mag()
        }
    }

    pub open spec fn spec_lt(self, other: Double) -> bool {
        !self.nan() && !other.nan() && self.key() < other.key()
    }

    pub open spec fn spec_le(self, other: Double) -> bool {
        !self.nan() && !other.nan() && self.key() <= other.key()
    }

    pub open spec fn spec_same(self, other: Double) -> bool {
        !self.nan() && !other.nan() && self.key() == other.key()
    }

    pub open spec fn spec_before(self, other: Double) -> bool {
        self.rank() < other.rank()
    }

    /// The larger of two numbers; the other one where one is NaN.
    pub open spec fn spec_max(self, other: Double) -> Double {
        if self.nan() || self.spec_lt(other) {
            other
        } else {
            self
        }
    }

    /// The smaller of two numbers; the other one where one is NaN.
    pub open spec fn spec_min(self, other: Double) -> Double {
        if self.nan() || other.spec_lt(self) {
            other
        } else {
            self
        }
    }

    pub(crate) fn signed_key(self) -> (k: i64)
        ensures
            k == self.key(),
    {
        let m: i64 = self.magnitude() as i64;
        if self.is_negative() {
            -m
        } else {
            m
        }
    }

    /// Place in the total order.
    pub(crate) fn signed_rank(self) -> (k: i64)
        ensures
            k == self.rank(),
    {
        let m: i64 = self.magnitude() as i64;
        if self.is_negative() {
            -m - 1
        } else {
            m
        }
    }

    /// Whether the two have the same key.
    pub(crate) fn same_key(self, other: Double) -> (r: bool)
        ensures
            r == (self.key() == other.key()),
    {
        self.signed_key() == other.signed_key()
    }

    /// Whether this number has the smaller key.
    pub(crate) fn below_key(self, other: Double) -> (r: bool)
        ensures
            r == (self.key() < other.key()),
    {
        self.signed_key() < other.signed_key()
    }

    /// Two numbers with one rank have the same bits.
    pub proof fn lemma_bits_from_rank(self, other: Double)
        ensures
            self.rank() == other.rank() ==> self == other,
    {
    }

    /// Whether this number is smaller.
    #[verifier::when_used_as_spec(spec_lt)]
    pub fn lt(self, other: Double) -> (r: bool)
        ensures
            r == self.spec_lt(other),
    {
        !self.is_nan() && !other.is_nan() && self.signed_key() < other.signed_key()
    }

    /// Whether this number is smaller or equal.
    #[verifier::when_used_as_spec(spec_le)]
    pub fn le(self, other: Double) -> (r: bool)
        ensures
            r == self.spec_le(other),
    {
        !self.is_nan() && !other.is_nan() && self.signed_key() <= other.signed_key()
    }

    /// Whether this number is larger.
    #[verifier::when_used_as_spec(spec_gt)]
    pub fn gt(self, other: Double) -> (r: bool)
        ensures
            r == self.spec_gt(other),
    {
        other.lt(self)
    }

    pub open spec fn spec_gt(self, other: Double) -> bool {
        other.spec_lt(self)
    }

    /// Whether this number is larger or equal.
    #[verifier::when_used_as_spec(spec_ge)]
    pub fn ge(self, other: Double) -> (r: bool)
        ensures
            r == self.spec_ge(other),
    {
        other.le(self)
    }

    pub open spec fn spec_ge(self, other: Double) -> bool {
        other.spec_le(self)
    }

    /// Whether the two are the same number.
    #[verifier::when_used_as_spec(spec_same)]
    pub fn same(self, other: Double) -> (r: bool)
        ensures
            r == self.spec_same(other),
    {
        !self.is_nan() && !other.is_nan() && self.signed_key() == other.signed_key()
    }

    /// Whether this number stands before the other in the total order.
    #[verifier::when_used_as_spec(spec_before)]
    pub fn before(self, other: Double) -> (r: bool)
        ensures
            r == self.spec_before(other),
    {
        if self.is_negative() {
            !other.is_negative() || other.magnitude() < self.magnitude()
        } else {
            !other.is_negative() && self.magnitude() < other.magnitude()
        }
    }

    /// The larger of two numbers; the other one where one is NaN.
    #[verifier::when_used_as_spec(spec_max)]
    pub fn max(self, other: Double) -> (r: Double)
        ensures
            r == self.spec_max(other),
    {
        if self.is_nan() || self.lt(other) {
            other
        } else {
            self
        }
    }

    /// The smaller of two numbers; the other one where one is NaN.
    #[verifier::when_used_as_spec(spec_min)]
    pub fn min(self, other: Double) -> (r: Double)
        ensures
            r == self.spec_min(other),
    {
        if self.is_nan() || other.lt(self) {
            other
        } else {
            self
        }
    }
}

// ── Integers ─────────────────────────────────────────────────────────────────

impl Double {
    /// The double nearest to an integer.
    #[verifier::opaque]
    pub open spec fn spec_from_u64(n: u64) -> Double {
        Double::of_parts(false, nearest(n as int, 1, 0))
    }

    /// The integer part of the magnitude.
    pub open spec fn trunc(self) -> int {
        if self.exp() >= 0 {
            self.sig() * p2(self.exp())
        } else {
            self.sig() / p2(-self.exp())
        }
    }

    /// The magnitude is no integer.
    pub open spec fn fractional(self) -> bool {
        self.exp() < 0 && self.sig() % p2(-self.exp()) != 0
    }

    /// The largest integer that is not larger.
    #[verifier::opaque]
    pub open spec fn spec_floor(self) -> Double {
        if !self.finite() || !self.fractional() {
            self
        } else if self.negative() {
            Double::of_parts(true, nearest(self.trunc() + 1, 1, 0))
        } else {
            Double::of_parts(false, nearest(self.trunc(), 1, 0))
        }
    }

    /// The smallest integer that is not smaller.
    #[verifier::opaque]
    pub open spec fn spec_ceil(self) -> Double {
        if !self.finite() || !self.fractional() {
            self
        } else if self.negative() {
            Double::of_parts(true, nearest(self.trunc(), 1, 0))
        } else {
            Double::of_parts(false, nearest(self.trunc() + 1, 1, 0))
        }
    }

    /// The integer part, held within the range of `usize`; zero for NaN.
    #[verifier::opaque]
    pub open spec fn spec_to_usize(self) -> usize {
        if self.nan() || self.negative() {
            0
        } else if self.infinite() || self.trunc() > usize::MAX {
            usize::MAX
        } else {
            self.trunc() as usize
        }
    }

    /// The double nearest to an integer.
    #[verifier::when_used_as_spec(spec_from_u64)]
    pub fn from_u64(n: u64) -> (r: Double)
        ensures
            r == Double::spec_from_u64(n),
            r.mag() == nearest(n as int, 1, 0),
            !r.negative(),
    {
        reveal(Double::spec_from_u64);
        proof {
            lemma_p2_values();
            lemma_stands_exact(n as int, 0);
        }
        Double::pack(false, round_pack(n as u128, false, 0))
    }

    pub open spec fn spec_from_usize(n: usize) -> Double {
        Double::spec_from_u64(n as u64)
    }

    /// The double nearest to an integer.
    #[verifier::when_used_as_spec(spec_from_usize)]
    pub fn from_usize(n: usize) -> (r: Double)
        ensures
            r == Double::spec_from_usize(n),
    {
        Double::from_u64(n as u64)
    }

    /// Integer part of the magnitude, and whether more is left, for a number
    /// below `2^53`.
    fn split(self) -> (r: (u64, bool))
        requires
            self.finite(),
            self.exp() < 0,
        ensures
            r.0 == self.trunc(),
            r.0 < TWO_53,
            r.1 == self.fractional(),
    {
        let (s, e) = self.parts();
        let j: u32 = (-e) as u32;
        proof {
            lemma_p2_values();
            lemma_p2_pos(j as int);
        }
        if j > 63 {
            proof {
                lemma_p2_mono(63, j as int);
                vstd::arithmetic::div_mod::lemma_basic_div(s as int, p2(j as int));
                vstd::arithmetic::div_mod::lemma_small_mod(s as nat, p2(j as int) as nat);
            }
            (0, s != 0)
        } else {
            let p: u128 = two_to(j);
            proof {
                let b: int = p as int;
                vstd::arithmetic::div_mod::lemma_fundamental_div_mod(s as int, b);
                vstd::arithmetic::div_mod::lemma_mod_pos_bound(s as int, b);
                assert(0 <= s as int / b <= s) by (nonlinear_arith)
                    requires
                        s == b * (s as int / b) + s as int % b,
                        0 <= s as int % b < b,
                        b >= 1,
                        s >= 0,
                ;
            }
            let q: u128 = (s as u128) / p;
            let r: u128 = (s as u128) % p;
            (q as u64, r != 0)
        }
    }

    /// The largest integer that is not larger.
    #[verifier::when_used_as_spec(spec_floor)]
    pub fn floor(self) -> (r: Double)
        ensures
            r == self.spec_floor(),
    {
        reveal(Double::spec_floor);
        reveal(Double::spec_from_u64);
        if !self.is_finite() {
            return self;
        }
        let (_, e) = self.parts();
        if e >= 0 {
            return self;
        }
        let (q, more) = self.split();
        if !more {
            self
        } else if self.is_negative() {
            Double::from_u64(q + 1).negated()
        } else {
            Double::from_u64(q)
        }
    }

    /// The smallest integer that is not smaller.
    #[verifier::when_used_as_spec(spec_ceil)]
    pub fn ceil(self) -> (r: Double)
        ensures
            r == self.spec_ceil(),
    {
        reveal(Double::spec_ceil);
        reveal(Double::spec_from_u64);
        if !self.is_finite() {
            return self;
        }
        let (_, e) = self.parts();
        if e >= 0 {
            return self;
        }
        let (q, more) = self.split();
        if !more {
            self
        } else if self.is_negative() {
            Double::from_u64(q).negated()
        } else {
            Double::from_u64(q + 1)
        }
    }

    /// The integer part, held within the range of `usize`; zero for NaN.
    #[verifier::when_used_as_spec(spec_to_usize)]
    pub fn to_usize(self) -> (r: usize)
        ensures
            r == self.spec_to_usize(),
    {
        reveal(Double::spec_to_usize);
        if self.is_nan() || self.is_negative() {
            return 0;
        }
        if !self.is_finite() {
            return usize::MAX;
        }
        let (s, e) = self.parts();
        if e < 0 {
            let (q, _) = self.split();
            return if q > usize::MAX as u64 {
                usize::MAX
            } else {
                q as usize
            };
        }
        proof {
            lemma_p2_values();
            lemma_p2_pos(e as int);
        }
        if e >= 12 {
            proof {
                lemma_p2_mono(12, e as int);
                lemma_p2_add(52, 12);
                assert(s * p2(e as int) >= TWO_52 * p2(12)) by (nonlinear_arith)
                    requires
                        s >= TWO_52,
                        p2(e as int) >= p2(12) >= 0,
                ;
            }
            return usize::MAX;
        }
        proof {
            lemma_p2_mono(e as int, 16);
            assert(0 <= s * p2(e as int) <= TWO_53 * p2(16)) by (nonlinear_arith)
                requires
                    0 <= s < TWO_53,
                    0 <= p2(e as int) <= p2(16),
            ;
        }
        let n: u128 = (s as u128) * two_to(e as u32);
        if n > usize::MAX as u128 {
            usize::MAX
        } else {
            n as usize
        }
    }
}

// ── Square root ──────────────────────────────────────────────────────────────

/// `f` is the integer part of the square root of `n/d`.
pub open spec fn is_root_floor(n: int, d: int, f: int) -> bool {
    &&& f >= 0
    &&& f * f * d <= n
    &&& n < (f + 1) * (f + 1) * d
}

/// `f` is the 53-bit integer part of the square root of `s * 2^e`, in units of
/// `2^k`.
pub open spec fn is_root_at(s: int, e: int, k: int, f: int) -> bool {
    &&& TWO_52 <= f < TWO_53
    &&& is_root_floor(up(s, e - 2 * k), up(1, 2 * k - e), f)
}

/// Whether the square root of `n/d`, whose integer part is `f`, is nearer to
/// `f + 1`. It is never half-way: `n/d == (f + 1/2)^2` has no solution for a
/// power of two `d`.
pub open spec fn root_rounds_up(n: int, d: int, f: int) -> bool {
    4 * n > (2 * f + 1) * (2 * f + 1) * d
}

impl Double {
    /// This is the double nearest to the square root of `x`; NaN for a negative
    /// `x`, and `x` itself where it is zero, infinite or NaN.
    pub open spec fn is_sqrt_of(self, x: Double) -> bool {
        if x.nan() || (x.negative() && !x.vanishes()) {
            self == (Double { bits: NAN_BITS })
        } else if x.vanishes() || x.infinite() {
            self == x
        } else {
            exists|k: int, f: int| #[trigger]
                is_root_at(x.sig(), x.exp(), k, f) && self == Double::of_parts(
                    false,
                    encode(
                        k,
                        if root_rounds_up(up(x.sig(), x.exp() - 2 * k), up(1, 2 * k - x.exp()), f) {
                            f + 1
                        } else {
                            f
                        },
                    ),
                )
        }
    }

    /// The square root.
    pub fn sqrt(self) -> (r: Double)
        ensures
            r.is_sqrt_of(self),
    {
        let m: u64 = self.magnitude();
        if m > INF_BITS || (self.is_negative() && m != 0) {
            return Double { bits: NAN_BITS };
        }
        if m == 0 || m == INF_BITS {
            return self;
        }
        let (s, e) = self.parts();
        let l: u32 = bit_length(s as u128);
        proof {
            lemma_p2_values();
            if l > 53 {
                lemma_p2_mono(53, l - 1);
            }
        }
        // Scale to 105 or 106 digits, so that the exponent left over is even.
        let t: u32 = if (e + 2000 - (105 - l as i32)) % 2 == 0 {
            105 - l
        } else {
            106 - l
        };
        let k: i32 = (e - t as i32) / 2;
        proof {
            lemma_p2_add(l as int, t as int);
            lemma_p2_add(l - 1, t as int);
            lemma_p2_pos(t as int);
            lemma_p2_add(52, 52);
            lemma_p2_add(53, 53);
            lemma_p2_mono(104, l - 1 + t);
            lemma_p2_mono(l + t, 106);
            let p = p2(t as int);
            assert(p2(104) <= s * p < p2(106)) by (nonlinear_arith)
                requires
                    p2(l - 1) <= s < p2(l as int),
                    p2(104) <= p2(l - 1) * p,
                    p2(106) >= p2(l as int) * p,
                    p >= 1,
            ;
            assert(e == 2 * k + t);
        }
        let n: u128 = (s as u128) * two_to(t);
        let f: u64 = root_floor(n);
        proof {
            let x: int = f as int;
            assert(f >= TWO_52) by (nonlinear_arith)
                requires
                    (x + 1) * (x + 1) > n,
                    n >= TWO_52 * TWO_52,
                    f == x,
            ;
            assert(f < TWO_53) by (nonlinear_arith)
                requires
                    x * x <= n,
                    n < TWO_53 * TWO_53,
                    f == x,
            ;
            assert(x * x <= TWO_53 * TWO_53) by (nonlinear_arith)
                requires
                    0 <= x < TWO_53,
            ;
            assert(up(s as int, e - 2 * k) == n);
            assert(up(1, 2 * k - e) == 1);
            assert(x * x * 1 == x * x && (x + 1) * (x + 1) * 1 == (x + 1) * (x + 1));
            assert(is_root_at(s as int, e as int, k as int, x));
            assert(root_rounds_up(n as int, 1, x) == (n - x * x > x)) by (nonlinear_arith);
        }
        let q: u64 = if n - (f as u128) * (f as u128) > f as u128 {
            f + 1
        } else {
            f
        };
        let mag: u64 = (k + 1074) as u64 * TWO_52 + q;
        proof {
            assert(mag == encode(k as int, q as int));
        }
        Double::pack(false, mag)
    }
}

/// The integer part of the square root.
fn root_floor(n: u128) -> (f: u64)
    requires
        n < TWO_53 * TWO_53,
    ensures
        f * f <= n,
        n < (f + 1) * (f + 1),
{
    let mut lo: u64 = 0;
    let mut hi: u64 = TWO_53;
    while hi - lo > 1
        invariant
            lo < hi <= TWO_53,
            lo * lo <= n,
            n < hi * hi,
        decreases hi - lo,
    {
        let mid: u64 = lo + (hi - lo) / 2;
        proof {
            assert(mid * mid <= TWO_53 * TWO_53) by (nonlinear_arith)
                requires
                    mid <= TWO_53,
            ;
        }
        if (mid as u128) * (mid as u128) <= n {
            lo = mid;
        } else {
            hi = mid;
        }
    }
    lo
}

// ── Laws ─────────────────────────────────────────────────────────────────────

/// From a unit in which the value is at least `2^52`, some larger or equal unit
/// is the unit in the last place.
proof fn lemma_ulp_from(n: int, d: int, e: int, k: int) -> (l: int)
    requires
        n >= 0,
        d > 0,
        k >= -1074,
        quot(n, d, e, k) >= TWO_52,
    ensures
        is_ulp(n, d, e, l),
    decreases quot(n, d, e, k),
{
    if quot(n, d, e, k) < TWO_53 {
        k
    } else {
        lemma_quot_coarsen(n, d, e, k, k + 1);
        lemma_p2_values();
        lemma_ulp_from(n, d, e, k + 1)
    }
}

/// Every value has a unit in the last place.
proof fn lemma_ulp_exists(n: int, d: int, e: int) -> (l: int)
    requires
        n >= 0,
        d > 0,
    ensures
        is_ulp(n, d, e, l),
{
    if quot(n, d, e, -1074) < TWO_53 {
        -1074
    } else {
        lemma_ulp_from(n, d, e, -1074)
    }
}

/// Rounding keeps the order: the double nearest to a larger value is not
/// smaller.
pub proof fn law_nearest_monotone(n: int, m: int, e: int)
    requires
        0 <= n <= m,
    ensures
        0 <= nearest(n, 1, e) <= nearest(m, 1, e) <= INF_BITS,
{
    let k = lemma_ulp_exists(n, 1, e);
    let l = lemma_ulp_exists(m, 1, e);
    lemma_nearest_at(n, 1, e, k);
    lemma_nearest_at(m, 1, e, l);
    lemma_nearest_range(n, 1, e, k);
    lemma_nearest_range(m, 1, e, l);
    lemma_quot_mono(n, m, e, k);
    if k > l {
        lemma_ulp_not_coarser(m, 1, e, l, k);
    } else if k == l {
        let (a, c, b) = (up(n, e - k), up(m, e - k), up(1, k - e));
        lemma_coarsen(n, 1, e, k, k);
        lemma_coarsen(m, 1, e, k, k);
        vstd::arithmetic::div_mod::lemma_fundamental_div_mod(a, b);
        vstd::arithmetic::div_mod::lemma_fundamental_div_mod(c, b);
        assert(a / b == c / b ==> a % b <= c % b) by (nonlinear_arith)
            requires
                a == b * (a / b) + a % b,
                c == b * (c / b) + c % b,
                a <= c,
        ;
    } else {
        assert((k + 1) * TWO_52 <= l * TWO_52);
    }
}

proof fn lemma_quot_mono(n: int, m: int, e: int, k: int)
    requires
        0 <= n <= m,
    ensures
        quot(n, 1, e, k) <= quot(m, 1, e, k),
        up(n, e - k) <= up(m, e - k),
{
    lemma_up_pos(1, k - e);
    if e - k > 0 {
        lemma_p2_pos(e - k);
        assert(n * p2(e - k) <= m * p2(e - k)) by (nonlinear_arith)
            requires
                n <= m,
                p2(e - k) >= 1,
        ;
    }
    vstd::arithmetic::div_mod::lemma_div_is_ordered(up(n, e - k), up(m, e - k), up(1, k - e));
}

/// A finite number is its own nearest double, in whatever unit it is written.
pub proof fn law_nearest_exact(x: Double, s: int)
    requires
        x.finite(),
        s >= 0,
    ensures
        nearest(x.sig() * p2(s), 1, x.exp() - s) == x.mag(),
{
    x.lemma_parts();
    let (q, k, e) = (x.sig(), x.exp(), x.exp() - s);
    let n = q * p2(s);
    lemma_p2_values();
    lemma_p2_pos(s);
    assert(n >= 0) by (nonlinear_arith)
        requires
            n == q * p2(s),
            q >= 0,
            p2(s) >= 1,
    ;
    lemma_stands_exact(n, e);
    if s == 0 {
        assert(q * p2(0) == q) by (nonlinear_arith)
            requires
                p2(0) == 1,
        ;
        lemma_round_fine(n, e, k, n, 1, e);
        assert(n * p2(0) == n) by (nonlinear_arith)
            requires
                p2(0) == 1,
        ;
    } else {
        lemma_round_coarse(n, false, e, k, n, 1, e);
        lemma_far(q, p2(s), 0);
        lemma_p2_pos(s - 1);
    }
    lemma_nearest_at(n, 1, e, k);
}

/// Adding a number that is not negative gives nothing smaller: a sum of a
/// number and a number of at least zero is not below the first.
pub proof fn law_sum_not_below(a: Double, b: Double)
    requires
        a.finite() || (a.infinite() && a.key() > 0),
        !b.nan(),
        b.key() >= 0,
    ensures
        !a.plus(b).nan(),
        a.plus(b).key() >= a.key(),
{
    reveal(Double::spec_plus);
    if a.finite() && b.finite() {
        lemma_finite_sum_not_below(a, b);
    }
}

proof fn lemma_finite_sum_not_below(a: Double, b: Double)
    requires
        a.finite(),
        b.finite(),
        b.key() >= 0,
    ensures
        !a.plus(b).nan(),
        a.plus(b).key() >= a.key(),
{
    reveal(Double::spec_plus);
    a.lemma_parts();
    b.lemma_parts();
    let e = if a.exp() <= b.exp() {
        a.exp()
    } else {
        b.exp()
    };
    let (s, t) = (a.exp() - e, b.exp() - e);
    let (x, y) = (a.sig() * p2(s), b.sig() * p2(t));
    lemma_p2_pos(s);
    lemma_p2_pos(t);
    assert(x >= 0 && y >= 0) by (nonlinear_arith)
        requires
            x == a.sig() * p2(s),
            y == b.sig() * p2(t),
            a.sig() >= 0,
            b.sig() >= 0,
            p2(s) >= 1,
            p2(t) >= 1,
    ;
    law_nearest_exact(a, s);
    if b.negative() {
        // Negative zero.
        assert(y == 0) by (nonlinear_arith)
            requires
                y == b.sig() * p2(t),
                b.sig() == 0,
        ;
    }
    if a.negative() {
        let v = -x + y;
        if v >= 0 {
            law_nearest_monotone(v, v, e);
        } else {
            law_nearest_monotone(-v, x, e);
        }
    } else {
        law_nearest_monotone(x, x + y, e);
        if x + y == 0 {
            assert(a.sig() == 0) by (nonlinear_arith)
                requires
                    a.sig() * p2(s) == 0,
                    p2(s) >= 1,
            ;
        }
    }
}

/// Adding a number that is not positive gives nothing larger.
pub proof fn law_sum_not_above(a: Double, b: Double)
    requires
        a.finite(),
        b.finite(),
        b.key() <= 0,
    ensures
        !a.plus(b).nan(),
        a.plus(b).key() <= a.key(),
{
    reveal(Double::spec_plus);
    a.lemma_parts();
    b.lemma_parts();
    let e = if a.exp() <= b.exp() {
        a.exp()
    } else {
        b.exp()
    };
    let (s, t) = (a.exp() - e, b.exp() - e);
    let (x, y) = (a.sig() * p2(s), b.sig() * p2(t));
    lemma_p2_pos(s);
    lemma_p2_pos(t);
    assert(x >= 0 && y >= 0) by (nonlinear_arith)
        requires
            x == a.sig() * p2(s),
            y == b.sig() * p2(t),
            a.sig() >= 0,
            b.sig() >= 0,
            p2(s) >= 1,
            p2(t) >= 1,
    ;
    law_nearest_exact(a, s);
    if !b.negative() {
        // Positive zero.
        assert(y == 0) by (nonlinear_arith)
            requires
                y == b.sig() * p2(t),
                b.sig() == 0,
        ;
    }
    if a.negative() {
        law_nearest_monotone(x, x + y, e);
        if x + y == 0 {
            assert(a.sig() == 0) by (nonlinear_arith)
                requires
                    a.sig() * p2(s) == 0,
                    p2(s) >= 1,
            ;
        }
    } else {
        let v = x - y;
        if v >= 0 {
            law_nearest_monotone(v, x, e);
        } else {
            law_nearest_monotone(-v, -v, e);
        }
    }
}

/// The order of two summands is of no matter.
pub proof fn law_sum_commutes(a: Double, b: Double)
    ensures
        a.plus(b) == b.plus(a),
{
    reveal(Double::spec_plus);
    if a.infinite() && b.infinite() && a.negative() == b.negative() {
        assert(a.bits == b.bits);
    }
}

/// Adding keeps the order on the right, too, and also beyond the finite numbers.
pub proof fn law_sum_monotone_right(a: Double, b: Double, c: Double)
    requires
        a.finite(),
        b.le(c),
    ensures
        a.plus(b).le(a.plus(c)),
{
    law_sum_commutes(a, b);
    law_sum_commutes(a, c);
    if b.finite() && c.finite() {
        law_sum_monotone(b, c, a);
    } else {
        reveal(Double::spec_plus);
        if b.finite() {
            law_sum_in_range(a, b);
        }
        if c.finite() {
            law_sum_in_range(a, c);
        }
    }
}

/// A sum of finite numbers is a number.
pub proof fn law_sum_in_range(a: Double, b: Double)
    requires
        a.finite(),
        b.finite(),
    ensures
        !a.plus(b).nan(),
{
    if b.key() >= 0 {
        law_sum_not_below(a, b);
    } else {
        law_sum_not_above(a, b);
    }
}

/// A sum of numbers that are not negative, the first not even a negative zero, is
/// neither.
pub proof fn law_sum_of_positives(a: Double, b: Double)
    requires
        !a.nan(),
        !a.negative(),
        !b.nan(),
        b.key() >= 0,
    ensures
        !a.plus(b).nan(),
        !a.plus(b).negative(),
{
    law_sum_not_below(a, b);
    reveal(Double::spec_plus);
    if a.finite() && b.finite() {
        a.lemma_parts();
        b.lemma_parts();
        let e = if a.exp() <= b.exp() {
            a.exp()
        } else {
            b.exp()
        };
        let (s, t) = (a.exp() - e, b.exp() - e);
        lemma_p2_pos(s);
        lemma_p2_pos(t);
        let (x, y) = (a.sig() * p2(s), b.sig() * p2(t));
        assert(x >= 0 && y >= 0) by (nonlinear_arith)
            requires
                x == a.sig() * p2(s),
                y == b.sig() * p2(t),
                a.sig() >= 0,
                b.sig() >= 0,
                p2(s) >= 1,
                p2(t) >= 1,
        ;
        if b.negative() {
            assert(y == 0) by (nonlinear_arith)
                requires
                    y == b.sig() * p2(t),
                    b.sig() == 0,
            ;
        }
        law_nearest_monotone(x + y, x + y, e);
    }
}

/// Sums of numbers that are not negative ascend in both summands.
pub proof fn law_positive_sums_monotone(a: Double, b: Double, c: Double, d: Double)
    requires
        a.le(b),
        c.le(d),
        a.key() >= 0,
        c.key() >= 0,
    ensures
        a.plus(c).le(b.plus(d)),
{
    law_sum_not_below(a, c);
    law_sum_not_below(b, d);
    law_sum_commutes(b, d);
    if a.finite() && b.finite() {
        law_sum_monotone(a, b, c);
        law_sum_monotone_right(b, c, d);
    } else {
        reveal(Double::spec_plus);
    }
}

proof fn lemma_zero_rounds(d: int, e: int)
    requires
        d > 0,
    ensures
        nearest(0, d, e) == 0,
{
    let k = -1074;
    lemma_up_pos(d, k - e);
    assert(0 * p2(e - k) == 0);
    assert(up(0, e - k) == 0);
    let b = up(d, k - e);
    assert(0int / b == 0 && 0int % b == 0) by (nonlinear_arith)
        requires
            b > 0,
    ;
    lemma_nearest_at(0, d, e, k);
}

/// A quotient of a number that is not negative and a positive number is not
/// negative, unless both are infinite.
pub proof fn law_quotient_not_negative(a: Double, b: Double)
    requires
        !a.nan(),
        a.finite() || b.finite(),
        a.key() >= 0,
        b.gt(Double::zero()),
    ensures
        !a.over(b).nan(),
        a.over(b).key() >= 0,
{
    reveal(Double::spec_over);
    if a.finite() && b.finite() {
        a.lemma_parts();
        b.lemma_parts();
        let k = lemma_ulp_exists(a.sig(), b.sig(), a.exp() - b.exp());
        lemma_nearest_range(a.sig(), b.sig(), a.exp() - b.exp(), k);
        if a.negative() {
            // Negative zero.
            lemma_zero_rounds(b.sig(), a.exp() - b.exp());
        }
    }
}

/// Taking a number from a larger one leaves nothing negative.
pub proof fn law_difference_not_negative(a: Double, b: Double)
    requires
        a.gt(b),
    ensures
        !a.minus(b).nan(),
        a.minus(b).key() >= 0,
{
    reveal(Double::spec_plus);
    let c = b.negated();
    if a.finite() && b.finite() {
        a.lemma_parts();
        b.lemma_parts();
        c.lemma_parts();
        let e = if a.exp() <= c.exp() {
            a.exp()
        } else {
            c.exp()
        };
        let (s, t) = (a.exp() - e, c.exp() - e);
        let (x, y) = (a.sig() * p2(s), c.sig() * p2(t));
        lemma_p2_pos(s);
        lemma_p2_pos(t);
        assert(x >= 0 && y >= 0) by (nonlinear_arith)
            requires
                x == a.sig() * p2(s),
                y == c.sig() * p2(t),
                a.sig() >= 0,
                c.sig() >= 0,
                p2(s) >= 1,
                p2(t) >= 1,
        ;
        law_nearest_exact(a, s);
        law_nearest_exact(c, t);
        if x <= y {
            law_nearest_monotone(x, y, e);
        }
        if y <= x {
            law_nearest_monotone(y, x, e);
        }
        let v = a.signed(s) + c.signed(t);
        assert(v >= 0);
        law_nearest_monotone(v, v, e);
    }
}

/// A value has the same nearest double in whatever unit it is written.
proof fn lemma_nearest_unit(n: int, e: int, s: int)
    requires
        n >= 0,
        s >= 0,
    ensures
        n * p2(s) >= 0,
        nearest(n * p2(s), 1, e - s) == nearest(n, 1, e),
{
    let m = n * p2(s);
    lemma_p2_pos(s);
    lemma_p2_values();
    assert(m >= 0) by (nonlinear_arith)
        requires
            m == n * p2(s),
            n >= 0,
            p2(s) >= 1,
    ;
    let k = lemma_ulp_exists(n, 1, e);
    let (a, b) = (up(n, e - k), up(1, k - e));
    let (c, d) = (up(m, e - s - k), up(1, k - (e - s)));
    lemma_up_nonneg(n, e - k);
    lemma_up_nonneg(m, e - s - k);
    lemma_up_pos(1, k - e);
    lemma_up_pos(1, k - (e - s));
    if s == 0 {
        assert(m == n) by (nonlinear_arith)
            requires
                m == n * p2(0),
                p2(0) == 1,
        ;
        assert(c * b == a * d);
    } else if e - k > s {
        lemma_p2_add(s, e - k - s);
        assert(c * b == a * d) by (nonlinear_arith)
            requires
                m == n * p2(s),
                c == m * p2(e - k - s),
                a == n * (p2(s) * p2(e - k - s)),
                b == 1,
                d == 1,
        ;
    } else if e - k == s {
        assert(c * b == a * d);
    } else if e - k > 0 {
        lemma_p2_add(e - k, s - (e - k));
        assert(c * b == a * d) by (nonlinear_arith)
            requires
                c == n * (p2(e - k) * p2(s - (e - k))),
                a == n * p2(e - k),
                b == 1,
                d == 1 * p2(s - (e - k)),
        ;
    } else if e == k {
        assert(c * b == a * d) by (nonlinear_arith)
            requires
                c == n * p2(s),
                a == n,
                b == 1,
                d == 1 * p2(s),
        ;
    } else {
        lemma_p2_add(k - e, s);
        assert(c * b == a * d) by (nonlinear_arith)
            requires
                c == n * p2(s),
                a == n,
                b == 1 * p2(k - e),
                d == 1 * (p2(k - e) * p2(s)),
        ;
    }
    lemma_same_ratio(a, b, c, d);
    let (r, t) = (a % b, c % d);
    assert((2 * r < b <==> 2 * t < d) && (2 * r > b <==> 2 * t > d)) by (nonlinear_arith)
        requires
            r * d == t * b,
            b > 0,
            d > 0,
    ;
    lemma_nearest_at(n, 1, e, k);
    lemma_nearest_at(m, 1, e - s, k);
}

/// The order of finite numbers is that of their values in a common unit.
proof fn lemma_value_order(a: Double, b: Double, e: int)
    requires
        a.finite(),
        b.finite(),
        a.key() <= b.key(),
        e <= a.exp(),
        e <= b.exp(),
    ensures
        a.signed(a.exp() - e) <= b.signed(b.exp() - e),
{
    a.lemma_parts();
    b.lemma_parts();
    let (s, t) = (a.exp() - e, b.exp() - e);
    let (x, y) = (a.sig() * p2(s), b.sig() * p2(t));
    lemma_p2_pos(s);
    lemma_p2_pos(t);
    assert(x >= 0 && y >= 0) by (nonlinear_arith)
        requires
            x == a.sig() * p2(s),
            y == b.sig() * p2(t),
            a.sig() >= 0,
            b.sig() >= 0,
            p2(s) >= 1,
            p2(t) >= 1,
    ;
    law_nearest_exact(a, s);
    law_nearest_exact(b, t);
    if x <= y {
        law_nearest_monotone(x, y, e);
    }
    if y <= x {
        law_nearest_monotone(y, x, e);
    }
    if a.mag() == b.mag() {
        assert(a.sig() == b.sig() && s == t);
    }
    if b.mag() == 0 {
        assert(y == 0) by (nonlinear_arith)
            requires
                y == b.sig() * p2(t),
                b.sig() == 0,
        ;
    }
    if a.mag() == 0 {
        assert(x == 0) by (nonlinear_arith)
            requires
                x == a.sig() * p2(s),
                a.sig() == 0,
        ;
    }
}

/// A sum in a finer unit than the coarser of its terms needs.
proof fn lemma_sum_in_unit(a: Double, c: Double, e: int) -> (w: int)
    requires
        a.finite(),
        c.finite(),
        e <= a.exp(),
        e <= c.exp(),
    ensures
        w == a.signed(a.exp() - e) + c.signed(c.exp() - e),
        !a.plus(c).nan(),
        a.plus(c).key() == if w >= 0 {
            nearest(w, 1, e)
        } else {
            -nearest(-w, 1, e)
        },
{
    reveal(Double::spec_plus);
    let f = if a.exp() <= c.exp() {
        a.exp()
    } else {
        c.exp()
    };
    let v = a.signed(a.exp() - f) + c.signed(c.exp() - f);
    let w = a.signed(a.exp() - e) + c.signed(c.exp() - e);
    let s = f - e;
    lemma_p2_add(a.exp() - f, s);
    lemma_p2_add(c.exp() - f, s);
    let (x, y, z) = (p2(a.exp() - f), p2(c.exp() - f), p2(s));
    let (m, n) = (a.sig(), c.sig());
    assert(a.exp() - f + s == a.exp() - e && c.exp() - f + s == c.exp() - e);
    assert(w == v * z) by (nonlinear_arith)
        requires
            v == (if a.negative() {
                -(m * x)
            } else {
                m * x
            }) + (if c.negative() {
                -(n * y)
            } else {
                n * y
            }),
            w == (if a.negative() {
                -(m * (x * z))
            } else {
                m * (x * z)
            }) + (if c.negative() {
                -(n * (y * z))
            } else {
                n * (y * z)
            }),
    ;
    lemma_p2_pos(s);
    if v >= 0 {
        lemma_nearest_unit(v, f, s);
        law_nearest_monotone(w, w, e);
        if v == 0 {
            lemma_zero_rounds(1, e);
            assert(w == 0) by (nonlinear_arith)
                requires
                    w == v * z,
                    v == 0,
            ;
        }
    } else {
        lemma_nearest_unit(-v, f, s);
        assert(-w == (-v) * z && w < 0) by (nonlinear_arith)
            requires
                w == v * z,
                v < 0,
                z >= 1,
        ;
        law_nearest_monotone(-w, -w, e);
    }
    w
}

/// Adding keeps the order: the sum of the smaller number is not the larger.
pub proof fn law_sum_monotone(a: Double, b: Double, c: Double)
    requires
        a.finite(),
        b.finite(),
        a.le(b),
        !c.nan(),
    ensures
        a.plus(c).le(b.plus(c)),
{
    reveal(Double::spec_plus);
    if c.finite() {
        let f = if a.exp() <= b.exp() {
            a.exp()
        } else {
            b.exp()
        };
        let e = if f <= c.exp() {
            f
        } else {
            c.exp()
        };
        let w = lemma_sum_in_unit(a, c, e);
        let x = lemma_sum_in_unit(b, c, e);
        lemma_value_order(a, b, e);
        if w >= 0 {
            law_nearest_monotone(w, x, e);
        } else if x < 0 {
            law_nearest_monotone(-x, -w, e);
        } else {
            law_nearest_monotone(-w, -w, e);
            law_nearest_monotone(x, x, e);
        }
    }
}

/// Of two fractions the smaller has no larger integer part, and where these are
/// equal, no larger rest.
proof fn lemma_fractions(a: int, b: int, c: int, d: int)
    requires
        a >= 0,
        b > 0,
        c >= 0,
        d > 0,
        a * d <= c * b,
    ensures
        0 <= a / b <= c / d,
        a / b == c / d ==> (a % b) * d <= (c % d) * b,
{
    vstd::arithmetic::div_mod::lemma_fundamental_div_mod(a, b);
    vstd::arithmetic::div_mod::lemma_fundamental_div_mod(c, d);
    vstd::arithmetic::div_mod::lemma_div_pos_is_pos(a, b);
    let (q, r, p, t) = (a / b, a % b, c / d, c % d);
    assert(0 <= r < b && 0 <= t < d);
    assert(q < p + 1) by (nonlinear_arith)
        requires
            a == b * q + r,
            c == d * p + t,
            0 <= r,
            t < d,
            b > 0,
            d > 0,
            a * d <= c * b,
    ;
    if q == p {
        assert(r * d <= t * b) by (nonlinear_arith)
            requires
                a == b * q + r,
                c == d * p + t,
                q == p,
                a * d <= c * b,
        ;
    }
}

/// In units of `2^k`, `n/d * 2^e` is not above `m/c * 2^f`.
spec fn not_above(n: int, d: int, e: int, m: int, c: int, f: int, k: int) -> bool {
    up(n, e - k) * up(c, k - f) <= up(m, f - k) * up(d, k - e)
}

/// The double nearest to a larger fraction is not smaller.
proof fn lemma_nearest_fractions(n: int, d: int, e: int, m: int, c: int, f: int)
    requires
        n >= 0,
        d > 0,
        m >= 0,
        c > 0,
        forall|k: int| #[trigger] not_above(n, d, e, m, c, f, k),
    ensures
        0 <= nearest(n, d, e) <= nearest(m, c, f) <= INF_BITS,
{
    let k = lemma_ulp_exists(n, d, e);
    let l = lemma_ulp_exists(m, c, f);
    lemma_nearest_at(n, d, e, k);
    lemma_nearest_at(m, c, f, l);
    lemma_nearest_range(n, d, e, k);
    lemma_nearest_range(m, c, f, l);
    assert(not_above(n, d, e, m, c, f, k));
    let (a, b) = (up(n, e - k), up(d, k - e));
    let (x, y) = (up(m, f - k), up(c, k - f));
    lemma_coarsen(n, d, e, k, k);
    lemma_coarsen(m, c, f, k, k);
    lemma_fractions(a, b, x, y);
    if k > l {
        lemma_ulp_not_coarser(m, c, f, l, k);
    } else if k == l {
        let (r, t) = (a % b, x % y);
        if a / b == x / y {
            assert((2 * r > b ==> 2 * t > y) && (2 * r == b ==> 2 * t >= y)) by (nonlinear_arith)
                requires
                    r * y <= t * b,
                    b > 0,
                    y > 0,
            ;
        }
    } else {
        assert((k + 1) * TWO_52 <= l * TWO_52);
    }
}

/// Dividing by more gives no more: a number that is not negative over the smaller
/// of two positive numbers is not below the same number over the larger.
pub proof fn law_quotient_antitone(a: Double, b: Double, c: Double)
    requires
        a.finite(),
        a.key() >= 0,
        b.gt(Double::zero()),
        b.le(c),
    ensures
        a.over(c).le(a.over(b)),
{
    law_quotient_not_negative(a, b);
    law_quotient_not_negative(a, c);
    reveal(Double::spec_over);
    if c.finite() {
        a.lemma_parts();
        b.lemma_parts();
        c.lemma_parts();
        let (n, d, m) = (a.sig(), c.sig(), b.sig());
        let (e, f) = (a.exp() - c.exp(), a.exp() - b.exp());
        let j = c.exp() - b.exp();
        assert(j >= 0);
        lemma_p2_values();
        assert(m <= d * p2(j)) by {
            if j == 0 {
                assert(d * p2(0) == d) by (nonlinear_arith)
                    requires
                        p2(0) == 1,
                ;
            } else {
                lemma_p2_mono(1, j);
                assert(2 * TWO_52 <= d * p2(j)) by (nonlinear_arith)
                    requires
                        d >= TWO_52,
                        p2(j) >= 2,
                ;
            }
        }
        assert forall|k: int| #[trigger] not_above(n, d, e, n, m, f, k) by {
            let (x, y) = (above(e - k), above(k - f));
            let (u, v) = (above(f - k), above(k - e));
            lemma_p2_add(x, y);
            lemma_p2_add(u, v);
            lemma_p2_add(x + y, j);
            assert(x + y + j == u + v);
            lemma_up_above(n, e - k);
            lemma_up_above(m, k - f);
            lemma_up_above(n, f - k);
            lemma_up_above(d, k - e);
            lemma_p2_pos(x);
            lemma_p2_pos(y);
            let (px, py, pu, pv, pj) = (p2(x), p2(y), p2(u), p2(v), p2(j));
            assert((n * px) * (m * py) <= (n * pu) * (d * pv)) by (nonlinear_arith)
                requires
                    pu * pv == (px * py) * pj,
                    m <= d * pj,
                    n >= 0,
                    px >= 1,
                    py >= 1,
            {
                let w = n * (px * py);
                assert(w >= 0) by (nonlinear_arith)
                    requires
                        w == n * (px * py),
                        n >= 0,
                        px >= 1,
                        py >= 1,
                ;
                assert((n * px) * (m * py) == w * m) by (nonlinear_arith)
                    requires
                        w == n * (px * py),
                ;
                assert((n * pu) * (d * pv) == w * (d * pj)) by (nonlinear_arith)
                    requires
                        w == n * (px * py),
                        pu * pv == (px * py) * pj,
                ;
                assert(w * m <= w * (d * pj)) by (nonlinear_arith)
                    requires
                        w >= 0,
                        m <= d * pj,
                ;
            }
        }
        lemma_nearest_fractions(n, d, e, n, m, f);
        if a.negative() {
            // Negative zero.
            lemma_zero_rounds(d, e);
            lemma_zero_rounds(m, f);
        }
    }
}

/// The number, or zero where it is negative.
spec fn above(s: int) -> int {
    if s > 0 {
        s
    } else {
        0
    }
}

proof fn lemma_up_above(x: int, s: int)
    ensures
        up(x, s) == x * p2(above(s)),
{
    lemma_p2_values();
    assert(x * p2(0) == x) by (nonlinear_arith)
        requires
            p2(0) == 1,
    ;
}

/// A whole number, as the double nearest to it.
pub open spec fn whole(n: nat) -> Double {
    Double::of_parts(false, nearest(n as int, 1, 0))
}

/// A whole number of units of `2^e`, of less than 53 bits, is its own nearest
/// double.
proof fn lemma_exact(n: nat, e: int)
    requires
        n < TWO_53,
        -1074 <= e <= 971,
    ensures
        ({
            let x = Double::of_parts(false, nearest(n as int, 1, e));
            &&& x.finite()
            &&& !x.negative()
            &&& x.mag() == nearest(n as int, 1, e)
            &&& x.sig() * p2(x.exp() + 1074) == n * p2(e + 1074)
            &&& x.exp() >= -1074
        }),
{
    let k = lemma_ulp_exists(n as int, 1, e);
    lemma_nearest_at(n as int, 1, e, k);
    lemma_p2_values();
    if k > e {
        lemma_p2_mono(1, k - e);
        let b = p2(k - e);
        assert((n as int) / b < TWO_52) by (nonlinear_arith)
            requires
                0 <= n < 2 * TWO_52,
                b >= 2,
        ;
        assert(1 * b == b);
    }
    assert(k <= e);
    lemma_stands_exact(n as int, e);
    lemma_round_fine(n as int, e, k, n as int, 1, e);
    let q = n * p2(e - k);
    lemma_p2_add(e - k, k + 1074);
    let x = Double::of_parts(false, nearest(n as int, 1, e));
    assert((k + 1074) * TWO_52 <= 2045 * TWO_52);
    assert((k + 1074) * TWO_52 >= 0);
    assert(x.mag() == (k + 1074) * TWO_52 + q);
    assert(x.exp() == k && x.sig() == q) by {
        x.lemma_parts();
        let (g, m) = (x.exp(), x.sig());
        if g > k {
            assert((g + 1074) * TWO_52 >= (k + 1075) * TWO_52);
        }
        if g < k {
            assert((k + 1074) * TWO_52 >= (g + 1075) * TWO_52);
        }
    }
    assert(q * p2(k + 1074) == n * p2(e + 1074)) by (nonlinear_arith)
        requires
            q == n * p2(e - k),
            p2(e + 1074) == p2(e - k) * p2(k + 1074),
    ;
}

proof fn lemma_whole(n: nat)
    requires
        n < TWO_53,
    ensures
        whole(n).finite(),
        !whole(n).negative(),
        whole(n).sig() * p2(whole(n).exp() + 1074) == n * p2(1074),
        whole(n).exp() >= -1074,
{
    lemma_exact(n, 0);
}

/// Whole numbers add up without rounding, as long as they have less than 53 bits.
pub proof fn law_whole_numbers_add_up(a: nat, b: nat)
    requires
        a + b < TWO_53,
    ensures
        whole(a).plus(whole(b)) == whole(a + b),
{
    lemma_whole(a);
    lemma_whole(b);
    lemma_whole(a + b);
    let (x, y) = (whole(a), whole(b));
    let w = lemma_sum_in_unit(x, y, -1074);
    assert(w == (a + b) * p2(1074)) by (nonlinear_arith)
        requires
            w == a * p2(1074) + b * p2(1074),
    ;
    lemma_nearest_unit((a + b) as int, 0, 1074);
    law_sum_of_positives(x, y);
    law_nearest_monotone((a + b) as int, (a + b) as int, 0);
}

/// Zero and one are whole numbers.
pub proof fn law_zero_and_one_are_whole()
    ensures
        whole(0) == Double::zero(),
        whole(1) == Double::one(),
{
    lemma_zero_rounds(1, 0);
    lemma_p2_values();
    let one = Double::one();
    law_nearest_exact(one, 0);
    assert(one.sig() == TWO_52 && one.exp() == -52);
    assert(one.sig() * p2(0) == TWO_52);
    lemma_nearest_unit(1, 0, 52);
    assert(1 * p2(52) == TWO_52);
}

/// Products with a number that is not negative keep the order of numbers that are
/// not negative.
pub proof fn law_product_monotone(a: Double, b: Double, c: Double)
    requires
        a.finite(),
        b.finite(),
        c.finite(),
        a.key() >= 0,
        a.le(b),
        c.key() >= 0,
    ensures
        a.times(c).le(b.times(c)),
        a.times(c).key() >= 0,
{
    reveal(Double::spec_times);
    a.lemma_parts();
    b.lemma_parts();
    c.lemma_parts();
    let e = if a.exp() <= b.exp() {
        a.exp()
    } else {
        b.exp()
    };
    let (q, k) = (c.sig(), c.exp());
    let (x, y) = (a.sig() * p2(a.exp() - e), b.sig() * p2(b.exp() - e));
    lemma_value_order(a, b, e);
    if a.sig() == 0 {
        assert(x == 0) by (nonlinear_arith)
            requires
                x == a.sig() * p2(a.exp() - e),
                a.sig() == 0,
        ;
    }
    lemma_p2_pos(a.exp() - e);
    lemma_p2_pos(b.exp() - e);
    assert(0 <= x && 0 <= y) by (nonlinear_arith)
        requires
            x == a.sig() * p2(a.exp() - e),
            y == b.sig() * p2(b.exp() - e),
            a.sig() >= 0,
            b.sig() >= 0,
            p2(a.exp() - e) >= 1,
            p2(b.exp() - e) >= 1,
    ;
    assert(x <= y);
    let (m, n) = (a.sig() * q, b.sig() * q);
    assert(0 <= m && 0 <= n && 0 <= x * q <= y * q && m * p2(a.exp() - e) == x * q && n * p2(
        b.exp() - e,
    ) == y * q) by (nonlinear_arith)
        requires
            m == a.sig() * q,
            n == b.sig() * q,
            x == a.sig() * p2(a.exp() - e),
            y == b.sig() * p2(b.exp() - e),
            0 <= x <= y,
            a.sig() >= 0,
            b.sig() >= 0,
            q >= 0,
    ;
    lemma_nearest_unit(m, a.exp() + k, a.exp() - e);
    lemma_nearest_unit(n, b.exp() + k, b.exp() - e);
    assert(a.exp() + k - (a.exp() - e) == e + k);
    assert(b.exp() + k - (b.exp() - e) == e + k);
    law_nearest_monotone(x * q, y * q, e + k);
    if a.sig() == 0 || q == 0 {
        assert(m == 0) by (nonlinear_arith)
            requires
                m == a.sig() * q,
                a.sig() == 0 || q == 0,
        ;
        lemma_zero_rounds(1, a.exp() + k);
    }
    if b.sig() == 0 || q == 0 {
        assert(n == 0) by (nonlinear_arith)
            requires
                n == b.sig() * q,
                b.sig() == 0 || q == 0,
        ;
        lemma_zero_rounds(1, b.exp() + k);
    }
}

/// The largest number that leaves one of at least `2^-52` to one.
pub open spec fn almost_one() -> Double {
    Double { bits: (ONE_BITS - 2) as u64 }
}

/// The product of almost one with a number of full precision is at least one unit
/// in the last place below it.
proof fn lemma_almost(d: Double)
    requires
        d.finite(),
        !d.negative(),
        d.exp() > -1074,
    ensures
        almost_one().times(d).key() <= nearest(d.sig() - 1, 1, d.exp()),
{
    reveal(Double::spec_times);
    d.lemma_parts();
    let c = almost_one();
    lemma_p2_values();
    assert(c.sig() == TWO_53 - 2 && c.exp() == -53 && c.finite() && !c.negative());
    let (q, k) = (d.sig(), d.exp());
    assert((TWO_53 - 2) * q <= (q - 1) * TWO_53 && 0 <= (TWO_53 - 2) * q) by (nonlinear_arith)
        requires
            q >= TWO_52,
            TWO_53 == 2 * TWO_52,
    ;
    lemma_nearest_unit(q - 1, k, 53);
    law_nearest_monotone((TWO_53 - 2) * q, (q - 1) * TWO_53, k - 53);
}

/// One is neutral.
proof fn lemma_times_one(d: Double)
    requires
        d.finite(),
        !d.negative(),
    ensures
        Double::one().times(d) == d,
{
    reveal(Double::spec_times);
    d.lemma_parts();
    let one = Double::one();
    lemma_p2_values();
    assert(one.sig() == TWO_52 && one.exp() == -52);
    let (q, k) = (d.sig(), d.exp());
    lemma_nearest_unit(q, k, 52);
    assert(TWO_52 * q == q * TWO_52);
    law_nearest_exact(d, 0);
    assert(q * p2(0) == q) by (nonlinear_arith)
        requires
            p2(0) == 1,
    ;
}

/// A product that is no larger than with almost one is within a difference, though
/// that has been rounded.
proof fn lemma_part_within(p: Double, d: Double, diff: int)
    requires
        d.finite(),
        !d.negative(),
        diff >= 0,
        d.mag() == nearest(diff, 1, -1074),
        p.finite(),
        p.key() >= 0,
        p.le(d),
        p.le(almost_one().times(d)),
    ensures
        p.sig() * p2(p.exp() + 1074) <= diff,
{
    p.lemma_parts();
    d.lemma_parts();
    lemma_p2_values();
    let value = p.sig() * p2(p.exp() + 1074);
    lemma_signed(p);
    if diff < TWO_53 {
        lemma_exact(diff as nat, -1074);
        lemma_value_order(p, d, -1074);
        let x = Double::of_parts(false, nearest(diff, 1, -1074));
        assert(x.bits == d.bits);
        assert(diff * p2(0) == diff) by (nonlinear_arith)
            requires
                p2(0) == 1,
        ;
    } else {
        lemma_large(diff);
        assert(d.exp() > -1074);
        lemma_almost(d);
        let (q, k) = (d.sig(), d.exp());
        lemma_exact((q - 1) as nat, k);
        let z = Double::of_parts(false, nearest(q - 1, 1, k));
        z.lemma_parts();
        lemma_value_order(p, z, -1074);
        let unit = p2(k + 1074);
        lemma_p2_pos(k + 1074);
        let most = (q - 1) * unit;
        assert(value <= most);
        assert(z.mag() < d.mag()) by {
            if d.mag() <= z.mag() {
                lemma_value_order(d, z, -1074);
                assert(q * unit > (q - 1) * unit) by (nonlinear_arith)
                    requires
                        unit >= 1,
                ;
            }
        }
        assert(most <= diff) by {
            if diff < most {
                law_nearest_monotone(diff, most, -1074);
                law_nearest_exact(z, z.exp() + 1074);
            }
        }
    }
}

/// A number between two others, a fraction of the way from the lower: rounding takes
/// it beyond neither, as long as the fraction is not within `2^-52` of one.
pub proof fn law_interpolation_stays_between(lo: Double, hi: Double, part: Double)
    requires
        lo.finite(),
        hi.finite(),
        lo.le(hi),
        hi.minus(lo).finite(),
        part.finite(),
        part.key() >= 0,
        part.le(almost_one()),
    ensures
        hi.minus(lo).key() >= 0,
        lo.le(lo.plus(part.times(hi.minus(lo)))),
        lo.plus(part.times(hi.minus(lo))).le(hi),
{
    let d = hi.minus(lo);
    let c = almost_one();
    let below = lo.spec_negated();
    lo.lemma_parts();
    hi.lemma_parts();
    below.lemma_parts();
    lemma_p2_values();
    lemma_value_order(lo, hi, -1074);
    let diff = lemma_sum_in_unit(hi, below, -1074);
    assert(diff == hi.signed(hi.exp() + 1074) - lo.signed(lo.exp() + 1074));
    law_nearest_monotone(diff, diff, -1074);
    assert(d.key() == nearest(diff, 1, -1074));
    d.lemma_parts();
    let p = part.times(d);
    assert(c.finite() && c.key() >= 0 && !c.negative());
    law_product_monotone(part, c, d);
    law_product_monotone(c, Double::one(), d);
    let value = p.sig() * p2(p.exp() + 1074);
    if d.negative() {
        // Negative zero.
        reveal(Double::spec_times);
        assert(part.sig() * d.sig() == 0) by (nonlinear_arith)
            requires
                d.sig() == 0,
        ;
        lemma_zero_rounds(1, part.exp() + d.exp());
        assert(p.sig() == 0);
        assert(value == 0) by (nonlinear_arith)
            requires
                value == p.sig() * p2(p.exp() + 1074),
                p.sig() == 0,
        ;
    } else {
        lemma_times_one(d);
        assert(p.le(c.times(d)) && p.le(d) && p.key() >= 0);
        p.lemma_parts();
        lemma_part_within(p, d, diff);
    }
    p.lemma_parts();
    law_sum_not_below(lo, p);
    let w = lemma_sum_in_unit(lo, p, -1074);
    lemma_signed(p);
    let top = hi.signed(hi.exp() + 1074);
    assert(w <= top);
    law_nearest_exact(hi, hi.exp() + 1074);
    lemma_p2_pos(hi.exp() + 1074);
    let size = hi.sig() * p2(hi.exp() + 1074);
    assert(size >= 0) by (nonlinear_arith)
        requires
            size == hi.sig() * p2(hi.exp() + 1074),
            hi.sig() >= 0,
            p2(hi.exp() + 1074) >= 1,
    ;
    if hi.negative() && top >= 0 {
        assert(size == 0 && top == 0);
        lemma_zero_rounds(1, -1074);
    }
    assert(hi.mag() == nearest(size, 1, -1074));
    assert(hi.key() == if top >= 0 {
        nearest(top, 1, -1074)
    } else {
        -nearest(-top, 1, -1074)
    });
    if w >= 0 {
        law_nearest_monotone(w, top, -1074);
    } else if top < 0 {
        law_nearest_monotone(-top, -w, -1074);
    } else {
        law_nearest_monotone(-w, -w, -1074);
        law_nearest_monotone(top, top, -1074);
    }
}

/// A number that is not below zero is its own magnitude, whatever the sign of a zero.
proof fn lemma_signed(p: Double)
    requires
        p.finite(),
        p.key() >= 0,
    ensures
        p.signed(p.exp() + 1074) == p.sig() * p2(p.exp() + 1074),
{
    p.lemma_parts();
    if p.negative() {
        assert(p.sig() == 0);
        assert(p.sig() * p2(p.exp() + 1074) == 0) by (nonlinear_arith)
            requires
                p.sig() == 0,
        ;
    }
}

/// What takes more than 53 bits in the smallest unit has a larger unit.
proof fn lemma_large(n: int)
    requires
        n >= TWO_53,
    ensures
        nearest(n, 1, -1074) >= TWO_53,
{
    lemma_p2_values();
    let x = Double { bits: TWO_53 };
    assert(x.sig() == TWO_52 && x.exp() == -1073);
    law_nearest_exact(x, 1);
    assert(TWO_52 * p2(1) == TWO_53);
    law_nearest_monotone(TWO_53 as int, n, -1074);
}

/// What is left of a number of at least one above its integer part is at most
/// almost one; and the integer part is found by rounding down.
pub proof fn law_fraction_is_below_one(x: Double, n: nat)
    requires
        x.finite(),
        x.ge(Double::one()),
        x.trunc() == n,
        n < TWO_53,
    ensures
        x.minus(whole(n)).finite(),
        x.minus(whole(n)).key() >= 0,
        x.minus(whole(n)).le(almost_one()),
        x.floor().trunc() == n,
        x.floor().finite(),
        !x.floor().negative(),
{
    x.lemma_parts();
    lemma_p2_values();
    lemma_whole(n);
    let y = whole(n);
    y.lemma_parts();
    let below = y.spec_negated();
    below.lemma_parts();
    let (q, e) = (x.sig(), x.exp());
    assert(e >= -52);
    let unit = p2(e + 1074);
    lemma_p2_pos(e + 1074);
    let w = lemma_sum_in_unit(x, below, -1074);
    assert(w == q * unit - n * p2(1074));
    let rest: int = if e >= 0 {
        0
    } else {
        q % p2(-e)
    };
    if e >= 0 {
        lemma_p2_add(e, 1074);
        assert(q * unit == n * p2(1074)) by (nonlinear_arith)
            requires
                unit == p2(e) * p2(1074),
                n == q * p2(e),
        ;
        assert(w == 0);
    } else {
        let b = p2(-e);
        lemma_p2_pos(-e);
        lemma_p2_add(-e, e + 1074);
        vstd::arithmetic::div_mod::lemma_fundamental_div_mod(q, b);
        assert(w == rest * unit && rest * unit >= 0 && w <= p2(1074) - unit) by (nonlinear_arith)
            requires
                w == q * unit - n * p2(1074),
                q == b * n + rest,
                p2(1074) == b * unit,
                0 <= rest <= b - 1,
                unit >= 1,
        ;
        lemma_p2_mono(1022, e + 1074);
    }
    let c = almost_one();
    assert(c.sig() == TWO_53 - 2 && c.exp() == -53 && c.finite());
    law_nearest_exact(c, 1021);
    lemma_p2_add(53, 1021);
    lemma_p2_add(1, 1021);
    let top = (TWO_53 - 2) * p2(1021);
    assert(top == p2(1074) - p2(1022)) by (nonlinear_arith)
        requires
            top == (TWO_53 - 2) * p2(1021),
            p2(1074) == TWO_53 * p2(1021),
            p2(1022) == 2 * p2(1021),
    ;
    lemma_p2_pos(1021);
    assert(0 <= top) by (nonlinear_arith)
        requires
            top == (TWO_53 - 2) * p2(1021),
            p2(1021) >= 1,
            TWO_53 > 2,
    ;
    assert(w <= top);
    law_nearest_monotone(w, top, -1074);
    reveal(Double::spec_floor);
    if x.fractional() {
        lemma_whole_trunc(n);
    }
}

/// The integer part of a whole number is itself.
proof fn lemma_whole_trunc(n: nat)
    requires
        n < TWO_53,
    ensures
        whole(n).trunc() == n,
{
    lemma_whole(n);
    let x = whole(n);
    x.lemma_parts();
    let (q, e) = (x.sig(), x.exp());
    lemma_p2_pos(e + 1074);
    if e >= 0 {
        lemma_p2_add(e, 1074);
        lemma_p2_pos(1074);
        assert(q * p2(e) == n) by (nonlinear_arith)
            requires
                q * p2(e + 1074) == n * p2(1074),
                p2(e + 1074) == p2(e) * p2(1074),
                p2(1074) >= 1,
        ;
    } else {
        lemma_p2_add(-e, e + 1074);
        lemma_p2_pos(-e);
        let b = p2(-e);
        assert(q == n * b) by (nonlinear_arith)
            requires
                q * p2(e + 1074) == n * p2(1074),
                p2(1074) == b * p2(e + 1074),
                p2(e + 1074) >= 1,
        ;
        vstd::arithmetic::div_mod::lemma_div_multiples_vanish(n as int, b);
    }
}

/// The integer part is that of the value in the smallest unit.
proof fn lemma_trunc_value(x: Double)
    requires
        x.finite(),
    ensures
        x.trunc() == (x.sig() * p2(x.exp() + 1074)) / p2(1074),
{
    x.lemma_parts();
    let (q, e) = (x.sig(), x.exp());
    lemma_p2_pos(1074);
    let u = p2(1074);
    if e >= 0 {
        lemma_p2_add(e, 1074);
        let n = q * p2(e);
        assert(q * p2(e + 1074) == n * u) by (nonlinear_arith)
            requires
                p2(e + 1074) == p2(e) * u,
                n == q * p2(e),
        ;
        vstd::arithmetic::div_mod::lemma_div_multiples_vanish(n, u);
        assert((n * u) / u == n) by (nonlinear_arith)
            requires
                u >= 1,
        ;
    } else {
        lemma_p2_add(-e, e + 1074);
        lemma_p2_pos(-e);
        lemma_p2_pos(e + 1074);
        let (b, v) = (p2(-e), p2(e + 1074));
        assert(b * v >= 1) by (nonlinear_arith)
            requires
                b >= 1,
                v >= 1,
        ;
        assert(q * v >= 0) by (nonlinear_arith)
            requires
                q >= 0,
                v >= 1,
        ;
        assert((q * v) * b == q * (b * v)) by (nonlinear_arith);
        lemma_same_ratio(q, b, q * v, b * v);
    }
}

/// Integer parts ascend.
pub proof fn law_integer_parts_ascend(x: Double, y: Double)
    requires
        x.finite(),
        y.finite(),
        x.key() >= 0,
        x.le(y),
    ensures
        0 <= x.trunc() <= y.trunc(),
{
    x.lemma_parts();
    y.lemma_parts();
    lemma_value_order(x, y, -1074);
    lemma_signed(x);
    lemma_signed(y);
    lemma_trunc_value(x);
    lemma_trunc_value(y);
    lemma_p2_pos(1074);
    lemma_p2_pos(x.exp() + 1074);
    let (a, b) = (x.sig() * p2(x.exp() + 1074), y.sig() * p2(y.exp() + 1074));
    assert(a >= 0) by (nonlinear_arith)
        requires
            a == x.sig() * p2(x.exp() + 1074),
            x.sig() >= 0,
            p2(x.exp() + 1074) >= 1,
    ;
    vstd::arithmetic::div_mod::lemma_div_is_ordered(a, b, p2(1074));
    vstd::arithmetic::div_mod::lemma_div_pos_is_pos(a, p2(1074));
}

/// Whole numbers are finite, in order, and their own integer parts.
pub proof fn law_whole_numbers_ascend(m: nat, n: nat)
    requires
        m <= n < TWO_53,
    ensures
        whole(m).finite(),
        whole(n).finite(),
        whole(m).key() >= 0,
        whole(m).le(whole(n)),
        whole(m).trunc() == m,
        whole(n).trunc() == n,
{
    lemma_whole(m);
    lemma_whole(n);
    lemma_whole_trunc(m);
    lemma_whole_trunc(n);
    law_nearest_monotone(m as int, n as int, 0);
}

/// Nothing is left of a number less itself.
pub proof fn law_difference_with_itself_vanishes(x: Double)
    requires
        x.finite(),
    ensures
        x.minus(x) == Double::zero(),
{
    reveal(Double::spec_plus);
}

/// An index as a double is that whole number, and a number cut to an index is its
/// integer part.
pub proof fn law_indices_are_whole(n: usize, x: Double)
    requires
        x.finite(),
        !x.negative(),
        x.trunc() <= usize::MAX,
    ensures
        Double::from_usize(n) == whole(n as nat),
        x.to_usize() == x.trunc(),
{
    reveal(Double::spec_from_u64);
    reveal(Double::spec_to_usize);
    law_integer_parts_ascend(x, x);
}

/// The value of a finite number, in units of `2^-1074`.
pub open spec fn units(x: Double) -> int {
    x.signed(x.exp() + 1074)
}

/// The size of a number.
pub open spec fn size(n: int) -> int {
    if n < 0 {
        -n
    } else {
        n
    }
}

/// Rounding moves a value by no more than a share of `2^-53` of it.
proof fn lemma_rounding(w: int)
    requires
        w >= 0,
        nearest(w, 1, -1074) < INF_BITS,
    ensures
        ({
            let x = Double::of_parts(false, nearest(w, 1, -1074));
            &&& x.finite()
            &&& !x.negative()
            &&& x.mag() == nearest(w, 1, -1074)
            &&& TWO_53 * size(x.sig() * p2(x.exp() + 1074) - w) <= w
        }),
{
    let k = lemma_ulp_exists(w, 1, -1074);
    lemma_nearest_at(w, 1, -1074, k);
    lemma_nearest_range(w, 1, -1074, k);
    lemma_p2_values();
    lemma_p2_pos(k + 1074);
    let b = p2(k + 1074);
    assert(up(1, k + 1074) == b);
    assert(up(w, -1074 - k) == w);
    let (q, r) = (w / b, w % b);
    vstd::arithmetic::div_mod::lemma_fundamental_div_mod(w, b);
    vstd::arithmetic::div_mod::lemma_div_pos_is_pos(w, b);
    let m = rounded(w, 1, -1074, k);
    let x = Double::of_parts(false, nearest(w, 1, -1074));
    assert(x.mag() == (k + 1074) * TWO_52 + m) by {
        assert((k + 1074) * TWO_52 >= 0) by (nonlinear_arith)
            requires
                k >= -1074,
        ;
    }
    x.lemma_parts();
    let value = x.sig() * p2(x.exp() + 1074);
    assert(value == m * b) by {
        if m == TWO_53 {
            let (g, n) = (x.exp(), x.sig());
            if g > k + 1 {
                assert((g + 1074) * TWO_52 >= (k + 1076) * TWO_52);
            }
            if g < k + 1 {
                assert((k + 1075) * TWO_52 >= (g + 1075) * TWO_52);
            }
            assert(g == k + 1 && n == TWO_52);
            lemma_p2_add(1, k + 1074);
            assert(TWO_52 * (2 * b) == TWO_53 * b) by (nonlinear_arith)
                requires
                    TWO_53 == 2 * TWO_52,
            ;
        } else {
            let (g, n) = (x.exp(), x.sig());
            if g > k {
                assert((g + 1074) * TWO_52 >= (k + 1075) * TWO_52);
            }
            if g < k {
                assert((k + 1074) * TWO_52 >= (g + 1075) * TWO_52);
            }
            assert(g == k && n == m);
        }
    }
    assert(2 * size(m * b - w) <= b) by (nonlinear_arith)
        requires
            w == b * q + r,
            0 <= r < b,
            m == q && 2 * r <= b || m == q + 1 && 2 * r >= b,
    ;
    if k == -1074 {
        assert(size(m * b - w) == 0);
    } else {
        assert(TWO_53 * size(m * b - w) <= w) by (nonlinear_arith)
            requires
                2 * size(m * b - w) <= b,
                w == b * q + r,
                0 <= r,
                q >= TWO_52,
                TWO_53 == 2 * TWO_52,
                b >= 1,
        ;
    }
}

/// A sum of numbers that are not negative is off by no more than a share of `2^-53`.
pub proof fn law_sum_is_nearly_exact(a: Double, b: Double)
    requires
        a.finite(),
        b.finite(),
        a.key() >= 0,
        b.key() >= 0,
        a.plus(b).finite(),
    ensures
        a.plus(b).key() >= 0,
        units(a) >= 0,
        units(b) >= 0,
        TWO_53 * size(units(a.plus(b)) - (units(a) + units(b))) <= units(a) + units(b),
{
    a.lemma_parts();
    b.lemma_parts();
    law_units_not_negative(a);
    law_units_not_negative(b);
    law_sum_not_below(a, b);
    let w = lemma_sum_in_unit(a, b, -1074);
    law_nearest_monotone(w, w, -1074);
    let s = a.plus(b);
    s.lemma_parts();
    lemma_rounding(w);
    let x = Double::of_parts(false, nearest(w, 1, -1074));
    assert(x.mag() == s.mag());
    lemma_signed(s);
}

/// The value of a number that is not below zero is not either.
pub proof fn law_units_not_negative(x: Double)
    requires
        x.finite(),
        x.key() >= 0,
    ensures
        units(x) >= 0,
{
    x.lemma_parts();
    lemma_signed(x);
    lemma_p2_pos(x.exp() + 1074);
    assert(x.sig() * p2(x.exp() + 1074) >= 0) by (nonlinear_arith)
        requires
            x.sig() >= 0,
            p2(x.exp() + 1074) >= 1,
    ;
}

/// Zero has the value zero.
pub proof fn law_zero_has_no_units()
    ensures
        units(Double::zero()) == 0,
{
    assert(Double::zero().sig() == 0);
    assert(0 * p2(0) == 0);
}

/// A number of full precision: finite, positive, and not below the normal range.
pub open spec fn normal(x: Double) -> bool {
    x.finite() && !x.negative() && x.mag() >= TWO_52
}

/// The double nearest to a fraction is off by no more than a share of `2^-52` of it:
/// it is `m` units of `2^k`, and so near to the fraction in these units.
proof fn lemma_nearest_near(n: int, d: int, e: int) -> (r: (int, int))
    requires
        n >= 0,
        d > 0,
        normal(Double::of_parts(false, nearest(n, d, e))),
        nearest(n, d, e) < INF_BITS,
    ensures
        ({
            let x = Double::of_parts(false, nearest(n, d, e));
            let (m, k) = r;
            &&& k >= -1074
            &&& m >= 0
            &&& x.sig() * p2(x.exp() + 1074) == m * p2(k + 1074)
            &&& TWO_52 * size(m * up(d, k - e) - up(n, e - k)) <= up(n, e - k)
        }),
{
    let k = lemma_ulp_exists(n, d, e);
    lemma_nearest_at(n, d, e, k);
    lemma_nearest_range(n, d, e, k);
    lemma_p2_values();
    lemma_coarsen(n, d, e, k, k);
    let (a, b) = (up(n, e - k), up(d, k - e));
    let (q, r) = (a / b, a % b);
    vstd::arithmetic::div_mod::lemma_fundamental_div_mod(a, b);
    vstd::arithmetic::div_mod::lemma_div_pos_is_pos(a, b);
    let m = rounded(n, d, e, k);
    let x = Double::of_parts(false, nearest(n, d, e));
    assert((k + 1074) * TWO_52 >= 0) by (nonlinear_arith)
        requires
            k >= -1074,
    ;
    assert(x.mag() == (k + 1074) * TWO_52 + m);
    x.lemma_parts();
    let unit = p2(k + 1074);
    lemma_p2_pos(k + 1074);
    assert(x.sig() * p2(x.exp() + 1074) == m * unit) by {
        let (g, c) = (x.exp(), x.sig());
        if m == TWO_53 {
            if g > k + 1 {
                assert((g + 1074) * TWO_52 >= (k + 1076) * TWO_52);
            }
            if g < k + 1 {
                assert((k + 1075) * TWO_52 >= (g + 1075) * TWO_52);
            }
            assert(g == k + 1 && c == TWO_52);
            lemma_p2_add(1, k + 1074);
            assert(TWO_52 * (2 * unit) == TWO_53 * unit) by (nonlinear_arith)
                requires
                    TWO_53 == 2 * TWO_52,
            ;
        } else {
            if g > k {
                assert((g + 1074) * TWO_52 >= (k + 1075) * TWO_52);
            }
            if g < k {
                assert((k + 1074) * TWO_52 >= (g + 1075) * TWO_52);
            }
            assert(g == k && c == m);
        }
    }
    assert(2 * size(m * b - a) <= b) by (nonlinear_arith)
        requires
            a == b * q + r,
            0 <= r < b,
            m == q && 2 * r <= b || m == q + 1 && 2 * r >= b,
    ;
    assert(m >= TWO_52 || k == -1074);
    // In the smallest unit, a number of full precision has all of its bits, too.
    assert(q >= TWO_52 || m == TWO_52) by {
        if k == -1074 {
            assert(x.mag() == m);
        }
    }
    if q >= TWO_52 {
        assert(TWO_52 * size(m * b - a) <= a) by (nonlinear_arith)
            requires
                2 * size(m * b - a) <= b,
                a == b * q + r,
                0 <= r,
                q >= TWO_52,
                b >= 1,
        ;
    } else {
        assert(q == TWO_52 - 1);
        assert(TWO_52 * size(m * b - a) <= a) by (nonlinear_arith)
            requires
                2 * size(m * b - a) <= b,
                q == TWO_52 - 1,
                a == b * q + r,
                0 <= r,
                TWO_52 > 4,
                b >= 1,
        ;
    }
    (m, k)
}

/// The parts of a product and a quotient of positive numbers.
proof fn lemma_times_over(a: Double, b: Double)
    requires
        a.finite() && !a.negative() && !a.vanishes(),
        b.finite() && !b.negative() && !b.vanishes(),
    ensures
        a.spec_times(b) == Double::of_parts(
            false,
            nearest(a.sig() * b.sig(), 1, a.exp() + b.exp()),
        ),
        a.spec_over(b) == Double::of_parts(false, nearest(a.sig(), b.sig(), a.exp() - b.exp())),
        a.sig() > 0,
        b.sig() > 0,
        a.exp() >= -1074,
        b.exp() >= -1074,
        0 <= nearest(a.sig() * b.sig(), 1, a.exp() + b.exp()) <= INF_BITS,
        0 <= nearest(a.sig(), b.sig(), a.exp() - b.exp()) <= INF_BITS,
{
    reveal(Double::spec_times);
    reveal(Double::spec_over);
    a.lemma_parts();
    b.lemma_parts();
    assert(a.sig() * b.sig() > 0) by (nonlinear_arith)
        requires
            a.sig() > 0,
            b.sig() > 0,
    ;
    let k = lemma_ulp_exists(a.sig() * b.sig(), 1, a.exp() + b.exp());
    lemma_nearest_range(a.sig() * b.sig(), 1, a.exp() + b.exp(), k);
    let l = lemma_ulp_exists(a.sig(), b.sig(), a.exp() - b.exp());
    lemma_nearest_range(a.sig(), b.sig(), a.exp() - b.exp(), l);
    lemma_nearest_at(a.sig() * b.sig(), 1, a.exp() + b.exp(), k);
    lemma_nearest_at(a.sig(), b.sig(), a.exp() - b.exp(), l);
}

/// A product of full precision is the true product of its factors, up to a share of
/// `2^-52` of it.
pub proof fn law_product_is_nearly_exact(a: Double, b: Double)
    requires
        a.finite() && !a.negative() && !a.vanishes(),
        b.finite() && !b.negative() && !b.vanishes(),
        normal(a.spec_times(b)),
    ensures
        TWO_52 * size(units(a.spec_times(b)) * p2(1074) - units(a) * units(b)) <= units(a)
            * units(b),
{
    lemma_times_over(a, b);
    let (n, e) = (a.sig() * b.sig(), a.exp() + b.exp());
    assert(n >= 0) by (nonlinear_arith)
        requires
            n == a.sig() * b.sig(),
            a.sig() > 0,
            b.sig() > 0,
    ;
    let x = a.spec_times(b);
    assert(x.mag() == nearest(n, 1, e));
    let (m, k) = lemma_nearest_near(n, 1, e);
    let (r, u, w) = (m * up(1, k - e), up(n, e - k), p2(1074));
    // Both sides, in units of `2^-2148`.
    let f = if k <= e { k + 2148 } else { e + 2148 };
    lemma_p2_pos(f);
    lemma_p2_pos(1074);
    lemma_p2_pos(k + 1074);
    lemma_p2_pos(a.exp() + 1074);
    lemma_p2_pos(b.exp() + 1074);
    lemma_p2_add(a.exp() + 1074, b.exp() + 1074);
    lemma_p2_add(k + 1074, 1074);
    let (pa, pb) = (p2(a.exp() + 1074), p2(b.exp() + 1074));
    assert(units(x) == m * p2(k + 1074));
    assert(units(x) * w == m * p2(k + 2148)) by (nonlinear_arith)
        requires
            units(x) == m * p2(k + 1074),
            p2(k + 2148) == p2(k + 1074) * w,
    ;
    assert(units(a) * units(b) == n * p2(e + 2148)) by (nonlinear_arith)
        requires
            units(a) == a.sig() * pa,
            units(b) == b.sig() * pb,
            n == a.sig() * b.sig(),
            p2(e + 2148) == pa * pb,
    ;
    if k <= e {
        lemma_p2_add(f, e - k);
        lemma_p2_values();
        assert(u == n * p2(e - k)) by {
            assert(n * p2(0) == n) by (nonlinear_arith)
                requires
                    p2(0) == 1,
            ;
        }
        assert(u * p2(f) == n * p2(e + 2148)) by (nonlinear_arith)
            requires
                u == n * p2(e - k),
                p2(e + 2148) == p2(f) * p2(e - k),
        ;
        assert(r == m * 1);
    } else {
        lemma_p2_add(f, k - e);
        assert(r * p2(f) == m * p2(k + 2148)) by (nonlinear_arith)
            requires
                r == m * p2(k - e),
                p2(k + 2148) == p2(f) * p2(k - e),
        ;
        assert(u == n);
    }
    lemma_scaled_error(r, u, p2(f));
}

/// A bound on an error holds in every unit.
proof fn lemma_scaled_error(r: int, u: int, f: int)
    requires
        TWO_52 * size(r - u) <= u,
        f > 0,
    ensures
        TWO_52 * size(r * f - u * f) <= u * f,
{
    assert(size(r * f - u * f) == size(r - u) * f) by (nonlinear_arith)
        requires
            f > 0,
    ;
    assert(TWO_52 * (size(r - u) * f) <= u * f) by (nonlinear_arith)
        requires
            TWO_52 * size(r - u) <= u,
            f > 0,
    ;
}

/// A quotient of full precision, multiplied by the divisor, gives the dividend, up to a
/// share of `2^-52` of it.
pub proof fn law_quotient_is_nearly_exact(a: Double, b: Double)
    requires
        a.finite() && !a.negative() && !a.vanishes(),
        b.finite() && !b.negative() && !b.vanishes(),
        normal(a.spec_over(b)),
    ensures
        TWO_52 * size(units(a.spec_over(b)) * units(b) - units(a) * p2(1074)) <= units(a)
            * p2(1074),
{
    lemma_times_over(a, b);
    let (n, d, e) = (a.sig(), b.sig(), a.exp() - b.exp());
    let x = a.spec_over(b);
    assert(x.mag() == nearest(n, d, e));
    let (m, k) = lemma_nearest_near(n, d, e);
    let (r, u, w) = (m * up(d, k - e), up(n, e - k), p2(1074));
    let f = if k <= e { k + b.exp() + 2148 } else { a.exp() + 2148 };
    lemma_p2_pos(f);
    lemma_p2_pos(1074);
    lemma_p2_pos(k + 1074);
    lemma_p2_pos(a.exp() + 1074);
    lemma_p2_pos(b.exp() + 1074);
    lemma_p2_add(k + 1074, b.exp() + 1074);
    lemma_p2_add(a.exp() + 1074, 1074);
    let (pa, pb, pk) = (p2(a.exp() + 1074), p2(b.exp() + 1074), p2(k + 1074));
    assert(units(x) == m * pk);
    let pkb = p2(k + b.exp() + 2148);
    assert(units(x) * units(b) == m * d * pkb) by (nonlinear_arith)
        requires
            units(x) == m * pk,
            units(b) == d * pb,
            pkb == pk * pb,
    ;
    assert(units(a) * w == n * p2(a.exp() + 2148)) by (nonlinear_arith)
        requires
            units(a) == n * pa,
            p2(a.exp() + 2148) == pa * w,
    ;
    if k <= e {
        lemma_p2_add(f, e - k);
        lemma_p2_values();
        assert(u == n * p2(e - k)) by {
            assert(n * p2(0) == n) by (nonlinear_arith)
                requires
                    p2(0) == 1,
            ;
        }
        assert(u * p2(f) == n * p2(a.exp() + 2148)) by (nonlinear_arith)
            requires
                u == n * p2(e - k),
                p2(a.exp() + 2148) == p2(f) * p2(e - k),
        ;
        assert(r == m * d);
    } else {
        lemma_p2_add(f, k - e);
        assert(r * p2(f) == m * d * pkb) by (nonlinear_arith)
            requires
                r == m * (d * p2(k - e)),
                pkb == p2(f) * p2(k - e),
        ;
        assert(u == n);
    }
    lemma_scaled_error(r, u, p2(f));
}

/// One fraction is not above another where their cross products say so.
proof fn lemma_cross(n: int, d: int, e: int, m: int, c: int, f: int, s: int)
    requires
        n >= 0,
        d > 0,
        m >= 0,
        c > 0,
        e + s >= 0,
        f + s >= 0,
        n * c * p2(e + s) <= m * d * p2(f + s),
    ensures
        forall|k: int| #[trigger] not_above(n, d, e, m, c, f, k),
{
    let (x, y) = (n * c, m * d);
    assert forall|k: int| #[trigger] not_above(n, d, e, m, c, f, k) by {
        let (a, b) = (above(e - k), above(k - f));
        let (u, v) = (above(f - k), above(k - e));
        lemma_up_above(n, e - k);
        lemma_up_above(c, k - f);
        lemma_up_above(m, f - k);
        lemma_up_above(d, k - e);
        lemma_p2_add(a, b);
        lemma_p2_add(u, v);
        let (l, r) = (p2(a + b), p2(u + v));
        assert(up(n, e - k) * up(c, k - f) == x * l) by (nonlinear_arith)
            requires
                up(n, e - k) == n * p2(a),
                up(c, k - f) == c * p2(b),
                l == p2(a) * p2(b),
                x == n * c,
        ;
        assert(up(m, f - k) * up(d, k - e) == y * r) by (nonlinear_arith)
            requires
                up(m, f - k) == m * p2(u),
                up(d, k - e) == d * p2(v),
                r == p2(u) * p2(v),
                y == m * d,
        ;
        lemma_p2_pos(a + b);
        lemma_p2_pos(u + v);
        lemma_p2_pos(e + s);
        lemma_p2_pos(f + s);
        assert(a + b - (u + v) == e - f);
        if e >= f {
            lemma_p2_add(f + s, e - f);
            lemma_p2_add(u + v, e - f);
            let (j, q) = (p2(e - f), p2(f + s));
            assert(x * j <= y) by (nonlinear_arith)
                requires
                    x * p2(e + s) <= y * q,
                    p2(e + s) == q * j,
                    q >= 1,
            ;
            assert(x * l <= y * r) by (nonlinear_arith)
                requires
                    x * j <= y,
                    l == r * j,
                    r >= 1,
            ;
        } else {
            lemma_p2_add(e + s, f - e);
            lemma_p2_add(a + b, f - e);
            let (j, q) = (p2(f - e), p2(e + s));
            assert(x <= y * j) by (nonlinear_arith)
                requires
                    x * q <= y * p2(f + s),
                    p2(f + s) == q * j,
                    q >= 1,
            ;
            assert(x * l <= y * r) by (nonlinear_arith)
                requires
                    x <= y * j,
                    r == l * j,
                    l >= 1,
            ;
        }
    }
}

/// A finite number that is not negative is nearest to itself, and it has its units.
proof fn lemma_own_nearest(c: Double)
    requires
        c.finite() && !c.negative(),
    ensures
        c.mag() == nearest(c.sig(), 1, c.exp()),
        units(c) == c.sig() * p2(c.exp() + 1074),
        c.sig() >= 0,
        c.exp() >= -1074,
{
    c.lemma_parts();
    law_nearest_exact(c, 0);
    lemma_p2_values();
    assert(c.sig() * p2(0) == c.sig()) by (nonlinear_arith)
        requires
            p2(0) == 1,
    ;
}

/// Rounding a quotient passes over no number: what is not above the true quotient is
/// not above the rounded one, and what is not below it is not below the rounded one.
pub proof fn law_quotient_keeps_order(a: Double, b: Double, c: Double)
    requires
        a.finite() && !a.negative(),
        b.finite() && !b.negative() && !b.vanishes(),
        c.finite() && !c.negative(),
    ensures
        units(c) * units(b) <= units(a) * p2(1074) ==> c.le(a.over(b)),
        units(a) * p2(1074) <= units(c) * units(b) ==> a.over(b).le(c),
        !a.over(b).nan() && !a.over(b).negative(),
{
    reveal(Double::spec_over);
    lemma_own_nearest(a);
    lemma_own_nearest(b);
    lemma_own_nearest(c);
    b.lemma_parts();
    let (n, d, e) = (a.sig(), b.sig(), a.exp() - b.exp());
    let (m, f) = (c.sig(), c.exp());
    let k = lemma_ulp_exists(n, d, e);
    lemma_nearest_range(n, d, e, k);
    let s = b.exp() + 2148;
    let (pa, pb, pc, w) = (p2(a.exp() + 1074), p2(b.exp() + 1074), p2(c.exp() + 1074), p2(1074));
    lemma_p2_add(c.exp() + 1074, b.exp() + 1074);
    lemma_p2_add(a.exp() + 1074, 1074);
    assert(units(c) * units(b) == m * d * p2(f + s)) by (nonlinear_arith)
        requires
            units(c) == m * pc,
            units(b) == d * pb,
            p2(f + s) == pc * pb,
    ;
    assert(units(a) * w == n * 1 * p2(e + s)) by (nonlinear_arith)
        requires
            units(a) == n * pa,
            p2(e + s) == pa * w,
    ;
    if units(c) * units(b) <= units(a) * w {
        lemma_cross(m, 1, f, n, d, e, s);
        lemma_nearest_fractions(m, 1, f, n, d, e);
    }
    if units(a) * w <= units(c) * units(b) {
        lemma_cross(n, d, e, m, 1, f, s);
        lemma_nearest_fractions(n, d, e, m, 1, f);
    }
}

/// Rounding a product passes over no number, either.
pub proof fn law_product_keeps_order(a: Double, b: Double, c: Double)
    requires
        a.finite() && !a.negative(),
        b.finite() && !b.negative(),
        c.finite() && !c.negative(),
    ensures
        units(c) * p2(1074) <= units(a) * units(b) ==> c.le(a.times(b)),
        units(a) * units(b) <= units(c) * p2(1074) ==> a.times(b).le(c),
        !a.times(b).nan() && !a.times(b).negative(),
{
    reveal(Double::spec_times);
    lemma_own_nearest(a);
    lemma_own_nearest(b);
    lemma_own_nearest(c);
    let (n, e) = (a.sig() * b.sig(), a.exp() + b.exp());
    let (m, f) = (c.sig(), c.exp());
    assert(n >= 0) by (nonlinear_arith)
        requires
            n == a.sig() * b.sig(),
            a.sig() >= 0,
            b.sig() >= 0,
    ;
    let k = lemma_ulp_exists(n, 1, e);
    lemma_nearest_range(n, 1, e, k);
    let (pa, pb, pc, w) = (p2(a.exp() + 1074), p2(b.exp() + 1074), p2(c.exp() + 1074), p2(1074));
    lemma_p2_add(c.exp() + 1074, 1074);
    lemma_p2_add(a.exp() + 1074, b.exp() + 1074);
    assert(units(c) * w == m * 1 * p2(f + 2148)) by (nonlinear_arith)
        requires
            units(c) == m * pc,
            p2(f + 2148) == pc * w,
    ;
    assert(units(a) * units(b) == n * 1 * p2(e + 2148)) by (nonlinear_arith)
        requires
            units(a) == a.sig() * pa,
            units(b) == b.sig() * pb,
            n == a.sig() * b.sig(),
            p2(e + 2148) == pa * pb,
    ;
    if units(c) * w <= units(a) * units(b) {
        lemma_cross(m, 1, f, n, 1, e, 2148);
        lemma_nearest_fractions(m, 1, f, n, 1, e);
    }
    if units(a) * units(b) <= units(c) * w {
        lemma_cross(n, 1, e, m, 1, f, 2148);
        lemma_nearest_fractions(n, 1, e, m, 1, f);
    }
}

/// Finite numbers are ordered as their values are.
pub proof fn law_order_is_that_of_values(a: Double, b: Double)
    requires
        a.finite(),
        b.finite(),
    ensures
        a.le(b) <==> units(a) <= units(b),
        a.lt(b) <==> units(a) < units(b),
{
    a.lemma_parts();
    b.lemma_parts();
    if a.key() <= b.key() {
        lemma_value_order(a, b, -1074);
    }
    if b.key() <= a.key() {
        lemma_value_order(b, a, -1074);
    }
    lemma_p2_pos(a.exp() + 1074);
    lemma_p2_pos(b.exp() + 1074);
    if units(a) == units(b) && a.key() != b.key() {
        let (x, y) = (a.sig() * p2(a.exp() + 1074), b.sig() * p2(b.exp() + 1074));
        assert(x >= 0 && y >= 0 && (x == 0 ==> a.sig() == 0) && (y == 0 ==> b.sig() == 0))
            by (nonlinear_arith)
            requires
                x == a.sig() * p2(a.exp() + 1074),
                y == b.sig() * p2(b.exp() + 1074),
                a.sig() >= 0,
                b.sig() >= 0,
                p2(a.exp() + 1074) >= 1,
                p2(b.exp() + 1074) >= 1,
        ;
        law_nearest_exact(a, a.exp() + 1074);
        law_nearest_exact(b, b.exp() + 1074);
        assert(x == y);
        assert(a.mag() == b.mag());
        assert(a.vanishes() && b.vanishes());
    }
}

/// The value of a whole number.
pub proof fn law_whole_numbers_have_their_value(n: nat)
    requires
        n < TWO_53,
    ensures
        whole(n).finite(),
        !whole(n).negative(),
        units(whole(n)) == n * p2(1074),
        whole(n).vanishes() <==> n == 0,
        n >= 1 ==> normal(whole(n)),
{
    lemma_whole(n);
    lemma_own_nearest(whole(n));
    lemma_p2_pos(1074);
    whole(n).lemma_parts();
    if whole(n).vanishes() {
        assert(n == 0) by (nonlinear_arith)
            requires
                n * p2(1074) == 0 * p2(whole(n).exp() + 1074),
                p2(1074) >= 1,
                n >= 0,
        ;
    }
    if n == 0 {
        law_zero_and_one_are_whole();
    } else {
        law_zero_and_one_are_whole();
        law_whole_numbers_ascend(1, n);
    }
}

/// Whole numbers multiply without rounding, as long as the product has no more than 53
/// bits.
pub proof fn law_whole_numbers_multiply(a: nat, b: nat)
    requires
        a < TWO_53,
        b < TWO_53,
        a * b < TWO_53,
    ensures
        whole(a).times(whole(b)) == whole(a * b),
{
    law_whole_numbers_have_their_value(a);
    law_whole_numbers_have_their_value(b);
    law_whole_numbers_have_their_value(a * b);
    let w = p2(1074);
    assert((a * w) * (b * w) == (a * b) * w * w) by (nonlinear_arith);
    law_product_keeps_order(whole(a), whole(b), whole(a * b));
}

/// A quotient of whole numbers is compared with a whole number as the true quotient is,
/// as long as the dividend has no more than 52 bits: rounding makes up for no shortfall.
pub proof fn law_whole_quotients_compare(n: nat, d: nat, b: nat)
    requires
        n < TWO_52,
        0 < d < TWO_53,
        b < TWO_53,
    ensures
        whole(n).over(whole(d)).finite(),
        !whole(n).over(whole(d)).negative(),
        whole(n).over(whole(d)).ge(whole(b)) <==> n >= b * d,
        whole(n).over(whole(d)).le(whole(b)) <==> n <= b * d,
{
    law_whole_numbers_have_their_value(n);
    law_whole_numbers_have_their_value(d);
    law_whole_numbers_have_their_value(b);
    let w = p2(1074);
    lemma_p2_pos(1074);
    let q = whole(n).over(whole(d));
    law_quotient_keeps_order(whole(n), whole(d), whole(n));
    law_quotient_keeps_order(whole(n), whole(d), whole(b));
    let (nn, bd, one) = (n * w * w, (b * d) * w * w, w * w);
    assert((n * w) * (d * w) >= (n * w) * w) by (nonlinear_arith)
        requires
            d >= 1,
            n >= 0,
            w >= 1,
    ;
    assert((b * w) * (d * w) == bd) by (nonlinear_arith)
        requires
            bd == (b * d) * w * w,
    ;
    assert(n >= b * d ==> nn >= bd) by (nonlinear_arith)
        requires
            nn == n * w * w,
            bd == (b * d) * w * w,
            w >= 1,
    ;
    assert(n <= b * d ==> nn <= bd) by (nonlinear_arith)
        requires
            nn == n * w * w,
            bd == (b * d) * w * w,
            w >= 1,
    ;
    assert(q.finite());
    law_order_is_that_of_values(q, whole(b));
    law_order_is_that_of_values(whole(b), q);
    if n < b * d && q.ge(whole(b)) {
        lemma_short_quotient(n, d, b, q);
    }
    if n > b * d && q.le(whole(b)) {
        lemma_long_quotient(n, d, b, q);
    }
}

proof fn lemma_squares(a: int, b: int, w: int)
    ensures
        (a * w) * (b * w) == (a * b) * (w * w),
{
    assert((a * w) * (b * w) == (a * b) * w * w) by (nonlinear_arith);
    vstd::arithmetic::mul::lemma_mul_is_associative(a * b, w, w);
}

proof fn lemma_short_quotient(n: nat, d: nat, b: nat, q: Double)
    requires
        n < TWO_52,
        0 < d < TWO_53,
        b < TWO_53,
        q == whole(n).over(whole(d)),
        q.finite(),
        !q.negative(),
        q.ge(whole(b)),
    ensures
        n >= b * d,
{
    if n < b * d {
        law_whole_numbers_have_their_value(n);
        law_whole_numbers_have_their_value(d);
        law_whole_numbers_have_their_value(b);
        let w = p2(1074);
        lemma_p2_pos(1074);
        assert(b >= 1) by (nonlinear_arith)
            requires
                0 <= n < b * d,
                d > 0,
        ;
        law_order_is_that_of_values(whole(b), q);
        let x = units(q);
        assert(x * (d * w) >= (b * w) * (d * w)) by (nonlinear_arith)
            requires
                x >= b * w,
                d > 0,
                w >= 1,
        ;
        if n == 0 {
            law_quotient_keeps_order(whole(n), whole(d), Double::zero());
            law_zero_has_no_units();
            assert(q.le(Double::zero()));
        } else {
            law_quotient_is_nearly_exact(whole(n), whole(d));
            let one = w * w;
        assert(one >= 1) by (nonlinear_arith)
            requires
                one == w * w,
                w >= 1,
        ;
            assert(one >= 1) by (nonlinear_arith)
                requires
                    one == w * w,
                    w >= 1,
            ;
            assert(TWO_52 * one <= n * one) by (nonlinear_arith)
                requires
                    one == w * w,
                    w >= 1,
                    TWO_52 * size(x * (d * w) - (n * w) * w) <= (n * w) * w,
                    x * (d * w) >= (b * w) * (d * w),
                    n + 1 <= b * d,
            {
                lemma_squares(b as int, d as int, w);
                assert((n * w) * w == n * one) by (nonlinear_arith)
                    requires
                        one == w * w,
                ;
                assert((b * d) * one >= (n + 1) * one) by (nonlinear_arith)
                    requires
                        b * d >= n + 1,
                        one >= 0,
                ;
            }
            assert(n >= TWO_52) by (nonlinear_arith)
                requires
                    TWO_52 * one <= n * one,
                    one >= 1,
            ;
        }
    }
}

proof fn lemma_long_quotient(n: nat, d: nat, b: nat, q: Double)
    requires
        n < TWO_52,
        0 < d < TWO_53,
        b < TWO_53,
        q == whole(n).over(whole(d)),
        q.finite(),
        !q.negative(),
        q.le(whole(b)),
    ensures
        n <= b * d,
{
    if n > b * d {
        law_whole_numbers_have_their_value(n);
        law_whole_numbers_have_their_value(d);
        law_whole_numbers_have_their_value(b);
        let w = p2(1074);
        lemma_p2_pos(1074);
        law_order_is_that_of_values(q, whole(b));
        assert(normal(q)) by {
            // Not below the smallest number of full precision.
            let least = Double { bits: TWO_52 as u64 };
            lemma_least_normal(n, d, least);
        }
        assert(n > 0) by (nonlinear_arith)
            requires
                n > b * d,
                b >= 0,
                d > 0,
        ;
        law_quotient_is_nearly_exact(whole(n), whole(d));
        let x = units(q);
        let one = w * w;
        assert(one >= 1) by (nonlinear_arith)
            requires
                one == w * w,
                w >= 1,
        ;
        assert(x * (d * w) <= (b * w) * (d * w)) by (nonlinear_arith)
            requires
                x <= b * w,
                d > 0,
                w >= 1,
        ;
        assert(TWO_52 * one <= n * one) by (nonlinear_arith)
            requires
                one == w * w,
                w >= 1,
                TWO_52 * size(x * (d * w) - (n * w) * w) <= (n * w) * w,
                x * (d * w) <= (b * w) * (d * w),
                n >= b * d + 1,
        {
            lemma_squares(b as int, d as int, w);
            assert((n * w) * w == n * one) by (nonlinear_arith)
                requires
                    one == w * w,
            ;
            assert((b * d) * one <= (n - 1) * one) by (nonlinear_arith)
                requires
                    b * d <= n - 1,
                    one >= 0,
            ;
        }
        assert(n >= TWO_52) by (nonlinear_arith)
            requires
                TWO_52 * one <= n * one,
                one >= 1,
        ;
    }
}

proof fn lemma_least_normal(n: nat, d: nat, least: Double)
    requires
        0 < n < TWO_53,
        0 < d < TWO_53,
        least.bits == TWO_52,
    ensures
        least.le(whole(n).over(whole(d))),
{
    law_whole_numbers_have_their_value(n);
    law_whole_numbers_have_their_value(d);
    let w = p2(1074);
    lemma_p2_values();
    lemma_own_nearest(least);
    assert(least.sig() == TWO_52 && least.exp() == -1074);
    assert(units(least) == TWO_52);
    lemma_p2_add(1074 - 106, 106);
    lemma_p2_add(53, 53);
    lemma_p2_pos(1074 - 106);
    assert(TWO_52 * (d * w) <= (n * w) * w) by (nonlinear_arith)
        requires
            w == p2(1074 - 106) * p2(106),
            p2(106) == TWO_53 * TWO_53,
            p2(1074 - 106) >= 1,
            1 <= n,
            0 < d < TWO_53,
            TWO_52 < TWO_53,
    {
        assert(w >= TWO_53 * TWO_53) by (nonlinear_arith)
            requires
                w == p2(1074 - 106) * (TWO_53 * TWO_53),
                p2(1074 - 106) >= 1,
        ;
        assert(TWO_52 * d <= TWO_53 * TWO_53) by (nonlinear_arith)
            requires
                0 < d < TWO_53,
                TWO_52 < TWO_53,
        ;
        assert(TWO_52 * (d * w) <= w * w) by (nonlinear_arith)
            requires
                TWO_52 * d <= w,
                w >= 0,
        ;
        assert(w * w <= (n * w) * w) by (nonlinear_arith)
            requires
                n >= 1,
                w >= 0,
        ;
    }
    law_quotient_keeps_order(whole(n), whole(d), least);
}

/// A number whose significand is that of a fraction in units of `2^-j`, to the nearest,
/// is the quotient of the two whole numbers.
pub proof fn law_fraction_from_bits(x: Double, n: nat, d: nat, j: int)
    requires
        x.finite() && !x.negative(),
        0 < n < TWO_53,
        0 < d < TWO_53,
        0 <= j <= 1000,
        x.exp() == -j,
        TWO_52 <= x.sig(),
        2 * size(x.sig() * d - n * p2(j)) < d,
        n * p2(j) >= TWO_52 * d,
    ensures
        x == whole(n).over(whole(d)),
{
    law_whole_numbers_have_their_value(n);
    law_whole_numbers_have_their_value(d);
    let (a, b) = (whole(n), whole(d));
    lemma_times_over(a, b);
    lemma_own_nearest(a);
    lemma_own_nearest(b);
    lemma_p2_pos(1074);
    lemma_p2_pos(a.exp() + 1074);
    lemma_p2_pos(b.exp() + 1074);
    let (u, v, w) = (p2(a.exp() + 1074), p2(b.exp() + 1074), p2(1074));
    let e = a.exp() - b.exp();
    // The quotient of the significands is that of the numbers.
    lemma_p2_add(a.exp() + 1074, 1074);
    lemma_p2_add(b.exp() + 1074, 1074);
    let s = b.exp() + 2148;
    let (l, r) = (a.sig() * d * p2(e + s), n * b.sig() * p2(s));
    assert(l == r) by (nonlinear_arith)
        requires
            l == a.sig() * d * p2(e + s),
            r == n * b.sig() * p2(s),
            p2(e + s) == u * w,
            p2(s) == v * w,
            a.sig() * u == n * w,
            b.sig() * v == d * w,
    {
        assert(a.sig() * d * (u * w) == (a.sig() * u) * (d * w)) by (nonlinear_arith);
        assert(n * b.sig() * (v * w) == (n * w) * (b.sig() * v)) by (nonlinear_arith);
    }
    lemma_cross(a.sig(), b.sig(), e, n as int, d as int, 0, s);
    lemma_cross(n as int, d as int, 0, a.sig(), b.sig(), e, s);
    lemma_nearest_fractions(a.sig(), b.sig(), e, n as int, d as int, 0);
    lemma_nearest_fractions(n as int, d as int, 0, a.sig(), b.sig(), e);
    // The fraction, rounded in units of `2^-j`.
    let (k, m) = (-j, x.sig());
    x.lemma_parts();
    lemma_p2_values();
    lemma_p2_pos(j);
    let (y, z) = (up(n as int, 0 - k), up(d as int, k - 0));
    assert(z == d);
    assert(y == n * p2(j)) by {
        assert(n * p2(0) == n) by (nonlinear_arith)
            requires
                p2(0) == 1,
        ;
    }
    let (q, t) = (y / z, y % z);
    vstd::arithmetic::div_mod::lemma_fundamental_div_mod(y, z);
    assert(q == m && 2 * t < d || q == m - 1 && 2 * t > d) by (nonlinear_arith)
        requires
            y == z * q + t,
            0 <= t < z,
            z == d,
            2 * size(m * d - y) < d,
    ;
    assert(q >= TWO_52) by (nonlinear_arith)
        requires
            y == z * q + t,
            0 <= t < z,
            z == d,
            y >= TWO_52 * d,
    ;
    assert(is_ulp(n as int, d as int, 0, k));
    lemma_nearest_at(n as int, d as int, 0, k);
    assert(x.mag() == (k + 1074) * TWO_52 + m);
}

/// Dividing by one changes nothing.
pub proof fn law_over_one(x: Double)
    requires
        x.finite() && !x.negative(),
    ensures
        x.over(Double::one()) == x,
{
    law_zero_and_one_are_whole();
    law_whole_numbers_have_their_value(1);
    law_quotient_keeps_order(x, Double::one(), x);
    assert(1 * p2(1074) == p2(1074));
}

/// Whole numbers are subtracted without rounding.
pub proof fn law_whole_numbers_subtract(a: nat, b: nat)
    requires
        b <= a < TWO_53,
    ensures
        whole(a).minus(whole(b)) == whole((a - b) as nat),
{
    lemma_whole(a);
    lemma_whole(b);
    let d = (a - b) as nat;
    lemma_whole(d);
    let (x, y) = (whole(a), whole(b).spec_negated());
    assert(y.sig() == whole(b).sig() && y.exp() == whole(b).exp() && y.finite());
    assert(y.negative());
    let w = lemma_sum_in_unit(x, y, -1074);
    assert(w == d * p2(1074)) by (nonlinear_arith)
        requires
            w == a * p2(1074) - b * p2(1074),
            d == a - b,
    ;
    lemma_p2_pos(1074);
    assert(w >= 0) by (nonlinear_arith)
        requires
            w == d * p2(1074),
            p2(1074) >= 1,
            d >= 0,
    ;
    lemma_nearest_unit(d as int, 0, 1074);
    law_nearest_monotone(d as int, d as int, 0);
    let r = x.plus(y);
    assert(r.key() == whole(d).key());
    if d == 0 {
        law_difference_with_itself_vanishes(whole(a));
        law_zero_and_one_are_whole();
    } else {
        law_whole_numbers_have_their_value(d);
        assert(!r.negative());
    }
}

/// Nothing times a finite number is nothing, and adding nothing changes nothing of the
/// value.
pub proof fn law_nothing_adds_nothing(x: Double, y: Double)
    requires
        x.finite(),
        y.finite(),
    ensures
        Double::zero().times(y).vanishes(),
        x.plus(Double::zero().times(y)).finite(),
        x.plus(Double::zero().times(y)).key() == x.key(),
{
    reveal(Double::spec_times);
    let z = Double::zero().times(y);
    assert(0 * y.sig() == 0) by (nonlinear_arith);
    lemma_zero_rounds(1, Double::zero().exp() + y.exp());
    x.lemma_parts();
    z.lemma_parts();
    lemma_p2_pos(x.exp() + 1074);
    let w = lemma_sum_in_unit(x, z, -1074);
    let v = x.sig() * p2(x.exp() + 1074);
    assert(0 * p2(z.exp() + 1074) == 0) by (nonlinear_arith);
    assert(v >= 0) by (nonlinear_arith)
        requires
            v == x.sig() * p2(x.exp() + 1074),
            x.sig() >= 0,
            p2(x.exp() + 1074) >= 1,
    ;
    law_nearest_exact(x, x.exp() + 1074);
    if x.negative() && v == 0 {
        lemma_zero_rounds(1, -1074);
    }
}

/// A number is no integer exactly where its value is no multiple of that of one.
proof fn lemma_fractional_value(x: Double)
    requires
        x.finite() && !x.negative(),
    ensures
        x.trunc() == units(x) / p2(1074),
        x.fractional() <==> units(x) % p2(1074) != 0,
        units(x) >= 0,
{
    x.lemma_parts();
    lemma_own_nearest(x);
    let (m, g, w) = (x.sig(), x.exp(), p2(1074));
    lemma_p2_pos(1074);
    lemma_p2_pos(g + 1074);
    if g >= 0 {
        lemma_p2_add(g, 1074);
        let q = m * p2(g);
        assert(units(x) == w * q) by (nonlinear_arith)
            requires
                units(x) == m * p2(g + 1074),
                p2(g + 1074) == p2(g) * w,
                q == m * p2(g),
        ;
        lemma_p2_pos(g);
        assert(q >= 0) by (nonlinear_arith)
            requires
                q == m * p2(g),
                m >= 0,
                p2(g) >= 1,
        ;
        assert(w * q >= 0) by (nonlinear_arith)
            requires
                w >= 1,
                q >= 0,
        ;
        vstd::arithmetic::div_mod::lemma_fundamental_div_mod_converse(units(x), w, q, 0);
    } else {
        lemma_p2_pos(-g);
        lemma_p2_add(-g, g + 1074);
        let (b, p) = (p2(-g), p2(g + 1074));
        let (q, r) = (m / b, m % b);
        vstd::arithmetic::div_mod::lemma_fundamental_div_mod(m, b);
        vstd::arithmetic::div_mod::lemma_div_pos_is_pos(m, b);
        assert(units(x) == w * q + r * p) by (nonlinear_arith)
            requires
                units(x) == m * p,
                m == b * q + r,
                w == b * p,
        ;
        assert(0 <= r * p < w && (r * p == 0 <==> r == 0) && w * q >= 0) by (nonlinear_arith)
            requires
                0 <= r < b,
                p >= 1,
                w == b * p,
                q >= 0,
        ;
        vstd::arithmetic::div_mod::lemma_fundamental_div_mod_converse(units(x), w, q, r * p);
    }
}

/// Rounding down and up to an index: a number from `b` to below `b + 1` has the index
/// `b`, and one from above `b` to `b + 1` is covered by `b + 1` of them.
pub proof fn law_indices_round_down_and_up(x: Double, b: nat)
    requires
        x.finite() && !x.negative(),
        b + 1 < TWO_53,
        b + 1 <= usize::MAX,
    ensures
        whole(b).le(x) && x.lt(whole(b + 1)) ==> x.floor().to_usize() == b,
        whole(b).lt(x) && x.le(whole(b + 1)) ==> x.ceil().to_usize() == b + 1,
        x.vanishes() ==> x.ceil().to_usize() == 0,
{
    law_whole_numbers_have_their_value(b);
    law_whole_numbers_have_their_value(b + 1);
    law_whole_numbers_ascend(b, b + 1);
    law_order_is_that_of_values(whole(b), x);
    law_order_is_that_of_values(x, whole(b + 1));
    lemma_fractional_value(x);
    lemma_p2_pos(1074);
    let (u, w) = (units(x), p2(1074));
    reveal(Double::spec_floor);
    reveal(Double::spec_ceil);
    reveal(Double::spec_to_usize);
    vstd::arithmetic::div_mod::lemma_fundamental_div_mod(u, w);
    let (q, r) = (u / w, u % w);
    if whole(b).le(x) && x.lt(whole(b + 1)) {
        assert(q == b) by (nonlinear_arith)
            requires
                u == w * q + r,
                0 <= r < w,
                b * w <= u < (b + 1) * w,
        ;
    }
    if whole(b).lt(x) && x.le(whole(b + 1)) {
        assert(q == b && r != 0 || q == b + 1 && r == 0) by (nonlinear_arith)
            requires
                u == w * q + r,
                0 <= r < w,
                b * w < u <= (b + 1) * w,
        ;
    }
    if x.vanishes() {
        assert(u == 0) by (nonlinear_arith)
            requires
                u == 0 * p2(x.exp() + 1074),
        ;
        assert(0int / w == 0 && 0int % w == 0) by (nonlinear_arith)
            requires
                w >= 1,
        ;
    }
}

/// Rounding up gives nothing below, and less than one more; a whole number stays itself.
pub proof fn law_rounding_up_is_not_below(x: Double)
    requires
        x.finite() && !x.negative(),
    ensures
        x.ceil().finite(),
        !x.ceil().negative(),
        x.le(x.ceil()),
        units(x.ceil()) - units(x) < p2(1074),
        units(x.ceil()) % p2(1074) == 0,
        units(x) % p2(1074) == 0 ==> x.ceil() == x,
{
    reveal(Double::spec_ceil);
    lemma_fractional_value(x);
    lemma_p2_pos(1074);
    x.lemma_parts();
    let (u, w) = (units(x), p2(1074));
    vstd::arithmetic::div_mod::lemma_fundamental_div_mod(u, w);
    let (q, r) = (u / w, u % w);
    if x.fractional() {
        lemma_p2_pos(-x.exp());
        assert(0 <= x.sig() / p2(-x.exp()) <= x.sig()) by (nonlinear_arith)
            requires
                x.sig() >= 0,
                p2(-x.exp()) >= 1,
        ;
        lemma_p2_values();
        lemma_p2_mono(1, -x.exp());
        assert(q + 1 < TWO_53) by (nonlinear_arith)
            requires
                q == x.sig() / p2(-x.exp()),
                p2(-x.exp()) >= 2,
                0 <= x.sig() < TWO_53,
                TWO_53 > 4,
        ;
        let b = (q + 1) as nat;
        law_whole_numbers_have_their_value(b);
        assert(x.ceil() == whole(b));
        assert(b * w - u < w && b * w >= u) by (nonlinear_arith)
            requires
                u == w * q + r,
                0 < r < w,
                b == q + 1,
        ;
        assert((b * w) % w == 0) by {
            vstd::arithmetic::div_mod::lemma_mod_multiples_basic(b as int, w);
        }
        law_order_is_that_of_values(x, whole(b));
    }
}

/// Factors can be exchanged.
pub proof fn law_product_commutes(a: Double, b: Double)
    ensures
        a.times(b) == b.times(a),
{
    reveal(Double::spec_times);
    assert(a.sig() * b.sig() == b.sig() * a.sig()) by (nonlinear_arith);
}

/// The quotient of the smaller number is not the larger.
pub proof fn law_quotient_monotone(a: Double, b: Double, c: Double)
    requires
        a.finite() && !a.negative(),
        b.finite() && !b.negative(),
        c.finite() && !c.negative() && !c.vanishes(),
        a.le(b),
    ensures
        a.over(c).le(b.over(c)),
        !a.over(c).negative(),
{
    reveal(Double::spec_over);
    lemma_own_nearest(a);
    lemma_own_nearest(b);
    c.lemma_parts();
    law_order_is_that_of_values(a, b);
    let (n, m, d) = (a.sig(), b.sig(), c.sig());
    let (e, f, s) = (a.exp() - c.exp(), b.exp() - c.exp(), c.exp() + 1074);
    assert(n * d * p2(e + s) <= m * d * p2(f + s)) by (nonlinear_arith)
        requires
            n * p2(e + s) <= m * p2(f + s),
            d > 0,
    ;
    lemma_cross(n, d, e, m, d, f, s);
    lemma_nearest_fractions(n, d, e, m, d, f);
    let k = lemma_ulp_exists(n, d, e);
    lemma_nearest_range(n, d, e, k);
}

/// The square of a difference does not depend on the order of its terms.
pub proof fn law_squared_difference(a: Double, b: Double)
    requires
        a.finite(),
        b.finite(),
    ensures
        a.minus(b).times(a.minus(b)) == b.minus(a).times(b.minus(a)),
{
    let (x, y) = (a.minus(b), b.minus(a));
    let (na, nb) = (a.spec_negated(), b.spec_negated());
    a.lemma_parts();
    b.lemma_parts();
    assert(na.finite() && na.sig() == a.sig() && na.exp() == a.exp() && na.negative()
        != a.negative());
    assert(nb.finite() && nb.sig() == b.sig() && nb.exp() == b.exp() && nb.negative()
        != b.negative());
    let v = lemma_sum_in_unit(a, nb, -1074);
    let w = lemma_sum_in_unit(b, na, -1074);
    assert(w == -v);
    lemma_zero_rounds(1, -1074);
    assert(x.key() == -y.key());
    assert(x.mag() == y.mag());
    reveal(Double::spec_times);
}

/// A quotient of positive whole numbers is positive, and of full precision.
pub proof fn law_least_fraction(n: nat, d: nat)
    requires
        0 < n < TWO_53,
        0 < d < TWO_53,
    ensures
        whole(n).over(whole(d)).gt(Double::zero()),
        whole(n).over(whole(d)).mag() >= TWO_52,
{
    let least = Double { bits: TWO_52 as u64 };
    lemma_least_normal(n, d, least);
    law_whole_numbers_have_their_value(n);
    law_whole_numbers_have_their_value(d);
    law_quotient_keeps_order(whole(n), whole(d), least);
}

} // verus!
