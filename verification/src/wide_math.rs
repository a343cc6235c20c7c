//! 256-bit multiply-then-divide arithmetic over `u128` values.
//!
//! Products of two `u128` amounts routinely exceed 128 bits in the matcher's
//! price-overlap test and fee math, so intermediate values are carried as
//! `(hi, lo)` pairs worth `hi * 2^128 + lo`. Every function has an exact
//! contract over mathematical integers.

use vstd::arithmetic::div_mod::{
    lemma_basic_div, lemma_div_denominator, lemma_div_is_ordered,
    lemma_fundamental_div_mod, lemma_fundamental_div_mod_converse,
};
use vstd::arithmetic::power2::{
    lemma2_to64, lemma2_to64_rest, lemma_pow2_adds, lemma_pow2_pos, lemma_pow2_unfold, pow2,
};
use vstd::prelude::*;

verus! {

/// 2^64, the base used to split a `u128` into two limbs.
pub const LIMB: u128 = 0x1_0000_0000_0000_0000;

/// 2^127, used to read the top bit of a `u128`.
pub const TOP_BIT: u128 = 0x8000_0000_0000_0000_0000_0000_0000_0000;

/// 2^128 as a mathematical integer.
pub open spec fn base128() -> int {
    (TOP_BIT as int) * 2
}

/// The value carried by a `(hi, lo)` pair: `hi * 2^128 + lo`.
pub open spec fn wval(hi: u128, lo: u128) -> int {
    hi * base128() + lo
}

/// Division rounding towards positive infinity (for positive divisors).
pub open spec fn ceil_div(x: int, d: int) -> int {
    (x + d - 1) / d
}

/// Concrete values of the powers of two this module keeps referring to.
proof fn lemma_pow2_constants()
    ensures
        pow2(64) == LIMB,
        pow2(63) == 0x8000_0000_0000_0000,
        pow2(127) == TOP_BIT,
        pow2(128) == base128(),
{
    lemma2_to64();
    lemma2_to64_rest();
    lemma_pow2_adds(64, 63);
    lemma_pow2_adds(64, 64);
}

/// Addition with an explicit carry: `sum.0 + sum.1 * 2^128 == x + y`.
pub fn add_carry(x: u128, y: u128) -> (sum: (u128, u128))
    ensures
        sum.0 + sum.1 * base128() == x + y,
        sum.1 <= 1,
{
    if x <= u128::MAX - y {
        (x + y, 0)
    } else {
        ((x - (u128::MAX - y)) - 1, 1)
    }
}

/// Full 256-bit product of two `u128` values.
pub fn mul_wide(a: u128, b: u128) -> (r: (u128, u128))
    ensures
        wval(r.0, r.1) == a * b,
{
    let a1 = a / LIMB;
    let a0 = a % LIMB;
    let b1 = b / LIMB;
    let b0 = b % LIMB;
    proof {
        lemma_fundamental_div_mod(a as int, LIMB as int);
        lemma_fundamental_div_mod(b as int, LIMB as int);
        lemma_div_is_ordered(a as int, u128::MAX as int, LIMB as int);
        lemma_div_is_ordered(b as int, u128::MAX as int, LIMB as int);
        assert(a1 * b1 <= (LIMB - 1) * (LIMB - 1) && a1 * b0 <= (LIMB - 1) * (LIMB - 1)
            && a0 * b1 <= (LIMB - 1) * (LIMB - 1) && a0 * b0 <= (LIMB - 1) * (LIMB - 1))
            by (nonlinear_arith)
            requires
                0 <= a1 < LIMB,
                0 <= b1 < LIMB,
                0 <= a0 < LIMB,
                0 <= b0 < LIMB,
        ;
    }
    let hh = a1 * b1;
    let hl = a1 * b0;
    let lh = a0 * b1;
    let ll = a0 * b0;
    let hl_h = hl / LIMB;
    let hl_l = hl % LIMB;
    let lh_h = lh / LIMB;
    let lh_l = lh % LIMB;
    proof {
        lemma_fundamental_div_mod(hl as int, LIMB as int);
        lemma_fundamental_div_mod(lh as int, LIMB as int);
        lemma_div_is_ordered(hl as int, ((LIMB - 1) * (LIMB - 1)) as int, LIMB as int);
        lemma_div_is_ordered(lh as int, ((LIMB - 1) * (LIMB - 1)) as int, LIMB as int);
    }
    let (lo1, c1) = add_carry(ll, hl_l * LIMB);
    let (lo, c2) = add_carry(lo1, lh_l * LIMB);
    proof {
        assert(a * b == hh * base128() + hl * LIMB + lh * LIMB + ll) by (nonlinear_arith)
            requires
                a == a1 * LIMB + a0,
                b == b1 * LIMB + b0,
                hh == a1 * b1,
                hl == a1 * b0,
                lh == a0 * b1,
                ll == a0 * b0,
                LIMB == 0x1_0000_0000_0000_0000,
                base128() == (LIMB as int) * (LIMB as int),
        ;
        assert(hl * LIMB == hl_h * base128() + hl_l * LIMB) by (nonlinear_arith)
            requires
                hl == hl_h * LIMB + hl_l,
                LIMB == 0x1_0000_0000_0000_0000,
                base128() == (LIMB as int) * (LIMB as int),
        ;
        assert(lh * LIMB == lh_h * base128() + lh_l * LIMB) by (nonlinear_arith)
            requires
                lh == lh_h * LIMB + lh_l,
                LIMB == 0x1_0000_0000_0000_0000,
                base128() == (LIMB as int) * (LIMB as int),
        ;
    }
    let hi = ((hh + hl_h) + (lh_h + c1)) + c2;
    proof {
        assert((hh + hl_h + lh_h + c1 + c2) * base128()
            == hh * base128() + hl_h * base128() + lh_h * base128() + c1 * base128()
                + c2 * base128()) by (nonlinear_arith);
        assert(wval(hi, lo) == a * b);
    }
    (hi, lo)
}

/// The value of the top `i` bits of `(n_hi, n_lo)`, read most significant first.
spec fn prefix_val(n_hi: u128, n_lo: u128, i: nat) -> int
    recommends
        i <= 128,
{
    (n_hi as int) * (pow2(i) as int) + (n_lo as int) / (pow2((128 - i) as nat) as int)
}

/// 256-by-128-bit division: full 256-bit quotient plus remainder,
/// by binary long division over the low limb.
pub fn div_rem_wide(n_hi: u128, n_lo: u128, d: u128) -> (r: ((u128, u128), u128))
    requires
        d > 0,
    ensures
        wval(r.0.0, r.0.1) == wval(n_hi, n_lo) / (d as int),
        r.1 == wval(n_hi, n_lo) % (d as int),
        r.1 < d,
{
    let mut q_hi: u128 = 0;
    let mut q_lo: u128 = n_hi / d;
    let mut rem: u128 = n_hi % d;
    let mut mask: u128 = TOP_BIT;
    let mut i: usize = 0;
    proof {
        lemma_pow2_constants();
        lemma_fundamental_div_mod(n_hi as int, d as int);
        lemma_basic_div(n_lo as int, pow2(128) as int);
        assert(prefix_val(n_hi, n_lo, 0) == wval(q_hi, q_lo) * d + rem) by {
            lemma2_to64();
            assert(pow2(0) == 1);
            assert((n_lo as int) / (pow2(128) as int) == 0);
            assert(wval(q_hi, q_lo) == n_hi as int / d as int);
            assert((n_hi as int / d as int) * d == (d as int) * (n_hi as int / d as int))
                by (nonlinear_arith);
        }
    }
    while i < 128
        invariant
            d > 0,
            i <= 128,
            rem < d,
            i < 128 ==> mask == pow2((127 - i) as nat),
            prefix_val(n_hi, n_lo, i as nat) == wval(q_hi, q_lo) * d + rem,
        decreases 128 - i,
    {
        let ghost quot = wval(q_hi, q_lo);
        let ghost old_rem = rem as int;
        proof {
            lemma_pow2_constants();
            lemma_pow2_pos((127 - i) as nat);
            lemma_pow2_pos((128 - i) as nat);
            lemma_pow2_pos(i as nat);
        }
        let bit: u128 = (n_lo / mask) % 2;
        // One more dividend bit moves into the remainder.
        let qbit: u128;
        if rem >= TOP_BIT {
            // 2 * rem + bit >= 2^128 > d, so the next quotient bit is 1.
            let gap = d - rem;
            qbit = 1;
            rem = (rem - gap) + bit;
        } else {
            let shifted = 2 * rem + bit;
            if shifted >= d {
                qbit = 1;
                rem = shifted - d;
            } else {
                qbit = 0;
                rem = shifted;
            }
        }
        proof {
            assert(rem == 2 * old_rem + bit - qbit * d);
            assert(rem < d);
            // The quotient still fits when shifted left once.
            lemma_quotient_bound(n_hi, n_lo, d, q_hi, q_lo, old_rem, i as nat);
        }
        let carry: u128 = q_lo / TOP_BIT;
        let new_q_lo = (q_lo % TOP_BIT) * 2 + qbit;
        let new_q_hi = 2 * q_hi + carry;
        proof {
            lemma_fundamental_div_mod(q_lo as int, TOP_BIT as int);
            lemma_div_is_ordered(q_lo as int, u128::MAX as int, TOP_BIT as int);
            assert(wval(new_q_hi, new_q_lo) == 2 * quot + qbit);
        }
        q_hi = new_q_hi;
        q_lo = new_q_lo;
        proof {
            lemma_prefix_step(n_hi, n_lo, i as nat);
            assert(prefix_val(n_hi, n_lo, (i + 1) as nat)
                == 2 * prefix_val(n_hi, n_lo, i as nat) + bit) by {
                assert(bit == ((n_lo as int) / (pow2((127 - i) as nat) as int)) % 2);
            }
            assert(2 * (quot * d) == (2 * quot) * d) by (nonlinear_arith);
            assert((2 * quot + qbit) * d == (2 * quot) * d + qbit * d) by (nonlinear_arith);
            assert(prefix_val(n_hi, n_lo, (i + 1) as nat) == wval(q_hi, q_lo) * d + rem);
        }
        if i < 127 {
            proof {
                lemma_pow2_unfold((127 - i) as nat);
            }
            mask = mask / 2;
        }
        i = i + 1;
    }
    proof {
        lemma2_to64();
        assert(pow2(0) == 1);
        assert((n_lo as int) / (pow2(0) as int) == n_lo);
        assert(prefix_val(n_hi, n_lo, 128) == wval(n_hi, n_lo)) by {
            lemma_pow2_constants();
        }
        lemma_fundamental_div_mod_converse(
            wval(n_hi, n_lo), d as int, wval(q_hi, q_lo), rem as int);
    }
    ((q_hi, q_lo), rem)
}

/// Reading one more bit doubles the prefix and adds that bit.
proof fn lemma_prefix_step(n_hi: u128, n_lo: u128, i: nat)
    requires
        i < 128,
    ensures
        prefix_val(n_hi, n_lo, i + 1)
            == 2 * prefix_val(n_hi, n_lo, i) + ((n_lo as int) / (pow2((127 - i) as nat) as int)) % 2,
{
    let k = (127 - i) as nat;
    lemma_pow2_pos(k);
    lemma_pow2_pos(i);
    lemma_pow2_pos((128 - i) as nat);
    lemma_fundamental_div_mod((n_lo as int) / (pow2(k) as int), 2);
    lemma_div_denominator(n_lo as int, pow2(k) as int, 2);
    lemma_pow2_adds(k, 1);
    lemma2_to64();
    assert(pow2(1) == 2);
    assert(pow2(k) * 2 == pow2(k + 1));
    assert(((n_lo as int) / (pow2(k) as int)) / 2 == (n_lo as int) / ((pow2(k) * 2) as int));
    assert((n_lo as int) / (pow2(k) as int)
        == 2 * ((n_lo as int) / (pow2((128 - i) as nat) as int))
            + ((n_lo as int) / (pow2(k) as int)) % 2);
    lemma_pow2_unfold(i + 1);
    assert(n_hi * pow2(i + 1) == 2 * (n_hi * pow2(i))) by (nonlinear_arith)
        requires
            pow2(i + 1) == 2 * pow2(i),
    ;
}

/// Ceiling division equals floor division plus one exactly on non-multiples.
pub proof fn lemma_ceil_div_split(x: int, c: int)
    requires
        x >= 0,
        c > 0,
    ensures
        x % c == 0 ==> ceil_div(x, c) == x / c,
        x % c != 0 ==> ceil_div(x, c) == x / c + 1,
{
    lemma_fundamental_div_mod(x, c);
    let q = x / c;
    let r = x % c;
    assert(c * q == q * c) by (nonlinear_arith);
    assert((q + 1) * c == q * c + c) by (nonlinear_arith);
    if r == 0 {
        lemma_fundamental_div_mod_converse(x + c - 1, c, q, c - 1);
    } else {
        lemma_fundamental_div_mod_converse(x + c - 1, c, q + 1, r - 1);
    }
}

/// Comparing 256-bit values limb-wise agrees with comparing their worths.
proof fn lemma_wval_le(h1: u128, l1: u128, h2: u128, l2: u128)
    ensures
        (wval(h1, l1) <= wval(h2, l2)) == (h1 < h2 || (h1 == h2 && l1 <= l2)),
{
    if h1 < h2 {
        assert(h1 * base128() + base128() <= h2 * base128()) by (nonlinear_arith)
            requires
                h1 < h2,
        ;
    }
    if h2 < h1 {
        assert(h2 * base128() + base128() <= h1 * base128()) by (nonlinear_arith)
            requires
                h2 < h1,
        ;
    }
}

/// Multiplying a ceiling quotient back by its divisor reaches the
/// dividend.
pub proof fn lemma_ceil_div_mul_ge(x: int, d: int)
    requires
        x >= 0,
        d > 0,
    ensures
        ceil_div(x, d) * d >= x,
{
    lemma_fundamental_div_mod(x + d - 1, d);
    let q = (x + d - 1) / d;
    let r = (x + d - 1) % d;
    assert(d * q == x + d - 1 - r);
    assert(q * d == d * q) by (nonlinear_arith);
}

/// Whether `a * b <= c * d`, with the products taken over full integers.
pub fn mul_le(a: u128, b: u128, c: u128, d: u128) -> (r: bool)
    ensures
        r == (a * b <= c * d),
{
    let (h1, l1) = mul_wide(a, b);
    let (h2, l2) = mul_wide(c, d);
    proof {
        lemma_wval_le(h1, l1, h2, l2);
    }
    h1 < h2 || (h1 == h2 && l1 <= l2)
}

/// `floor(a * b / c)` when it fits in a `u128`, `None` otherwise.
pub fn mul_div_floor(a: u128, b: u128, c: u128) -> (r: Option<u128>)
    requires
        c > 0,
    ensures
        match r {
            Some(q) => q == a * b / (c as int),
            None => a * b / (c as int) > u128::MAX,
        },
{
    let (hi, lo) = mul_wide(a, b);
    let ((q_hi, q_lo), _) = div_rem_wide(hi, lo, c);
    if q_hi == 0 {
        Some(q_lo)
    } else {
        None
    }
}

/// `ceil(a * b / c)` when it fits in a `u128`, `None` otherwise.
pub fn mul_div_ceil(a: u128, b: u128, c: u128) -> (r: Option<u128>)
    requires
        c > 0,
    ensures
        match r {
            Some(q) => q == ceil_div(a * b, c as int),
            None => ceil_div(a * b, c as int) > u128::MAX,
        },
{
    let (hi, lo) = mul_wide(a, b);
    let ((q_hi, q_lo), rest) = div_rem_wide(hi, lo, c);
    proof {
        lemma_ceil_div_split(a * b, c as int);
    }
    if q_hi != 0 {
        None
    } else if rest == 0 {
        Some(q_lo)
    } else if q_lo == u128::MAX {
        None
    } else {
        Some(q_lo + 1)
    }
}

/// A 256-bit value times a `u128`, still as a 256-bit pair;
/// `None` when the product would not fit in 256 bits.
pub fn wide_mul_u128(hi: u128, lo: u128, m: u128) -> (r: Option<(u128, u128)>)
    ensures
        match r {
            Some(p) => wval(p.0, p.1) == wval(hi, lo) * m,
            None => wval(hi, lo) * m >= base128() * base128(),
        },
{
    let (p1h, p1l) = mul_wide(lo, m);
    let (p2h, p2l) = mul_wide(hi, m);
    proof {
        assert(wval(hi, lo) * m == (hi * m) * base128() + lo * m) by (nonlinear_arith)
            requires
                wval(hi, lo) == hi * base128() + lo,
        ;
        assert((hi * m) * base128() == (p2h * base128()) * base128() + p2l * base128())
            by (nonlinear_arith)
            requires
                hi * m == p2h * base128() + p2l,
        ;
    }
    if p2h > 0 {
        proof {
            assert((p2h * base128()) * base128() >= base128() * base128()) by (nonlinear_arith)
                requires
                    p2h >= 1,
            ;
        }
        return None;
    }
    let (s, c) = add_carry(p1h, p2l);
    if c > 0 {
        proof {
            assert((p1h + p2l) * base128() >= base128() * base128()) by (nonlinear_arith)
                requires
                    p1h + p2l >= base128(),
            ;
            assert((p1h + p2l) * base128() == p1h * base128() + p2l * base128())
                by (nonlinear_arith);
        }
        return None;
    }
    proof {
        assert((p1h + p2l) * base128() == p1h * base128() + p2l * base128())
            by (nonlinear_arith);
    }
    Some((s, p1l))
}

/// While bits remain, the accumulated quotient stays below 2^255.
proof fn lemma_quotient_bound(
    n_hi: u128,
    n_lo: u128,
    d: u128,
    q_hi: u128,
    q_lo: u128,
    rem: int,
    i: nat,
)
    requires
        d > 0,
        0 <= rem,
        i < 128,
        prefix_val(n_hi, n_lo, i) == wval(q_hi, q_lo) * d + rem,
    ensures
        q_hi < TOP_BIT,
{
    lemma_pow2_constants();
    lemma_pow2_pos(i);
    lemma_pow2_pos((128 - i) as nat);
    let p = pow2(i) as int;
    let quot = wval(q_hi, q_lo);
    assert(n_hi * p <= (base128() - 1) * p) by (nonlinear_arith)
        requires
            0 <= n_hi <= base128() - 1,
            p > 0,
    ;
    assert((n_lo as int) / (pow2((128 - i) as nat) as int) < p) by {
        lemma_pow2_adds((128 - i) as nat, i);
        assert(pow2((128 - i) as nat) * pow2(i) == pow2(128));
        assert(n_lo < pow2(128));
        vstd::arithmetic::div_mod::lemma_multiply_divide_lt(
            n_lo as int, pow2((128 - i) as nat) as int, p);
    }
    assert(prefix_val(n_hi, n_lo, i) < base128() * p);
    assert(quot <= quot * d) by (nonlinear_arith)
        requires
            d >= 1,
            quot >= 0,
    ;
    assert(quot < base128() * p);
    assert(p <= pow2(127)) by {
        if i < 127 {
            vstd::arithmetic::power2::lemma_pow2_strictly_increases(i, 127);
        }
    }
    assert(base128() * p <= base128() * pow2(127)) by (nonlinear_arith)
        requires
            p <= pow2(127),
            base128() > 0,
    ;
    assert(base128() * pow2(127) == TOP_BIT * base128()) by (nonlinear_arith)
        requires
            pow2(127) == TOP_BIT,
    ;
    assert(q_hi < TOP_BIT) by (nonlinear_arith)
        requires
            q_hi * base128() + q_lo < TOP_BIT * base128(),
            q_lo >= 0,
            base128() > 0,
    ;
}

} // verus!
