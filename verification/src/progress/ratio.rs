//! Quotients as a 64-bit binary floating point number holds them: 53 significant bits, rounded to
//! the nearest, and to the even one of two that are as near. They are computed in integers.

use vstd::arithmetic::div_mod::*;
use vstd::arithmetic::mul::*;
use vstd::prelude::*;

verus! {

/// The largest number that is divided.
pub const LARGEST: u128 = 0x4_0000_0000_0000_0000;

/// The largest number of 52 bits, plus one.
pub const BITS_52: u128 = 0x10_0000_0000_0000;

/// The largest number of 53 bits, plus one.
pub const BITS_53: u128 = 0x20_0000_0000_0000;

/// The integer nearest to `n / d`, and the even one of two that are as near.
pub open spec fn rounded(n: nat, d: nat) -> nat {
    let q = n / d;
    let twice = 2 * (n % d);
    if twice < d || (twice == d && q % 2 == 0) {
        q
    } else {
        q + 1
    }
}

/// The least power of two that brings `n` up to `limit`; one for zero.
pub open spec fn scale_up(n: nat, limit: nat) -> nat
    decreases
            if n < limit {
                limit - n
            } else {
                0
            },
{
    if n == 0 || n >= limit {
        1
    } else {
        2 * scale_up(2 * n, limit)
    }
}

/// The least power of two that brings `limit` above `n`.
pub open spec fn scale_down(n: nat, limit: nat) -> nat
    decreases
            if limit <= n {
                n - limit + 1
            } else {
                0
            },
{
    if limit == 0 || n < limit {
        1
    } else {
        2 * scale_down(n, 2 * limit)
    }
}

/// A floating point number: `mantissa * down / up`, where `up` and `down` are powers of two.
pub struct Double {
    pub mantissa: u128,
    pub up: u128,
    pub down: u128,
}

/// The mantissa of the floating point number nearest to `n / d`.
pub open spec fn mantissa_of(n: nat, d: nat) -> nat {
    rounded(
        n * scale_up(n, d * BITS_52 as nat),
        d * scale_down(n, d * BITS_53 as nat),
    )
}

/// The integer part of the floating point number nearest to `n / d`.
pub open spec fn whole_part(n: nat, d: nat) -> nat {
    mantissa_of(n, d) * scale_down(n, d * BITS_53 as nat) / scale_up(
        n,
        d * BITS_52 as nat,
    )
}

/// The floating point number nearest to `n / d` in tenths, rounded to an integer.
pub open spec fn in_tenths(n: nat, d: nat) -> nat {
    rounded(
        10 * (mantissa_of(n, d) * scale_down(n, d * BITS_53 as nat)),
        scale_up(n, d * BITS_52 as nat),
    )
}

fn round(n: u128, d: u128) -> (r: u128)
    requires
        0 < d < 0x8000_0000_0000_0000_0000_0000_0000_0000,
    ensures
        r == rounded(n as nat, d as nat),
        r <= n / d + 1,
{
    let q: u128 = n / d;
    let twice: u128 = 2 * (n % d);
    if twice < d || (twice == d && q % 2 == 0) {
        q
    } else {
        proof {
            assert(n % d > 0);
            assert(q < u128::MAX) by (nonlinear_arith)
                requires
                    q == n / d,
                    n % d > 0,
                    d > 0,
                    n <= u128::MAX,
            ;
        }
        q + 1
    }
}

proof fn lemma_step(n: nat, pow: nat, scaled: nat)
    requires
        scaled == n * pow,
    ensures
        2 * scaled == n * (2 * pow),
{
    assert(2 * (n * pow) == n * (2 * pow)) by (nonlinear_arith);
}

/// The floating point number nearest to `n / d`.
pub fn nearest(n: u128, d: u128) -> (r: Double)
    requires
        0 < d <= LARGEST,
        n <= LARGEST,
    ensures
        r.mantissa == mantissa_of(n as nat, d as nat),
        r.up == scale_up(n as nat, d as nat * BITS_52 as nat),
        r.down == scale_down(n as nat, d as nat * BITS_53 as nat),
        r.mantissa <= BITS_53,
        0 < r.up <= 0x80_0000_0000_0000_0000_0000_0000_0000,
        0 < r.down <= 0x1_0000,
        r.up == 1 || r.down == 1,
        n < d * BITS_53 ==> r.down == 1,
        r.mantissa * r.down <= n + 2 * BITS_53,
{
    let low: u128 = d * BITS_52;
    let high: u128 = d * BITS_53;
    proof {
        assert(d as nat * BITS_53 as nat == 2 * low);
    }
    let mut up: u128 = 1;
    let mut num: u128 = n;
    proof {
        assert(n as nat * 1 == n as nat);
    }
    while num != 0 && num < low
        invariant
            low == d * BITS_52,
            0 < d <= LARGEST,
            n <= LARGEST,
            num == n as nat * up as nat,
            num == 0 ==> n == 0 && up == 1,
            num > 0 ==> up <= num,
            num < 2 * low || up == 1,
            up > 0,
            up as nat * scale_up(num as nat, low as nat) == scale_up(n as nat, low as nat),
            num <= LARGEST || num < 2 * low,
        decreases
                if num < low {
                    low - num
                } else {
                    0
                },
    {
        proof {
            lemma_step(n as nat, up as nat, num as nat);
            let s = scale_up(2 * num as nat, low as nat);
            assert(up as nat * (2 * s) == (2 * up as nat) * s) by (nonlinear_arith);
        }
        num = 2 * num;
        up = 2 * up;
    }
    proof {
        assert(up as nat * 1 == up as nat);
    }
    let mut down: u128 = 1;
    let mut den: u128 = d;
    let mut top: u128 = high;
    proof {
        assert(d as nat * 1 == d as nat);
    }
    while n >= top
        invariant
            0 < d <= LARGEST,
            n <= LARGEST,
            top == BITS_53 * den,
            den == d as nat * down as nat,
            down > 0,
            down <= den,
            den <= LARGEST,
            down == 1 || top <= 2 * n,
            down as nat * scale_down(n as nat, top as nat) == scale_down(n as nat, high as nat),
        decreases
                if top <= n {
                    n - top + 1
                } else {
                    0
                },
    {
        proof {
            lemma_step(d as nat, down as nat, den as nat);
            let s = scale_down(n as nat, 2 * top as nat);
            assert(down as nat * (2 * s) == (2 * down as nat) * s) by (nonlinear_arith);
        }
        den = 2 * den;
        down = 2 * down;
        top = 2 * top;
    }
    proof {
        assert(down as nat * 1 == down as nat);
    }
    let mantissa = round(num, den);
    proof {
        assert(up == 1 || down == 1) by {
            if up > 1 {
                assert(n < low);
            }
        }
        assert(num < BITS_53 * den) by {
            if up > 1 {
                assert(den == d);
            } else {
                assert(num == n);
            }
        }
        assert(num / den < BITS_53) by (nonlinear_arith)
            requires
                num < BITS_53 * den,
                den > 0,
        ;
        if down > 1 {
            assert(num == n);
            lemma_rounded_is_near(n as nat, den as nat);
            assert(mantissa * down <= mantissa * den) by (nonlinear_arith)
                requires
                    down <= den,
            ;
        } else {
            assert(mantissa * 1 == mantissa);
        }
    }
    Double { mantissa, up, down }
}

/// The integer part of the floating point number nearest to `n / d`.
pub fn whole(n: u128, d: u128) -> (r: u128)
    requires
        0 < d <= LARGEST,
        n <= LARGEST,
    ensures
        r == whole_part(n as nat, d as nat),
        r <= n + 2 * BITS_53,
{
    let x = nearest(n, d);
    let y: u128 = x.mantissa * x.down;
    proof {
        let up = x.up;
        assert(y / up <= y) by (nonlinear_arith)
            requires
                up > 0,
        ;
    }
    y / x.up
}

/// The floating point number nearest to `n / d` in tenths, rounded to an integer.
pub fn tenths(n: u128, d: u128) -> (r: u128)
    requires
        0 < d <= LARGEST,
        n <= LARGEST,
    ensures
        r == in_tenths(n as nat, d as nat),
        n < d * BITS_53 ==> r <= 10 * BITS_53 + 1,
{
    let x = nearest(n, d);
    let y: u128 = 10 * (x.mantissa * x.down);
    let r = round(y, x.up);
    proof {
        let up = x.up;
        assert(y / up <= y) by (nonlinear_arith)
            requires
                up > 0,
        ;
        assert(x.mantissa * 1 == x.mantissa);
    }
    r
}

// ---------------------------------------------------------------------------
// Laws
// ---------------------------------------------------------------------------

/// A multiple is divided without a remainder.
pub proof fn lemma_rounded_multiple(k: nat, d: nat)
    requires
        d > 0,
    ensures
        rounded(k * d, d) == k,
{
    lemma_div_by_multiple(k as int, d as int);
    lemma_mod_multiples_basic(k as int, d as int);
}

/// Rounding is off by half at most.
pub proof fn lemma_rounded_is_near(n: nat, d: nat)
    requires
        d > 0,
    ensures
        2 * (rounded(n, d) * d) <= 2 * n + d,
        2 * n <= 2 * (rounded(n, d) * d) + d,
{
    lemma_fundamental_div_mod(n as int, d as int);
    let q = n / d;
    assert((q + 1) * d == q * d + d) by (nonlinear_arith);
    lemma_mul_is_commutative(q as int, d as int);
}

proof fn lemma_scale_up_positive(n: nat, limit: nat)
    ensures
        scale_up(n, limit) > 0,
    decreases
            if n < limit {
                limit - n
            } else {
                0
            },
{
    if n != 0 && n < limit {
        lemma_scale_up_positive(2 * n, limit);
    }
}

/// A whole number of units is held exactly: as an integer, and in tenths. This holds of numbers
/// that fit 53 bits.
pub proof fn lemma_whole_numbers_are_exact(k: nat, d: nat)
    requires
        d > 0,
        k < BITS_53,
    ensures
        whole_part(k * d, d) == k,
        in_tenths(k * d, d) == 10 * k,
{
    let n = k * d;
    let up = scale_up(n, d * BITS_52 as nat);
    lemma_scale_up_positive(n, d * BITS_52 as nat);
    assert(n < d * BITS_53 as nat) by (nonlinear_arith)
        requires
            n == k * d,
            k < BITS_53,
            d > 0,
    ;
    assert(scale_down(n, d * BITS_53 as nat) == 1);
    assert(d * 1 == d);
    assert(n * up == (k * up) * d) by (nonlinear_arith)
        requires
            n == k * d,
    ;
    lemma_rounded_multiple(k * up, d);
    assert(mantissa_of(n, d) == k * up);
    assert((k * up) * 1 == k * up);
    lemma_div_by_multiple(k as int, up as int);
    assert(10 * (k * up) == (10 * k) * up) by (nonlinear_arith);
    lemma_rounded_multiple(10 * k, up);
}

/// No positive integer is rounded to zero.
pub proof fn lemma_whole_part_is_positive(n: nat)
    requires
        n > 0,
    ensures
        whole_part(n, 1) > 0,
{
    if n < BITS_53 {
        assert(n * 1 == n);
        lemma_whole_numbers_are_exact(n, 1);
    } else {
        let down = scale_down(n, 1 * BITS_53 as nat);
        lemma_scale_down(n, BITS_53 as nat);
        assert(scale_up(n, BITS_52 as nat) == 1);
        assert(n * 1 == n);
        assert(1 * down == down);
        lemma_rounded_is_near(n, down);
        let m = mantissa_of(n, 1);
        if m == 0 {
            assert(m * down == 0) by (nonlinear_arith)
                requires
                    m == 0,
            ;
        }
        assert(m * down > 0) by (nonlinear_arith)
            requires
                m > 0,
                down > 0,
        ;
    }
}

proof fn lemma_scale_down(n: nat, limit: nat)
    requires
        limit > 0,
    ensures
        scale_down(n, limit) > 0,
        n >= limit ==> scale_down(n, limit) * limit <= 2 * n,
    decreases
            if limit <= n {
                n - limit + 1
            } else {
                0
            },
{
    if n >= limit {
        lemma_scale_down(n, 2 * limit);
        let s = scale_down(n, 2 * limit);
        assert((2 * s) * limit == s * (2 * limit)) by (nonlinear_arith);
        if n < 2 * limit {
            assert(s == 1);
            assert(1 * (2 * limit) == 2 * limit);
        }
    }
}

/// A half is rounded to the even side.
pub proof fn lemma_halves_go_to_the_even_side(q: nat, d: nat)
    requires
        d > 0,
    ensures
        rounded(q * (2 * d) + d, 2 * d) % 2 == 0,
{
    let n = q * (2 * d) + d;
    assert(n / (2 * d) == q && n % (2 * d) == d) by {
        vstd::arithmetic::div_mod::lemma_fundamental_div_mod_converse(
            n as int,
            2 * d as int,
            q as int,
            d as int,
        );
    }
}

proof fn lemma_scale_up(n: nat, limit: nat)
    ensures
        scale_up(n, limit) >= 1,
        n > 0 && 8 * n < limit ==> scale_up(n, limit) >= 16,
    decreases
            if n < limit {
                limit - n
            } else {
                0
            },
{
    if n > 0 && n < limit {
        lemma_scale_up(2 * n, limit);
        if 8 * n < limit {
            lemma_scale_up(4 * n, limit);
            lemma_scale_up(8 * n, limit);
            lemma_scale_up(16 * n, limit);
            assert(scale_up(n, limit) == 2 * scale_up(2 * n, limit));
            assert(scale_up(2 * n, limit) == 2 * scale_up(4 * n, limit));
            assert(scale_up(4 * n, limit) == 2 * scale_up(8 * n, limit));
            assert(scale_up(8 * n, limit) == 2 * scale_up(16 * n, limit));
        }
    }
}

/// The integer part of a quotient is the quotient, cut to an integer, or rounded to the next one
/// where it is as near to that as floating point numbers can tell.
pub proof fn lemma_whole_part_is_near(n: nat, d: nat)
    requires
        d > 0,
        n < d * BITS_53,
    ensures
        2 * (whole_part(n, d) * d) <= 2 * n + d,
        n < (whole_part(n, d) + 1) * d,
{
    let u = scale_up(n, d * BITS_52 as nat);
    lemma_scale_up(n, d * BITS_52 as nat);
    assert(scale_down(n, d * BITS_53 as nat) == 1);
    let m = mantissa_of(n, d);
    assert(d * 1 == d);
    lemma_rounded_is_near(n * u, d);
    assert(m * 1 == m);
    let w = whole_part(n, d);
    assert(w * u <= m < w * u + u) by (nonlinear_arith)
        requires
            w == m / u,
            u > 0,
    ;
    assert(2 * (w * d) <= 2 * n + d) by (nonlinear_arith)
        requires
            w * u <= m,
            2 * (m * d) <= 2 * (n * u) + d,
            u >= 1,
            d > 0,
    {
        assert(2 * (w * d) * u <= 2 * (m * d));
        assert((2 * n + d) * u >= 2 * (n * u) + d);
    }
    assert(n < (w + 1) * d) by (nonlinear_arith)
        requires
            m < w * u + u,
            2 * (n * u) <= 2 * (m * d) + d,
            u >= 1,
            d > 0,
    {
        assert(m + 1 <= (w + 1) * u);
        assert((m + 1) * d <= ((w + 1) * u) * d);
        assert(2 * (n * u) <= 2 * (((w + 1) * u) * d) - d);
        assert(n * u < ((w + 1) * d) * u);
    }
}

/// A quotient in tenths is off by less than a tenth and a half of one.
pub proof fn lemma_tenths_are_near(n: nat, d: nat)
    requires
        d > 0,
        8 * n < d * BITS_52,
    ensures
        in_tenths(n, d) * d <= 10 * n + d,
        10 * n <= in_tenths(n, d) * d + d,
{
    let u = scale_up(n, d * BITS_52 as nat);
    lemma_scale_up(n, d * BITS_52 as nat);
    assert(d * BITS_53 == 2 * (d * BITS_52)) by (nonlinear_arith)
        requires
            BITS_53 == 2 * BITS_52,
    ;
    assert(scale_down(n, d * BITS_53 as nat) == 1);
    let m = mantissa_of(n, d);
    assert(d * 1 == d);
    lemma_rounded_is_near(n * u, d);
    assert(m * 1 == m);
    let t = in_tenths(n, d);
    lemma_rounded_is_near(10 * m, u);
    if n == 0 {
        assert(0 * u == 0) by (nonlinear_arith);
        assert(m == 0) by {
            lemma_rounded_multiple(0, d);
            assert(0 * d == 0) by (nonlinear_arith);
        }
        assert(t == 0) by {
            lemma_rounded_multiple(0, u);
        }
        assert(0 * d == 0) by (nonlinear_arith);
    } else {
        assert(t * d <= 10 * n + d) by (nonlinear_arith)
            requires
                2 * (t * u) <= 2 * (10 * m) + u,
                2 * (m * d) <= 2 * (n * u) + d,
                u >= 10,
                d > 0,
        {
            assert(2 * (t * u) * d <= (20 * m + u) * d);
            assert(20 * (m * d) <= 20 * (n * u) + 10 * d);
            assert(10 * d <= u * d);
            assert(2 * (t * d) * u <= (20 * n + 2 * d) * u);
        }
        assert(10 * n <= t * d + d) by (nonlinear_arith)
            requires
                2 * (10 * m) <= 2 * (t * u) + u,
                2 * (n * u) <= 2 * (m * d) + d,
                u >= 10,
                d > 0,
        {
            assert((20 * m) * d <= (2 * (t * u) + u) * d);
            assert(20 * (n * u) <= 20 * (m * d) + 10 * d);
            assert(10 * d <= u * d);
            assert(20 * n * u <= (2 * (t * d) + 2 * d) * u);
        }
    }
}

} // verus!
