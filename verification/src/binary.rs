//! Binary floating point with 53-bit significands, on integers.
//!
//! A positive fraction is rounded to the nearest number `m * 2^e` with `2^52 <= m <= 2^53`, ties to
//! the even `m`: what an IEEE double holds, as long as its exponent range is not left.

use vstd::prelude::*;
use vstd::arithmetic::power2::*;
use vstd::arithmetic::div_mod::*;

verus! {

/// The fraction `n / d` rounded to an integer, ties to even.
pub open spec fn half_even(n: nat, d: nat) -> nat {
    let q = n / d;
    let r = n % d;
    if 2 * r < d || (2 * r == d && q % 2 == 0) {
        q
    } else {
        q + 1
    }
}

/// The number `m * 2^e`.
pub struct Binary {
    pub m: nat,
    pub e: int,
}

/// `x * 2^e` for a positive `e`, else `x`.
pub open spec fn scaled_up(x: nat, e: int) -> nat {
    if e > 0 {
        x * pow2(e as nat)
    } else {
        x
    }
}

impl Binary {
    /// The number as a fraction: its numerator.
    pub open spec fn num(self) -> nat {
        scaled_up(self.m, self.e)
    }

    /// The number as a fraction: its denominator.
    pub open spec fn den(self) -> nat {
        scaled_up(1, -self.e)
    }

    /// The integer part.
    pub open spec fn whole(self) -> nat {
        self.num() / self.den()
    }
}

/// Is `2^k <= n / d < 2^(k+1)`?
pub open spec fn within(n: nat, d: nat, k: int) -> bool {
    scaled_up(d, k) <= scaled_up(n, -k) < 2 * scaled_up(d, k)
}

/// The `k` with `2^k <= n / d < 2^(k+1)`, for a positive fraction.
pub open spec fn exponent(n: nat, d: nat) -> int
    decreases
            (if n < d {
                1nat
            } else {
                0nat
            }),
            (if n < d {
                d - n
            } else {
                n - d
            }),
{
    if n == 0 || d == 0 {
        0
    } else if n >= 2 * d {
        exponent(n, 2 * d) + 1
    } else if n < d {
        exponent(2 * n, d) - 1
    } else {
        0
    }
}

/// The fraction `n / d` rounded to 53 significant bits, ties to even.
pub open spec fn nearest(n: nat, d: nat) -> Binary {
    if n == 0 {
        Binary { m: 0, e: 0 }
    } else {
        let e = exponent(n, d) - 52;
        Binary { m: half_even(scaled_up(n, -e), scaled_up(d, e)), e }
    }
}

/// The quotient of two numbers, rounded.
pub open spec fn quotient(a: Binary, b: Binary) -> Binary {
    nearest(a.num() * b.den(), a.den() * b.num())
}

/// `exponent` is what it says.
pub proof fn lemma_exponent(n: nat, d: nat)
    requires
        n > 0,
        d > 0,
    ensures
        within(n, d, exponent(n, d)),
    decreases
            (if n < d {
                1nat
            } else {
                0nat
            }),
            (if n < d {
                d - n
            } else {
                n - d
            }),
{
    lemma2_to64();
    if n >= 2 * d {
        lemma_exponent(n, 2 * d);
        let k = exponent(n, 2 * d);
        if k < 0 {
            lemma_pow2_unfold((-k) as nat);
            lemma_pow2_pos((-k - 1) as nat);
            let p = pow2((-k - 1) as nat);
            assert(n * (2 * p) >= n * 2) by (nonlinear_arith)
                requires
                    p >= 1,
            ;
        } else {
            lemma_pow2_unfold((k + 1) as nat);
            let p = pow2(k as nat);
            assert(d * (2 * p) == (2 * d) * p) by (nonlinear_arith);
        }
    } else if n < d {
        lemma_exponent(2 * n, d);
        let k = exponent(2 * n, d);
        if k > 0 {
            lemma_pow2_unfold(k as nat);
            lemma_pow2_pos((k - 1) as nat);
            let p = pow2((k - 1) as nat);
            assert(d * (2 * p) >= d * 2) by (nonlinear_arith)
                requires
                    p >= 1,
            ;
        } else {
            lemma_pow2_unfold((1 - k) as nat);
            let p = pow2((-k) as nat);
            assert(n * (2 * p) == (2 * n) * p) by (nonlinear_arith);
        }
    }
}

/// Only one `k` fits.
pub proof fn lemma_within_unique(n: nat, d: nat, j: int, k: int)
    requires
        n > 0,
        d > 0,
        within(n, d, j),
        within(n, d, k),
    ensures
        j == k,
{
    if j < k {
        lemma_within_ordered(n, d, j, k);
    } else if k < j {
        lemma_within_ordered(n, d, k, j);
    }
}

proof fn lemma_within_ordered(n: nat, d: nat, j: int, k: int)
    requires
        n > 0,
        d > 0,
        j < k,
    ensures
        !(within(n, d, j) && within(n, d, k)),
{
    lemma2_to64();
    assert(d * 1 == d && n * 1 == n);
    if j >= 0 {
        assert(scaled_up(d, j) == d * pow2(j as nat));
        lemma_pow2_unfold((j + 1) as nat);
        if j + 1 < k {
            lemma_pow2_strictly_increases((j + 1) as nat, k as nat);
        }
        let (p, q) = (pow2(j as nat), pow2(k as nat));
        assert(d * q >= 2 * (d * p)) by (nonlinear_arith)
            requires
                q >= 2 * p,
        ;
    } else if k <= 0 {
        assert(scaled_up(n, -k) == n * pow2((-k) as nat));
        lemma_pow2_unfold((-j) as nat);
        if -k < -j - 1 {
            lemma_pow2_strictly_increases((-k) as nat, (-j - 1) as nat);
        }
        let (p, q) = (pow2((-j) as nat), pow2((-k) as nat));
        assert(n * p >= 2 * (n * q)) by (nonlinear_arith)
            requires
                p >= 2 * q,
        ;
    } else {
        lemma_pow2_unfold((-j) as nat);
        lemma_pow2_pos((-j - 1) as nat);
        lemma_pow2_unfold(k as nat);
        lemma_pow2_pos((k - 1) as nat);
        let (p, q) = (pow2((-j - 1) as nat), pow2((k - 1) as nat));
        assert(n * (2 * p) >= 2 * n) by (nonlinear_arith)
            requires
                p >= 1,
        ;
        assert(d * (2 * q) >= 2 * d) by (nonlinear_arith)
            requires
                q >= 1,
        ;
    }
}

/// A fraction with a known exponent, rounded.
pub proof fn lemma_nearest(n: nat, d: nat, k: int)
    requires
        n > 0,
        d > 0,
        within(n, d, k),
    ensures
        nearest(n, d) == (Binary {
            m: half_even(scaled_up(n, 52 - k), scaled_up(d, k - 52)),
            e: k - 52,
        }),
{
    lemma_exponent(n, d);
    lemma_within_unique(n, d, k, exponent(n, d));
}

/// A rounded fraction is next to the fraction.
pub proof fn lemma_half_even(n: nat, d: nat)
    requires
        d > 0,
    ensures
        n / d <= half_even(n, d) <= n / d + 1,
        n < half_even(n, d) * d + d,
        half_even(n, d) * d < n + d,
{
    lemma_fundamental_div_mod(n as int, d as int);
    let q = n / d;
    assert((q + 1) * d == q * d + d) by (nonlinear_arith);
    assert(d * q == q * d) by (nonlinear_arith);
}

/// Doubling both sides of a fraction does not change how it is rounded.
proof fn lemma_half_even_double(n: nat, d: nat)
    requires
        d > 0,
    ensures
        half_even(2 * n, 2 * d) == half_even(n, d),
{
    lemma_fundamental_div_mod(n as int, d as int);
    let q = n / d;
    let r = n % d;
    assert(2 * n == q * (2 * d) + 2 * r) by (nonlinear_arith)
        requires
            n == d * q + r,
    ;
    lemma_fundamental_div_mod_converse((2 * n) as int, (2 * d) as int, q as int, (2 * r) as int);
}

/// One more in the exponent doubles.
proof fn lemma_scaled_next(x: nat, e: int)
    requires
        e >= 0,
    ensures
        scaled_up(x, e + 1) == 2 * scaled_up(x, e),
        scaled_up(2 * x, e) == 2 * scaled_up(x, e),
        x > 0 ==> scaled_up(x, e) > 0,
{
    lemma2_to64();
    lemma_pow2_unfold((e + 1) as nat);
    lemma_pow2_pos(e as nat);
    let p = pow2(e as nat);
    assert(x * 1 == x);
    assert(x * (2 * p) == 2 * (x * p) && (2 * x) * p == 2 * (x * p)) by (nonlinear_arith);
    assert(x > 0 ==> x * p > 0) by (nonlinear_arith)
        requires
            p > 0,
    ;
}

/// Twice the numerator is one more in the exponent.
proof fn lemma_nearest_double(n: nat, d: nat)
    requires
        n > 0,
        d > 0,
    ensures
        nearest(2 * n, d) == (Binary { m: nearest(n, d).m, e: nearest(n, d).e + 1 }),
{
    lemma_exponent(n, d);
    let k = exponent(n, d);
    if k >= 0 {
        lemma_scaled_next(d, k);
    } else {
        lemma_scaled_next(n, -k - 1);
    }
    lemma_nearest(n, d, k);
    lemma_nearest(2 * n, d, k + 1);
    let e = k - 52;
    if e < 0 {
        lemma_scaled_next(n, -e - 1);
    } else {
        lemma_scaled_next(d, e);
        lemma_half_even_double(n, scaled_up(d, e));
    }
}

/// Twice the denominator is one less in the exponent.
proof fn lemma_nearest_halve(n: nat, d: nat)
    requires
        n > 0,
        d > 0,
    ensures
        nearest(n, 2 * d) == (Binary { m: nearest(n, d).m, e: nearest(n, d).e - 1 }),
{
    lemma_exponent(n, d);
    let k = exponent(n, d);
    if k > 0 {
        lemma_scaled_next(d, k - 1);
    } else {
        lemma_scaled_next(n, -k);
    }
    lemma_nearest(n, d, k);
    lemma_nearest(n, 2 * d, k - 1);
    let e = k - 52;
    if e > 0 {
        lemma_scaled_next(d, e - 1);
    } else {
        lemma_scaled_next(n, -e);
        lemma_half_even_double(scaled_up(n, -e), d);
    }
}

/// Powers of two only move the exponent.
proof fn lemma_nearest_scaled(n: nat, d: nat, i: nat, j: nat)
    requires
        n > 0,
        d > 0,
    ensures
        n * pow2(i) > 0,
        d * pow2(j) > 0,
        nearest(n * pow2(i), d * pow2(j)) == (Binary {
            m: nearest(n, d).m,
            e: nearest(n, d).e + i - j,
        }),
    decreases i + j,
{
    lemma2_to64();
    if i > 0 {
        let p = pow2((i - 1) as nat);
        lemma_pow2_unfold(i);
        lemma_nearest_scaled(n, d, (i - 1) as nat, j);
        assert(n * (2 * p) == 2 * (n * p)) by (nonlinear_arith);
        lemma_nearest_double(n * p, d * pow2(j));
    } else if j > 0 {
        let p = pow2((j - 1) as nat);
        lemma_pow2_unfold(j);
        lemma_nearest_scaled(n, d, i, (j - 1) as nat);
        assert(d * (2 * p) == 2 * (d * p)) by (nonlinear_arith);
        lemma_nearest_halve(n * pow2(i), d * p);
    } else {
        assert(n * 1 == n && d * 1 == d);
    }
}

/// The power of two in the numerator of a number.
spec fn up(e: int) -> nat {
    if e > 0 {
        e as nat
    } else {
        0
    }
}

/// A quotient is that of the significands, with the exponents subtracted.
proof fn lemma_quotient(a: Binary, b: Binary)
    requires
        a.m > 0,
        b.m > 0,
    ensures
        quotient(a, b) == (Binary {
            m: nearest(a.m, b.m).m,
            e: nearest(a.m, b.m).e + a.e - b.e,
        }),
{
    lemma2_to64();
    let (i, j, k, l) = (pow2(up(a.e)), pow2(up(-a.e)), pow2(up(b.e)), pow2(up(-b.e)));
    assert(a.m * 1 == a.m && b.m * 1 == b.m && 1 * j == j && 1 * l == l);
    assert(a.num() == a.m * i && a.den() == j && b.num() == b.m * k && b.den() == l);
    lemma_pow2_adds(up(a.e), up(-b.e));
    lemma_pow2_adds(up(-a.e), up(b.e));
    assert(a.m * i * l == a.m * (i * l)) by (nonlinear_arith);
    assert(j * (b.m * k) == b.m * (j * k)) by (nonlinear_arith);
    lemma_nearest_scaled(a.m, b.m, up(a.e) + up(-b.e), up(-a.e) + up(b.e));
}

/// The significand of a rounded fraction takes 53 bits.
proof fn lemma_significand(n: nat, d: nat, k: int)
    requires
        0 < n < 0x1_0000_0000_0000_0000,
        0 < d < 0x1_0000_0000_0000_0000,
        within(n, d, k),
    ensures
        0 < scaled_up(d, k - 52) <= scaled_up(n, 52 - k) <= u128::MAX / 2,
        0x10_0000_0000_0000 <= half_even(scaled_up(n, 52 - k), scaled_up(d, k - 52))
            <= 0x20_0000_0000_0000,
{
    lemma2_to64();
    lemma2_to64_rest();
    let (top, bottom) = (scaled_up(n, 52 - k), scaled_up(d, k - 52));
    let u = pow2(52);
    assert(n * 1 == n && d * 1 == d);
    assert(bottom * u <= top < 2 * (bottom * u)) by {
        if k < 0 {
            lemma_pow2_adds((-k) as nat, 52);
            let p = pow2((-k) as nat);
            assert(n * (p * u) == (n * p) * u) by (nonlinear_arith);
            let x = n * p;
            assert(d * u <= x * u < 2 * (d * u)) by (nonlinear_arith)
                requires
                    d <= x < 2 * d,
                    u > 0,
            ;
        } else if k <= 52 {
            lemma_pow2_adds(k as nat, (52 - k) as nat);
            lemma_pow2_pos((52 - k) as nat);
            let (p, q) = (pow2(k as nat), pow2((52 - k) as nat));
            assert(scaled_up(d, k) == d * p);
            assert(top == n * q);
            assert(d * (p * q) <= n * q < 2 * (d * (p * q))) by (nonlinear_arith)
                requires
                    d * p <= n < 2 * (d * p),
                    q > 0,
            ;
        } else {
            lemma_pow2_adds((k - 52) as nat, 52);
            let p = pow2((k - 52) as nat);
            assert(d * (p * u) == (d * p) * u) by (nonlinear_arith);
        }
    }
    assert(bottom > 0) by {
        if k > 52 {
            lemma_pow2_pos((k - 52) as nat);
            let p = pow2((k - 52) as nat);
            assert(d * p > 0) by (nonlinear_arith)
                requires
                    d > 0,
                    p > 0,
            ;
        }
    }
    assert(u == 0x10_0000_0000_0000);
    lemma_half_even(top, bottom);
    lemma_fundamental_div_mod(top as int, bottom as int);
    lemma_mod_bound(top as int, bottom as int);
    let q = top / bottom;
    assert(u <= q < 2 * u) by (nonlinear_arith)
        requires
            top == bottom * q + top % bottom,
            0 <= top % bottom < bottom,
            bottom * u <= top < 2 * (bottom * u),
    ;
}

/// A number `m * 2^e` with a significand of at most 53 bits.
#[derive(Clone, Copy, Debug)]
pub struct Dyadic {
    pub m: u64,
    pub e: i32,
}

impl View for Dyadic {
    type V = Binary;

    open spec fn view(&self) -> Binary {
        Binary { m: self.m as nat, e: self.e as int }
    }
}

/// The fraction `n / d` rounded to an integer, ties to even.
fn round_half_even(n: u128, d: u128) -> (r: u128)
    requires
        d > 0,
        n < u128::MAX,
    ensures
        r == half_even(n as nat, d as nat),
{
    let q = n / d;
    let r = n % d;
    proof {
        lemma_fundamental_div_mod(n as int, d as int);
        assert(d * q >= q) by (nonlinear_arith)
            requires
                d >= 1,
        ;
        lemma_mod_bound(n as int, d as int);
    }
    if r < d - r || (r == d - r && q % 2 == 0) {
        q
    } else {
        q + 1
    }
}

/// `x * 2^n`.
fn shifted(x: u128, n: u32) -> (r: u128)
    requires
        x * pow2(n as nat) <= u128::MAX,
    ensures
        r == x * pow2(n as nat),
{
    let mut r: u128 = x;
    let mut k: u32 = 0;
    proof {
        lemma2_to64();
        assert(x * 1 == x);
    }
    while k < n
        invariant
            k <= n,
            r == x * pow2(k as nat),
            x * pow2(n as nat) <= u128::MAX,
        decreases n - k,
    {
        proof {
            lemma_pow2_unfold((k + 1) as nat);
            let p = pow2(k as nat);
            assert(x * (2 * p) == 2 * (x * p)) by (nonlinear_arith);
            if k + 1 < n {
                lemma_pow2_strictly_increases((k + 1) as nat, n as nat);
            }
            let (q, t) = (pow2((k + 1) as nat), pow2(n as nat));
            assert(x * q <= x * t) by (nonlinear_arith)
                requires
                    q <= t,
            ;
        }
        r = 2 * r;
        k += 1;
    }
    r
}

/// The `k` with `2^k <= n / d < 2^(k+1)`.
fn exponent_of(n: u64, d: u64) -> (k: i32)
    requires
        n > 0,
        d > 0,
    ensures
        within(n as nat, d as nat, k as int),
        -64 <= k <= 64,
        n >= d ==> k >= 0,
{
    let mut k: i32 = 0;
    proof {
        lemma2_to64();
        assert(n * 1 == n && d * 1 == d);
    }
    if n >= d {
        let mut x: u128 = d as u128;
        while 2 * x <= n as u128
            invariant
                0 <= k < 64,
                n > 0,
                d > 0,
                x == d * pow2(k as nat),
                x <= n,
                x >= pow2(k as nat),
            decreases n - x,
        {
            proof {
                lemma2_to64();
                lemma_pow2_unfold((k + 1) as nat);
                let p = pow2(k as nat);
                assert(d * (2 * p) == 2 * (d * p)) by (nonlinear_arith);
                if k == 63 {
                    assert(pow2(63) == 0x8000_0000_0000_0000) by {
                        lemma_pow2_unfold(64);
                        lemma2_to64_rest();
                    }
                }
                lemma_pow2_pos(k as nat);
            }
            x = 2 * x;
            k += 1;
        }
        assert(scaled_up(d as nat, k as int) == x);
    } else {
        let mut y: u128 = n as u128;
        while y < d as u128
            invariant
                -64 <= k <= 0,
                n > 0,
                y == n * pow2((-k) as nat),
                y < 2 * d,
                y >= pow2((-k) as nat),
            decreases 2 * d - y,
        {
            proof {
                lemma2_to64();
                lemma2_to64_rest();
                lemma_pow2_unfold((-k + 1) as nat);
                let p = pow2((-k) as nat);
                assert(n * (2 * p) == 2 * (n * p)) by (nonlinear_arith);
                lemma_pow2_pos((-k) as nat);
            }
            y = 2 * y;
            k -= 1;
        }
        assert(scaled_up(n as nat, -k) == y);
    }
    k
}

/// Is `m` zero, or a significand with its first bit set?
pub open spec fn normal(m: u64) -> bool {
    m == 0 || 0x10_0000_0000_0000 <= m <= 0x20_0000_0000_0000
}

/// The fraction `n / d` rounded to 53 significant bits, ties to even.
pub fn rounded(n: u64, d: u64) -> (r: Dyadic)
    requires
        d > 0,
    ensures
        r@ == nearest(n as nat, d as nat),
        normal(r.m),
        n == 0 <==> r.m == 0,
        n > 0 ==> within(n as nat, d as nat, r.e + 52),
        -116 <= r.e <= 12,
        n >= d ==> -52 <= r.e,
{
    if n == 0 {
        return Dyadic { m: 0, e: 0 };
    }
    let k = exponent_of(n, d);
    let e = k - 52;
    proof {
        lemma_nearest(n as nat, d as nat, k as int);
        lemma_significand(n as nat, d as nat, k as int);
    }
    let top: u128 = if e < 0 {
        shifted(n as u128, (-e) as u32)
    } else {
        n as u128
    };
    let bottom: u128 = if e > 0 {
        shifted(d as u128, e as u32)
    } else {
        d as u128
    };
    let m = round_half_even(top, bottom);
    Dyadic { m: m as u64, e }
}

/// The quotient of two numbers that differ by a factor of 2 at most is near 1.
proof fn lemma_close(n: nat, d: nat, k: int)
    requires
        0 < n <= 2 * d,
        0 < d <= 2 * n,
        within(n, d, k),
    ensures
        -1 <= k <= 1,
{
    lemma2_to64();
    if k > 1 {
        if k > 2 {
            lemma_pow2_strictly_increases(2, k as nat);
        }
        let p = pow2(k as nat);
        assert(d * p >= 4 * d) by (nonlinear_arith)
            requires
                p >= 4,
        ;
    } else if k < -1 {
        if k < -2 {
            lemma_pow2_strictly_increases(2, (-k) as nat);
        }
        let p = pow2((-k) as nat);
        assert(n * p >= 4 * n) by (nonlinear_arith)
            requires
                p >= 4,
        ;
    }
}

/// The quotient of two numbers, rounded.
pub fn divide(a: Dyadic, b: Dyadic) -> (r: Dyadic)
    requires
        normal(a.m),
        normal(b.m),
        b.m > 0,
        -1000 <= a.e <= 1000,
        -1000 <= b.e <= 1000,
    ensures
        r@ == quotient(a@, b@),
        normal(r.m),
        a.m == 0 ==> r.m == 0 && r.e == 0,
        a.m > 0 ==> r.m > 0 && -53 <= r.e - a.e + b.e <= -51,
{
    if a.m == 0 {
        proof {
            lemma_zero(a@, b@);
        }
        return Dyadic { m: 0, e: 0 };
    }
    proof {
        lemma_quotient(a@, b@);
    }
    let q = rounded(a.m, b.m);
    proof {
        lemma_close(a.m as nat, b.m as nat, q.e + 52);
    }
    Dyadic { m: q.m, e: q.e + a.e - b.e }
}

/// Nothing of anything is nothing.
proof fn lemma_zero(a: Binary, b: Binary)
    requires
        a.m == 0,
    ensures
        quotient(a, b) == (Binary { m: 0, e: 0 }),
{
    let p = pow2(a.e as nat);
    assert(0 * p == 0) by (nonlinear_arith);
    let x = b.den();
    assert(0 * x == 0) by (nonlinear_arith);
}

/// A number in thousandths, rounded, ties to even.
pub open spec fn in_thousandths(x: Binary) -> nat {
    half_even(x.num() * 1000, x.den())
}

/// A number in thousandths.
pub fn thousandths(x: Dyadic) -> (r: u128)
    requires
        x.m <= 0x20_0000_0000_0000,
        -120 <= x.e <= 60,
    ensures
        r == in_thousandths(x@),
{
    proof {
        lemma_powers();
    }
    if x.e > 0 {
        proof {
            if x.e < 60 {
                lemma_pow2_strictly_increases(x.e as nat, 60);
            }
            let (m, p) = (x.m as nat, pow2(x.e as nat));
            assert(m * p <= 0x20_0000_0000_0000 * 0x1000_0000_0000_0000) by (nonlinear_arith)
                requires
                    m <= 0x20_0000_0000_0000,
                    p <= 0x1000_0000_0000_0000,
            ;
        }
        let n = shifted(x.m as u128, x.e as u32);
        round_half_even(n * 1000, 1)
    } else {
        proof {
            if x.e > -120 {
                lemma_pow2_strictly_increases((-x.e) as nat, 120);
            }
            lemma_pow2_pos((-x.e) as nat);
            assert(1 * pow2((-x.e) as nat) == pow2((-x.e) as nat));
        }
        let d = shifted(1, (-x.e) as u32);
        round_half_even(x.m as u128 * 1000, d)
    }
}

proof fn lemma_powers()
    ensures
        pow2(0) == 1,
        pow2(60) == 0x1000_0000_0000_0000,
        pow2(120) == 0x1000_0000_0000_0000 * 0x1000_0000_0000_0000,
{
    lemma2_to64();
    lemma2_to64_rest();
    lemma_pow2_adds(60, 60);
}

} // verus!
