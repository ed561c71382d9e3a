//! What a number written in decimal counts as once it has gone through a double: the nearest
//! double, cut to an integer, with negative numbers at zero and large ones at the top of the range.

use vstd::prelude::*;
use vstd::arithmetic::power2::*;
use vstd::arithmetic::div_mod::*;
use vstd::string::*;
use vstd::utf8::*;

use crate::binary::{exponent, half_even, lemma_exponent, nearest, scaled_up, within, Binary};
use crate::json::{
    ascii_text, byte_at, digits_end, document, exponent_end, exponent_start, fraction_end,
    has_exponent, is_digit, lemma_digits_run, sign_end, ws_end, JsonView,
};
use crate::text::{all_digits, decimal_text, lemma_decimal_digits, lemma_digit_byte};

verus! {

/// 10^n.
pub open spec fn pow10(n: nat) -> nat
    decreases n,
{
    if n == 0 {
        1
    } else {
        10 * pow10((n - 1) as nat)
    }
}

/// The number that decimal digits spell.
pub open spec fn value(digits: Seq<u8>) -> nat
    decreases digits.len(),
{
    if digits.len() == 0 {
        0
    } else {
        10 * value(digits.drop_last()) + digits.last() as nat
    }
}

/// The digits that ASCII digits stand for.
pub open spec fn digits_of(bytes: Seq<u8>) -> Seq<u8> {
    bytes.map_values(|b: u8| (b - 0x30) as u8)
}

/// The number `digits * 10^exponent`, or its negative.
pub struct Decimal {
    pub negative: bool,
    pub digits: nat,
    pub exponent: int,
}

impl Decimal {
    /// The size of the number as a fraction: its numerator.
    pub open spec fn num(self) -> nat {
        if self.exponent > 0 {
            self.digits * pow10(self.exponent as nat)
        } else {
            self.digits
        }
    }

    /// The size of the number as a fraction: its denominator.
    pub open spec fn den(self) -> nat {
        if self.exponent < 0 {
            pow10((-self.exponent) as nat)
        } else {
            1
        }
    }

    /// The number after a double, as an integer from 0 to `max`.
    pub open spec fn counted(self, max: nat) -> nat {
        let whole = nearest(self.num(), self.den()).whole();
        if self.negative {
            0
        } else if whole > max {
            max
        } else {
            whole
        }
    }
}

/// The digits before and behind the point of a number.
pub open spec fn mantissa(b: Seq<u8>) -> Seq<u8> {
    let whole = sign_end(b, 0);
    let point = digits_end(b, whole);
    let exp = fraction_end(b, point);
    if point < exp {
        digits_of(b.subrange(whole, point)) + digits_of(b.subrange(point + 1, exp))
    } else {
        digits_of(b.subrange(whole, point))
    }
}

/// How many digits stand behind the point.
pub open spec fn fraction_len(b: Seq<u8>) -> int {
    let point = digits_end(b, sign_end(b, 0));
    let exp = fraction_end(b, point);
    if point < exp {
        exp - point - 1
    } else {
        0
    }
}

/// The exponent that is written behind the digits.
pub open spec fn written_exponent(b: Seq<u8>) -> int {
    let exp = fraction_end(b, digits_end(b, sign_end(b, 0)));
    if has_exponent(b, exp) {
        let size = value(digits_of(b.subrange(exponent_start(b, exp), exponent_end(b, exp)))) as int;
        if byte_at(b, exp + 1, 0x2d) {
            -size
        } else {
            size
        }
    } else {
        0
    }
}

/// The number that a text spells.
pub open spec fn decimal_of(text: Seq<char>) -> Decimal {
    let b = encode_utf8(text);
    Decimal {
        negative: byte_at(b, 0, 0x2d),
        digits: value(mantissa(b)),
        exponent: written_exponent(b) - fraction_len(b),
    }
}

proof fn lemma_pow10_pos(n: nat)
    ensures
        pow10(n) > 0,
    decreases n,
{
    if n > 0 {
        lemma_pow10_pos((n - 1) as nat);
    }
}

proof fn lemma_pow10_adds(a: nat, b: nat)
    ensures
        pow10(a + b) == pow10(a) * pow10(b),
    decreases a,
{
    if a > 0 {
        lemma_pow10_adds((a - 1) as nat, b);
        let (p, q) = (pow10((a - 1) as nat), pow10(b));
        assert(10 * (p * q) == (10 * p) * q) by (nonlinear_arith);
    } else {
        assert(1 * pow10(b) == pow10(b));
    }
}

proof fn lemma_pow10_grows(a: nat, b: nat)
    requires
        a <= b,
    ensures
        pow10(a) <= pow10(b),
    decreases b - a,
{
    if a < b {
        lemma_pow10_grows(a, (b - 1) as nat);
        lemma_pow10_pos((b - 1) as nat);
    }
}

/// Are these decimal digits?
spec fn proper(digits: Seq<u8>) -> bool {
    forall|i: int| 0 <= i < digits.len() ==> digits[i] < 10
}

/// Digits in two parts.
proof fn lemma_value_split(digits: Seq<u8>, p: int)
    requires
        0 <= p <= digits.len(),
    ensures
        value(digits) == value(digits.take(p)) * pow10((digits.len() - p) as nat) + value(
            digits.skip(p),
        ),
    decreases digits.len() - p,
{
    if p == digits.len() {
        assert(digits.take(p) =~= digits);
        assert(digits.skip(p) =~= seq![]);
        assert(value(digits) * 1 == value(digits));
    } else {
        let front = digits.drop_last();
        lemma_value_split(front, p);
        assert(front.take(p) =~= digits.take(p));
        assert(front.skip(p) =~= digits.skip(p).drop_last());
        assert(digits.skip(p).last() == digits.last());
        let (v, t) = (value(digits.take(p)), pow10((digits.len() - 1 - p) as nat));
        assert(10 * (v * t) == v * (10 * t)) by (nonlinear_arith);
    }
}

/// `n` digits spell a number below 10^n.
proof fn lemma_value_below(digits: Seq<u8>)
    requires
        proper(digits),
    ensures
        value(digits) < pow10(digits.len()),
    decreases digits.len(),
{
    if digits.len() > 0 {
        lemma_value_below(digits.drop_last());
    }
}

/// `n` digits, the first not zero, spell a number of at least 10^(n-1).
proof fn lemma_value_above(digits: Seq<u8>)
    requires
        digits.len() > 0,
        digits[0] != 0,
    ensures
        value(digits) >= pow10((digits.len() - 1) as nat),
{
    lemma_value_split(digits, 1);
    assert(digits.take(1).drop_last() =~= seq![]);
    assert(value(digits.take(1)) == digits[0] as nat) by {
        assert(digits.take(1).last() == digits[0]);
        assert(value(seq![]) == 0);
    }
    let t = pow10((digits.len() - 1) as nat);
    assert(digits[0] as nat * t >= t) by (nonlinear_arith)
        requires
            digits[0] >= 1,
    ;
}

/// A number of 2^64 or more stays there.
proof fn lemma_whole_big(n: nat, d: nat)
    requires
        d > 0,
        n >= 0x1_0000_0000_0000_0000 * d,
    ensures
        nearest(n, d).whole() >= 0x1_0000_0000_0000_0000,
{
    lemma2_to64();
    lemma2_to64_rest();
    crate::binary::lemma_exponent(n, d);
    let k = crate::binary::exponent(n, d);
    crate::binary::lemma_nearest(n, d, k);
    let e = k - 52;
    assert(k >= 64) by {
        if k < 64 {
            if k > 0 {
                lemma_pow2_unfold(64);
                if k < 63 {
                    lemma_pow2_strictly_increases(k as nat, 63);
                }
                let p = pow2(k as nat);
                assert(2 * (d * p) <= 0x1_0000_0000_0000_0000 * d) by (nonlinear_arith)
                    requires
                        p <= 0x8000_0000_0000_0000,
                ;
            } else {
                lemma_pow2_pos((-k) as nat);
                let p = pow2((-k) as nat);
                assert(n * p >= n) by (nonlinear_arith)
                    requires
                        p >= 1,
                ;
            }
        }
    }
    let u = pow2(e as nat);
    lemma_pow2_adds(e as nat, 52);
    if e > 12 {
        lemma_pow2_strictly_increases(12, e as nat);
    }
    let dd = d * u;
    assert(dd > 0) by (nonlinear_arith)
        requires
            d > 0,
            u > 0,
            dd == d * u,
    ;
    crate::binary::lemma_half_even(n, dd);
    let m = half_even(n, dd);
    assert(n >= 0x10_0000_0000_0000 * dd) by (nonlinear_arith)
        requires
            n >= d * pow2(k as nat),
            pow2(k as nat) == u * 0x10_0000_0000_0000,
            dd == d * u,
    ;
    assert(m >= 0x10_0000_0000_0000) by {
        lemma_div_is_ordered(0x10_0000_0000_0000 * dd as int, n as int, dd as int);
        lemma_div_multiples_vanish(0x10_0000_0000_0000, dd as int);
        assert(dd * 0x10_0000_0000_0000 == 0x10_0000_0000_0000 * dd);
    }
    assert(m * u >= 0x1_0000_0000_0000_0000) by (nonlinear_arith)
        requires
            m >= 0x10_0000_0000_0000,
            u >= 0x1000,
    ;
    assert(nearest(n, d).den() == 1);
    assert((m * u) / 1 == m * u);
}

/// A number below one half counts as nothing.
proof fn lemma_whole_small(n: nat, d: nat)
    requires
        2 * n < d,
    ensures
        nearest(n, d).whole() == 0,
{
    if n > 0 {
        lemma2_to64();
        lemma2_to64_rest();
        crate::binary::lemma_exponent(n, d);
        let k = crate::binary::exponent(n, d);
        crate::binary::lemma_nearest(n, d, k);
        assert(k < 0) by {
            if k > 0 {
                lemma_pow2_pos(k as nat);
                let p = pow2(k as nat);
                assert(d * p >= d) by (nonlinear_arith)
                    requires
                        p >= 1,
                ;
            }
        }
        assert(k != -1) by {
            assert(scaled_up(n, 1) == n * pow2(1));
            assert(n * 2 == 2 * n);
        }
        let e = k - 52;
        let j = (-e) as nat;
        let p = pow2(j);
        if j > 54 {
            lemma_pow2_strictly_increases(54, j);
        }
        let m = half_even(n * p, d);
        crate::binary::lemma_half_even(n * p, d);
        lemma_pow2_adds((-k) as nat, 52);
        let w = pow2((-k) as nat);
        assert(n * p < 0x20_0000_0000_0000 * d) by (nonlinear_arith)
            requires
                n * w < 2 * d,
                p == w * 0x10_0000_0000_0000,
        ;
        assert(n * p / d < 0x20_0000_0000_0000) by {
            lemma_fundamental_div_mod((n * p) as int, d as int);
            let q = (n * p) / d;
            assert(q < 0x20_0000_0000_0000) by (nonlinear_arith)
                requires
                    d * q <= n * p,
                    n * p < 0x20_0000_0000_0000 * d,
            ;
        }
        assert(m < p);
        assert(1 * p == p);
        lemma_basic_div(m as int, p as int);
    } else {
        assert(0nat / 1nat == 0);
    }
}

/// A number whose integer part has 53 to 64 bits: its last bits go.
proof fn lemma_whole_high(n: nat, d: nat, k: nat)
    requires
        d > 0,
        52 <= k <= 63,
        pow2(k) <= n / d < 2 * pow2(k),
    ensures
        ({
            let a = n / d;
            let u = pow2((k - 52) as nat);
            let r = (a % u) * d + n % d;
            let up = 2 * r > d * u || (2 * r == d * u && (a / u) % 2 == 1);
            nearest(n, d).whole() == (if up {
                a / u + 1
            } else {
                a / u
            }) * u
        }),
{
    let a = n / d;
    let u = pow2((k - 52) as nat);
    lemma_pow2_pos((k - 52) as nat);
    lemma_pow2_pos(k);
    lemma2_to64();
    lemma_fundamental_div_mod(n as int, d as int);
    let p = pow2(k);
    assert(d * p <= n < 2 * (d * p)) by (nonlinear_arith)
        requires
            n == d * a + n % d,
            0 <= n % d < d,
            p <= a < 2 * p,
            d > 0,
    ;
    assert(n > 0) by (nonlinear_arith)
        requires
            d * p <= n,
            d > 0,
            p > 0,
    ;
    assert(within(n, d, k as int));
    crate::binary::lemma_nearest(n, d, k as int);
    lemma_div_denominator(n as int, d as int, u as int);
    lemma_mod_breakdown(n as int, d as int, u as int);
    assert(d * (a % u) == (a % u) * d) by (nonlinear_arith);
    assert(scaled_up(d, k - 52) == d * u) by {
        assert(d * 1 == d);
    }
    let m = half_even(n, d * u);
    let b = nearest(n, d);
    assert(b.num() == m * u) by {
        assert(m * 1 == m);
    }
    assert((m * u) / 1 == m * u);
    assert((a / u) % 2 == 0 || (a / u) % 2 == 1);
}

/// Are the first `c` binary digits of the fraction `f / d` all ones?
pub open spec fn all_ones(f: nat, d: nat, c: nat) -> bool {
    f * pow2(c) >= (pow2(c) - 1) * d
}

/// A number whose integer part has at most 52 bits: it is what it is, unless the fraction behind it
/// is so close to one that it is rounded up to one.
proof fn lemma_whole_low(n: nat, d: nat, k: int)
    requires
        d > 0,
        n > 0,
        -1 <= k <= 51,
        within(n, d, k),
    ensures
        nearest(n, d).whole() == n / d + (if all_ones(n % d, d, (53 - k) as nat) {
            1nat
        } else {
            0nat
        }),
{
    crate::binary::lemma_nearest(n, d, k);
    let j = (52 - k) as nat;
    let p = pow2(j);
    lemma_pow2_pos(j);
    lemma2_to64();
    lemma_pow2_unfold(j + 1);
    lemma_pow2_unfold(j);
    lemma_pow2_pos((j - 1) as nat);
    let a = n / d;
    let f = n % d;
    lemma_fundamental_div_mod(n as int, d as int);
    let g = (f * p) / d;
    let r = (f * p) % d;
    lemma_fundamental_div_mod((f * p) as int, d as int);
    assert(n * p == (a * p + g) * d + r) by (nonlinear_arith)
        requires
            n == d * a + f,
            f * p == d * g + r,
    ;
    lemma_fundamental_div_mod_converse((n * p) as int, d as int, (a * p + g) as int, r as int);
    assert(g < p) by (nonlinear_arith)
        requires
            d * g + r == f * p,
            0 <= r,
            f < d,
            p > 0,
            d > 0,
    ;
    let q = a * p + g;
    let m = half_even(n * p, d);
    assert(nearest(n, d).whole() == m / p) by {
        assert(1 * p == p);
    }
    let h = pow2((j - 1) as nat);
    assert(p == 2 * h);
    assert((a * p) % 2 == 0) by {
        assert(a * (2 * h) == 2 * (a * h)) by (nonlinear_arith);
    }
    assert(a * p + p == (a + 1) * p) by (nonlinear_arith);
    if g < p - 1 {
        assert(f * (2 * p) < (2 * p - 1) * d) by (nonlinear_arith)
            requires
                f * p == d * g + r,
                r < d,
                g + 1 <= p - 1,
                d > 0,
        ;
        lemma_fundamental_div_mod_converse(m as int, p as int, a as int, m - a * p);
    } else {
        assert(q % 2 == 1);
        assert((f * (2 * p) >= (2 * p - 1) * d) == (2 * r >= d)) by (nonlinear_arith)
            requires
                f * p == d * g + r,
                g == p - 1,
        ;
        if 2 * r >= d {
            lemma_fundamental_div_mod_converse(m as int, p as int, a as int + 1, 0);
        } else {
            lemma_fundamental_div_mod_converse(m as int, p as int, a as int, m - a * p);
        }
    }
}

/// The first digit and the rest.
proof fn lemma_value_first(digits: Seq<u8>)
    requires
        digits.len() > 0,
    ensures
        value(digits) == digits[0] as nat * pow10((digits.len() - 1) as nat) + value(digits.skip(1)),
{
    lemma_value_split(digits, 1);
    assert(digits.take(1).drop_last() =~= seq![]);
    assert(digits.take(1).last() == digits[0]);
    assert(value(seq![]) == 0);
}

/// Doubles the fraction that `v` holds behind the point; the integer part of the double, one or
/// zero, is handed out.
fn double(v: &mut Vec<u8>) -> (carry: bool)
    requires
        proper(old(v)@),
    ensures
        proper(final(v)@),
        final(v)@.len() == old(v)@.len(),
        2 * value(old(v)@) == (if carry {
            pow10(old(v)@.len())
        } else {
            0
        }) + value(final(v)@),
{
    let n = v.len();
    let mut i: usize = n;
    let mut c: u8 = 0;
    assert(old(v)@.skip(n as int) =~= seq![]);
    assert(0 * pow10(0) == 0);
    while i > 0
        invariant
            i <= n,
            n == v@.len(),
            n == old(v)@.len(),
            c <= 1,
            proper(old(v)@),
            proper(v@),
            v@.take(i as int) == old(v)@.take(i as int),
            2 * value(old(v)@.skip(i as int)) == c as nat * pow10((n - i) as nat) + value(
                v@.skip(i as int),
            ),
        decreases i,
    {
        let ghost before = v@;
        let ghost b = old(v)@.skip(i - 1);
        assert(before.take(i as int)[i - 1] == old(v)@.take(i as int)[i - 1]);
        let d: u8 = 2 * v[i - 1] + c;
        let ghost carried = c as nat;
        c = d / 10;
        v.set(i - 1, d % 10);
        proof {
            lemma_value_first(b);
            assert(b.skip(1) =~= old(v)@.skip(i as int));
            let w = v@.skip(i - 1);
            lemma_value_first(w);
            assert(w.skip(1) =~= before.skip(i as int));
            assert(v@.take(i - 1) =~= old(v)@.take(i - 1)) by {
                assert(before.take(i - 1) =~= before.take(i as int).take(i - 1));
                assert(old(v)@.take(i - 1) =~= old(v)@.take(i as int).take(i - 1));
            }
            let t = pow10((n - i) as nat);
            let x = b[0] as nat;
            let r = (d % 10) as nat;
            let k = c as nat;
            assert(2 * (x * t) + carried * t == k * (10 * t) + r * t) by (nonlinear_arith)
                requires
                    2 * x + carried == 10 * k + r,
            ;
        }
        i -= 1;
    }
    assert(old(v)@.skip(0) =~= old(v)@);
    assert(v@.skip(0) =~= v@);
    assert(1 * pow10(n as nat) == pow10(n as nat));
    assert(0 * pow10(n as nat) == 0);
    c == 1
}

/// One binary digit of the question whether the first digits are all ones.
proof fn lemma_all_ones_step(f: nat, d: nat, c: nat)
    requires
        c > 0,
        f < d,
    ensures
        all_ones(f, d, c) == (2 * f >= d && all_ones((2 * f - d) as nat, d, (c - 1) as nat)),
{
    lemma_pow2_unfold(c);
    lemma_pow2_pos((c - 1) as nat);
    let p = pow2((c - 1) as nat);
    if 2 * f >= d {
        assert((2 * f - d) * p == f * (2 * p) - d * p) by (nonlinear_arith);
        assert((2 * p - 1) * d == (p - 1) * d + d * p) by (nonlinear_arith);
    } else {
        assert(f * (2 * p) < (2 * p - 1) * d) by (nonlinear_arith)
            requires
                2 * f < d,
                p >= 1,
        ;
    }
}

/// Are the first `c` binary digits of a fraction all ones?
fn ones(fraction: &[u8], c: u32) -> (r: bool)
    requires
        proper(fraction@),
    ensures
        r == all_ones(value(fraction@), pow10(fraction@.len()), c as nat),
{
    let ghost d = pow10(fraction@.len());
    let mut cur: Vec<u8> = vstd::slice::slice_to_vec(fraction);
    let mut left: u32 = c;
    while left > 0
        invariant
            left <= c,
            cur@.len() == fraction@.len(),
            d == pow10(fraction@.len()),
            proper(cur@),
            all_ones(value(fraction@), d, c as nat) == all_ones(value(cur@), d, left as nat),
        decreases left,
    {
        proof {
            lemma_value_below(cur@);
            lemma_all_ones_step(value(cur@), d, left as nat);
        }
        let ghost f = value(cur@);
        let carry = double(&mut cur);
        proof {
            lemma_value_below(cur@);
        }
        if !carry {
            return false;
        }
        assert(value(cur@) == 2 * f - d);
        left -= 1;
    }
    proof {
        lemma2_to64();
        assert(value(cur@) * 1 >= 0);
        assert(0 * d == 0);
    }
    true
}

/// Do the digits spell zero?
fn is_zero(digits: &[u8]) -> (r: bool)
    ensures
        r == (value(digits@) == 0),
{
    let mut i: usize = 0;
    while i < digits.len()
        invariant
            i <= digits@.len(),
            value(digits@.take(i as int)) == 0,
        decreases digits@.len() - i,
    {
        proof {
            assert(digits@.take(i + 1).drop_last() =~= digits@.take(i as int));
        }
        if digits[i] != 0 {
            proof {
                lemma_value_split(digits@, i + 1);
                let t = pow10((digits@.len() - (i + 1)) as nat);
                lemma_pow10_pos((digits@.len() - (i + 1)) as nat);
                let v = value(digits@.take(i + 1));
                assert(v * t > 0) by (nonlinear_arith)
                    requires
                        v > 0,
                        t > 0,
                ;
            }
            return false;
        }
        i += 1;
    }
    assert(digits@.take(i as int) =~= digits@);
    true
}

/// The number of binary digits of `a`, less one.
fn top_bit(a: u64) -> (k: u32)
    requires
        a > 0,
    ensures
        k < 64,
        pow2(k as nat) <= a < 2 * pow2(k as nat),
{
    let mut k: u32 = 0;
    let mut rest: u64 = a;
    proof {
        lemma2_to64();
        assert(rest * 1 == rest);
    }
    while rest > 1
        invariant
            rest >= 1,
            k < 64,
            rest * pow2(k as nat) <= a < (rest + 1) * pow2(k as nat),
        decreases rest,
    {
        proof {
            lemma2_to64_rest();
            lemma2_to64();
            lemma_pow2_unfold((k + 1) as nat);
            let p = pow2(k as nat);
            let h = rest / 2;
            lemma_pow2_pos(k as nat);
            assert(h * (2 * p) <= rest * p) by (nonlinear_arith)
                requires
                    2 * h <= rest,
                    p > 0,
            ;
            assert((rest + 1) * p <= (h + 1) * (2 * p)) by (nonlinear_arith)
                requires
                    rest + 1 <= 2 * (h + 1),
                    p > 0,
            ;
            assert(k < 63) by {
                if k >= 63 {
                    assert(rest * p > u64::MAX) by (nonlinear_arith)
                        requires
                            rest >= 2,
                            p >= 0x8000_0000_0000_0000,
                    ;
                }
            }
        }
        rest = rest / 2;
        k += 1;
    }
    proof {
        let p = pow2(k as nat);
        assert(1 * p == p);
        assert((1 + 1) * p == 2 * p);
    }
    k
}

/// The integer that a whole part and a fraction count as after a double, at most `u64::MAX`.
fn rounded(a: u64, fraction: &[u8]) -> (r: u64)
    requires
        proper(fraction@),
    ensures
        ({
            let d = pow10(fraction@.len());
            let whole = nearest(a as nat * d + value(fraction@), d).whole();
            r == (if whole > u64::MAX {
                u64::MAX as nat
            } else {
                whole
            })
        }),
{
    let ghost d = pow10(fraction@.len());
    let ghost f = value(fraction@);
    let ghost n = a as nat * d + f;
    proof {
        lemma_pow10_pos(fraction@.len());
        lemma_value_below(fraction@);
        lemma_fundamental_div_mod_converse(n as int, d as int, a as int, f as int);
        lemma2_to64();
        lemma2_to64_rest();
    }
    if a == 0 {
        let up = ones(fraction, 54);
        proof {
            assert(0 * d == 0);
            lemma_all_ones_step(f, d, 54);
            if 2 * f >= d {
                assert(scaled_up(n, 1) == n * pow2(1));
                assert(n * 2 == 2 * n);
                lemma_whole_low(n, d, -1);
            } else {
                lemma_whole_small(n, d);
            }
        }
        return if up {
            1
        } else {
            0
        };
    }
    let k = top_bit(a);
    if k < 52 {
        let up = ones(fraction, 53 - k);
        proof {
            lemma_within_of_whole(n, d, a as nat, k as nat);
            lemma_whole_low(n, d, k as int);
            if k < 51 {
                lemma_pow2_strictly_increases(k as nat, 51);
            }
        }
        return if up {
            a + 1
        } else {
            a
        };
    }
    let e: u32 = k - 52;
    let u: u64 = 1u64 << e;
    proof {
        lemma_shifted_one(e);
        lemma_whole_high(n, d, k as nat);
        lemma_top_quotient(a as nat, k as nat, e as nat);
    }
    assert(u == pow2(e as nat));
    let q = a / u;
    let rest = a % u;
    let up = if e == 0 {
        let mut twice: Vec<u8> = vstd::slice::slice_to_vec(fraction);
        let carry = double(&mut twice);
        let zero = is_zero(twice.as_slice());
        proof {
            lemma_value_below(twice@);
            assert(rest == 0);
            assert(0 * d == 0);
            assert(d * 1 == d);
        }
        carry && (!zero || q % 2 == 1)
    } else {
        let half = u / 2;
        let zero = is_zero(fraction);
        proof {
            lemma_pow2_unfold(e as nat);
            lemma_against_half(rest as nat, half as nat, d, f);
            assert(d * u == d * (2 * half));
        }
        rest > half || (rest == half && (!zero || q % 2 == 1))
    };
    let m: u64 = if up {
        q + 1
    } else {
        q
    };
    assert(m * u <= 0x1_0000_0000_0000_0000) by (nonlinear_arith)
        requires
            m <= 0x20_0000_0000_0000,
            u <= 2048,
    ;
    let wide: u128 = m as u128 * u as u128;
    if wide > u64::MAX as u128 {
        u64::MAX
    } else {
        wide as u64
    }
}

/// The exponent of a number with a known integer part.
proof fn lemma_within_of_whole(n: nat, d: nat, a: nat, k: nat)
    requires
        d > 0,
        a == n / d,
        k <= 51,
        pow2(k) <= a < 2 * pow2(k),
    ensures
        n > 0,
        within(n, d, k as int),
{
    lemma_fundamental_div_mod(n as int, d as int);
    lemma_pow2_pos(k);
    lemma2_to64();
    let p = pow2(k);
    assert(d * p <= n < 2 * (d * p)) by (nonlinear_arith)
        requires
            n == d * a + n % d,
            0 <= n % d < d,
            p <= a < 2 * p,
            d > 0,
    ;
    assert(n > 0) by (nonlinear_arith)
        requires
            d * p <= n,
            d > 0,
            p > 0,
    ;
    assert(scaled_up(d, k as int) == d * p) by {
        assert(d * 1 == d);
    }
}

proof fn lemma_shifted_one(e: u32)
    requires
        e <= 11,
    ensures
        (1u64 << e) == pow2(e as nat),
        pow2(e as nat) <= 2048,
{
    lemma2_to64();
    assert((1u64 << 0u32) == 1 && (1u64 << 1u32) == 2 && (1u64 << 2u32) == 4 && (1u64 << 3u32) == 8
        && (1u64 << 4u32) == 16 && (1u64 << 5u32) == 32 && (1u64 << 6u32) == 64 && (1u64 << 7u32)
        == 128 && (1u64 << 8u32) == 256 && (1u64 << 9u32) == 512 && (1u64 << 10u32) == 1024 && (
    1u64 << 11u32) == 2048) by (bit_vector);
}

/// Comparing `rest + f / d` with `half`.
proof fn lemma_against_half(rest: nat, half: nat, d: nat, f: nat)
    requires
        f < d,
    ensures
        (2 * (rest * d + f) > d * (2 * half)) == (rest > half || (rest == half && f > 0)),
        (2 * (rest * d + f) == d * (2 * half)) == (rest == half && f == 0),
{
    assert(d * (2 * half) == 2 * (half * d)) by (nonlinear_arith);
    if rest > half {
        assert(rest * d >= half * d + d) by (nonlinear_arith)
            requires
                rest >= half + 1,
        ;
    } else if rest < half {
        assert(half * d >= rest * d + d) by (nonlinear_arith)
            requires
                half >= rest + 1,
        ;
    }
}

/// A quotient of at most 53 bits.
proof fn lemma_top_quotient(a: nat, k: nat, e: nat)
    requires
        k == e + 52,
        e <= 11,
        a < 2 * pow2(k),
    ensures
        a / pow2(e) < 0x20_0000_0000_0000,
{
    lemma_pow2_adds(e, 52);
    lemma2_to64();
    lemma2_to64_rest();
    lemma_pow2_pos(e);
    let u = pow2(e);
    lemma_fundamental_div_mod(a as int, u as int);
    let q = a / u;
    assert(q < 0x20_0000_0000_0000) by (nonlinear_arith)
        requires
            u * q <= a,
            a < 2 * (u * 0x10_0000_0000_0000),
            u > 0,
    ;
}

/// The first position from `i` on that holds no decimal digit.
fn skip_digits(b: &[u8], i: usize) -> (r: usize)
    requires
        i <= b@.len(),
    ensures
        r == digits_end(b@, i as int),
        i <= r <= b@.len(),
        forall|k: int| i <= k < r ==> is_digit(#[trigger] b@[k]),
{
    proof {
        crate::json::lemma_digits_end(b@, i as int);
    }
    let mut k: usize = i;
    while k < b.len() && 0x30 <= b[k] && b[k] <= 0x39
        invariant
            i <= k <= b@.len(),
            digits_end(b@, k as int) == digits_end(b@, i as int),
        decreases b@.len() - k,
    {
        k += 1;
    }
    k
}

/// Is the byte at `i` the byte `x`?
fn holds(b: &[u8], i: usize, x: u8) -> (r: bool)
    ensures
        r == byte_at(b@, i as int, x),
{
    i < b.len() && b[i] == x
}

/// No leading zero, and digits only.
spec fn stripped(digits: Seq<u8>) -> bool {
    proper(digits) && (digits.len() > 0 ==> digits[0] != 0)
}

/// Puts the digits from `from` to `to` behind `out`, which takes no leading zero.
fn collect(b: &[u8], from: usize, to: usize, out: &mut Vec<u8>)
    requires
        from <= to <= b@.len(),
        forall|k: int| from <= k < to ==> is_digit(#[trigger] b@[k]),
        stripped(old(out)@),
    ensures
        stripped(final(out)@),
        value(final(out)@) == value(old(out)@) * pow10((to - from) as nat) + value(
            digits_of(b@.subrange(from as int, to as int)),
        ),
        final(out)@.len() <= old(out)@.len() + (to - from),
{
    let mut k: usize = from;
    assert(digits_of(b@.subrange(from as int, from as int)) =~= seq![]);
    assert(value(old(out)@) * 1 == value(old(out)@));
    while k < to
        invariant
            from <= k <= to <= b@.len(),
            forall|j: int| from <= j < to ==> is_digit(#[trigger] b@[j]),
            stripped(out@),
            out@.len() <= old(out)@.len() + (k - from),
            value(out@) == value(old(out)@) * pow10((k - from) as nat) + value(
                digits_of(b@.subrange(from as int, k as int)),
            ),
        decreases to - k,
    {
        let d: u8 = b[k] - 0x30;
        let ghost before = out@;
        if out.len() > 0 || d != 0 {
            out.push(d);
            assert(out@.drop_last() =~= before);
        } else {
            assert(value(out@) == 0);
        }
        proof {
            let shown = digits_of(b@.subrange(from as int, k + 1));
            assert(shown.drop_last() =~= digits_of(b@.subrange(from as int, k as int)));
            assert(shown.last() == d);
            let (v, t) = (value(old(out)@), pow10((k - from) as nat));
            assert(10 * (v * t) == v * (10 * t)) by (nonlinear_arith);
        }
        k += 1;
    }
}

/// The exponent is read up to this size; beyond it only the fact that it is large matters.
const EXPONENT_CAP: i128 = 1_000_000_000_000_000_000_000_000_000_000;

/// The size of the exponent whose digits stand from `from` to `to`, exactly as long as it is below
/// the cap.
fn exponent_size(b: &[u8], from: usize, to: usize) -> (r: i128)
    requires
        from <= to <= b@.len(),
        forall|k: int| from <= k < to ==> is_digit(#[trigger] b@[k]),
    ensures
        ({
            let size = value(digits_of(b@.subrange(from as int, to as int)));
            &&& 0 <= r <= size
            &&& r < size ==> r >= EXPONENT_CAP
            &&& r < 20 * EXPONENT_CAP
        }),
{
    let mut r: i128 = 0;
    let mut k: usize = from;
    assert(digits_of(b@.subrange(from as int, from as int)) =~= seq![]);
    while k < to
        invariant
            from <= k <= to <= b@.len(),
            forall|j: int| from <= j < to ==> is_digit(#[trigger] b@[j]),
            0 <= r <= value(digits_of(b@.subrange(from as int, k as int))),
            r < value(digits_of(b@.subrange(from as int, k as int))) ==> r >= EXPONENT_CAP,
            r < 20 * EXPONENT_CAP,
        decreases to - k,
    {
        proof {
            let shown = digits_of(b@.subrange(from as int, k + 1));
            assert(shown.drop_last() =~= digits_of(b@.subrange(from as int, k as int)));
            assert(shown.last() == b@[k as int] - 0x30);
        }
        if r < EXPONENT_CAP {
            r = 10 * r + (b[k] - 0x30) as i128;
        }
        k += 1;
    }
    r
}

/// The size of `digits * 10^x`, when that is at least 10^20.
proof fn lemma_digits_big(digits: Seq<u8>, x: int, v: Decimal)
    requires
        digits.len() > 0,
        digits[0] != 0,
        digits.len() + x > 20,
        v.digits == value(digits),
        v.exponent == x,
    ensures
        v.den() > 0,
        v.num() >= 0x1_0000_0000_0000_0000 * v.den(),
{
    lemma_value_above(digits);
    let top = (digits.len() - 1) as nat;
    assert(pow10(20) == 100_000_000_000_000_000_000) by {
        reveal_with_fuel(pow10, 21);
    }
    if x > 0 {
        lemma_pow10_adds(top, x as nat);
        lemma_pow10_grows(20, top + x as nat);
        let (a, b, t) = (value(digits), pow10(top), pow10(x as nat));
        assert(a * t >= b * t) by (nonlinear_arith)
            requires
                a >= b,
        ;
    } else if x < 0 {
        lemma_pow10_adds((top + x) as nat, (-x) as nat);
        lemma_pow10_grows(20, (top + x) as nat);
        lemma_pow10_pos((-x) as nat);
        let (a, t) = (pow10((top + x) as nat), pow10((-x) as nat));
        assert(a * t >= 0x1_0000_0000_0000_0000 * t) by (nonlinear_arith)
            requires
                a >= 100_000_000_000_000_000_000,
        ;
    } else {
        lemma_pow10_grows(20, top);
    }
}

/// The size of `digits * 10^x`, when that is below one tenth.
proof fn lemma_digits_small(digits: Seq<u8>, x: int, v: Decimal)
    requires
        proper(digits),
        digits.len() + x < 0,
        v.digits == value(digits),
        v.exponent == x,
    ensures
        2 * v.num() < v.den(),
{
    lemma_value_below(digits);
    lemma_pow10_grows(digits.len() + 1, (-x) as nat);
}

/// A number as it was read: its digits and the power of ten that they are to be taken at.
struct Reading {
    digits: Vec<u8>,
    x: i128,
}

impl Reading {
    /// Is this the number `v`? A power of ten beyond the cap is only known to be large.
    spec fn is(self, v: Decimal) -> bool {
        &&& stripped(self.digits@)
        &&& value(self.digits@) == v.digits
        &&& -40 * EXPONENT_CAP < self.x < 40 * EXPONENT_CAP
        &&& {
            ||| self.x == v.exponent
            ||| 0x1_0000_0000_0000_0000 < self.x < v.exponent
            ||| v.exponent < self.x < -0x1_0000_0000_0000_0000
        }
    }
}

/// Reads a number that has no minus sign.
fn read_size(text: &str) -> (r: Reading)
    requires
        !byte_at(text.spec_bytes(), 0, 0x2d),
    ensures
        r.is(decimal_of(text@)),
{
    let b = text.as_bytes();
    let size = b.len();
    let ghost v = decimal_of(text@);
    let point = skip_digits(b, 0);
    let mut digits: Vec<u8> = Vec::new();
    collect(b, 0, point, &mut digits);
    assert(0 * pow10(point as nat) == 0);
    let mut exp = point;
    let mut behind: usize = 0;
    let ghost first = digits_of(b@.subrange(0, point as int));
    if holds(b, point, 0x2e) {
        exp = skip_digits(b, point + 1);
        behind = exp - point - 1;
        collect(b, point + 1, exp, &mut digits);
        proof {
            let second = digits_of(b@.subrange(point + 1, exp as int));
            lemma_value_split(first + second, first.len() as int);
            assert((first + second).take(first.len() as int) =~= first);
            assert((first + second).skip(first.len() as int) =~= second);
        }
    }
    assert(value(digits@) == v.digits);
    assert(behind == fraction_len(b@));
    let mut x: i128 = 0 - behind as i128;
    if holds(b, exp, 0x65) || holds(b, exp, 0x45) {
        let minus = exp + 1 < size && b[exp + 1] == 0x2d;
        let signed = minus || (exp + 1 < size && b[exp + 1] == 0x2b);
        let start = if signed {
            exp + 2
        } else {
            exp + 1
        };
        let end = skip_digits(b, start);
        let e = exponent_size(b, start, end);
        if minus {
            x = x - e;
        } else {
            x = x + e;
        }
    }
    Reading { digits, x }
}

/// The number that the first `places` digits spell, with zeros behind the last digit.
fn leading(digits: &Vec<u8>, places: usize) -> (a: u128)
    requires
        places <= 20,
        proper(digits@),
    ensures
        places <= digits@.len() ==> a == value(digits@.take(places as int)),
        places >= digits@.len() ==> a == value(digits@) * pow10((places - digits@.len()) as nat),
{
    let len = digits.len();
    let mut a: u128 = 0;
    let mut i: usize = 0;
    proof {
        assert(digits@.take(0) =~= seq![]);
        assert(pow10(20) == 100_000_000_000_000_000_000) by {
            reveal_with_fuel(pow10, 21);
        }
        assert(value(digits@) * 1 == value(digits@));
        assert(len == 0 ==> digits@ =~= seq![]);
    }
    while i < places
        invariant
            i <= places <= 20,
            len == digits@.len(),
            proper(digits@),
            pow10(20) == 100_000_000_000_000_000_000,
            a < pow10(i as nat),
            i <= len ==> a == value(digits@.take(i as int)),
            i >= len ==> a == value(digits@) * pow10((i - len) as nat),
        decreases places - i,
    {
        proof {
            lemma_pow10_grows((i + 1) as nat, 20);
        }
        if i < len {
            proof {
                assert(digits@.take(i + 1).drop_last() =~= digits@.take(i as int));
                assert(digits@.take(len as int) =~= digits@);
                assert(value(digits@) * 1 == value(digits@));
            }
            a = 10 * a + digits[i] as u128;
        } else {
            proof {
                let (w, t) = (value(digits@), pow10((i - len) as nat));
                assert(10 * (w * t) == w * (10 * t)) by (nonlinear_arith);
            }
            a = 10 * a;
        }
        i += 1;
    }
    a
}

/// A number of moderate size, cut at its point.
proof fn lemma_cut(digits: Seq<u8>, places: int, v: Decimal, a: nat)
    requires
        proper(digits),
        0 <= places,
        v.digits == value(digits),
        v.exponent == places - digits.len(),
        places <= digits.len() ==> a == value(digits.take(places)),
        places >= digits.len() ==> a == value(digits) * pow10((places - digits.len()) as nat),
    ensures
        ({
            let from = if places < digits.len() {
                places
            } else {
                digits.len() as int
            };
            let d = pow10((digits.len() - from) as nat);
            &&& d > 0
            &&& v.den() == d
            &&& v.num() == a * d + value(digits.skip(from))
        }),
{
    if places < digits.len() {
        lemma_value_split(digits, places);
        lemma_pow10_pos((digits.len() - places) as nat);
    } else {
        assert(digits.skip(digits.len() as int) =~= seq![]);
        assert(digits.take(digits.len() as int) =~= digits);
        assert(a * 1 == a);
        assert(value(digits) * 1 == value(digits));
    }
}

/// What a number written as `text` counts as: its nearest double, cut to an integer from 0 to
/// `u64::MAX`.
pub fn counted(text: &str) -> (r: u64)
    ensures
        r == decimal_of(text@).counted(u64::MAX as nat),
{
    let ghost v = decimal_of(text@);
    if holds(text.as_bytes(), 0, 0x2d) {
        return 0;
    }
    let reading = read_size(text);
    let digits = reading.digits;
    if digits.len() == 0 {
        proof {
            if v.exponent > 0 {
                assert(0 * pow10(v.exponent as nat) == 0);
            }
            if v.exponent < 0 {
                lemma_pow10_pos((-v.exponent) as nat);
            }
            lemma_whole_small(0, v.den());
        }
        return 0;
    }
    let len = digits.len();
    let p: i128 = len as i128 + reading.x;
    if p > 20 {
        proof {
            lemma_digits_big(digits@, v.exponent, v);
            lemma_whole_big(v.num(), v.den());
        }
        return u64::MAX;
    }
    if p < 0 {
        proof {
            lemma_digits_small(digits@, v.exponent, v);
            lemma_whole_small(v.num(), v.den());
        }
        return 0;
    }
    let places = p as usize;
    let a = leading(&digits, places);
    let from: usize = if places < len {
        places
    } else {
        len
    };
    let fraction = vstd::slice::slice_subrange(digits.as_slice(), from, len);
    let ghost d = pow10(fraction@.len());
    proof {
        assert(fraction@ =~= digits@.skip(from as int));
        lemma_cut(digits@, places as int, v, a as nat);
    }
    if a > u64::MAX as u128 {
        proof {
            assert(a as nat * d >= 0x1_0000_0000_0000_0000 * d) by (nonlinear_arith)
                requires
                    a >= 0x1_0000_0000_0000_0000,
            ;
            lemma_whole_big(v.num(), v.den());
        }
        return u64::MAX;
    }
    rounded(a as u64, fraction)
}

/// A decimal numeral spells its number.
proof fn lemma_numeral_value(n: nat)
    ensures
        value(digits_of(encode_utf8(decimal_text(n)))) == n,
    decreases n,
{
    let text = decimal_text(n);
    let digits = digits_of(encode_utf8(text));
    lemma_decimal_digits(n);
    is_ascii_chars_encode_utf8(text);
    lemma_digit_byte(text.last());
    assert(digits.last() == n % 10);
    if n < 10 {
        assert(digits.drop_last() =~= seq![]);
        assert(value(seq![]) == 0);
    } else {
        let front = decimal_text(n / 10);
        lemma_decimal_digits(n / 10);
        is_ascii_chars_encode_utf8(front);
        lemma_numeral_value(n / 10);
        assert(digits.drop_last() =~= digits_of(encode_utf8(front))) by {
            assert forall|k: int| 0 <= k < front.len() implies text[k] == front[k] by {}
        }
    }
}

/// A number below 2^53 fits into a double.
proof fn lemma_fits_double(n: nat)
    requires
        n < 0x20_0000_0000_0000,
    ensures
        nearest(n, 1).whole() == n,
{
    lemma2_to64();
    lemma2_to64_rest();
    if n == 0 {
        assert(Binary { m: 0, e: 0 }.whole() == 0);
    } else {
        lemma_exponent(n, 1);
        let k = exponent(n, 1);
        assert(k <= 52) by {
            if k > 52 {
                if k > 53 {
                    lemma_pow2_strictly_increases(53, k as nat);
                }
                assert(1 * pow2(k as nat) == pow2(k as nat));
            }
        }
        let e = k - 52;
        let p = pow2((-e) as nat);
        lemma_pow2_pos((-e) as nat);
        assert(scaled_up(n, -e) == n * p) by {
            assert(n * 1 == n);
        }
        assert(half_even(n * p, 1) == n * p);
        assert(Binary { m: n * p, e }.den() == p) by {
            assert(1 * p == p);
        }
        assert((n * p) / p == n) by {
            lemma_div_multiples_vanish(n as int, p as int);
            vstd::arithmetic::mul::lemma_mul_is_commutative(n as int, p as int);
        }
    }
}

/// A count below 2^53 that is written in digits counts as itself, up to the top of the range.
pub proof fn law_small_count_is_exact(n: nat, max: nat)
    requires
        n < 0x20_0000_0000_0000,
    ensures
        decimal_of(decimal_text(n)).counted(max) == (if n > max {
            max
        } else {
            n
        }),
{
    let text = decimal_text(n);
    let b = encode_utf8(text);
    lemma_decimal_digits(n);
    is_ascii_chars_encode_utf8(text);
    assert forall|k: int| 0 <= k < b.len() implies is_digit(#[trigger] b[k]) by {
        lemma_digit_byte(text[k]);
        assert(text[k] as u8 == b[k]);
    }
    lemma_digits_run(b, 0, b.len() as int);
    assert(b.subrange(0, b.len() as int) =~= b);
    lemma_numeral_value(n);
    lemma_fits_double(n);
}

/// What a numeral in digits reads as.
proof fn lemma_numeral_decimal(n: nat)
    ensures
        decimal_of(decimal_text(n)) == (Decimal { negative: false, digits: n, exponent: 0 }),
{
    let text = decimal_text(n);
    let b = encode_utf8(text);
    lemma_decimal_digits(n);
    is_ascii_chars_encode_utf8(text);
    assert forall|k: int| 0 <= k < b.len() implies is_digit(#[trigger] b[k]) by {
        lemma_digit_byte(text[k]);
        assert(text[k] as u8 == b[k]);
    }
    lemma_digits_run(b, 0, b.len() as int);
    assert(b.subrange(0, b.len() as int) =~= b);
    lemma_numeral_value(n);
}

/// A number from 2^53 up to 2^64 moves by one part in 2^53 at most.
proof fn lemma_whole_close(n: nat)
    requires
        0x20_0000_0000_0000 <= n < 0x1_0000_0000_0000_0000,
    ensures
        nearest(n, 1).whole() * 0x20_0000_0000_0000 <= n * 0x20_0000_0000_0000 + n,
        n * 0x20_0000_0000_0000 <= nearest(n, 1).whole() * 0x20_0000_0000_0000 + n,
{
    lemma2_to64();
    lemma2_to64_rest();
    lemma_exponent(n, 1);
    let k = exponent(n, 1);
    assert(k >= 52) by {
        if k < 52 {
            if k > 0 {
                lemma_pow2_strictly_increases(k as nat, 52);
                assert(1 * pow2(k as nat) == pow2(k as nat));
            } else {
                lemma_pow2_pos((-k) as nat);
                let p = pow2((-k) as nat);
                assert(n * p >= n) by (nonlinear_arith)
                    requires
                        p >= 1,
                ;
            }
        }
    }
    assert(k <= 63) by {
        if k > 63 {
            if k > 64 {
                lemma_pow2_strictly_increases(64, k as nat);
            }
            assert(1 * pow2(k as nat) == pow2(k as nat));
        }
    }
    assert(1 * pow2(k as nat) == pow2(k as nat));
    assert(n / 1 == n && n % 1 == 0);
    lemma_whole_high(n, 1, k as nat);
    let e = (k - 52) as nat;
    let u = pow2(e);
    lemma_pow2_pos(e);
    lemma_pow2_adds(e, 52);
    lemma_fundamental_div_mod(n as int, u as int);
    let q = n / u;
    let r = n % u;
    let w = nearest(n, 1).whole();
    assert(1 * u == u && r * 1 == r);
    assert((q + 1) * u == u * q + u && q * u == u * q) by (nonlinear_arith);
    assert(2 * w <= 2 * n + u && 2 * n <= 2 * w + u);
    assert(u * 0x10_0000_0000_0000 <= n);
}

/// A count that is written in digits counts as itself up to one part in 2^53, whatever its size, and
/// as the top of the range if it is beyond.
pub proof fn law_count_is_close(n: nat, max: nat)
    requires
        max < 0x1_0000_0000_0000_0000,
    ensures
        ({
            let c = decimal_of(decimal_text(n)).counted(max);
            let unit = 0x20_0000_0000_0000nat;
            &&& c <= max
            &&& c * unit <= n * unit + n
            &&& c < max ==> n * unit <= c * unit + n
        }),
{
    lemma_numeral_decimal(n);
    if n < 0x20_0000_0000_0000 {
        law_small_count_is_exact(n, max);
    } else if n < 0x1_0000_0000_0000_0000 {
        lemma_whole_close(n);
    } else {
        lemma_whole_big(n, 1);
    }
}

/// The value of digits is positional: putting `m` digits behind a number multiplies it by 10^m and
/// adds theirs.
pub proof fn law_value_is_positional(a: Seq<u8>, b: Seq<u8>, d: u8)
    ensures
        value(a + b) == value(a) * pow10(b.len()) + value(b),
        value(seq![d]) == d,
        value(seq![]) == 0,
        pow10(b.len()) == vstd::arithmetic::power::pow(10, b.len()),
{
    let all = a + b;
    lemma_value_split(all, a.len() as int);
    assert(all.take(a.len() as int) =~= a);
    assert(all.skip(a.len() as int) =~= b);
    assert(seq![d].drop_last() =~= seq![]);
    assert(value(seq![d].drop_last()) == 0);
    lemma_pow10_is_power(b.len());
}

proof fn lemma_pow10_is_power(n: nat)
    ensures
        pow10(n) == vstd::arithmetic::power::pow(10, n),
    decreases n,
{
    reveal(vstd::arithmetic::power::pow);
    if n > 0 {
        lemma_pow10_is_power((n - 1) as nat);
    }
}

/// A numeral without point and exponent spells its number.
pub proof fn law_numeral_spells_its_number(n: nat)
    ensures
        all_digits(decimal_text(n)),
        decimal_text(n).len() > 0,
        decimal_text(n)[0] == '0' ==> n == 0,
        value(digits_of(encode_utf8(decimal_text(n)))) == n,
        decimal_of(decimal_text(n)) == (Decimal { negative: false, digits: n, exponent: 0 }),
    decreases n,
{
    lemma_numeral_decimal(n);
    lemma_numeral_value(n);
    lemma_decimal_digits(n);
    if n >= 10 {
        law_numeral_spells_its_number(n / 10);
        assert(decimal_text(n)[0] == decimal_text(n / 10)[0]);
    }
}

/// Digits as they are written.
pub open spec fn written(digits: Seq<u8>) -> Seq<u8> {
    digits.map_values(|d: u8| (0x30 + d) as u8)
}

/// Are these decimal digits?
pub open spec fn are_digits(digits: Seq<u8>) -> bool {
    forall|i: int| 0 <= i < digits.len() ==> #[trigger] digits[i] < 10
}

/// Can this stand between the digits and the exponent: an `e` in either case, and a sign or none?
pub open spec fn is_exponent_mark(mark: Seq<u8>) -> bool {
    &&& 1 <= mark.len() <= 2
    &&& mark[0] == 0x65 || mark[0] == 0x45
    &&& mark.len() == 2 ==> mark[1] == 0x2b || mark[1] == 0x2d
}

/// A numeral as it is written: a minus sign or none, digits, a point and more digits or neither, and
/// an exponent or none.
pub open spec fn numeral(
    negative: bool,
    whole: Seq<u8>,
    point: bool,
    fraction: Seq<u8>,
    mark: Seq<u8>,
    power: Seq<u8>,
) -> Seq<u8> {
    let sign = if negative {
        seq![0x2du8]
    } else {
        seq![]
    };
    let dot = if point {
        seq![0x2eu8]
    } else {
        seq![]
    };
    sign + written(whole) + dot + written(fraction) + mark + written(power)
}

/// Where the parts of a numeral end.
pub proof fn lemma_numeral_ends(
    negative: bool,
    whole: Seq<u8>,
    point: bool,
    fraction: Seq<u8>,
    mark: Seq<u8>,
    power: Seq<u8>,
)
    requires
        are_digits(whole),
        are_digits(fraction),
        are_digits(power),
        !point ==> fraction.len() == 0,
        is_exponent_mark(mark) || (mark.len() == 0 && power.len() == 0),
    ensures
        ({
            let b = numeral(negative, whole, point, fraction, mark, power);
            let start: int = if negative {
                1
            } else {
                0
            };
            let p1 = start + whole.len();
            let p2: int = if point {
                p1 + 1
            } else {
                p1
            };
            let p3 = p2 + fraction.len();
            let p4 = p3 + mark.len();
            &&& b.len() == p4 + power.len()
            &&& encode_utf8(ascii_text(b)) == b
            &&& byte_at(b, 0, 0x2d) == negative
            &&& sign_end(b, 0) == start
            &&& digits_end(b, start) == p1
            &&& fraction_end(b, p1) == p3
            &&& has_exponent(b, p3) == (mark.len() > 0)
            &&& mark.len() > 0 ==> exponent_start(b, p3) == p4
            &&& mark.len() > 0 ==> byte_at(b, p3 + 1, 0x2d) == (mark.len() == 2 && mark[1] == 0x2d)
            &&& exponent_end(b, p3) == b.len()
            &&& b.subrange(start, p1) == written(whole)
            &&& point ==> b.subrange(p2, p3) == written(fraction)
            &&& b.subrange(p4, b.len() as int) == written(power)
            &&& whole.len() > 0 ==> is_digit(b[start])
        }),
{
    let b = numeral(negative, whole, point, fraction, mark, power);
    let text = ascii_text(b);
    lemma_written(whole);
    lemma_written(fraction);
    lemma_written(power);
    let start: int = if negative {
        1
    } else {
        0
    };
    let p1 = start + whole.len();
    let p2: int = if point {
        p1 + 1
    } else {
        p1
    };
    let p3 = p2 + fraction.len();
    let p4 = p3 + mark.len();
    assert(b.len() == p4 + power.len());
    assert(b.subrange(start, p1) =~= written(whole));
    assert(b.subrange(p2, p3) =~= written(fraction));
    assert(b.subrange(p3, p4) =~= mark);
    assert(b.subrange(p4, b.len() as int) =~= written(power));
    assert forall|k: int| start <= k < p1 implies is_digit(#[trigger] b[k]) by {
        assert(b[k] == written(whole)[k - start]);
    }
    assert forall|k: int| p2 <= k < p3 implies is_digit(#[trigger] b[k]) by {
        assert(b[k] == written(fraction)[k - p2]);
    }
    assert forall|k: int| p4 <= k < b.len() implies is_digit(#[trigger] b[k]) by {
        assert(b[k] == written(power)[k - p4]);
    }
    assert forall|k: int| p3 <= k < p4 implies #[trigger] b[k] == mark[k - p3] by {
        assert(b.subrange(p3, p4)[k - p3] == mark[k - p3]);
    }
    assert(negative ==> b[0] == 0x2d);
    assert(point ==> b[p1] == 0x2e);
    assert forall|k: int| 0 <= k < b.len() implies #[trigger] b[k] < 0x80 by {
        assert(k < start || k < p1 || k < p2 || k < p3 || k < p4 || p4 <= k);
    }
    assert forall|k: int| 0 <= k < text.len() implies '\0' <= #[trigger] text[k] <= '\u{7f}' && text[k] as u8
        == b[k] by {
        lemma_ascii_byte(b[k]);
    }
    is_ascii_chars_encode_utf8(text);
    assert(encode_utf8(text) =~= b);
    assert(byte_at(b, 0, 0x2d) == negative) by {
        if !negative && b.len() > 0 {
            assert(whole.len() > 0 ==> is_digit(b[0]));
            assert(whole.len() == 0 && !point ==> b[0] == mark[0]);
        }
    }
    assert(p1 == b.len() || !is_digit(b[p1])) by {
        if !point && p1 < b.len() {
            assert(b[p1] == mark[0]);
        }
    }
    lemma_digits_run(b, start, p1);
    if point {
        assert(p3 == b.len() || !is_digit(b[p3])) by {
            if p3 < b.len() {
                assert(b[p3] == mark[0]);
            }
        }
        lemma_digits_run(b, p2, p3);
    } else if p1 < b.len() {
        assert(b[p1] == mark[0]);
    }
    if mark.len() > 0 {
        assert(b[p3] == mark[0]);
        if mark.len() == 2 {
            assert(b[p3 + 1] == mark[1]);
        } else if power.len() > 0 {
            assert(is_digit(b[p3 + 1]));
        }
        lemma_digits_run(b, p4, b.len() as int);
    }
}

/// A numeral spells its digits as one number, moved by the places behind the point and by the
/// exponent, below zero if it has a minus sign.
pub proof fn law_numeral_is_read(
    negative: bool,
    whole: Seq<u8>,
    point: bool,
    fraction: Seq<u8>,
    mark: Seq<u8>,
    power: Seq<u8>,
)
    requires
        are_digits(whole),
        are_digits(fraction),
        are_digits(power),
        !point ==> fraction.len() == 0,
        is_exponent_mark(mark) || (mark.len() == 0 && power.len() == 0),
    ensures
        decimal_of(ascii_text(numeral(negative, whole, point, fraction, mark, power))) == (Decimal {
            negative,
            digits: value(whole + fraction),
            exponent: (if mark.len() == 2 && mark[1] == 0x2d {
                -(value(power) as int)
            } else {
                value(power) as int
            }) - fraction.len(),
        }),
{
    let b = numeral(negative, whole, point, fraction, mark, power);
    lemma_numeral_ends(negative, whole, point, fraction, mark, power);
    lemma_written(whole);
    lemma_written(fraction);
    lemma_written(power);
    if !point {
        assert(whole + fraction =~= whole);
    }
    if mark.len() == 0 {
        assert(power =~= seq![]);
    }
    assert(mantissa(b) =~= whole + fraction);
}

/// A numeral is JSON if it starts with a digit or a minus sign, has a digit before or behind its
/// point, and a digit behind the mark of its exponent if it has one. It reads as the number with
/// that text. If it starts right but lacks a digit it is refused.
pub proof fn law_numeral_is_json(
    negative: bool,
    whole: Seq<u8>,
    point: bool,
    fraction: Seq<u8>,
    mark: Seq<u8>,
    power: Seq<u8>,
)
    requires
        are_digits(whole),
        are_digits(fraction),
        are_digits(power),
        !point ==> fraction.len() == 0,
        is_exponent_mark(mark) || (mark.len() == 0 && power.len() == 0),
        negative || whole.len() > 0,
    ensures
        ({
            let b = numeral(negative, whole, point, fraction, mark, power);
            let text = ascii_text(b);
            document(b) == (if whole.len() + fraction.len() > 0 && (mark.len() > 0 ==> power.len()
                > 0) {
                Ok::<JsonView, Seq<char>>(JsonView::Number(text))
            } else {
                Err("invalid number "@ + text)
            })
        }),
{
    let b = numeral(negative, whole, point, fraction, mark, power);
    lemma_numeral_ends(negative, whole, point, fraction, mark, power);
    assert(b.subrange(0, b.len() as int) =~= b);
    assert(ws_end(b, 0) == 0);
    assert(ws_end(b, b.len() as int) == b.len());
}

proof fn lemma_ascii_byte(b: u8)
    requires
        b < 0x80,
    ensures
        '\0' <= b as char <= '\u{7f}',
        b as char as u8 == b,
{
}

proof fn lemma_written(digits: Seq<u8>)
    requires
        are_digits(digits),
    ensures
        digits_of(written(digits)) == digits,
        forall|k: int| 0 <= k < digits.len() ==> is_digit(#[trigger] written(digits)[k]),
{
    assert(digits_of(written(digits)) =~= digits);
}

/// A number below zero counts as 0.
pub proof fn law_negative_counts_as_nothing(v: Decimal, max: nat)
    requires
        v.negative,
    ensures
        v.counted(max) == 0,
{
}

/// A number with at most 52 bits before the point counts as what stands there, unless the fraction
/// behind it is so close to one that no double lies between.
pub proof fn law_count_drops_the_fraction(v: Decimal, max: nat, whole: nat)
    requires
        !v.negative,
        whole < 0x10_0000_0000_0000,
        whole * v.den() <= v.num(),
        v.num() * 0x10_0000_0000_0000 < (whole + 1) * v.den() * 0x10_0000_0000_0000 - v.den() * (whole
            + 1),
    ensures
        v.counted(max) == (if whole > max {
            max
        } else {
            whole
        }),
{
    lemma_pow10_pos((-v.exponent) as nat);
    lemma_whole_of(v.num(), v.den(), whole);
}

proof fn lemma_whole_of(n: nat, d: nat, whole: nat)
    requires
        d > 0,
        whole < 0x10_0000_0000_0000,
        whole * d <= n,
        n * 0x10_0000_0000_0000 < (whole + 1) * d * 0x10_0000_0000_0000 - d * (whole + 1),
    ensures
        nearest(n, d).whole() == whole,
{
    lemma2_to64();
    lemma2_to64_rest();
    let f = n - whole * d;
    let gap = d - f;
    assert((whole + 1) * d == whole * d + d) by (nonlinear_arith);
    assert(gap * 0x10_0000_0000_0000 > d * (whole + 1));
    assert(d * (whole + 1) >= d) by (nonlinear_arith);
    lemma_fundamental_div_mod_converse(n as int, d as int, whole as int, f);
    if n == 0 {
        assert(Binary { m: 0, e: 0 }.whole() == 0);
        assert(whole == 0) by (nonlinear_arith)
            requires
                whole * d <= 0,
                d > 0,
        ;
    } else {
        lemma_exponent(n, d);
        let k = exponent(n, d);
        if k < -1 {
            let p = pow2((-k) as nat);
            if k < -2 {
                lemma_pow2_strictly_increases(2, (-k) as nat);
            }
            assert(n * p >= 4 * n) by (nonlinear_arith)
                requires
                    p >= 4,
            ;
            lemma_whole_small(n, d);
            assert(whole == 0) by (nonlinear_arith)
                requires
                    whole * d <= n,
                    n < d,
            ;
        } else {
            assert(k <= 51) by {
                if k > 51 {
                    if k > 52 {
                        lemma_pow2_strictly_increases(52, k as nat);
                    }
                    let p = pow2(k as nat);
                    assert(d * p >= (whole + 1) * d) by (nonlinear_arith)
                        requires
                            p >= 0x10_0000_0000_0000,
                            whole < 0x10_0000_0000_0000,
                    ;
                }
            }
            lemma_whole_low(n, d, k);
            let c = (53 - k) as nat;
            let p = pow2(c);
            if all_ones(f as nat, d, c) {
                assert((p - 1) * d == p * d - d) by (nonlinear_arith);
                assert(gap * p == d * p - f * p) by (nonlinear_arith)
                    requires
                        gap == d - f,
                ;
                assert(d * p == p * d) by (nonlinear_arith);
                assert(gap * p <= d);
                if k == -1 {
                    lemma_pow2_unfold(54);
                    assert(p == 0x40_0000_0000_0000);
                    assert(gap * 0x40_0000_0000_0000 <= d);
                    assert(false);
                } else {
                    let t = pow2(k as nat);
                    lemma_pow2_adds(c, k as nat);
                    lemma_pow2_pos(k as nat);
                    assert(scaled_up(d, k) == d * t) by {
                        assert(d * 1 == d);
                    }
                    assert(gap * (p * t) <= d * t) by (nonlinear_arith)
                        requires
                            gap * p <= d,
                            t > 0,
                    ;
                    assert(gap * 0x20_0000_0000_0000 <= d * t);
                    assert(d * t <= n && n < (whole + 1) * d);
                    assert((whole + 1) * d == d * (whole + 1)) by (nonlinear_arith);
                    assert(false);
                }
            }
            assert(!all_ones(n % d, d, c));
        }
    }
}

} // verus!
