//! How close rounded numbers are to what they stand for: doubles, the mean latency and the token
//! rate of the metrics.

use vstd::prelude::*;
use vstd::arithmetic::power2::*;
use vstd::arithmetic::div_mod::*;
use vstd::string::*;
use vstd::utf8::*;

use crate::binary::{
    exponent, half_even, in_thousandths, lemma_exponent, nearest, quotient, scaled_up, within, Binary,
};
use crate::json::ascii_text;
use crate::metrics::{fixed_text, mean_latency, token_rate, Metrics};
use crate::number::{
    decimal_of, digits_of, law_numeral_is_read, law_numeral_spells_its_number,
    law_value_is_positional, numeral, pow10, value, written, Decimal,
};
use crate::text::{decimal_text, lemma_digit_byte};

verus! {

/// The distance of two numbers.
pub open spec fn apart(a: nat, b: nat) -> nat {
    if a < b {
        (b - a) as nat
    } else {
        (a - b) as nat
    }
}

/// Rounding to an integer goes to the nearest: it moves a fraction by one half at most, and exactly
/// between two integers the even one is taken.
pub proof fn law_half_goes_to_even(n: nat, d: nat)
    requires
        d > 0,
    ensures
        2 * apart(half_even(n, d) * d, n) <= d,
        2 * apart(half_even(n, d) * d, n) == d ==> half_even(n, d) % 2 == 0,
{
    lemma_fundamental_div_mod(n as int, d as int);
    let q = n / d;
    assert((q + 1) * d == q * d + d) by (nonlinear_arith);
    assert(d * q == q * d) by (nonlinear_arith);
}

/// A fraction with a known exponent takes 53 bits once it is scaled.
proof fn lemma_scaled(n: nat, d: nat, k: int)
    requires
        n > 0,
        d > 0,
        within(n, d, k),
    ensures
        scaled_up(d, k - 52) > 0,
        scaled_up(d, k - 52) * pow2(52) <= scaled_up(n, 52 - k) < 2 * (scaled_up(d, k - 52) * pow2(
            52,
        )),
{
    lemma2_to64();
    lemma2_to64_rest();
    let (top, bottom) = (scaled_up(n, 52 - k), scaled_up(d, k - 52));
    let u = pow2(52);
    assert(n * 1 == n && d * 1 == d);
    if k < 0 {
        lemma_pow2_adds((-k) as nat, 52);
        let p = pow2((-k) as nat);
        assert(n * (p * u) == (n * p) * u) by (nonlinear_arith);
        let x = n * p;
        assert(d * u <= x * u < 2 * (d * u)) by (nonlinear_arith)
            requires
                d <= x < 2 * d,
                u > 0,
        ;
    } else if k <= 52 {
        lemma_pow2_adds(k as nat, (52 - k) as nat);
        lemma_pow2_pos((52 - k) as nat);
        let (p, q) = (pow2(k as nat), pow2((52 - k) as nat));
        assert(scaled_up(d, k) == d * p);
        assert(top == n * q);
        assert(d * (p * q) <= n * q < 2 * (d * (p * q))) by (nonlinear_arith)
            requires
                d * p <= n < 2 * (d * p),
                q > 0,
        ;
    } else {
        lemma_pow2_adds((k - 52) as nat, 52);
        lemma_pow2_pos((k - 52) as nat);
        let p = pow2((k - 52) as nat);
        assert(d * (p * u) == (d * p) * u) by (nonlinear_arith);
        assert(d * p > 0) by (nonlinear_arith)
            requires
                d > 0,
                p > 0,
        ;
    }
}

/// The denominator of a number is positive.
proof fn lemma_den(x: Binary)
    ensures
        x.den() > 0,
{
    if x.e < 0 {
        lemma_pow2_pos((-x.e) as nat);
        assert(1 * pow2((-x.e) as nat) == pow2((-x.e) as nat));
    }
}

/// A fraction and its double differ by one part in 2^53 at most, and the double is positive if the
/// fraction is.
pub proof fn law_double_is_close(n: nat, d: nat)
    requires
        d > 0,
    ensures
        nearest(n, d).den() > 0,
        n == 0 <==> nearest(n, d).num() == 0,
        apart(nearest(n, d).num() * d, n * nearest(n, d).den()) * 0x20_0000_0000_0000 <= n
            * nearest(n, d).den(),
{
    lemma2_to64();
    lemma2_to64_rest();
    let b = nearest(n, d);
    lemma_den(b);
    if n == 0 {
        assert(0 * d == 0) by (nonlinear_arith);
        assert(0 * b.den() == 0) by (nonlinear_arith);
    } else {
        lemma_exponent(n, d);
        let k = exponent(n, d);
        lemma_scaled(n, d, k);
        let e = k - 52;
        let (top, bottom) = (scaled_up(n, -e), scaled_up(d, e));
        law_half_goes_to_even(top, bottom);
        let m = half_even(top, bottom);
        assert(b.m == m && b.e == e);
        let off = apart(m * bottom, top);
        assert(off * 0x20_0000_0000_0000 <= top);
        assert(m > 0) by {
            if m == 0 {
                assert(0 * bottom == 0) by (nonlinear_arith);
            }
        }
        if e > 0 {
            let p = pow2(e as nat);
            lemma_pow2_pos(e as nat);
            assert(m * p * d == m * (d * p)) by (nonlinear_arith);
            assert(m * p > 0) by (nonlinear_arith)
                requires
                    m > 0,
                    p > 0,
            ;
            assert(n * 1 == n);
        } else {
            assert(top == n * b.den()) by {
                if e < 0 {
                    assert(1 * pow2((-e) as nat) == pow2((-e) as nat));
                } else {
                    assert(n * 1 == n);
                }
            }
        }
    }
}

/// An integer below 2^53 is a double.
pub proof fn law_small_integer_is_a_double(n: nat)
    requires
        n < 0x20_0000_0000_0000,
    ensures
        nearest(n, 1).num() == n * nearest(n, 1).den(),
{
    lemma2_to64();
    lemma2_to64_rest();
    if n == 0 {
        assert(0 * nearest(n, 1).den() == 0) by (nonlinear_arith);
    } else {
        lemma_exponent(n, 1);
        let k = exponent(n, 1);
        assert(k <= 52) by {
            if k > 52 {
                if k > 53 {
                    lemma_pow2_strictly_increases(53, k as nat);
                }
                assert(1 * pow2(k as nat) == pow2(k as nat));
            }
        }
        let e = k - 52;
        let p = pow2((-e) as nat);
        assert(n * 1 == n);
        assert(1 * p == p);
        assert(scaled_up(n, -e) == n * p);
        assert(half_even(n * p, 1) == n * p);
    }
}

/// The quotient of two doubles and the double that stands for it differ by one part in 2^53 at most.
pub proof fn law_quotient_is_close(a: Binary, b: Binary)
    requires
        b.num() > 0,
    ensures
        ({
            let q = quotient(a, b);
            let off = apart(q.num() * (a.den() * b.num()), a.num() * b.den() * q.den());
            &&& q.den() > 0
            &&& off * 0x20_0000_0000_0000 <= a.num() * b.den() * q.den()
        }),
{
    lemma_den(a);
    let (x, y) = (a.den(), b.num());
    assert(x * y > 0) by (nonlinear_arith)
        requires
            x > 0,
            y > 0,
    ;
    law_double_is_close(a.num() * b.den(), a.den() * b.num());
}

/// A bound on a distance holds without a common factor.
proof fn lemma_cancel(a: nat, b: nat, c: nat, f: nat)
    requires
        f > 0,
        apart(a * f, b * f) * 0x20_0000_0000_0000 <= c * f,
    ensures
        apart(a, b) * 0x20_0000_0000_0000 <= c,
{
    assert(apart(a * f, b * f) == apart(a, b) * f) by {
        if a < b {
            assert(b * f - a * f == (b - a) * f) by (nonlinear_arith);
            assert(a * f < b * f) by (nonlinear_arith)
                requires
                    a < b,
                    f > 0,
            ;
        } else {
            assert(a * f - b * f == (a - b) * f) by (nonlinear_arith);
            assert(a * f >= b * f) by (nonlinear_arith)
                requires
                    a >= b,
                    f > 0,
            ;
        }
    }
    let x = apart(a, b);
    assert(x * 0x20_0000_0000_0000 <= c) by (nonlinear_arith)
        requires
            x * f * 0x20_0000_0000_0000 <= c * f,
            f > 0,
    ;
}

/// The quotient of two integers, as a double.
proof fn lemma_ratio(n: nat, d: nat)
    requires
        n < 0x20_0000_0000_0000,
        0 < d < 0x20_0000_0000_0000,
    ensures
        ({
            let q = quotient(nearest(n, 1), nearest(d, 1));
            &&& q.den() > 0
            &&& n == 0 <==> q.num() == 0
            &&& apart(q.num() * d, n * q.den()) * 0x20_0000_0000_0000 <= n * q.den()
        }),
{
    let (a, b) = (nearest(n, 1), nearest(d, 1));
    law_small_integer_is_a_double(n);
    law_small_integer_is_a_double(d);
    lemma_den(a);
    lemma_den(b);
    let (x, y) = (a.den(), b.den());
    assert(d * y > 0) by (nonlinear_arith)
        requires
            d > 0,
            y > 0,
    ;
    law_quotient_is_close(a, b);
    let q = quotient(a, b);
    let f = x * y;
    assert(f > 0) by (nonlinear_arith)
        requires
            x > 0,
            y > 0,
            f == x * y,
    ;
    let (qn, qd) = (q.num(), q.den());
    assert(qn * (x * (d * y)) == (qn * d) * f) by (nonlinear_arith)
        requires
            f == x * y,
    ;
    assert(n * x * y * qd == (n * qd) * f) by (nonlinear_arith)
        requires
            f == x * y,
    ;
    lemma_cancel(qn * d, n * qd, n * qd, f);
    assert(x * (d * y) > 0) by (nonlinear_arith)
        requires
            x > 0,
            d * y > 0,
    ;
    law_double_is_close(n * x * y, x * (d * y));
    assert(n * x * y == n * f) by (nonlinear_arith)
        requires
            f == x * y,
    ;
    assert((n == 0) == (n * f == 0)) by (nonlinear_arith)
        requires
            f > 0,
    ;
}

/// The mean latency is the latency divided by the answered requests, to the nearest thousandth, but
/// for one part in 2^53; without answered requests it is 0.
pub proof fn law_mean_latency_is_close(m: Metrics)
    requires
        m.latency_ms_total < 0x20_0000_0000_0000,
        m.requests_ok < 0x20_0000_0000_0000,
    ensures
        ({
            let mean = in_thousandths(mean_latency(m));
            if m.requests_ok == 0 {
                mean == 0
            } else {
                apart(mean * m.requests_ok as nat, 1000 * m.latency_ms_total as nat) * 0x20_0000_0000_0000
                    <= m.requests_ok * 0x10_0000_0000_0000 + 1000 * m.latency_ms_total
            }
        }),
{
    let (lat, n) = (m.latency_ms_total as nat, m.requests_ok as nat);
    if n > 0 {
        lemma_ratio(lat, n);
        let q = mean_latency(m);
        law_half_goes_to_even(q.num() * 1000, q.den());
        lemma_mean(in_thousandths(q), q.num(), q.den(), lat, n);
    }
}

proof fn lemma_mean(mean: nat, p: nat, q: nat, lat: nat, n: nat)
    requires
        q > 0,
        2 * apart(mean * q, p * 1000) <= q,
        apart(p * n, lat * q) * 0x20_0000_0000_0000 <= lat * q,
    ensures
        apart(mean * n, 1000 * lat) * 0x20_0000_0000_0000 <= n * 0x10_0000_0000_0000 + 1000
            * lat,
{
    let u = 0x20_0000_0000_0000int;
    let x = mean * q - p * 1000;
    let y = p * n - lat * q;
    let z = mean * n - 1000 * lat;
    assert(z * q == x * n + 1000 * y) by (nonlinear_arith)
        requires
            x == mean * q - p * 1000,
            y == p * n - lat * q,
            z == mean * n - 1000 * lat,
    ;
    assert(-(q * n) <= 2 * (x * n) <= q * n) by (nonlinear_arith)
        requires
            -q <= 2 * x <= q,
            n >= 0,
    ;
    assert(-(lat * q) <= y * u <= lat * q);
    let (xn, qn, lq) = (x * n, (q * n) as int, lat * q);
    assert(2 * (z * q * u) <= qn * u + 2000 * lq && -(qn * u + 2000 * lq) <= 2 * (z * q * u))
        by (nonlinear_arith)
        requires
            z * q == xn + 1000 * y,
            -qn <= 2 * xn <= qn,
            -lq <= y * u <= lq,
            u == 0x20_0000_0000_0000,
    ;
    let c = n * u + 2000 * lat;
    assert(qn * u + 2000 * lq == c * q) by (nonlinear_arith)
        requires
            qn == q * n,
            lq == lat * q,
            c == n * u + 2000 * lat,
    ;
    assert(-c <= 2 * (z * u) <= c) by (nonlinear_arith)
        requires
            -(c * q) <= 2 * (z * q * u) <= c * q,
            q > 0,
    ;
}

/// The token rate is the tokens divided by the seconds of latency, to the nearest thousandth, but
/// for five parts in 2^53; without latency it is 0.
pub proof fn law_token_rate_is_close(m: Metrics)
    requires
        m.latency_ms_total < 0x20_0000_0000_0000,
        m.tokens_total < 0x20_0000_0000_0000,
    ensures
        ({
            let rate = in_thousandths(token_rate(m));
            if m.latency_ms_total == 0 {
                rate == 0
            } else {
                apart(rate * m.latency_ms_total as nat, 1000000 * m.tokens_total as nat) * 0x20_0000_0000_0000
                    <= m.latency_ms_total * 0x10_0000_0000_0000 + 5000000 * m.tokens_total
            }
        }),
{
    let (lat, tok) = (m.latency_ms_total as nat, m.tokens_total as nat);
    if lat > 0 {
        lemma_ratio(lat, 1000);
        let s = quotient(nearest(lat, 1), nearest(1000, 1));
        let a = nearest(tok, 1);
        law_small_integer_is_a_double(tok);
        lemma_den(a);
        law_quotient_is_close(a, s);
        let r = token_rate(m);
        let x = a.den();
        assert(r.num() * (x * s.num()) == (r.num() * s.num()) * x) by (nonlinear_arith);
        assert((tok * x) * s.den() * r.den() == (tok * s.den() * r.den()) * x) by (nonlinear_arith);
        lemma_cancel(
            r.num() * s.num(),
            tok * s.den() * r.den(),
            tok * s.den() * r.den(),
            x,
        );
        law_half_goes_to_even(r.num() * 1000, r.den());
        lemma_rate(in_thousandths(r), r.num(), r.den(), s.num(), s.den(), tok, lat);
    }
}

proof fn lemma_rate(rate: nat, p: nat, q: nat, s: nat, t: nat, tok: nat, lat: nat)
    requires
        q > 0,
        t > 0,
        2 * apart(rate * q, p * 1000) <= q,
        apart(p * s, tok * t * q) * 0x20_0000_0000_0000 <= tok * t * q,
        apart(s * 1000, lat * t) * 0x20_0000_0000_0000 <= lat * t,
    ensures
        apart(rate * lat, 1000000 * tok) * 0x20_0000_0000_0000 <= lat * 0x10_0000_0000_0000
            + 5000000 * tok,
{
    let u = 0x20_0000_0000_0000int;
    let x = rate * q - p * 1000;
    let y = p * s - tok * t * q;
    let w = lat * t - s * 1000;
    let z = rate * lat - 1000000 * tok;
    let f = (q * t) as int;
    let (lt, ps, tq) = ((lat * t) as int, (p * s) as int, tok * t * q);
    assert(f > 0) by (nonlinear_arith)
        requires
            q > 0,
            t > 0,
            f == q * t,
    ;
    let (all, part) = (rate * q * lt, p * lt);
    assert(x * lt == all - 1000 * part) by {
        assert((rate * q - p * 1000) * lt == rate * q * lt - 1000 * (p * lt)) by (nonlinear_arith);
    }
    assert(p * w == part - 1000 * ps) by {
        assert(p * (lt - s * 1000) == p * lt - 1000 * (p * s)) by (nonlinear_arith);
    }
    assert(z * f == all - 1000000 * tq) by {
        assert((rate * lat - 1000000 * tok) * f == rate * lat * f - 1000000 * (tok * f))
            by (nonlinear_arith);
        assert(rate * lat * (q * t) == rate * q * (lat * t)) by (nonlinear_arith);
        assert(tok * (q * t) == tok * t * q) by (nonlinear_arith);
    }
    assert(z * f == x * lt + 1000 * (p * w) + 1000000 * y);
    assert(-(q * lt) <= 2 * (x * lt) <= q * lt) by (nonlinear_arith)
        requires
            -q <= 2 * x <= q,
            lt >= 0,
    ;
    assert(lt <= 2000 * s);
    assert(-(2000 * ps) <= (p * w) * u <= 2000 * ps) by (nonlinear_arith)
        requires
            -lt <= w * u <= lt,
            lt <= 2000 * s,
            ps == p * s,
            p >= 0,
    ;
    assert(ps <= 2 * tq);
    let (xl, pw, ql) = (x * lt, p * w, q * lt);
    assert(-(ql * u + 10000000 * tq) <= 2 * (z * f * u) <= ql * u + 10000000 * tq) by (nonlinear_arith)
        requires
            z * f == xl + 1000 * pw + 1000000 * y,
            -ql <= 2 * xl <= ql,
            -(4000 * tq) <= pw * u <= 4000 * tq,
            -tq <= y * u <= tq,
            u == 0x20_0000_0000_0000,
    ;
    let c = lat * u + 10000000 * tok;
    assert(ql * u + 10000000 * tq == c * f) by (nonlinear_arith)
        requires
            ql == q * lt,
            lt == lat * t,
            tq == tok * t * q,
            c == lat * u + 10000000 * tok,
            f == q * t,
    ;
    assert(-c <= 2 * (z * u) <= c) by (nonlinear_arith)
        requires
            -(c * f) <= 2 * (z * f * u) <= c * f,
            f > 0,
    ;
}

proof fn lemma_three_digits(n: nat, all: nat, x: u8, y: u8, z: u8)
    requires
        x == n / 100 % 10,
        y == n / 10 % 10,
        z == n % 10,
        all == (n / 1000) * 1000 + (x * 10 + y) * 10 + z,
    ensures
        all == n,
{
    lemma_div_denominator(n as int, 10, 10);
    lemma_div_denominator(n as int, 100, 10);
    let a = n / 10;
    let b = a / 10;
    lemma_fundamental_div_mod(n as int, 10);
    lemma_fundamental_div_mod(a as int, 10);
    lemma_fundamental_div_mod(b as int, 10);
}

/// A number of thousandths is written with exactly three digits behind the point, and reads as that
/// many thousandths.
pub proof fn law_thousandths_are_written_with_three_digits(n: nat)
    ensures
        fixed_text(n).len() >= 5,
        fixed_text(n)[fixed_text(n).len() - 4] == '.',
        decimal_of(fixed_text(n)) == (Decimal { negative: false, digits: n, exponent: -3 }),
{
    let front = decimal_text(n / 1000);
    let w = digits_of(encode_utf8(front));
    law_numeral_spells_its_number(n / 1000);
    is_ascii_chars_encode_utf8(front);
    let (x, y, z) = ((n / 100 % 10) as u8, (n / 10 % 10) as u8, (n % 10) as u8);
    let f = seq![x, y, z];
    assert forall|k: int| 0 <= k < w.len() implies #[trigger] w[k] < 10 && (0x30 + w[k]) as u8 as char
        == front[k] by {
        lemma_digit_byte(front[k]);
    }
    let b = numeral(false, w, true, f, seq![], seq![]);
    law_numeral_is_read(false, w, true, f, seq![], seq![]);
    law_value_is_positional(w, f, 0);
    law_value_is_positional(seq![x, y], seq![z], z);
    law_value_is_positional(seq![x], seq![y], y);
    law_value_is_positional(seq![], seq![x], x);
    assert(seq![x, y] + seq![z] =~= f);
    assert(seq![x] + seq![y] =~= seq![x, y]);
    reveal_with_fuel(pow10, 4);
    assert(pow10(1) == 10 && pow10(3) == 1000);
    let (one, two) = (value(seq![x]), value(seq![x, y]));
    assert(seq![y].len() == 1 && seq![z].len() == 1 && f.len() == 3);
    assert(one == x);
    assert(two == one * 10 + y);
    assert(value(f) == two * 10 + z);
    assert(value(w + f) == value(w) * 1000 + value(f));
    lemma_three_digits(n, value(w + f), x, y, z);
    assert(value(Seq::<u8>::empty()) == 0);
    reveal_strlit(".");
    let text = fixed_text(n);
    assert(b =~= written(w) + seq![0x2eu8] + written(f));
    assert(ascii_text(b) =~= text) by {
        assert forall|k: int| 0 <= k < text.len() implies #[trigger] text[k] == b[k] as char by {
            if k < front.len() {
                assert(text[k] == front[k]);
            } else if k > front.len() {
                let j = k - front.len() - 1;
                assert(b[k] == written(f)[j]);
                assert(j == 0 || j == 1 || j == 2);
            }
        }
    }
}

} // verus!
