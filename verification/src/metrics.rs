//! Serving metrics: requests, tokens, latency.

use vstd::prelude::*;
use vstd::arithmetic::power2::*;
use vstd::string::*;

use crate::binary::{
    divide, in_thousandths, lemma_nearest, nearest, quotient, rounded, thousandths, Binary, Dyadic,
};
use crate::text::{decimal, decimal_text, digit_char};

verus! {

/// Counters of a serving process. They wrap round at the end of their range.
#[derive(Clone, Copy, Debug)]
pub struct Metrics {
    pub requests_total: u64,
    pub requests_ok: u64,
    pub tokens_total: u64,
    pub latency_ms_total: u64,
    pub scheduler_steps: u64,
}

/// The counters after a request that got `tokens` in `ms` milliseconds.
pub open spec fn with_ok(m: Metrics, tokens: u64, ms: u64) -> Metrics {
    Metrics {
        requests_total: m.requests_total.wrapping_add(1),
        requests_ok: m.requests_ok.wrapping_add(1),
        tokens_total: m.tokens_total.wrapping_add(tokens),
        latency_ms_total: m.latency_ms_total.wrapping_add(ms),
        ..m
    }
}

/// The counters after a request that failed.
pub open spec fn with_error(m: Metrics) -> Metrics {
    Metrics { requests_total: m.requests_total.wrapping_add(1), ..m }
}

/// The counters after a tick of the scheduler.
pub open spec fn with_tick(m: Metrics) -> Metrics {
    Metrics { scheduler_steps: m.scheduler_steps.wrapping_add(1), ..m }
}

/// The mean latency in milliseconds, in double precision.
pub open spec fn mean_latency(m: Metrics) -> Binary {
    if m.requests_ok == 0 {
        Binary { m: 0, e: 0 }
    } else {
        quotient(nearest(m.latency_ms_total as nat, 1), nearest(m.requests_ok as nat, 1))
    }
}

/// The tokens per second of latency, in double precision.
pub open spec fn token_rate(m: Metrics) -> Binary {
    if m.latency_ms_total == 0 {
        Binary { m: 0, e: 0 }
    } else {
        quotient(
            nearest(m.tokens_total as nat, 1),
            quotient(nearest(m.latency_ms_total as nat, 1), nearest(1000, 1)),
        )
    }
}

/// A number of thousandths with three decimals.
pub open spec fn fixed_text(n: nat) -> Seq<char> {
    decimal_text(n / 1000) + "."@ + seq![
        digit_char(n / 100 % 10),
        digit_char(n / 10 % 10),
        digit_char(n % 10),
    ]
}

/// The counters as a JSON object.
pub open spec fn snapshot_text(m: Metrics) -> Seq<char> {
    "{\"requests_total\":"@ + decimal_text(m.requests_total as nat) + ",\"requests_ok\":"@
        + decimal_text(m.requests_ok as nat) + ",\"tokens_total\":"@ + decimal_text(
        m.tokens_total as nat,
    ) + ",\"latency_ms_total\":"@ + decimal_text(m.latency_ms_total as nat)
        + ",\"mean_latency_ms\":"@ + fixed_text(in_thousandths(mean_latency(m)))
        + ",\"tokens_per_sec\":"@ + fixed_text(in_thousandths(token_rate(m)))
        + ",\"scheduler_steps\":"@ + decimal_text(m.scheduler_steps as nat) + "}"@
}

/// 1000 in double precision.
proof fn lemma_thousand()
    ensures
        nearest(1000, 1) == (Binary { m: 0x1f_4000_0000_0000, e: -43 }),
{
    lemma2_to64();
    lemma2_to64_rest();
    lemma_nearest(1000, 1, 9);
}

/// A number of thousandths with three decimals.
fn fixed(n: u128) -> (r: String)
    ensures
        r@ == fixed_text(n as nat),
{
    let mut text = decimal(n / 1000);
    text.append(".");
    let (a, b, c): (u8, u8, u8) = ((n / 100 % 10) as u8, (n / 10 % 10) as u8, (n % 10) as u8);
    text.push((48 + a) as char);
    text.push((48 + b) as char);
    text.push((48 + c) as char);
    assert(text@ =~= fixed_text(n as nat));
    text
}

impl Default for Metrics {
    /// All counters at 0.
    fn default() -> (r: Metrics)
        ensures
            r == (Metrics {
                requests_total: 0,
                requests_ok: 0,
                tokens_total: 0,
                latency_ms_total: 0,
                scheduler_steps: 0,
            }),
    {
        Metrics {
            requests_total: 0,
            requests_ok: 0,
            tokens_total: 0,
            latency_ms_total: 0,
            scheduler_steps: 0,
        }
    }
}

impl Metrics {
    /// Counts a request that got `tokens` in `elapsed_ms` milliseconds.
    pub fn record_ok(&mut self, tokens: u64, elapsed_ms: u64)
        ensures
            *final(self) == with_ok(*old(self), tokens, elapsed_ms),
    {
        self.requests_total = self.requests_total.wrapping_add(1);
        self.requests_ok = self.requests_ok.wrapping_add(1);
        self.tokens_total = self.tokens_total.wrapping_add(tokens);
        self.latency_ms_total = self.latency_ms_total.wrapping_add(elapsed_ms);
    }

    /// Counts a request that failed.
    pub fn record_error(&mut self)
        ensures
            *final(self) == with_error(*old(self)),
    {
        self.requests_total = self.requests_total.wrapping_add(1);
    }

    /// Counts a tick of the scheduler.
    pub fn tick_sched(&mut self)
        ensures
            *final(self) == with_tick(*old(self)),
    {
        self.scheduler_steps = self.scheduler_steps.wrapping_add(1);
    }

    fn mean_thousandths(&self) -> (r: u128)
        ensures
            r == in_thousandths(mean_latency(*self)),
    {
        if self.requests_ok == 0 {
            return thousandths(Dyadic { m: 0, e: 0 });
        }
        thousandths(divide(rounded(self.latency_ms_total, 1), rounded(self.requests_ok, 1)))
    }

    fn rate_thousandths(&self) -> (r: u128)
        ensures
            r == in_thousandths(token_rate(*self)),
    {
        if self.latency_ms_total == 0 {
            return thousandths(Dyadic { m: 0, e: 0 });
        }
        proof {
            lemma_thousand();
        }
        let thousand = Dyadic { m: 0x1f_4000_0000_0000, e: -43 };
        let seconds = divide(rounded(self.latency_ms_total, 1), thousand);
        thousandths(divide(rounded(self.tokens_total, 1), seconds))
    }

    /// The counters as a JSON object.
    pub fn snapshot_json(&self) -> (r: String)
        ensures
            r@ == snapshot_text(*self),
    {
        let mut text = "{\"requests_total\":".to_string();
        text.append(decimal(self.requests_total as u128).as_str());
        text.append(",\"requests_ok\":");
        text.append(decimal(self.requests_ok as u128).as_str());
        text.append(",\"tokens_total\":");
        text.append(decimal(self.tokens_total as u128).as_str());
        text.append(",\"latency_ms_total\":");
        text.append(decimal(self.latency_ms_total as u128).as_str());
        text.append(",\"mean_latency_ms\":");
        text.append(fixed(self.mean_thousandths()).as_str());
        text.append(",\"tokens_per_sec\":");
        text.append(fixed(self.rate_thousandths()).as_str());
        text.append(",\"scheduler_steps\":");
        text.append(decimal(self.scheduler_steps as u128).as_str());
        text.append("}");
        text
    }
}

/// As long as the counter of requests has not wrapped round, no more requests have succeeded than
/// there were.
pub proof fn law_ok_never_exceeds_total(m: Metrics, tokens: u64, ms: u64)
    requires
        m.requests_ok <= m.requests_total < u64::MAX,
    ensures
        with_ok(m, tokens, ms).requests_ok <= with_ok(m, tokens, ms).requests_total,
        with_error(m).requests_ok <= with_error(m).requests_total,
        with_tick(m).requests_ok <= with_tick(m).requests_total,
{
}

/// What is counted.
pub enum Record {
    Answered { tokens: u64, ms: u64 },
    Failed,
    Tick,
}

/// The counters after some records.
pub open spec fn recorded(m: Metrics, records: Seq<Record>) -> Metrics
    decreases records.len(),
{
    if records.len() == 0 {
        m
    } else {
        let before = recorded(m, records.drop_last());
        match records.last() {
            Record::Answered { tokens, ms } => with_ok(before, tokens, ms),
            Record::Failed => with_error(before),
            Record::Tick => with_tick(before),
        }
    }
}

/// What records add up to.
pub struct Totals {
    pub ok: nat,
    pub errors: nat,
    pub tokens: nat,
    pub ms: nat,
    pub ticks: nat,
}

/// What records add up to.
pub open spec fn totals(records: Seq<Record>) -> Totals
    decreases records.len(),
{
    if records.len() == 0 {
        Totals { ok: 0, errors: 0, tokens: 0, ms: 0, ticks: 0 }
    } else {
        let t = totals(records.drop_last());
        match records.last() {
            Record::Answered { tokens, ms } => Totals {
                ok: t.ok + 1,
                tokens: t.tokens + tokens as nat,
                ms: t.ms + ms as nat,
                ..t
            },
            Record::Failed => Totals { errors: t.errors + 1, ..t },
            Record::Tick => Totals { ticks: t.ticks + 1, ..t },
        }
    }
}

/// A counter that started at `start` and to which `n` was added.
pub open spec fn wrapped(start: u64, n: nat) -> u64 {
    ((start + n) % 0x1_0000_0000_0000_0000) as u64
}

proof fn lemma_wrapped(start: u64, n: nat, x: u64)
    ensures
        wrapped(start, n).wrapping_add(x) == wrapped(start, n + x as nat),
{
    let m = 0x1_0000_0000_0000_0000int;
    let sum = (start + n) as int;
    let r = sum % m;
    vstd::arithmetic::div_mod::lemma_fundamental_div_mod(sum, m);
    let q = sum / m;
    if r + x < m {
        vstd::arithmetic::div_mod::lemma_fundamental_div_mod_converse(sum + x, m, q, r + x);
    } else {
        vstd::arithmetic::div_mod::lemma_fundamental_div_mod_converse(sum + x, m, q + 1, r + x - m);
    }
}

/// The counters add up what was recorded, in whatever order, and wrap round at the end of their
/// range: every finished request counts once, a failed one only in the total, and tokens,
/// milliseconds and ticks are summed.
pub proof fn law_counters_add_up(m: Metrics, records: Seq<Record>)
    ensures
        ({
            let t = totals(records);
            recorded(m, records) == (Metrics {
                requests_total: wrapped(m.requests_total, t.ok + t.errors),
                requests_ok: wrapped(m.requests_ok, t.ok),
                tokens_total: wrapped(m.tokens_total, t.tokens),
                latency_ms_total: wrapped(m.latency_ms_total, t.ms),
                scheduler_steps: wrapped(m.scheduler_steps, t.ticks),
            })
        }),
    decreases records.len(),
{
    if records.len() > 0 {
        let t = totals(records.drop_last());
        law_counters_add_up(m, records.drop_last());
        match records.last() {
            Record::Answered { tokens, ms } => {
                lemma_wrapped(m.requests_total, t.ok + t.errors, 1);
                lemma_wrapped(m.requests_ok, t.ok, 1);
                lemma_wrapped(m.tokens_total, t.tokens, tokens);
                lemma_wrapped(m.latency_ms_total, t.ms, ms);
            },
            Record::Failed => {
                lemma_wrapped(m.requests_total, t.ok + t.errors, 1);
            },
            Record::Tick => {
                lemma_wrapped(m.scheduler_steps, t.ticks, 1);
            },
        }
    }
}

} // verus!
