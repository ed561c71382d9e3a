use inference_server::json::Json;
use inference_server::metrics::Metrics;

fn expected(m: &Metrics) -> String {
    let mean = if m.requests_ok == 0 {
        0.0
    } else {
        m.latency_ms_total as f64 / m.requests_ok as f64
    };
    let rate = if m.latency_ms_total == 0 {
        0.0
    } else {
        m.tokens_total as f64 / (m.latency_ms_total as f64 / 1000.0)
    };
    format!(
        "{{\"requests_total\":{},\"requests_ok\":{},\"tokens_total\":{},\"latency_ms_total\":{},\"mean_latency_ms\":{:.3},\"tokens_per_sec\":{:.3},\"scheduler_steps\":{}}}",
        m.requests_total, m.requests_ok, m.tokens_total, m.latency_ms_total, mean, rate, m.scheduler_steps
    )
}

#[test]
fn starts_at_zero() {
    let m = Metrics::default();
    assert_eq!(
        m.snapshot_json(),
        "{\"requests_total\":0,\"requests_ok\":0,\"tokens_total\":0,\"latency_ms_total\":0,\"mean_latency_ms\":0.000,\"tokens_per_sec\":0.000,\"scheduler_steps\":0}"
    );
}

#[test]
fn counts_requests() {
    let mut m = Metrics::default();
    m.record_ok(5, 3);
    m.record_ok(4, 4);
    m.record_error();
    m.tick_sched();
    m.tick_sched();
    assert_eq!(
        m.snapshot_json(),
        "{\"requests_total\":3,\"requests_ok\":2,\"tokens_total\":9,\"latency_ms_total\":7,\"mean_latency_ms\":3.500,\"tokens_per_sec\":1285.714,\"scheduler_steps\":2}"
    );
    assert!(m.requests_ok <= m.requests_total);
}

#[test]
fn counters_wrap() {
    let mut m = Metrics::default();
    m.record_ok(u64::MAX, u64::MAX);
    m.record_ok(2, 3);
    assert_eq!(m.tokens_total, 1);
    assert_eq!(m.latency_ms_total, 2);
    assert_eq!(m.requests_total, 2);
}

#[test]
fn rates_are_rounded_as_doubles_are() {
    let mut seed: u64 = 3;
    for round in 0..20000u32 {
        let mut fields = [0u64; 5];
        for f in fields.iter_mut() {
            seed = seed.wrapping_mul(6364136223846793005).wrapping_add(1442695040888963407);
            *f = seed >> (round % 64);
        }
        let m = Metrics {
            requests_total: fields[0],
            requests_ok: fields[1],
            tokens_total: fields[2],
            latency_ms_total: fields[3],
            scheduler_steps: fields[4],
        };
        assert_eq!(m.snapshot_json(), expected(&m));
    }
}

#[test]
fn ties_go_to_even() {
    for (latency, ok) in [(1u64, 16u64), (3, 16), (1, 2000), (3, 2000), (5, 16), (u64::MAX, 1), (1, u64::MAX)] {
        let m = Metrics {
            requests_total: ok,
            requests_ok: ok,
            tokens_total: latency,
            latency_ms_total: latency,
            scheduler_steps: 0,
        };
        assert_eq!(m.snapshot_json(), expected(&m));
    }
    let m = Metrics {
        requests_total: 16,
        requests_ok: 16,
        tokens_total: 0,
        latency_ms_total: 1,
        scheduler_steps: 0,
    };
    assert!(m.snapshot_json().contains("\"mean_latency_ms\":0.062,"));
}

#[test]
fn metrics_read_back() {
    let mut m = Metrics::default();
    m.record_ok(5, 3);
    let j = Json::parse(&m.snapshot_json()).unwrap();
    assert_eq!(j.get("tokens_total").unwrap().as_u64(), Some(5));
    assert_eq!(j.get("mean_latency_ms").unwrap().as_number(), Some("3.000"));
    assert_eq!(j.get("tokens_per_sec").unwrap().as_number(), Some("1666.667"));
}

#[test]
fn counters_add_up() {
    let mut m = Metrics::default();
    for n in 0..10u64 {
        m.record_ok(n, 2 * n);
        m.tick_sched();
        if n % 3 == 0 {
            m.record_error();
        }
    }
    assert_eq!(m.requests_total, 14);
    assert_eq!(m.requests_ok, 10);
    assert_eq!(m.tokens_total, 45);
    assert_eq!(m.latency_ms_total, 90);
    assert_eq!(m.scheduler_steps, 10);
}
