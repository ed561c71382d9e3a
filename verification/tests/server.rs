use inference_server::generation::{parse_gen, GenParams};
use inference_server::http::{Reading, Request, RequestReader, Response};
use inference_server::json::Json;
use inference_server::lm::LanguageModel;
use inference_server::metrics::Metrics;
use inference_server::scheduler::{Scheduler, StepAction, StepEvent, TokenEvent};
use inference_server::server::{
    error_body, handle_client, new_job, route, Collector, Dispatch, Route, TokenStream,
};

fn word(out: &mut Vec<u8>, n: u32) {
    out.extend_from_slice(&n.to_le_bytes());
}

fn model() -> LanguageModel {
    let vocab = b"abcdefghijklmnopqrstuvwxyz ";
    let mut out: Vec<u8> = b"TGPT".to_vec();
    for n in [1, 27, 1, 1, 0, 1, 8, 27] {
        word(&mut out, n);
    }
    out.extend_from_slice(vocab);
    for n in 0..27 + 8 + 2 {
        word(&mut out, n);
    }
    LanguageModel::load_bytes(&out).unwrap()
}

fn read(text: &str) -> Result<Request, String> {
    let mut reader = RequestReader::new();
    match reader.feed(text.as_bytes()) {
        Reading::Done(request) => return Ok(request),
        Reading::Failed(message) => return Err(message),
        Reading::More => {}
    }
    match reader.feed(&[]) {
        Reading::Done(request) => Ok(request),
        Reading::Failed(message) => Err(message),
        Reading::More => panic!("the input has ended"),
    }
}

/// The events of a job, with tokens out of its own generator.
fn events(params: &GenParams) -> Vec<TokenEvent> {
    let lm = model();
    let mut sched = Scheduler::new(8);
    sched.enqueue(new_job(params, &lm, ()));
    let mut out = Vec::new();
    while sched.has_work() {
        let mut action = sched.step(&lm, StepEvent::Begin);
        loop {
            let event = match action {
                StepAction::Idle | StepAction::Done => break,
                StepAction::Decode { index, .. } => {
                    let n = sched.active[index].rng.next_fraction() as usize;
                    StepEvent::Sampled(n % lm.vocab.len())
                }
                StepAction::Deliver { event, .. } | StepAction::Retire { event, .. } => {
                    out.push(event);
                    StepEvent::Next
                }
            };
            action = sched.step(&lm, event);
        }
    }
    out
}

/// What a client gets.
fn exchange(metrics: &mut Metrics, text: &str) -> String {
    match handle_client(read(text), metrics) {
        Dispatch::Reply(response) => response.to_http(),
        Dispatch::Generate { params, chat } => {
            if params.stream {
                let mut stream = TokenStream::new();
                let mut sent = stream.head();
                for event in events(&params) {
                    let (text, done) = stream.event(&event);
                    assert_eq!(done, event.done);
                    sent.push_str(&text);
                }
                stream.finish(metrics, 3);
                sent
            } else {
                let mut answer = Collector::new();
                for event in events(&params) {
                    let done = answer.event(&event);
                    assert_eq!(done, event.done);
                }
                answer.finish(1, chat, metrics, 3).to_http()
            }
        }
    }
}

fn post(path: &str, body: &str) -> String {
    format!(
        "POST {} HTTP/1.1\r\nHost: localhost\r\nContent-Type: application/json\r\nContent-Length: {}\r\n\r\n{}",
        path,
        body.len(),
        body
    )
}

fn payload(response: &str) -> &str {
    response.split_once("\r\n\r\n").unwrap().1
}

#[test]
fn health_ok() {
    let mut m = Metrics::default();
    let r = exchange(&mut m, "GET /health HTTP/1.1\r\nHost: localhost\r\n\r\n");
    assert!(r.contains("200"), "{r}");
    assert!(r.contains("ok"), "{r}");
    assert_eq!(payload(&r), "{\"status\":\"ok\"}");
}

#[test]
fn metrics_endpoint() {
    let mut m = Metrics::default();
    let body = r#"{"prompt":"hi","max_tokens":2,"temperature":0,"seed":1}"#;
    let _ = exchange(&mut m, &post("/v1/completions", body));
    let r = exchange(&mut m, "GET /metrics HTTP/1.1\r\nHost: localhost\r\n\r\n");
    assert!(r.contains("200"), "{r}");
    assert!(r.contains("tokens_total"), "{r}");
    assert!(r.contains("mean_latency_ms"), "{r}");
    assert!(r.contains("\"requests_ok\":1,\"tokens_total\":2,"), "{r}");
}

#[test]
fn completion_not_echo_and_max_tokens() {
    let mut m = Metrics::default();
    let body = r#"{"prompt":"hello","max_tokens":5,"temperature":0,"seed":1}"#;
    let r = exchange(&mut m, &post("/v1/completions", body));
    assert!(r.contains("200"), "{r}");
    assert!(r.contains("\"text\":"), "{r}");
    assert!(!r.contains("\"text\":\"hello\""), "{r}");
    assert!(r.contains("\"completion_tokens\":5"), "{r}");
}

#[test]
fn invalid_json_is_400() {
    let mut m = Metrics::default();
    let body = "{not json";
    let req = format!(
        "POST /v1/completions HTTP/1.1\r\nHost: localhost\r\nContent-Length: {}\r\n\r\n{}",
        body.len(),
        body
    );
    let r = exchange(&mut m, &req);
    assert!(r.contains("400"), "{r}");
    assert!(r.contains("invalid_request_error"), "{r}");
    assert_eq!(m.requests_total, 1);
    assert_eq!(m.requests_ok, 0);
}

#[test]
fn what_cannot_be_read_is_400() {
    let mut m = Metrics::default();
    let r = exchange(&mut m, "GET /health");
    assert!(r.starts_with("HTTP/1.1 400 Bad Request\r\n"), "{r}");
    assert_eq!(
        payload(&r),
        "{\"error\":{\"message\":\"incomplete request\",\"type\":\"invalid_request_error\",\"code\":400}}"
    );
    assert_eq!(m.requests_total, 1);
}

#[test]
fn routes() {
    assert_eq!(route("GET", "/health"), Route::Health);
    assert_eq!(route("GET", "/metrics"), Route::Metrics);
    assert_eq!(route("POST", "/v1/completions"), Route::Completions);
    assert_eq!(route("POST", "/v1/chat/completions"), Route::ChatCompletions);
    assert_eq!(route("POST", "/health"), Route::NotFound);
    assert_eq!(route("GET", "/v1/completions"), Route::NotFound);
    assert_eq!(route("PUT", "/health"), Route::MethodNotAllowed);
    assert_eq!(route("get", "/health"), Route::MethodNotAllowed);
    let mut m = Metrics::default();
    let r = exchange(&mut m, "DELETE / HTTP/1.1\r\n\r\n");
    assert!(r.starts_with("HTTP/1.1 405 Method Not Allowed\r\n"), "{r}");
    assert!(r.ends_with("{\"error\":{\"message\":\"method not allowed\",\"type\":\"server_error\",\"code\":405}}"), "{r}");
    let r = exchange(&mut m, "GET / HTTP/1.1\r\n\r\n");
    assert!(r.starts_with("HTTP/1.1 404 Not Found\r\n"), "{r}");
    assert_eq!(m.requests_total, 0);
}

#[test]
fn error_bodies_read_back() {
    let text = error_body(408, "a \"quoted\"\nline \u{7}");
    assert_eq!(
        text,
        "{\"error\":{\"message\":\"a \\\"quoted\\\"\\nline \\u0007\",\"type\":\"timeout_error\",\"code\":408}}"
    );
    let j = Json::parse(&text).unwrap();
    let error = j.get("error").unwrap();
    assert_eq!(error.get("message").unwrap().as_str(), Some("a \"quoted\"\nline \u{7}"));
    assert_eq!(error.get("type").unwrap().as_str(), Some("timeout_error"));
    assert_eq!(error.get("code").unwrap().as_u64(), Some(408));
}

#[test]
fn chat_requests_become_prompts() {
    let body = r#"{"messages":[{"role":"system","content":"be brief"},{"content":"hi"},{"role":"x"},7],"max_tokens":1000,"temperature":0.5,"top_p":1e-1,"seed":12,"stream":true}"#;
    let p = parse_gen(body.as_bytes(), true).unwrap();
    assert_eq!(p.prompt, "system: be brief\nuser: hi\nx: \nuser: \nassistant: ");
    assert_eq!(p.max_tokens, 256);
    assert_eq!(p.temperature, "0.5");
    assert_eq!(p.top_p, "1e-1");
    assert_eq!(p.seed, 12);
    assert!(p.stream);
}

#[test]
fn requests_have_defaults() {
    let p = parse_gen(b"{}", false).unwrap();
    assert_eq!(p.prompt, "");
    assert_eq!(p.max_tokens, 16);
    assert_eq!(p.temperature, "1.0");
    assert_eq!(p.top_p, "1.0");
    assert_eq!(p.seed, 1);
    assert!(!p.stream);
    let p = parse_gen(b"{\"max_tokens\":\"7\",\"seed\":-3,\"prompt\":5,\"stream\":1}", false).unwrap();
    assert_eq!(p.max_tokens, 16);
    assert_eq!(p.seed, 0);
    assert_eq!(p.prompt, "");
    assert!(!p.stream);
    let p = parse_gen(b"{\"max_tokens\":-7}", false).unwrap();
    assert_eq!(p.max_tokens, 0);
}

#[test]
fn refused_bodies() {
    let refuse = |body: &[u8], chat: bool| match parse_gen(body, chat) {
        Ok(_) => panic!("the body was accepted"),
        Err(message) => message,
    };
    assert_eq!(refuse(b"", false), "empty body");
    assert_eq!(refuse(b"\xff", false), "invalid utf-8");
    assert_eq!(refuse(b"{", false), "unexpected end of JSON");
    assert_eq!(refuse(b"{\"messages\":1}", true), "messages required");
    assert_eq!(refuse(b"{}", true), "messages required");
}

#[test]
fn streams_end_with_done() {
    let mut m = Metrics::default();
    let body = r#"{"prompt":"hi","max_tokens":3,"stream":true}"#;
    let r = exchange(&mut m, &post("/v1/completions", body));
    assert!(r.starts_with("HTTP/1.1 200 OK\r\nContent-Type: text/event-stream\r\nCache-Control: no-cache\r\nConnection: close\r\n\r\n"), "{r}");
    let frames: Vec<&str> = payload(&r).split_terminator("\n\n").collect();
    assert_eq!(frames.len(), 4);
    assert_eq!(frames[3], "data: [DONE]");
    let mut streamed = String::new();
    for frame in &frames[..3] {
        let j = Json::parse(frame.strip_prefix("data: ").unwrap()).unwrap();
        streamed.push_str(j.get("token").unwrap().as_str().unwrap());
    }
    let plain = exchange(&mut m, &post("/v1/completions", r#"{"prompt":"hi","max_tokens":3}"#));
    let j = Json::parse(payload(&plain)).unwrap();
    let choice = &j.get("choices").unwrap().as_array().unwrap()[0];
    assert_eq!(choice.get("text").unwrap().as_str(), Some(streamed.as_str()));
    assert_eq!(m.requests_ok, 2);
    assert_eq!(m.tokens_total, 6);
}

#[test]
fn a_stream_without_tokens() {
    let mut m = Metrics::default();
    let body = r#"{"prompt":"hi","max_tokens":0,"stream":true}"#;
    let r = exchange(&mut m, &post("/v1/completions", body));
    assert_eq!(payload(&r), "data: [DONE]\n\n");
    assert_eq!(m.tokens_total, 0);
    assert_eq!(m.requests_ok, 1);
}

#[test]
fn answers_read_back() {
    let mut m = Metrics::default();
    let event = |token: &str, done: bool| TokenEvent { token: token.to_string(), done };
    let mut answer = Collector::new();
    assert!(!answer.event(&event("a\"", false)));
    assert!(answer.event(&event("\u{e9}", true)));
    let r: Response = answer.finish(7, true, &mut m, 20);
    assert_eq!(
        r.body,
        "{\"id\":\"chatcmpl-7\",\"object\":\"chat.completion\",\"choices\":[{\"index\":0,\"message\":{\"role\":\"assistant\",\"content\":\"a\\\"\u{e9}\"},\"finish_reason\":\"length\"}],\"usage\":{\"completion_tokens\":4}}"
    );
    let j = Json::parse(&r.body).unwrap();
    let message = j.get("choices").unwrap().as_array().unwrap()[0].get("message").unwrap();
    assert_eq!(message.get("content").unwrap().as_str(), Some("a\"\u{e9}"));
    assert_eq!(m.tokens_total, 4);
    assert_eq!(m.latency_ms_total, 20);
    let r = Collector::new().finish(8, false, &mut m, 0);
    assert_eq!(
        r.body,
        "{\"id\":\"cmpl-8\",\"object\":\"text_completion\",\"choices\":[{\"index\":0,\"text\":\"\",\"finish_reason\":\"length\"}],\"usage\":{\"completion_tokens\":0}}"
    );
}

#[test]
fn late_tokens_are_timeouts() {
    let mut m = Metrics::default();
    let r = Collector::new().timeout(&mut m);
    assert_eq!(r.status, 408);
    assert_eq!(r.reason, "Request Timeout");
    assert_eq!(
        r.body,
        "{\"error\":{\"message\":\"generation timed out\",\"type\":\"timeout_error\",\"code\":408}}"
    );
    assert_eq!(TokenStream::new().timeout(&mut m), "data: {\"error\":\"timeout\"}\n\n");
    assert_eq!(m.requests_total, 2);
    assert_eq!(m.requests_ok, 0);
}
