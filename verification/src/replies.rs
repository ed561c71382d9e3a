//! What clients find in the answers of the server, member by member.

use vstd::prelude::*;
use vstd::string::*;
use vstd::utf8::*;

use crate::accuracy::{
    apart, law_mean_latency_is_close, law_thousandths_are_written_with_three_digits,
    law_token_rate_is_close,
};
use crate::binary::in_thousandths;
use crate::framing::{
    announce, is_field, is_header, law_written_request_is_read, request_head, request_line, Header,
};
use crate::generation::{
    law_request_says_what_it_wants, law_token_count_is_what_is_asked, request_of,
};
use crate::http::{is_space, request_in, ReadingView, RequestView, ResponseView};
use crate::json::{document, first_named, law_member_is_found_by_its_name, JsonView};
use crate::metrics::{fixed_text, mean_latency, snapshot_text, token_rate, Metrics};
use crate::number::decimal_of;
use crate::render::{
    law_read_undoes_write, law_value_must_start_like_one, rendered, writable,
};
use crate::server::{
    completion_text, dispatch_of, error_text, event_frames, route_of, token_count,
    token_frame, DispatchView,
};
use crate::scheduler::EventView;
use crate::text::decimal_text;
use crate::wire::{
    completion_object, error_object, law_completion_reads_back, law_error_body_reads_back,
    law_frame_reads_back, law_snapshot_reads_back, snapshot_object, token_object,
};

verus! {

/// A member that is the first of its name is found.
proof fn lemma_found(j: JsonView, pairs: Seq<(Seq<char>, JsonView)>, key: Seq<char>, i: int)
    requires
        j == JsonView::Object(pairs),
        first_named(pairs, key, i),
    ensures
        j.get(key) == Some(pairs[i].1),
{
    law_member_is_found_by_its_name(pairs, key);
}

/// An error body is JSON and says the message, the status as a number, and a type: the request was
/// invalid for status 400, took too long for 408, and the server failed for any other.
pub proof fn law_error_says_what_happened(status: u16, message: Seq<char>)
    ensures
        document(encode_utf8(error_text(status, message))) matches Ok(j) && j.get("error"@) matches Some(
            e,
        ) && {
            &&& e.get("message"@) == Some(JsonView::String(message))
            &&& e.get("code"@) == Some(JsonView::Number(decimal_text(status as nat)))
            &&& e.get("type"@) == Some(
                JsonView::String(
                    match status {
                        400 => "invalid_request_error"@,
                        408 => "timeout_error"@,
                        _ => "server_error"@,
                    },
                ),
            )
        },
{
    law_error_body_reads_back(status, message);
    let j = error_object(status, message);
    let outer = j->Object_0;
    let inner = outer[0].1->Object_0;
    lemma_found(j, outer, "error"@, 0);
    reveal_strlit("message");
    assert("message"@.len() == 7);
    reveal_strlit("type");
    assert("type"@.len() == 4);
    reveal_strlit("code");
    assert("code"@.len() == 4);
    assert("type"@[0] != "code"@[0]);
    lemma_found(outer[0].1, inner, "message"@, 0);
    lemma_found(outer[0].1, inner, "type"@, 1);
    lemma_found(outer[0].1, inner, "code"@, 2);
}

/// A finished answer is JSON. It has an id made of its number, one choice with the text, and counts
/// the bytes of the text. In a chat the text is a message of the assistant.
pub proof fn law_answer_says_its_text(id: u64, chat: bool, text: Seq<char>)
    ensures
        document(encode_utf8(completion_text(id, chat, text))) matches Ok(j) && {
            &&& j.get("id"@) == Some(
                JsonView::String(
                    (if chat {
                        "chatcmpl-"@
                    } else {
                        "cmpl-"@
                    }) + decimal_text(id as nat),
                ),
            )
            &&& j.get("choices"@) matches Some(JsonView::Array(choices)) && choices.len() == 1 && {
                &&& choices[0].get("finish_reason"@) == Some(JsonView::String("length"@))
                &&& !chat ==> choices[0].get("text"@) == Some(JsonView::String(text))
                &&& chat ==> (choices[0].get("message"@) matches Some(message) && message.get(
                    "role"@,
                ) == Some(JsonView::String("assistant"@)) && message.get("content"@) == Some(
                    JsonView::String(text),
                ))
            }
            &&& j.get("usage"@) matches Some(usage) && usage.get("completion_tokens"@) == Some(
                JsonView::Number(decimal_text(encode_utf8(text).len())),
            )
        },
{
    law_completion_reads_back(id, chat, text);
    let j = completion_object(id, chat, text);
    let pairs = j->Object_0;
    reveal_strlit("id");
    assert("id"@.len() == 2);
    reveal_strlit("object");
    assert("object"@.len() == 6);
    reveal_strlit("choices");
    assert("choices"@.len() == 7);
    reveal_strlit("usage");
    assert("usage"@.len() == 5);
    lemma_found(j, pairs, "id"@, 0);
    lemma_found(j, pairs, "choices"@, 2);
    lemma_found(j, pairs, "usage"@, 3);
    lemma_found(pairs[3].1, pairs[3].1->Object_0, "completion_tokens"@, 0);
    let choice = pairs[2].1->Array_0[0];
    let members = choice->Object_0;
    reveal_strlit("index");
    assert("index"@.len() == 5);
    reveal_strlit("message");
    assert("message"@.len() == 7);
    reveal_strlit("text");
    assert("text"@.len() == 4);
    reveal_strlit("finish_reason");
    assert("finish_reason"@.len() == 13);
    lemma_found(choice, members, "finish_reason"@, 2);
    if chat {
        lemma_found(choice, members, "message"@, 1);
        let message = members[1].1;
        reveal_strlit("role");
        assert("role"@.len() == 4);
        reveal_strlit("content");
        assert("content"@.len() == 7);
        lemma_found(message, message->Object_0, "role"@, 0);
        lemma_found(message, message->Object_0, "content"@, 1);
    } else {
        lemma_found(choice, members, "text"@, 1);
    }
}

/// Does the member `key` hold the numeral of `n`?
pub open spec fn says_count(j: JsonView, key: Seq<char>, n: nat) -> bool {
    j.get(key) == Some(JsonView::Number(decimal_text(n)))
}

/// Is the numeral the mean latency: with three decimals, 0 without answered requests, and else close
/// to the latency divided by their number?
pub open spec fn is_mean(m: Metrics, numeral: Seq<char>) -> bool {
    let d = decimal_of(numeral);
    &&& !d.negative
    &&& d.exponent == -3
    &&& m.requests_ok == 0 ==> d.digits == 0
    &&& 0 < m.requests_ok < 0x20_0000_0000_0000 && m.latency_ms_total < 0x20_0000_0000_0000 ==> apart(
        d.digits * m.requests_ok as nat,
        1000 * m.latency_ms_total as nat,
    ) * 0x20_0000_0000_0000 <= m.requests_ok * 0x10_0000_0000_0000 + 1000 * m.latency_ms_total
}

/// Is the numeral the token rate: with three decimals, 0 without latency, and else close to the
/// tokens divided by the seconds of latency?
pub open spec fn is_rate(m: Metrics, numeral: Seq<char>) -> bool {
    let d = decimal_of(numeral);
    &&& !d.negative
    &&& d.exponent == -3
    &&& m.latency_ms_total == 0 ==> d.digits == 0
    &&& 0 < m.latency_ms_total < 0x20_0000_0000_0000 && m.tokens_total < 0x20_0000_0000_0000 ==> apart(
        d.digits * m.latency_ms_total as nat,
        1000000 * m.tokens_total as nat,
    ) * 0x20_0000_0000_0000 <= m.latency_ms_total * 0x10_0000_0000_0000 + 5000000 * m.tokens_total
}

proof fn lemma_is_mean(m: Metrics)
    ensures
        is_mean(m, fixed_text(in_thousandths(mean_latency(m)))),
{
    law_thousandths_are_written_with_three_digits(in_thousandths(mean_latency(m)));
    lemma_no_rates(m);
    if m.requests_ok < 0x20_0000_0000_0000 && m.latency_ms_total < 0x20_0000_0000_0000 {
        law_mean_latency_is_close(m);
    }
}

proof fn lemma_is_rate(m: Metrics)
    ensures
        is_rate(m, fixed_text(in_thousandths(token_rate(m)))),
{
    law_thousandths_are_written_with_three_digits(in_thousandths(token_rate(m)));
    lemma_no_rates(m);
    if m.tokens_total < 0x20_0000_0000_0000 && m.latency_ms_total < 0x20_0000_0000_0000 {
        law_token_rate_is_close(m);
    }
}

/// The metrics are JSON and say each counter and the two rates under their names.
pub proof fn law_metrics_say_the_counters(m: Metrics)
    ensures
        document(encode_utf8(snapshot_text(m))) matches Ok(j) && {
            &&& says_count(j, "requests_total"@, m.requests_total as nat)
            &&& says_count(j, "requests_ok"@, m.requests_ok as nat)
            &&& says_count(j, "tokens_total"@, m.tokens_total as nat)
            &&& says_count(j, "latency_ms_total"@, m.latency_ms_total as nat)
            &&& says_count(j, "scheduler_steps"@, m.scheduler_steps as nat)
            &&& j.get("mean_latency_ms"@) matches Some(JsonView::Number(mean)) && is_mean(m, mean)
            &&& j.get("tokens_per_sec"@) matches Some(JsonView::Number(rate)) && is_rate(m, rate)
        },
{
    law_snapshot_reads_back(m);
    lemma_snapshot_members(m);
    lemma_is_mean(m);
    lemma_is_rate(m);
}

/// Without requests there is no latency, and without latency there is no rate.
proof fn lemma_no_rates(m: Metrics)
    ensures
        m.requests_ok == 0 ==> in_thousandths(mean_latency(m)) == 0,
        m.latency_ms_total == 0 ==> in_thousandths(token_rate(m)) == 0,
{
}

/// The members of the metrics are found by their names.
#[verifier::spinoff_prover]
proof fn lemma_snapshot_members(m: Metrics)
    ensures
        ({
            let j = snapshot_object(m);
            &&& says_count(j, "requests_total"@, m.requests_total as nat)
            &&& says_count(j, "requests_ok"@, m.requests_ok as nat)
            &&& says_count(j, "tokens_total"@, m.tokens_total as nat)
            &&& says_count(j, "latency_ms_total"@, m.latency_ms_total as nat)
            &&& says_count(j, "scheduler_steps"@, m.scheduler_steps as nat)
            &&& j.get("mean_latency_ms"@) == Some(
                JsonView::Number(fixed_text(in_thousandths(mean_latency(m)))),
            )
            &&& j.get("tokens_per_sec"@) == Some(
                JsonView::Number(fixed_text(in_thousandths(token_rate(m)))),
            )
        }),
{
    let j = snapshot_object(m);
    let pairs = j->Object_0;
    reveal_strlit("requests_total");
    reveal_strlit("requests_ok");
    reveal_strlit("tokens_total");
    reveal_strlit("latency_ms_total");
    reveal_strlit("mean_latency_ms");
    reveal_strlit("tokens_per_sec");
    reveal_strlit("scheduler_steps");
    assert("requests_total"@.len() == 14);
    assert("requests_ok"@.len() == 11);
    assert("tokens_total"@.len() == 12);
    assert("latency_ms_total"@.len() == 16);
    assert("mean_latency_ms"@.len() == 15);
    assert("tokens_per_sec"@.len() == 14);
    assert("scheduler_steps"@.len() == 15);
    assert("requests_total"@[0] != "tokens_per_sec"@[0]);
    assert("mean_latency_ms"@[0] != "scheduler_steps"@[0]);
    lemma_found(j, pairs, "requests_total"@, 0);
    lemma_found(j, pairs, "requests_ok"@, 1);
    lemma_found(j, pairs, "tokens_total"@, 2);
    lemma_found(j, pairs, "latency_ms_total"@, 3);
    lemma_found(j, pairs, "mean_latency_ms"@, 4);
    lemma_found(j, pairs, "tokens_per_sec"@, 5);
    lemma_found(j, pairs, "scheduler_steps"@, 6);
}

/// Each of the four routes is reached by one method and one path. What else comes with GET or POST
/// is not found, and any other method is not allowed.
pub proof fn law_routes_are_method_and_path(method: Seq<char>, path: Seq<char>)
    ensures
        route_of(method, path) is Health <==> method == "GET"@ && path == "/health"@,
        route_of(method, path) is Metrics <==> method == "GET"@ && path == "/metrics"@,
        route_of(method, path) is Completions <==> method == "POST"@ && path == "/v1/completions"@,
        route_of(method, path) is ChatCompletions <==> method == "POST"@ && path
            == "/v1/chat/completions"@,
        route_of(method, path) is MethodNotAllowed <==> method != "GET"@ && method != "POST"@,
{
    lemma_words_differ();
}

proof fn lemma_words_differ()
    ensures
        "GET"@ != "POST"@,
        "/health"@ != "/metrics"@,
        "/v1/completions"@ != "/v1/chat/completions"@,
{
    reveal_strlit("GET");
    assert("GET"@.len() == 3);
    reveal_strlit("POST");
    assert("POST"@.len() == 4);
    reveal_strlit("/health");
    assert("/health"@.len() == 7);
    reveal_strlit("/metrics");
    assert("/metrics"@.len() == 8);
    reveal_strlit("/v1/completions");
    assert("/v1/completions"@.len() == 15);
    reveal_strlit("/v1/chat/completions");
    assert("/v1/chat/completions"@.len() == 20);
}

/// Is this a JSON answer with the given status and reason, whose body is an error with the message?
pub open spec fn is_error(
    r: ResponseView,
    status: u16,
    reason: Seq<char>,
    message: Seq<char>,
) -> bool {
    &&& r.status == status
    &&& r.reason == reason
    &&& r.ctype == "application/json"@
    &&& document(encode_utf8(r.body)) matches Ok(j) && j.get("error"@) matches Some(e) && e.get(
        "message"@,
    ) == Some(JsonView::String(message)) && e.get("code"@) == Some(
        JsonView::Number(decimal_text(status as nat)),
    )
}

/// What a client gets: what could not be read, and a completion request that asks for nothing, is
/// answered with status 400 and counted as one more request; an unknown path with 404 and another
/// method with 405, uncounted; health and metrics with 200; and a good completion request leads to
/// the generation that it asks for.
pub proof fn law_every_request_is_answered(request: Result<RequestView, Seq<char>>, m: Metrics)
    ensures
        ({
            let (after, dispatch) = dispatch_of(request, m);
            let counted = Metrics { requests_total: m.requests_total.wrapping_add(1), ..m };
            match request {
                Err(message) => {
                    &&& after == counted
                    &&& dispatch matches DispatchView::Reply(r) && is_error(
                        r,
                        400,
                        "Bad Request"@,
                        message,
                    )
                },
                Ok(q) => {
                    let get = q.method == "GET"@;
                    let post = q.method == "POST"@;
                    let chat = q.path == "/v1/chat/completions"@;
                    if get && (q.path == "/health"@ || q.path == "/metrics"@) {
                        &&& after == m
                        &&& dispatch matches DispatchView::Reply(r) && r.status == 200 && r.reason
                            == "OK"@ && r.ctype == "application/json"@ && r.body == (if q.path
                            == "/health"@ {
                            "{\"status\":\"ok\"}"@
                        } else {
                            snapshot_text(m)
                        })
                    } else if post && (q.path == "/v1/completions"@ || chat) {
                        match request_of(q.body, chat) {
                            Ok(params) => after == m && dispatch == (DispatchView::Generate {
                                params,
                                chat,
                            }),
                            Err(message) => {
                                &&& after == counted
                                &&& dispatch matches DispatchView::Reply(r) && is_error(
                                    r,
                                    400,
                                    "Bad Request"@,
                                    message,
                                )
                            },
                        }
                    } else if get || post {
                        &&& after == m
                        &&& dispatch matches DispatchView::Reply(r) && is_error(
                            r,
                            404,
                            "Not Found"@,
                            "not found"@,
                        )
                    } else {
                        &&& after == m
                        &&& dispatch matches DispatchView::Reply(r) && is_error(
                            r,
                            405,
                            "Method Not Allowed"@,
                            "method not allowed"@,
                        )
                    }
                },
            }
        }),
{
    lemma_words_differ();
    match request {
        Err(message) => {
            law_error_says_what_happened(400, message);
        },
        Ok(q) => {
            law_routes_are_method_and_path(q.method, q.path);
            law_error_says_what_happened(404, "not found"@);
            law_error_says_what_happened(405, "method not allowed"@);
            let chat = q.path == "/v1/chat/completions"@;
            if let Err(message) = request_of(q.body, chat) {
                law_error_says_what_happened(400, message);
            }
        },
    }
}

/// What one event adds to a stream: nothing if it has neither text nor the end; its text in a frame
/// of its own, counted once, however long it is; and behind that, if it is the last, the closing
/// frame, which is not counted.
pub proof fn law_event_is_framed(event: EventView)
    ensures
        event.token.len() == 0 && !event.done ==> event_frames(event).len() == 0,
        event.token.len() > 0 && !event.done ==> event_frames(event) == token_frame(event.token),
        event.token.len() == 0 && event.done ==> event_frames(event) == "data: [DONE]\n\n"@,
        event.token.len() > 0 && event.done ==> event_frames(event) == token_frame(event.token)
            + "data: [DONE]\n\n"@,
        token_count(event) == (if event.token.len() == 0 {
            0
        } else {
            1nat
        }),
{
    let frames = event_frames(event);
    if event.token.len() == 0 && event.done {
        assert(frames =~= "data: [DONE]\n\n"@);
    } else if event.token.len() > 0 && !event.done {
        assert(frames =~= token_frame(event.token));
    }
}

/// A line as a frame of an event stream.
pub open spec fn frame_of(line: Seq<char>) -> Seq<char> {
    "data: "@ + line + "\n\n"@
}

/// A frame is a line that starts with its marker, and a blank line; what stands behind the marker is
/// JSON and says the token.
pub proof fn law_frame_says_its_token(token: Seq<char>)
    ensures
        exists|line: Seq<char>|
            {
                &&& token_frame(token) == #[trigger] frame_of(line)
                &&& document(encode_utf8(line)) matches Ok(j) && j.get("token"@) == Some(
                    JsonView::String(token),
                )
            },
{
    law_frame_reads_back(token);
    let j = token_object(token);
    lemma_found(j, j->Object_0, "token"@, 0);
    assert(token_frame(token) == frame_of(rendered(j)));
}

/// From the socket to the queue: a client that posts an object to the completions leads to a
/// generation, uncounted so far, behind the prompt that the object names and for as many tokens as
/// it asks for, up to 256.
pub proof fn law_posted_completion_is_generated(
    headers: Seq<Header>,
    rest: Seq<char>,
    pairs: Seq<(Seq<char>, JsonView)>,
    i: int,
    prompt: Seq<char>,
    k: int,
    n: nat,
    m: Metrics,
)
    requires
        is_field(rest),
        rest.len() == 0 || is_space(rest[0]),
        forall|h: int| 0 <= h < headers.len() ==> is_header(#[trigger] headers[h]),
        announce(headers, encode_utf8(rendered(JsonView::Object(pairs))).len()),
        encode_utf8(rendered(JsonView::Object(pairs))).len() <= 1000000,
        writable(JsonView::Object(pairs)),
        first_named(pairs, "prompt"@, i),
        pairs[i].1 == JsonView::String(prompt),
        first_named(pairs, "max_tokens"@, k),
        pairs[k].1 == JsonView::Number(decimal_text(n)),
    ensures
        ({
            let body = encode_utf8(rendered(JsonView::Object(pairs)));
            let line = request_line(seq![], "POST"@, seq![' '], "/v1/completions"@ + seq![], rest);
            let head = request_head(line, headers);
            let bytes = encode_utf8(head) + seq![0x0du8, 0x0au8, 0x0du8, 0x0au8] + body;
            request_in(bytes) matches ReadingView::Done(q) && ({
                let (after, dispatch) = dispatch_of(Ok(q), m);
                &&& after == m
                &&& dispatch matches DispatchView::Generate { params, chat } && !chat && params.prompt
                    == prompt && params.max_tokens == (if n <= 256 {
                    n
                } else {
                    256
                })
            })
        }),
{
    let body = encode_utf8(rendered(JsonView::Object(pairs)));
    let q = RequestView { method: "POST"@, path: "/v1/completions"@, body };
    lemma_posted(headers, rest, body);
    lemma_asked(pairs, i, prompt, k, n);
    law_routes_are_method_and_path(q.method, q.path);
}

/// A body that is posted to the completions is read.
proof fn lemma_posted(headers: Seq<Header>, rest: Seq<char>, body: Seq<u8>)
    requires
        is_field(rest),
        rest.len() == 0 || is_space(rest[0]),
        forall|h: int| 0 <= h < headers.len() ==> is_header(#[trigger] headers[h]),
        announce(headers, body.len()),
        body.len() <= 1000000,
    ensures
        ({
            let line = request_line(seq![], "POST"@, seq![' '], "/v1/completions"@ + seq![], rest);
            let head = request_head(line, headers);
            request_in(encode_utf8(head) + seq![0x0du8, 0x0au8, 0x0du8, 0x0au8] + body)
                == ReadingView::Done(
                RequestView { method: "POST"@, path: "/v1/completions"@, body },
            )
        }),
{
    reveal_strlit("POST");
    reveal_strlit("/v1/completions");
    law_written_request_is_read(
        seq![],
        "POST"@,
        seq![' '],
        "/v1/completions"@,
        seq![],
        rest,
        headers,
        body.len(),
        body,
    );
}

/// What an object asks for.
proof fn lemma_asked(
    pairs: Seq<(Seq<char>, JsonView)>,
    i: int,
    prompt: Seq<char>,
    k: int,
    n: nat,
)
    requires
        writable(JsonView::Object(pairs)),
        first_named(pairs, "prompt"@, i),
        pairs[i].1 == JsonView::String(prompt),
        first_named(pairs, "max_tokens"@, k),
        pairs[k].1 == JsonView::Number(decimal_text(n)),
    ensures
        request_of(encode_utf8(rendered(JsonView::Object(pairs))), false) matches Ok(params)
            && params.prompt == prompt && params.max_tokens == (if n <= 256 {
            n
        } else {
            256
        }),
{
    let object = JsonView::Object(pairs);
    let text = rendered(object);
    let body = encode_utf8(text);
    law_read_undoes_write(object);
    encode_utf8_valid_utf8(text);
    lemma_found(object, pairs, "prompt"@, i);
    lemma_found(object, pairs, "max_tokens"@, k);
    law_value_must_start_like_one(body);
    law_request_says_what_it_wants(body, false, object);
    law_token_count_is_what_is_asked(body, false, object, n);
}

} // verus!
