//! Routes, error bodies, and the two ways to answer a completion request.

use vstd::prelude::*;
use vstd::string::*;
use vstd::utf8::*;

use crate::generation::{parse_gen, request_of, GenParams, GenView};
use crate::http::{Request, RequestView, Response, ResponseView};
use crate::json::{document, escape, escaped};
use crate::lm::{
    encoded, law_prompt_is_never_empty, law_seed_is_made_odd, law_tokens_spell_the_prompt,
    lemma_all_sayable, sayable, text_of, LanguageModel, Lcg,
};
use crate::metrics::{snapshot_text, with_error, with_ok, Metrics};
use crate::scheduler::{
    absent, chosen, ends_once, events_of, events_under, history, is_token, jobs_of,
    law_job_gets_what_it_wants, law_run_serves_each_job_its_events, only_at, Caller, EventView, Job,
    JobView, SchedulerView, TokenEvent,
};
use crate::text::{decimal, decimal_text, same_text};

verus! {

/// The type of an error, by its status.
pub open spec fn error_kind(status: u16) -> Seq<char> {
    if status == 400 {
        "invalid_request_error"@
    } else if status == 408 {
        "timeout_error"@
    } else {
        "server_error"@
    }
}

/// The JSON object that describes an error.
pub open spec fn error_text(status: u16, message: Seq<char>) -> Seq<char> {
    "{\"error\":{\"message\":\""@ + escaped(message) + "\",\"type\":\""@ + error_kind(status)
        + "\",\"code\":"@ + decimal_text(status as nat) + "}}"@
}

/// The JSON object that describes an error.
pub fn error_body(status: u16, message: &str) -> (r: String)
    ensures
        r@ == error_text(status, message@),
{
    let mut text = "{\"error\":{\"message\":\"".to_string();
    text.append(escape(message).as_str());
    text.append("\",\"type\":\"");
    if status == 400 {
        text.append("invalid_request_error");
    } else if status == 408 {
        text.append("timeout_error");
    } else {
        text.append("server_error");
    }
    text.append("\",\"code\":");
    text.append(decimal(status as u128).as_str());
    text.append("}}");
    text
}

/// A JSON answer.
pub open spec fn json_reply(status: u16, reason: Seq<char>, body: Seq<char>) -> ResponseView {
    ResponseView { status, reason, ctype: "application/json"@, body }
}

/// The answer to a request that fails.
pub open spec fn error_reply(status: u16, reason: Seq<char>, message: Seq<char>) -> ResponseView {
    json_reply(status, reason, error_text(status, message))
}

fn json_response(status: u16, reason: &str, body: String) -> (r: Response)
    ensures
        r@ == json_reply(status, reason@, body@),
{
    Response { status, reason: reason.to_string(), ctype: "application/json".to_string(), body }
}

fn error_response(status: u16, reason: &str, message: &str) -> (r: Response)
    ensures
        r@ == error_reply(status, reason@, message@),
{
    json_response(status, reason, error_body(status, message))
}

/// Where a request goes.
#[derive(Clone, Copy, Debug, PartialEq, Eq, Structural)]
pub enum Route {
    Health,
    Metrics,
    Completions,
    ChatCompletions,
    MethodNotAllowed,
    NotFound,
}

/// Where a request goes, by its method and path.
pub open spec fn route_of(method: Seq<char>, path: Seq<char>) -> Route {
    if method == "GET"@ && path == "/health"@ {
        Route::Health
    } else if method == "GET"@ && path == "/metrics"@ {
        Route::Metrics
    } else if method == "POST"@ && path == "/v1/completions"@ {
        Route::Completions
    } else if method == "POST"@ && path == "/v1/chat/completions"@ {
        Route::ChatCompletions
    } else if method != "GET"@ && method != "POST"@ {
        Route::MethodNotAllowed
    } else {
        Route::NotFound
    }
}

/// Where a request goes, by its method and path.
pub fn route(method: &str, path: &str) -> (r: Route)
    ensures
        r == route_of(method@, path@),
{
    let get = same_text(method, "GET");
    let post = same_text(method, "POST");
    if get && same_text(path, "/health") {
        Route::Health
    } else if get && same_text(path, "/metrics") {
        Route::Metrics
    } else if post && same_text(path, "/v1/completions") {
        Route::Completions
    } else if post && same_text(path, "/v1/chat/completions") {
        Route::ChatCompletions
    } else if !get && !post {
        Route::MethodNotAllowed
    } else {
        Route::NotFound
    }
}

/// What is to be done for a client.
#[derive(Debug)]
pub enum Dispatch {
    /// Send this.
    Reply(Response),
    /// Generate text and send it, as a chat message if `chat`.
    Generate { params: GenParams, chat: bool },
}

pub enum DispatchView {
    Reply(ResponseView),
    Generate { params: GenView, chat: bool },
}

impl View for Dispatch {
    type V = DispatchView;

    open spec fn view(&self) -> DispatchView {
        match *self {
            Dispatch::Reply(response) => DispatchView::Reply(response@),
            Dispatch::Generate { params, chat } => DispatchView::Generate { params: params@, chat },
        }
    }
}

/// What a completion request leads to.
pub open spec fn completion_of(body: Seq<u8>, chat: bool, m: Metrics) -> (Metrics, DispatchView) {
    match request_of(body, chat) {
        Ok(params) => (m, DispatchView::Generate { params, chat }),
        Err(message) => (
            with_error(m),
            DispatchView::Reply(error_reply(400, "Bad Request"@, message)),
        ),
    }
}

/// What a request leads to, and what it does to the counters. `Err` holds why it could not be read.
pub open spec fn dispatch_of(request: Result<RequestView, Seq<char>>, m: Metrics) -> (
    Metrics,
    DispatchView,
) {
    match request {
        Err(message) => (
            with_error(m),
            DispatchView::Reply(error_reply(400, "Bad Request"@, message)),
        ),
        Ok(request) => match route_of(request.method, request.path) {
            Route::Health => (
                m,
                DispatchView::Reply(json_reply(200, "OK"@, "{\"status\":\"ok\"}"@)),
            ),
            Route::Metrics => (m, DispatchView::Reply(json_reply(200, "OK"@, snapshot_text(m)))),
            Route::Completions => completion_of(request.body, false, m),
            Route::ChatCompletions => completion_of(request.body, true, m),
            Route::MethodNotAllowed => (
                m,
                DispatchView::Reply(
                    error_reply(405, "Method Not Allowed"@, "method not allowed"@),
                ),
            ),
            Route::NotFound => (
                m,
                DispatchView::Reply(error_reply(404, "Not Found"@, "not found"@)),
            ),
        },
    }
}

/// A request, or why there is none, for contracts.
pub open spec fn request_view(request: Result<Request, String>) -> Result<RequestView, Seq<char>> {
    match request {
        Ok(request) => Ok(request@),
        Err(message) => Err(message@),
    }
}

fn handle_completion(body: &[u8], chat: bool, metrics: &mut Metrics) -> (r: Dispatch)
    ensures
        (*final(metrics), r@) == completion_of(body@, chat, *old(metrics)),
{
    match parse_gen(body, chat) {
        Ok(params) => Dispatch::Generate { params, chat },
        Err(message) => {
            metrics.record_error();
            Dispatch::Reply(error_response(400, "Bad Request", message.as_str()))
        },
    }
}

/// Decides what a client gets: an answer, or generated text. What fails at once is counted.
pub fn handle_client(request: Result<Request, String>, metrics: &mut Metrics) -> (r: Dispatch)
    ensures
        (*final(metrics), r@) == dispatch_of(request_view(request), *old(metrics)),
{
    let request = match request {
        Ok(request) => request,
        Err(message) => {
            metrics.record_error();
            return Dispatch::Reply(error_response(400, "Bad Request", message.as_str()));
        },
    };
    match route(request.method.as_str(), request.path.as_str()) {
        Route::Health => Dispatch::Reply(
            json_response(200, "OK", "{\"status\":\"ok\"}".to_string()),
        ),
        Route::Metrics => Dispatch::Reply(json_response(200, "OK", metrics.snapshot_json())),
        Route::Completions => handle_completion(request.body.as_slice(), false, metrics),
        Route::ChatCompletions => handle_completion(request.body.as_slice(), true, metrics),
        Route::MethodNotAllowed => Dispatch::Reply(
            error_response(405, "Method Not Allowed", "method not allowed"),
        ),
        Route::NotFound => Dispatch::Reply(error_response(404, "Not Found", "not found")),
    }
}

/// The job for a request, as it enters the queue.
pub open spec fn job_of<S>(params: GenView, vocab: Seq<u8>, state: S) -> JobView<S> {
    JobView {
        ids: encoded(vocab, encode_utf8(params.prompt)),
        max_new: params.max_tokens,
        n_new: 0,
        rng: crate::lm::seeded(params.seed as u64),
        prefilled: false,
        state,
    }
}

/// The job for a request, as it enters the queue.
pub fn new_job<S>(params: &GenParams, lm: &LanguageModel, state: S) -> (r: Job<S>)
    ensures
        r@ == job_of(params@, lm.vocab@, state),
        r.ids@.len() > 0,
        params.prompt@.len() > 0 && can_say(lm.vocab@, params.prompt@) ==> r.ids@.map_values(
            |id: usize| lm.vocab@[id as int],
        ) == encode_utf8(params.prompt@),
{
    proof {
        assert(lm.vocab@.len() == lm.vocab.len());
        if params.prompt@.len() > 0 && can_say(lm.vocab@, params.prompt@) {
            lemma_bytes_of_text(params.prompt@);
            assert(lm.vocab@.contains(encode_utf8(params.prompt@)[0]));
            law_job_starts_with_the_prompt(params@, lm.vocab@, state);
        }
    }
    Job {
        ids: lm.encode(params.prompt.as_str()),
        max_new: params.max_tokens,
        n_new: 0,
        rng: Lcg::new(params.seed),
        prefilled: false,
        state,
    }
}

/// The head of an event stream.
pub open spec fn stream_head_text() -> Seq<char> {
    "HTTP/1.1 200 OK\r\nContent-Type: text/event-stream\r\nCache-Control: no-cache\r\nConnection: close\r\n\r\n"@
}

/// The frame of a token.
pub open spec fn token_frame(token: Seq<char>) -> Seq<char> {
    "data: {\"token\":\""@ + escaped(token) + "\"}\n\n"@
}

/// What an event adds to an event stream: a frame for its token, if it has one, and the closing
/// frame if it is the last.
pub open spec fn event_frames(event: EventView) -> Seq<char> {
    (if event.token.len() > 0 {
        token_frame(event.token)
    } else {
        seq![]
    }) + (if event.done {
        "data: [DONE]\n\n"@
    } else {
        seq![]
    })
}

/// How many tokens an event brings.
pub open spec fn token_count(event: EventView) -> nat {
    if event.token.len() > 0 {
        1
    } else {
        0
    }
}

/// An answer that is sent token by token, as server-sent events.
pub struct TokenStream {
    /// The tokens sent so far.
    pub tokens: u64,
}

impl TokenStream {
    /// A stream that has sent nothing.
    pub fn new() -> (r: TokenStream)
        ensures
            r.tokens == 0,
    {
        TokenStream { tokens: 0 }
    }

    /// What opens the stream.
    pub fn head(&self) -> (r: String)
        ensures
            r@ == stream_head_text(),
    {
        "HTTP/1.1 200 OK\r\nContent-Type: text/event-stream\r\nCache-Control: no-cache\r\nConnection: close\r\n\r\n".to_string()
    }

    /// What to send for an event; and is it the last?
    pub fn event(&mut self, event: &TokenEvent) -> (r: (String, bool))
        requires
            old(self).tokens < u64::MAX,
        ensures
            r.0@ == event_frames(event@),
            r.1 == event@.done,
            final(self).tokens == old(self).tokens + token_count(event@),
    {
        let mut text = String::new();
        if event.token.as_str().unicode_len() > 0 {
            self.tokens = self.tokens + 1;
            text.append("data: {\"token\":\"");
            text.append(escape(event.token.as_str()).as_str());
            text.append("\"}\n\n");
            assert(text@ =~= token_frame(event.token@));
        }
        if event.done {
            text.append("data: [DONE]\n\n");
        }
        assert(text@ =~= event_frames(event@));
        (text, event.done)
    }

    /// Counts a stream whose last event was sent.
    pub fn finish(&self, metrics: &mut Metrics, elapsed_ms: u64)
        ensures
            *final(metrics) == with_ok(*old(metrics), self.tokens, elapsed_ms),
    {
        metrics.record_ok(self.tokens, elapsed_ms);
    }

    /// Counts a stream whose next event does not come, and says what to send instead.
    pub fn timeout(&self, metrics: &mut Metrics) -> (r: String)
        ensures
            *final(metrics) == with_error(*old(metrics)),
            r@ == "data: {\"error\":\"timeout\"}\n\n"@,
    {
        metrics.record_error();
        "data: {\"error\":\"timeout\"}\n\n".to_string()
    }
}

/// The body of a finished answer.
pub open spec fn completion_text(id: u64, chat: bool, text: Seq<char>) -> Seq<char> {
    let count = decimal_text(encode_utf8(text).len());
    if chat {
        "{\"id\":\"chatcmpl-"@ + decimal_text(id as nat)
            + "\",\"object\":\"chat.completion\",\"choices\":[{\"index\":0,\"message\":{\"role\":\"assistant\",\"content\":\""@
            + escaped(text) + "\"},\"finish_reason\":\"length\"}],\"usage\":{\"completion_tokens\":"@
            + count + "}}"@
    } else {
        "{\"id\":\"cmpl-"@ + decimal_text(id as nat)
            + "\",\"object\":\"text_completion\",\"choices\":[{\"index\":0,\"text\":\""@ + escaped(
            text,
        ) + "\",\"finish_reason\":\"length\"}],\"usage\":{\"completion_tokens\":"@ + count
            + "}}"@
    }
}

/// An answer that is sent in one piece.
pub struct Collector {
    pub text: String,
}

impl Collector {
    /// An answer without text.
    pub fn new() -> (r: Collector)
        ensures
            r.text@ == Seq::<char>::empty(),
    {
        Collector { text: String::new() }
    }

    /// Takes an event in; is it the last?
    pub fn event(&mut self, event: &TokenEvent) -> (done: bool)
        ensures
            final(self).text@ == old(self).text@ + event@.token,
            done == event@.done,
    {
        self.text.append(event.token.as_str());
        event.done
    }

    /// Counts the answer, one token for each byte, and says what to send.
    pub fn finish(self, id: u64, chat: bool, metrics: &mut Metrics, elapsed_ms: u64) -> (r: Response)
        ensures
            *final(metrics) == with_ok(
                *old(metrics),
                encode_utf8(self.text@).len() as u64,
                elapsed_ms,
            ),
            r@ == json_reply(200, "OK"@, completion_text(id, chat, self.text@)),
    {
        let count = self.text.as_str().as_bytes().len();
        metrics.record_ok(count as u64, elapsed_ms);
        let mut body = String::new();
        if chat {
            body.append("{\"id\":\"chatcmpl-");
        } else {
            body.append("{\"id\":\"cmpl-");
        }
        body.append(decimal(id as u128).as_str());
        if chat {
            body.append(
                "\",\"object\":\"chat.completion\",\"choices\":[{\"index\":0,\"message\":{\"role\":\"assistant\",\"content\":\"",
            );
        } else {
            body.append(
                "\",\"object\":\"text_completion\",\"choices\":[{\"index\":0,\"text\":\"",
            );
        }
        body.append(escape(self.text.as_str()).as_str());
        if chat {
            body.append(
                "\"},\"finish_reason\":\"length\"}],\"usage\":{\"completion_tokens\":",
            );
        } else {
            body.append(
                "\",\"finish_reason\":\"length\"}],\"usage\":{\"completion_tokens\":",
            );
        }
        body.append(decimal(count as u128).as_str());
        body.append("}}");
        assert(body@ =~= completion_text(id, chat, self.text@));
        json_response(200, "OK", body)
    }

    /// Counts an answer whose next token does not come, and says what to send instead.
    pub fn timeout(&self, metrics: &mut Metrics) -> (r: Response)
        ensures
            *final(metrics) == with_error(*old(metrics)),
            r@ == error_reply(408, "Request Timeout"@, "generation timed out"@),
    {
        metrics.record_error();
        error_response(408, "Request Timeout", "generation timed out")
    }
}

/// A body that is not JSON is answered with status 400 and an error that says why, and counts as a
/// failed request.
pub proof fn law_invalid_json_is_400(request: RequestView, chat: bool, m: Metrics)
    requires
        route_of(request.method, request.path) == (if chat {
            Route::ChatCompletions
        } else {
            Route::Completions
        }),
        !valid_utf8(request.body) || document(request.body) is Err,
    ensures
        request_of(request.body, chat) is Err,
        dispatch_of(Ok(request), m) == (
            with_error(m),
            DispatchView::Reply(
                error_reply(400, "Bad Request"@, request_of(request.body, chat)->Err_0),
            ),
        ),
{
}

/// What a client of an event stream gets behind the head.
pub open spec fn streamed(events: Seq<EventView>) -> Seq<char>
    decreases events.len(),
{
    if events.len() == 0 {
        seq![]
    } else {
        streamed(events.drop_last()) + event_frames(events.last())
    }
}

/// The frames of the tokens alone.
pub open spec fn token_frames(events: Seq<EventView>) -> Seq<char>
    decreases events.len(),
{
    if events.len() == 0 {
        seq![]
    } else {
        token_frames(events.drop_last()) + (if events.last().token.len() > 0 {
            token_frame(events.last().token)
        } else {
            seq![]
        })
    }
}

/// How many tokens an event stream counts.
pub open spec fn streamed_tokens(events: Seq<EventView>) -> nat
    decreases events.len(),
{
    if events.len() == 0 {
        0
    } else {
        streamed_tokens(events.drop_last()) + token_count(events.last())
    }
}

/// The text of an answer in one piece.
pub open spec fn collected(events: Seq<EventView>) -> Seq<char>
    decreases events.len(),
{
    if events.len() == 0 {
        seq![]
    } else {
        collected(events.drop_last()) + events.last().token
    }
}

proof fn lemma_streamed_open(events: Seq<EventView>)
    requires
        forall|i: int| 0 <= i < events.len() ==> !(#[trigger] events[i]).done,
    ensures
        streamed(events) == token_frames(events),
    decreases events.len(),
{
    if events.len() > 0 {
        let front = events.drop_last();
        assert forall|i: int| 0 <= i < front.len() implies !(#[trigger] front[i]).done by {
            assert(front[i] == events[i]);
        }
        lemma_streamed_open(front);
        assert(!events[events.len() - 1].done);
        assert(streamed(events) =~= token_frames(events));
    }
}

/// An event stream is the frames of its tokens in order, and then the closing frame, once.
pub proof fn law_stream_ends_with_done(events: Seq<EventView>)
    requires
        ends_once(events),
    ensures
        streamed(events) == token_frames(events) + "data: [DONE]\n\n"@,
{
    let front = events.drop_last();
    assert forall|i: int| 0 <= i < front.len() implies !(#[trigger] front[i]).done by {
        assert(front[i] == events[i]);
    }
    lemma_streamed_open(front);
    assert(streamed(events) =~= token_frames(events) + "data: [DONE]\n\n"@);
}

proof fn lemma_collected(events: Seq<EventView>, vocab: Seq<u8>)
    requires
        forall|i: int| 0 <= i < events.len() ==> is_token(#[trigger] events[i], vocab),
    ensures
        collected(events).len() == events.len(),
        streamed_tokens(events) == events.len(),
        is_ascii_vocab(vocab) ==> is_ascii_chars(collected(events)),
    decreases events.len(),
{
    if events.len() > 0 {
        let front = events.drop_last();
        assert forall|i: int| 0 <= i < front.len() implies is_token(#[trigger] front[i], vocab) by {
            assert(front[i] == events[i]);
        }
        lemma_collected(front, vocab);
        assert(is_token(events[events.len() - 1], vocab));
    }
}

/// Are all bytes of the vocabulary ASCII?
pub open spec fn is_ascii_vocab(vocab: Seq<u8>) -> bool {
    forall|b: u8| vocab.contains(b) ==> b < 0x80
}

/// A request gets as many tokens as it asked for, and its answer as many characters; a stream counts
/// exactly that many. An answer in one piece counts bytes, which are as many with a vocabulary of
/// ASCII bytes.
pub proof fn law_answer_has_the_tokens_asked_for<S>(
    params: GenView,
    vocab: Seq<u8>,
    state: S,
    c: Caller<S>,
)
    requires
        vocab.len() > 0,
    ensures
        ({
            let events = events_of(job_of(params, vocab, state), vocab, c);
            &&& ends_once(events)
            &&& streamed_tokens(events) == params.max_tokens
            &&& collected(events).len() == params.max_tokens
            &&& is_ascii_vocab(vocab) ==> encode_utf8(collected(events)).len() == params.max_tokens
        }),
{
    let job = job_of(params, vocab, state);
    let events = events_of(job, vocab, c);
    law_job_gets_what_it_wants(job, vocab, c);
    if params.max_tokens == 0 {
        assert(events.drop_last() =~= seq![]);
        assert(collected(events.drop_last()) == Seq::<char>::empty());
        assert(collected(events) =~= seq![]);
        assert(streamed_tokens(events.drop_last()) == 0);
    } else {
        lemma_collected(events, vocab);
        if is_ascii_vocab(vocab) {
            is_ascii_chars_encode_utf8(collected(events));
        }
    }
}

/// In any run that finishes a request, whatever other requests are served with it, the tokens that
/// it gets are those of its own job, and as many as it asked for.
pub proof fn law_run_answers_each_request<S>(
    params: GenView,
    state: S,
    v: SchedulerView<S>,
    vocab: Seq<u8>,
    c: Caller<S>,
    arrivals: Seq<Seq<JobView<S>>>,
    tag: spec_fn(S) -> int,
    p: int,
)
    requires
        vocab.len() > 0,
        c.keeps(tag),
        only_at(jobs_of(v), tag, tag(state), p),
        jobs_of(v)[p] == job_of(params, vocab, state),
        forall|k: int|
            0 <= k < arrivals.len() ==> absent(#[trigger] arrivals[k], tag, tag(state)),
        absent(jobs_of(history(v, vocab, c, arrivals).0), tag, tag(state)),
    ensures
        ({
            let job = job_of(params, vocab, state);
            let events = events_under(history(v, vocab, c, arrivals).1, tag, tag(state));
            &&& ends_once(events)
            &&& collected(events) == generated(job, vocab, c, params.max_tokens)
            &&& streamed_tokens(events) == params.max_tokens
            &&& is_ascii_vocab(vocab) ==> encode_utf8(collected(events)).len() == params.max_tokens
        }),
{
    law_run_serves_each_job_its_events(v, vocab, c, arrivals, tag, tag(state), p);
    law_answer_has_the_tokens_asked_for(params, vocab, state, c);
    law_job_text_is_generated(job_of(params, vocab, state), vocab, c);
}

/// The text that a job alone gives in `n` iterations: choose a token, spell it, run the model on.
pub open spec fn generated<S>(job: JobView<S>, vocab: Seq<u8>, c: Caller<S>, n: nat) -> Seq<char> {
    text_of(vocab, chosen(job, c, n))
}

proof fn lemma_collected_first(event: EventView, rest: Seq<EventView>)
    ensures
        collected(seq![event] + rest) == event.token + collected(rest),
    decreases rest.len(),
{
    let all = seq![event] + rest;
    if rest.len() == 0 {
        assert(all.drop_last() =~= seq![]);
        assert(collected(all.drop_last()) == Seq::<char>::empty());
        assert(collected(all) =~= event.token + collected(rest));
    } else {
        lemma_collected_first(event, rest.drop_last());
        assert(all.drop_last() =~= seq![event] + rest.drop_last());
        assert(collected(all) =~= event.token + collected(rest));
    }
}

proof fn lemma_rest_is_generated<S>(job: JobView<S>, vocab: Seq<u8>, c: Caller<S>)
    requires
        job.n_new < job.max_new,
    ensures
        collected(events_of(job, vocab, c)) == generated(
            job,
            vocab,
            c,
            (job.max_new - job.n_new) as nat,
        ),
    decreases job.max_new - job.n_new,
{
    let n = (job.max_new - job.n_new) as nat;
    let event = c.event(vocab, job);
    let id = (c.work)(job).2;
    let later = chosen(c.kept(job), c, (n - 1) as nat);
    assert(text_of(vocab, seq![id] + later) =~= event.token + text_of(vocab, later));
    if event.done {
        lemma_collected_first(event, seq![]);
        assert(seq![event] + Seq::<EventView>::empty() =~= seq![event]);
        assert(later =~= seq![]);
        assert(text_of(vocab, later) =~= collected(seq![]));
    } else {
        lemma_rest_is_generated(c.kept(job), vocab, c);
        lemma_collected_first(event, events_of(c.kept(job), vocab, c));
    }
}

/// What a new job gets from the queue, put together, is what it gives alone.
pub proof fn law_job_text_is_generated<S>(job: JobView<S>, vocab: Seq<u8>, c: Caller<S>)
    requires
        job.n_new == 0,
    ensures
        collected(events_of(job, vocab, c)) == generated(job, vocab, c, job.max_new),
{
    if job.max_new > 0 {
        lemma_rest_is_generated(job, vocab, c);
    } else {
        let events = events_of(job, vocab, c);
        assert(events.drop_last() =~= seq![]);
        assert(collected(events.drop_last()) == Seq::<char>::empty());
        assert(collected(events) =~= generated(job, vocab, c, 0));
    }
}

/// Asking for fewer tokens gives the first of the same text.
pub proof fn law_fewer_tokens_give_a_prefix<S>(
    job: JobView<S>,
    vocab: Seq<u8>,
    c: Caller<S>,
    m: nat,
    n: nat,
)
    requires
        m <= n,
    ensures
        generated(job, vocab, c, m).len() == m,
        generated(job, vocab, c, m).is_prefix_of(generated(job, vocab, c, n)),
    decreases m,
{
    if m > 0 {
        let next = c.kept(job);
        let first = seq![(c.work)(job).2];
        let (x, y) = (chosen(next, c, (m - 1) as nat), chosen(next, c, (n - 1) as nat));
        law_fewer_tokens_give_a_prefix(next, vocab, c, (m - 1) as nat, (n - 1) as nat);
        assert(text_of(vocab, first + x) =~= text_of(vocab, first) + text_of(vocab, x));
        assert(text_of(vocab, first + y) =~= text_of(vocab, first) + text_of(vocab, y));
    }
}

/// Has the vocabulary all the bytes of a text?
pub open spec fn can_say(vocab: Seq<u8>, text: Seq<char>) -> bool {
    forall|i: int| 0 <= i < encode_utf8(text).len() ==> vocab.contains(#[trigger] encode_utf8(text)[i])
}

/// The job for a request starts with the prompt of the request: its tokens spell what the vocabulary
/// can say of it, and with a vocabulary that has all its bytes they spell the prompt. The job wants
/// as many tokens as were asked for, has none yet, and draws from the seed of the request.
pub proof fn law_job_starts_with_the_prompt<S>(params: GenView, vocab: Seq<u8>, state: S)
    requires
        0 < vocab.len() <= usize::MAX,
        params.seed <= u64::MAX,
    ensures
        ({
            let job = job_of(params, vocab, state);
            let said = sayable(vocab, encode_utf8(params.prompt));
            &&& forall|k: int| 0 <= k < job.ids.len() ==> (#[trigger] job.ids[k]) < vocab.len()
            &&& said.len() > 0 ==> job.ids.map_values(|id: usize| vocab[id as int]) == said
            &&& said.len() == 0 ==> job.ids == seq![0usize]
            &&& can_say(vocab, params.prompt) ==> said == encode_utf8(params.prompt)
            &&& job.max_new == params.max_tokens
            &&& job.n_new == 0
            &&& !job.prefilled
            &&& job.state == state
            &&& job.rng % 2 == 1
            &&& job.rng as nat / 2 == params.seed / 2
        }),
{
    let job = job_of(params, vocab, state);
    let bytes = encode_utf8(params.prompt);
    law_tokens_spell_the_prompt(vocab, bytes);
    law_prompt_is_never_empty(vocab, bytes);
    law_seed_is_made_odd(params.seed as u64);
    if can_say(vocab, params.prompt) {
        lemma_all_sayable(vocab, bytes);
    }
    let said = sayable(vocab, bytes);
    if said.len() > 0 {
        assert(job.ids.map_values(|id: usize| vocab[id as int]) =~= said);
    }
}

/// A prompt that the vocabulary can say can be read off the tokens of its job; so requests with
/// different prompts of this kind get different tokens.
pub proof fn law_different_prompts_have_different_tokens<S>(
    a: GenView,
    b: GenView,
    vocab: Seq<u8>,
    state: S,
)
    requires
        0 < vocab.len() <= usize::MAX,
        a.seed <= u64::MAX,
        b.seed <= u64::MAX,
        a.prompt.len() > 0,
        b.prompt.len() > 0,
        can_say(vocab, a.prompt),
        can_say(vocab, b.prompt),
    ensures
        decode_utf8(
            job_of(a, vocab, state).ids.map_values(|id: usize| vocab[id as int]),
        ) == a.prompt,
        a.prompt != b.prompt ==> job_of(a, vocab, state).ids != job_of(b, vocab, state).ids,
{
    law_job_starts_with_the_prompt(a, vocab, state);
    law_job_starts_with_the_prompt(b, vocab, state);
    lemma_bytes_of_text(a.prompt);
    lemma_bytes_of_text(b.prompt);
}

proof fn lemma_bytes_of_text(text: Seq<char>)
    ensures
        decode_utf8(encode_utf8(text)) == text,
        text.len() > 0 ==> encode_utf8(text).len() > 0,
{
    encode_utf8_decode_utf8(text);
    encode_utf8_decode_utf8(seq![]);
    if encode_utf8(text).len() == 0 {
        assert(encode_utf8(text) =~= encode_utf8(seq![]));
    }
}

} // verus!
