//! What the server sends is JSON, and reads back as what it says.

use vstd::prelude::*;
use vstd::string::*;
use vstd::utf8::*;

use crate::binary::in_thousandths;
use crate::json::{
    ascii_text, document, escaped, escaped_char, is_digit, lemma_digits_run, JsonView,
};
use crate::metrics::{fixed_text, mean_latency, snapshot_text, token_rate, Metrics};
use crate::render::{
    ascii_bytes, is_numeral, law_read_undoes_write, rendered, rendered_items, rendered_member,
    rendered_members, writable, writable_member,
};
use crate::server::{completion_text, error_kind, error_text, token_frame};
use crate::text::{decimal_text, lemma_decimal_digits, lemma_digit_byte};

verus! {

/// Does a character stand for itself inside a JSON string?
pub open spec fn is_plain(c: char) -> bool {
    c >= ' ' && c != '"' && c != '\\'
}

proof fn lemma_plain_char(c: char)
    requires
        is_plain(c),
    ensures
        escaped_char(c) == seq![c],
{
}

/// Is a text made of plain characters?
pub open spec fn all_plain(text: Seq<char>) -> bool {
    forall|i: int| 0 <= i < text.len() ==> is_plain(#[trigger] text[i])
}

/// A text of plain characters is not changed by escaping.
pub proof fn lemma_plain(text: Seq<char>)
    requires
        all_plain(text),
    ensures
        escaped(text) == text,
    decreases text.len(),
{
    if text.len() > 0 {
        let rest = text.drop_first();
        assert forall|k: int| 0 <= k < rest.len() implies is_plain(#[trigger] rest[k]) by {
            assert(rest[k] == text[k + 1]);
        }
        lemma_plain(rest);
        lemma_plain_char(text[0]);
        assert(seq![text[0]] + rest =~= text);
    } else {
        assert(text =~= seq![]);
    }
}

/// A decimal numeral is a JSON number.
pub proof fn lemma_decimal_numeral(n: nat)
    ensures
        is_numeral(decimal_text(n)),
{
    let text = decimal_text(n);
    lemma_decimal_digits(n);
    let b = ascii_bytes(text);
    assert forall|k: int| 0 <= k < b.len() implies is_digit(#[trigger] b[k]) && b[k] as char
        == text[k] by {
        lemma_digit_byte(text[k]);
    }
    lemma_digits_run(b, 0, b.len() as int);
    assert(b.subrange(0, b.len() as int) =~= b);
    assert(ascii_text(b) =~= text);
}

/// A number of thousandths is a JSON number.
pub proof fn lemma_fixed_numeral(n: nat)
    ensures
        is_numeral(fixed_text(n)),
{
    let front = decimal_text(n / 1000);
    let text = fixed_text(n);
    let point = front.len() as int;
    lemma_decimal_digits(n / 1000);
    reveal_strlit(".");
    assert(text.len() == point + 4);
    assert(text[point] == '.');
    let b = ascii_bytes(text);
    assert forall|k: int| 0 <= k < b.len() && k != point implies is_digit(#[trigger] b[k]) && b[k] as char
        == text[k] && '0' <= text[k] <= '9' by {
        if k < point {
            assert(text[k] == front[k]);
        }
        lemma_digit_byte(text[k]);
    }
    assert(b[point] == 0x2e && b[point] as char == text[point]);
    lemma_digits_run(b, 0, point);
    lemma_digits_run(b, point + 1, b.len() as int);
    assert(b.subrange(0, b.len() as int) =~= b);
    assert(ascii_text(b) =~= text);
    assert(text[0] == front[0]);
}

/// The first `k` members of an object as they are written.
spec fn front_members(pairs: Seq<(Seq<char>, JsonView)>, k: nat) -> Seq<char>
    decreases k,
{
    if k == 0 {
        seq![]
    } else if k == 1 {
        rendered_member(pairs[0])
    } else {
        front_members(pairs, (k - 1) as nat) + seq![','] + rendered_member(pairs[k - 1])
    }
}

/// The first members and the others are all of them.
proof fn lemma_front_members(pairs: Seq<(Seq<char>, JsonView)>, k: nat)
    requires
        0 < k <= pairs.len(),
    ensures
        rendered_members(pairs, 0) == (if k == pairs.len() {
            front_members(pairs, k)
        } else {
            front_members(pairs, k) + seq![','] + rendered_members(pairs, k as int)
        }),
    decreases k,
{
    if k > 1 {
        lemma_front_members(pairs, (k - 1) as nat);
        let front = front_members(pairs, (k - 1) as nat);
        let member = rendered_member(pairs[k - 1]);
        if k < pairs.len() {
            let rest = rendered_members(pairs, k as int);
            assert(front + seq![','] + (member + seq![','] + rest) =~= (front + seq![','] + member)
                + seq![','] + rest);
        }
    }
}

/// What stands before the value of the first member of an object.
spec fn opening(name: Seq<char>) -> Seq<char> {
    seq!['{', '"'] + name + seq!['"', ':']
}

/// What stands before the value of a later member of an object.
spec fn joint(name: Seq<char>) -> Seq<char> {
    seq![',', '"'] + name + seq!['"', ':']
}

/// Sums of texts need no brackets.
broadcast proof fn lemma_flat(a: Seq<char>, b: Seq<char>, c: Seq<char>)
    ensures
        #[trigger] (a + (b + c)) == a + b + c,
{
    assert(a + (b + c) =~= a + b + c);
}

/// The first member of an object.
proof fn lemma_first_member(pairs: Seq<(Seq<char>, JsonView)>)
    requires
        pairs.len() > 0,
        all_plain(pairs[0].0),
    ensures
        seq!['{'] + front_members(pairs, 1) == opening(pairs[0].0) + rendered(pairs[0].1),
{
    lemma_plain(pairs[0].0);
    assert(seq!['{'] + rendered_member(pairs[0]) =~= opening(pairs[0].0) + rendered(pairs[0].1));
}

/// One more member of an object.
proof fn lemma_later_member(text: Seq<char>, pairs: Seq<(Seq<char>, JsonView)>, k: nat)
    requires
        0 < k < pairs.len(),
        text == seq!['{'] + front_members(pairs, k),
        all_plain(pairs[k as int].0),
    ensures
        text + joint(pairs[k as int].0) + rendered(pairs[k as int].1) == seq!['{'] + front_members(
            pairs,
            k + 1,
        ),
{
    let pair = pairs[k as int];
    lemma_plain(pair.0);
    let member = rendered_member(pair);
    assert(seq![','] + member =~= joint(pair.0) + rendered(pair.1));
    assert(text + joint(pair.0) + rendered(pair.1) =~= text + (seq![','] + member));
    assert(text + (seq![','] + member) =~= seq!['{'] + (front_members(pairs, k) + seq![',']
        + member));
}

/// The end of an object.
proof fn lemma_object(text: Seq<char>, pairs: Seq<(Seq<char>, JsonView)>)
    requires
        pairs.len() > 0,
        text == seq!['{'] + front_members(pairs, pairs.len()),
    ensures
        rendered(JsonView::Object(pairs)) == text + seq!['}'],
{
    lemma_front_members(pairs, pairs.len());
}

/// An object with one member as it is written.
proof fn lemma_one(a: (Seq<char>, JsonView))
    requires
        all_plain(a.0),
    ensures
        rendered(JsonView::Object(seq![a])) == opening(a.0) + rendered(a.1) + seq!['}'],
{
    lemma_first_member(seq![a]);
    lemma_object(opening(a.0) + rendered(a.1), seq![a]);
}

/// An object with two members as it is written.
proof fn lemma_two(a: (Seq<char>, JsonView), b: (Seq<char>, JsonView))
    requires
        all_plain(a.0),
        all_plain(b.0),
    ensures
        rendered(JsonView::Object(seq![a, b])) == opening(a.0) + rendered(a.1) + joint(b.0)
            + rendered(b.1) + seq!['}'],
{
    let pairs = seq![a, b];
    let t1 = opening(a.0) + rendered(a.1);
    let t2 = t1 + joint(b.0) + rendered(b.1);
    lemma_first_member(pairs);
    lemma_later_member(t1, pairs, 1);
    lemma_object(t2, pairs);
}

/// An object with three members as it is written.
proof fn lemma_three(a: (Seq<char>, JsonView), b: (Seq<char>, JsonView), c: (Seq<char>, JsonView))
    requires
        all_plain(a.0),
        all_plain(b.0),
        all_plain(c.0),
    ensures
        rendered(JsonView::Object(seq![a, b, c])) == opening(a.0) + rendered(a.1) + joint(b.0)
            + rendered(b.1) + joint(c.0) + rendered(c.1) + seq!['}'],
{
    let pairs = seq![a, b, c];
    let t1 = opening(a.0) + rendered(a.1);
    let t2 = t1 + joint(b.0) + rendered(b.1);
    let t3 = t2 + joint(c.0) + rendered(c.1);
    lemma_first_member(pairs);
    lemma_later_member(t1, pairs, 1);
    lemma_later_member(t2, pairs, 2);
    lemma_object(t3, pairs);
}

/// An object with four members as it is written.
proof fn lemma_four(
    a: (Seq<char>, JsonView),
    b: (Seq<char>, JsonView),
    c: (Seq<char>, JsonView),
    d: (Seq<char>, JsonView),
)
    requires
        all_plain(a.0),
        all_plain(b.0),
        all_plain(c.0),
        all_plain(d.0),
    ensures
        rendered(JsonView::Object(seq![a, b, c, d])) == opening(a.0) + rendered(a.1) + joint(b.0)
            + rendered(b.1) + joint(c.0) + rendered(c.1) + joint(d.0) + rendered(d.1) + seq!['}'],
{
    let pairs = seq![a, b, c, d];
    let t1 = opening(a.0) + rendered(a.1);
    let t2 = t1 + joint(b.0) + rendered(b.1);
    let t3 = t2 + joint(c.0) + rendered(c.1);
    let t4 = t3 + joint(d.0) + rendered(d.1);
    lemma_first_member(pairs);
    lemma_later_member(t1, pairs, 1);
    lemma_later_member(t2, pairs, 2);
    lemma_later_member(t3, pairs, 3);
    lemma_object(t4, pairs);
}

/// An array with one item as it is written.
proof fn lemma_single(v: JsonView)
    ensures
        rendered(JsonView::Array(seq![v])) == seq!['['] + rendered(v) + seq![']'],
{
    assert(rendered_items(seq![v], 0) == rendered(v));
}

/// A plain text as it is written.
proof fn lemma_quoted(text: Seq<char>)
    requires
        all_plain(text),
    ensures
        rendered(JsonView::String(text)) == seq!['"'] + text + seq!['"'],
{
    lemma_plain(text);
}

/// What an error body says.
pub open spec fn error_object(status: u16, message: Seq<char>) -> JsonView {
    JsonView::Object(
        seq![
            (
                "error"@,
                JsonView::Object(
                    seq![
                        ("message"@, JsonView::String(message)),
                        ("type"@, JsonView::String(error_kind(status))),
                        ("code"@, JsonView::Number(decimal_text(status as nat))),
                    ],
                ),
            ),
        ],
    )
}

/// The names in an error body are plain.
proof fn lemma_error_names(status: u16)
    ensures
        all_plain("error"@),
        all_plain("message"@),
        all_plain("type"@),
        all_plain("code"@),
        all_plain(error_kind(status)),
{
    reveal_strlit("error");
    reveal_strlit("message");
    reveal_strlit("type");
    reveal_strlit("code");
    reveal_strlit("invalid_request_error");
    reveal_strlit("timeout_error");
    reveal_strlit("server_error");
}

/// The fixed parts of an error body.
proof fn lemma_error_parts()
    ensures
        "{\"error\":{\"message\":\""@ == opening("error"@) + opening("message"@) + seq!['"'],
        "\",\"type\":\""@ == seq!['"'] + joint("type"@) + seq!['"'],
        "\",\"code\":"@ == seq!['"'] + joint("code"@),
        "}}"@ == seq!['}'] + seq!['}'],
{
    reveal_strlit("error");
    reveal_strlit("message");
    reveal_strlit("type");
    reveal_strlit("code");
    reveal_strlit("{\"error\":{\"message\":\"");
    reveal_strlit("\",\"type\":\"");
    reveal_strlit("\",\"code\":");
    reveal_strlit("}}");
    assert("{\"error\":{\"message\":\""@ =~= opening("error"@) + opening("message"@) + seq!['"']);
    assert("\",\"type\":\""@ =~= seq!['"'] + joint("type"@) + seq!['"']);
    assert("\",\"code\":"@ =~= seq!['"'] + joint("code"@));
    assert("}}"@ =~= seq!['}'] + seq!['}']);
}

proof fn lemma_error_text(status: u16, message: Seq<char>)
    ensures
        error_text(status, message) == rendered(error_object(status, message)),
{
    let kind = error_kind(status);
    let inner = error_object(status, message)->Object_0[0].1;
    lemma_error_names(status);
    lemma_error_parts();
    lemma_one(("error"@, inner));
    lemma_three(
        ("message"@, JsonView::String(message)),
        ("type"@, JsonView::String(kind)),
        ("code"@, JsonView::Number(decimal_text(status as nat))),
    );
    lemma_quoted(kind);
    broadcast use lemma_flat;

}

/// Every error body is JSON, and reads back as the message, the type and the code.
pub proof fn law_error_body_reads_back(status: u16, message: Seq<char>)
    ensures
        document(encode_utf8(error_text(status, message))) == Ok::<JsonView, Seq<char>>(
            error_object(status, message),
        ),
{
    lemma_error_text(status, message);
    lemma_decimal_numeral(status as nat);
    let inner = error_object(status, message)->Object_0[0].1;
    assert(writable(inner)) by {
        let pairs = inner->Object_0;
        assert(writable_member(pairs[0]) && writable_member(pairs[1]) && writable_member(pairs[2]));
    }
    assert(writable_member(("error"@, inner)));
    law_read_undoes_write(error_object(status, message));
}

/// What a frame of an event stream says.
pub open spec fn token_object(token: Seq<char>) -> JsonView {
    JsonView::Object(seq![("token"@, JsonView::String(token))])
}

/// The fixed parts of a frame.
proof fn lemma_frame_parts()
    ensures
        all_plain("token"@),
        "data: {\"token\":\""@ == "data: "@ + opening("token"@) + seq!['"'],
        "\"}\n\n"@ == seq!['"'] + seq!['}'] + "\n\n"@,
{
    reveal_strlit("token");
    reveal_strlit("data: {\"token\":\"");
    reveal_strlit("data: ");
    reveal_strlit("\"}\n\n");
    reveal_strlit("\n\n");
    assert("data: {\"token\":\""@ =~= "data: "@ + opening("token"@) + seq!['"']);
    assert("\"}\n\n"@ =~= seq!['"'] + seq!['}'] + "\n\n"@);
}

proof fn lemma_frame_text(token: Seq<char>)
    ensures
        token_frame(token) == "data: "@ + rendered(token_object(token)) + "\n\n"@,
{
    lemma_frame_parts();
    lemma_one(("token"@, JsonView::String(token)));
    broadcast use lemma_flat;

}

/// A frame is its marker, a JSON object and a blank line; the object reads back as the token.
pub proof fn law_frame_reads_back(token: Seq<char>)
    ensures
        token_frame(token) == "data: "@ + rendered(token_object(token)) + "\n\n"@,
        document(encode_utf8(rendered(token_object(token)))) == Ok::<JsonView, Seq<char>>(
            token_object(token),
        ),
{
    lemma_frame_text(token);
    assert(writable_member(("token"@, JsonView::String(token))));
    law_read_undoes_write(token_object(token));
}

/// What the metrics say.
pub open spec fn snapshot_object(m: Metrics) -> JsonView {
    JsonView::Object(
        seq![
            ("requests_total"@, JsonView::Number(decimal_text(m.requests_total as nat))),
            ("requests_ok"@, JsonView::Number(decimal_text(m.requests_ok as nat))),
            ("tokens_total"@, JsonView::Number(decimal_text(m.tokens_total as nat))),
            ("latency_ms_total"@, JsonView::Number(decimal_text(m.latency_ms_total as nat))),
            (
                "mean_latency_ms"@,
                JsonView::Number(fixed_text(in_thousandths(mean_latency(m)))),
            ),
            ("tokens_per_sec"@, JsonView::Number(fixed_text(in_thousandths(token_rate(m))))),
            ("scheduler_steps"@, JsonView::Number(decimal_text(m.scheduler_steps as nat))),
        ],
    )
}

/// The names in the metrics are plain.
proof fn lemma_counter_names()
    ensures
        all_plain("requests_total"@),
        all_plain("requests_ok"@),
        all_plain("tokens_total"@),
        all_plain("latency_ms_total"@),
        all_plain("mean_latency_ms"@),
        all_plain("tokens_per_sec"@),
        all_plain("scheduler_steps"@),
{
    reveal_strlit("requests_total");
    reveal_strlit("requests_ok");
    reveal_strlit("tokens_total");
    reveal_strlit("latency_ms_total");
    reveal_strlit("mean_latency_ms");
    reveal_strlit("tokens_per_sec");
    reveal_strlit("scheduler_steps");
}

/// The fixed parts of the metrics.
proof fn lemma_counter_parts()
    ensures
        "{\"requests_total\":"@ == opening("requests_total"@),
        ",\"requests_ok\":"@ == joint("requests_ok"@),
        ",\"tokens_total\":"@ == joint("tokens_total"@),
        ",\"latency_ms_total\":"@ == joint("latency_ms_total"@),
        ",\"mean_latency_ms\":"@ == joint("mean_latency_ms"@),
        ",\"tokens_per_sec\":"@ == joint("tokens_per_sec"@),
        ",\"scheduler_steps\":"@ == joint("scheduler_steps"@),
        "}"@ == seq!['}'],
{
    assert("{\"requests_total\":"@ =~= opening("requests_total"@)) by {
        reveal_strlit("requests_total");
        reveal_strlit("{\"requests_total\":");
    }
    assert(",\"requests_ok\":"@ =~= joint("requests_ok"@)) by {
        reveal_strlit("requests_ok");
        reveal_strlit(",\"requests_ok\":");
    }
    assert(",\"tokens_total\":"@ =~= joint("tokens_total"@)) by {
        reveal_strlit("tokens_total");
        reveal_strlit(",\"tokens_total\":");
    }
    assert(",\"latency_ms_total\":"@ =~= joint("latency_ms_total"@)) by {
        reveal_strlit("latency_ms_total");
        reveal_strlit(",\"latency_ms_total\":");
    }
    assert(",\"mean_latency_ms\":"@ =~= joint("mean_latency_ms"@)) by {
        reveal_strlit("mean_latency_ms");
        reveal_strlit(",\"mean_latency_ms\":");
    }
    assert(",\"tokens_per_sec\":"@ =~= joint("tokens_per_sec"@)) by {
        reveal_strlit("tokens_per_sec");
        reveal_strlit(",\"tokens_per_sec\":");
    }
    assert(",\"scheduler_steps\":"@ =~= joint("scheduler_steps"@)) by {
        reveal_strlit("scheduler_steps");
        reveal_strlit(",\"scheduler_steps\":");
    }
    assert("}"@ =~= seq!['}']) by {
        reveal_strlit("}");
    }
}

proof fn lemma_snapshot_text(m: Metrics)
    ensures
        snapshot_text(m) == rendered(snapshot_object(m)),
{
    let pairs = snapshot_object(m)->Object_0;
    lemma_counter_names();
    lemma_counter_parts();
    let t1 = opening(pairs[0].0) + rendered(pairs[0].1);
    let t2 = t1 + joint(pairs[1].0) + rendered(pairs[1].1);
    let t3 = t2 + joint(pairs[2].0) + rendered(pairs[2].1);
    let t4 = t3 + joint(pairs[3].0) + rendered(pairs[3].1);
    let t5 = t4 + joint(pairs[4].0) + rendered(pairs[4].1);
    let t6 = t5 + joint(pairs[5].0) + rendered(pairs[5].1);
    let t7 = t6 + joint(pairs[6].0) + rendered(pairs[6].1);
    lemma_first_member(pairs);
    lemma_later_member(t1, pairs, 1);
    lemma_later_member(t2, pairs, 2);
    lemma_later_member(t3, pairs, 3);
    lemma_later_member(t4, pairs, 4);
    lemma_later_member(t5, pairs, 5);
    lemma_later_member(t6, pairs, 6);
    lemma_object(t7, pairs);
}

/// The metrics are JSON, and read back as the counters and the two rates.
pub proof fn law_snapshot_reads_back(m: Metrics)
    ensures
        document(encode_utf8(snapshot_text(m))) == Ok::<JsonView, Seq<char>>(snapshot_object(m)),
{
    lemma_snapshot_text(m);
    lemma_decimal_numeral(m.requests_total as nat);
    lemma_decimal_numeral(m.requests_ok as nat);
    lemma_decimal_numeral(m.tokens_total as nat);
    lemma_decimal_numeral(m.latency_ms_total as nat);
    lemma_decimal_numeral(m.scheduler_steps as nat);
    lemma_fixed_numeral(in_thousandths(mean_latency(m)));
    lemma_fixed_numeral(in_thousandths(token_rate(m)));
    let pairs = snapshot_object(m)->Object_0;
    assert(writable(pairs[0].1) && writable(pairs[1].1) && writable(pairs[2].1) && writable(
        pairs[3].1,
    ) && writable(pairs[4].1) && writable(pairs[5].1) && writable(pairs[6].1));
    assert forall|k: int| 0 <= k < pairs.len() implies writable_member(#[trigger] pairs[k]) by {
        assert(writable(pairs[k].1));
    }
    law_read_undoes_write(snapshot_object(m));
}

/// What a finished chat answer says in its choice.
pub open spec fn chat_choice(text: Seq<char>) -> JsonView {
    JsonView::Object(
        seq![
            ("index"@, JsonView::Number("0"@)),
            (
                "message"@,
                JsonView::Object(
                    seq![
                        ("role"@, JsonView::String("assistant"@)),
                        ("content"@, JsonView::String(text)),
                    ],
                ),
            ),
            ("finish_reason"@, JsonView::String("length"@)),
        ],
    )
}

/// What a finished answer says in its choice.
pub open spec fn text_choice(text: Seq<char>) -> JsonView {
    JsonView::Object(
        seq![
            ("index"@, JsonView::Number("0"@)),
            ("text"@, JsonView::String(text)),
            ("finish_reason"@, JsonView::String("length"@)),
        ],
    )
}

/// What a finished answer says.
pub open spec fn completion_object(id: u64, chat: bool, text: Seq<char>) -> JsonView {
    JsonView::Object(
        seq![
            (
                "id"@,
                JsonView::String(
                    (if chat {
                        "chatcmpl-"@
                    } else {
                        "cmpl-"@
                    }) + decimal_text(id as nat),
                ),
            ),
            (
                "object"@,
                JsonView::String(
                    if chat {
                        "chat.completion"@
                    } else {
                        "text_completion"@
                    },
                ),
            ),
            (
                "choices"@,
                JsonView::Array(
                    seq![
                        if chat {
                            chat_choice(text)
                        } else {
                            text_choice(text)
                        },
                    ],
                ),
            ),
            (
                "usage"@,
                JsonView::Object(
                    seq![
                        (
                            "completion_tokens"@,
                            JsonView::Number(decimal_text(encode_utf8(text).len())),
                        ),
                    ],
                ),
            ),
        ],
    )
}

/// The id of an answer as it is written.
proof fn lemma_id(prefix: Seq<char>, id: nat)
    requires
        all_plain(prefix),
    ensures
        rendered(JsonView::String(prefix + decimal_text(id))) == seq!['"'] + prefix + decimal_text(id)
            + seq!['"'],
{
    let text = prefix + decimal_text(id);
    lemma_decimal_digits(id);
    assert forall|k: int| 0 <= k < text.len() implies is_plain(#[trigger] text[k]) by {
        if k >= prefix.len() {
            assert(text[k] == decimal_text(id)[k - prefix.len()]);
        } else {
            assert(text[k] == prefix[k]);
        }
    }
    lemma_plain(text);
    assert(rendered(JsonView::String(text)) =~= seq!['"'] + prefix + decimal_text(id) + seq!['"']);
}

/// The names and the fixed texts in a finished answer are plain.
proof fn lemma_answer_names()
    ensures
        all_plain("index"@),
        all_plain("message"@),
        all_plain("role"@),
        all_plain("assistant"@),
        all_plain("content"@),
        all_plain("finish_reason"@),
        all_plain("length"@),
        all_plain("text"@),
        all_plain("id"@),
        all_plain("object"@),
        all_plain("choices"@),
        all_plain("usage"@),
        all_plain("completion_tokens"@),
        all_plain("chatcmpl-"@),
        all_plain("cmpl-"@),
        all_plain("chat.completion"@),
        all_plain("text_completion"@),
{
    reveal_strlit("index");
    reveal_strlit("message");
    reveal_strlit("role");
    reveal_strlit("assistant");
    reveal_strlit("content");
    reveal_strlit("finish_reason");
    reveal_strlit("length");
    reveal_strlit("text");
    reveal_strlit("id");
    reveal_strlit("object");
    reveal_strlit("choices");
    reveal_strlit("usage");
    reveal_strlit("completion_tokens");
    reveal_strlit("chatcmpl-");
    reveal_strlit("cmpl-");
    reveal_strlit("chat.completion");
    reveal_strlit("text_completion");
}

/// The fixed parts of a finished answer.
proof fn lemma_answer_parts()
    ensures
        "{\"id\":\"chatcmpl-"@ == opening("id"@) + seq!['"'] + "chatcmpl-"@,
        "{\"id\":\"cmpl-"@ == opening("id"@) + seq!['"'] + "cmpl-"@,
        "\",\"object\":\"chat.completion\",\"choices\":[{\"index\":0,\"message\":{\"role\":\"assistant\",\"content\":\""@ == seq!['"'] + joint("object"@) + seq!['"'] + "chat.completion"@ + seq!['"'] + joint(
            "choices"@,
        ) + seq!['['] + opening("index"@) + "0"@ + joint("message"@) + opening("role"@) + seq!['"']
            + "assistant"@ + seq!['"'] + joint("content"@) + seq!['"'],
        "\",\"object\":\"text_completion\",\"choices\":[{\"index\":0,\"text\":\""@ == seq!['"'] + joint("object"@) + seq!['"'] + "text_completion"@ + seq!['"'] + joint(
            "choices"@,
        ) + seq!['['] + opening("index"@) + "0"@ + joint("text"@) + seq!['"'],
        "\"},\"finish_reason\":\"length\"}],\"usage\":{\"completion_tokens\":"@ == seq!['"'] + seq!['}'] + joint("finish_reason"@) + seq!['"'] + "length"@ + seq!['"'] + seq!['}']
            + seq![']'] + joint("usage"@) + opening("completion_tokens"@),
        "\",\"finish_reason\":\"length\"}],\"usage\":{\"completion_tokens\":"@ == seq!['"'] + joint("finish_reason"@) + seq!['"'] + "length"@ + seq!['"'] + seq!['}'] + seq![']']
            + joint("usage"@) + opening("completion_tokens"@),
        "}}"@ == seq!['}'] + seq!['}'],
{
    assert("{\"id\":\"chatcmpl-"@ =~= opening("id"@) + seq!['"'] + "chatcmpl-"@) by {
        reveal_strlit("id");
        reveal_strlit("chatcmpl-");
        reveal_strlit("{\"id\":\"chatcmpl-");
    }
    assert("{\"id\":\"cmpl-"@ =~= opening("id"@) + seq!['"'] + "cmpl-"@) by {
        reveal_strlit("id");
        reveal_strlit("cmpl-");
        reveal_strlit("{\"id\":\"cmpl-");
    }
    assert("\",\"object\":\"chat.completion\",\"choices\":[{\"index\":0,\"message\":{\"role\":\"assistant\",\"content\":\""@ =~= seq!['"'] + joint("object"@) + seq!['"'] + "chat.completion"@ + seq!['"'] + joint(
            "choices"@,
        ) + seq!['['] + opening("index"@) + "0"@ + joint("message"@) + opening("role"@) + seq!['"']
            + "assistant"@ + seq!['"'] + joint("content"@) + seq!['"']) by {
        reveal_strlit("object");
        reveal_strlit("chat.completion");
        reveal_strlit("choices");
        reveal_strlit("index");
        reveal_strlit("0");
        reveal_strlit("message");
        reveal_strlit("role");
        reveal_strlit("assistant");
        reveal_strlit("content");
        reveal_strlit("\",\"object\":\"chat.completion\",\"choices\":[{\"index\":0,\"message\":{\"role\":\"assistant\",\"content\":\"");
    }
    assert("\",\"object\":\"text_completion\",\"choices\":[{\"index\":0,\"text\":\""@ =~= seq!['"'] + joint("object"@) + seq!['"'] + "text_completion"@ + seq!['"'] + joint(
            "choices"@,
        ) + seq!['['] + opening("index"@) + "0"@ + joint("text"@) + seq!['"']) by {
        reveal_strlit("object");
        reveal_strlit("text_completion");
        reveal_strlit("choices");
        reveal_strlit("index");
        reveal_strlit("0");
        reveal_strlit("text");
        reveal_strlit("\",\"object\":\"text_completion\",\"choices\":[{\"index\":0,\"text\":\"");
    }
    assert("\"},\"finish_reason\":\"length\"}],\"usage\":{\"completion_tokens\":"@ =~= seq!['"'] + seq!['}'] + joint("finish_reason"@) + seq!['"'] + "length"@ + seq!['"'] + seq!['}']
            + seq![']'] + joint("usage"@) + opening("completion_tokens"@)) by {
        reveal_strlit("finish_reason");
        reveal_strlit("length");
        reveal_strlit("usage");
        reveal_strlit("completion_tokens");
        reveal_strlit("\"},\"finish_reason\":\"length\"}],\"usage\":{\"completion_tokens\":");
    }
    assert("\",\"finish_reason\":\"length\"}],\"usage\":{\"completion_tokens\":"@ =~= seq!['"'] + joint("finish_reason"@) + seq!['"'] + "length"@ + seq!['"'] + seq!['}'] + seq![']']
            + joint("usage"@) + opening("completion_tokens"@)) by {
        reveal_strlit("finish_reason");
        reveal_strlit("length");
        reveal_strlit("usage");
        reveal_strlit("completion_tokens");
        reveal_strlit("\",\"finish_reason\":\"length\"}],\"usage\":{\"completion_tokens\":");
    }
    assert("}}"@ =~= seq!['}'] + seq!['}']) by {
        reveal_strlit("}}");
    }
}

proof fn lemma_choice_texts(text: Seq<char>)
    ensures
        rendered(chat_choice(text)) == opening("index"@) + "0"@ + joint("message"@) + opening("role"@)
            + seq!['"'] + "assistant"@ + seq!['"'] + joint("content"@) + seq!['"'] + escaped(text)
            + seq!['"'] + seq!['}'] + joint("finish_reason"@) + seq!['"'] + "length"@ + seq!['"']
            + seq!['}'],
        rendered(text_choice(text)) == opening("index"@) + "0"@ + joint("text"@) + seq!['"'] + escaped(
            text,
        ) + seq!['"'] + joint("finish_reason"@) + seq!['"'] + "length"@ + seq!['"'] + seq!['}'],
{
    lemma_answer_names();
    lemma_quoted("assistant"@);
    lemma_quoted("length"@);
    let index = ("index"@, JsonView::Number("0"@));
    let finish = ("finish_reason"@, JsonView::String("length"@));
    let role = ("role"@, JsonView::String("assistant"@));
    let content = ("content"@, JsonView::String(text));
    lemma_two(role, content);
    lemma_three(index, ("message"@, JsonView::Object(seq![role, content])), finish);
    lemma_three(index, ("text"@, JsonView::String(text)), finish);
    broadcast use lemma_flat;

}

proof fn lemma_completion_text(id: u64, chat: bool, text: Seq<char>)
    ensures
        completion_text(id, chat, text) == rendered(completion_object(id, chat, text)),
{
    let pairs = completion_object(id, chat, text)->Object_0;
    let count = JsonView::Number(decimal_text(encode_utf8(text).len()));
    lemma_answer_names();
    lemma_answer_parts();
    lemma_choice_texts(text);
    lemma_quoted("chat.completion"@);
    lemma_quoted("text_completion"@);
    lemma_id("chatcmpl-"@, id as nat);
    lemma_id("cmpl-"@, id as nat);
    lemma_single(chat_choice(text));
    lemma_single(text_choice(text));
    lemma_one(("completion_tokens"@, count));
    lemma_four(pairs[0], pairs[1], pairs[2], pairs[3]);
    assert(pairs =~= seq![pairs[0], pairs[1], pairs[2], pairs[3]]);
    broadcast use lemma_flat;

}

/// Every finished answer is JSON, and reads back as its id, its text and its count of tokens.
pub proof fn law_completion_reads_back(id: u64, chat: bool, text: Seq<char>)
    ensures
        document(encode_utf8(completion_text(id, chat, text))) == Ok::<JsonView, Seq<char>>(
            completion_object(id, chat, text),
        ),
{
    lemma_completion_text(id, chat, text);
    lemma_completion_writable(id, chat, text);
    law_read_undoes_write(completion_object(id, chat, text));
}

proof fn lemma_completion_writable(id: u64, chat: bool, text: Seq<char>)
    ensures
        writable(completion_object(id, chat, text)),
{
    let count = encode_utf8(text).len();
    lemma_decimal_numeral(count);
    lemma_decimal_numeral(0);
    reveal_strlit("0");
    assert("0"@ =~= decimal_text(0));
    let message = ("message"@, chat_choice(text)->Object_0[1].1);
    assert(writable(message.1)) by {
        let pairs = message.1->Object_0;
        assert(writable_member(pairs[0]) && writable_member(pairs[1]));
    }
    assert(writable(chat_choice(text))) by {
        let pairs = chat_choice(text)->Object_0;
        assert(writable_member(pairs[0]) && writable_member(pairs[1]) && writable_member(pairs[2]));
    }
    assert(writable(text_choice(text))) by {
        let pairs = text_choice(text)->Object_0;
        assert(writable_member(pairs[0]) && writable_member(pairs[1]) && writable_member(pairs[2]));
    }
    let pairs = completion_object(id, chat, text)->Object_0;
    assert(writable(pairs[2].1));
    assert(writable(pairs[3].1)) by {
        let inner = pairs[3].1->Object_0;
        assert(writable_member(inner[0]));
    }
    assert(writable_member(pairs[0]) && writable_member(pairs[1]) && writable_member(pairs[2])
        && writable_member(pairs[3]));
}

} // verus!
