//! A response can be taken apart again: its head ends where the body begins, and announces how long
//! the body is. A request as clients write it is read as what it says.

use vstd::prelude::*;
use vstd::string::*;
use vstd::utf8::*;

use crate::http::{
    announced, blank_line, find_blank, find_char, head_of, is_space, length_line, length_of, line_end,
    lower, lowered, read_step, request_in, response_text, space_end, spelled, trimmed, trimmed_end,
    word_end, HeadView, ReaderView, ReadingView, RequestView, ResponseView,
};
use crate::server::stream_head_text;
use crate::text::{
    all_digits, decimal_text, lemma_decimal_digits, lemma_encode_sum, utf8_complaint,
};

verus! {

/// Can a text stand in the head of a response?
pub open spec fn is_field(text: Seq<char>) -> bool {
    is_ascii_chars(text) && !text.contains('\r')
}

/// Is a text ASCII, with every carriage return two places before something else?
spec fn in_lines(text: Seq<char>) -> bool {
    &&& is_ascii_chars(text)
    &&& forall|i: int|
        #![trigger text[i]]
        0 <= i < text.len() && text[i] == '\r' ==> i + 2 < text.len() && text[i + 2] != '\r'
}

proof fn lemma_with_field(text: Seq<char>, field: Seq<char>)
    requires
        in_lines(text),
        is_field(field),
    ensures
        in_lines(text + field),
{
    let all = text + field;
    assert forall|i: int| 0 <= i < all.len() implies '\0' <= #[trigger] all[i] <= '\u{7f}' by {
        if i < text.len() {
            assert(all[i] == text[i]);
        } else {
            assert(all[i] == field[i - text.len()]);
        }
    }
    assert forall|i: int|
        #![trigger all[i]]
        0 <= i < all.len() && all[i] == '\r' implies i + 2 < all.len() && all[i + 2] != '\r' by {
        if i < text.len() {
            assert(all[i] == text[i]);
            assert(all[i + 2] == text[i + 2]);
        } else {
            assert(field.contains(field[i - text.len()]));
        }
    }
}

proof fn lemma_with_line(text: Seq<char>, line: Seq<char>)
    requires
        in_lines(text),
        is_field(line),
        line.len() > 0,
    ensures
        in_lines(text + ("\r\n"@ + line)),
{
    reveal_strlit("\r\n");
    let next = "\r\n"@ + line;
    let all = text + next;
    assert forall|i: int| 0 <= i < all.len() implies '\0' <= #[trigger] all[i] <= '\u{7f}' by {
        if i < text.len() {
            assert(all[i] == text[i]);
        } else if i >= text.len() + 2 {
            assert(all[i] == line[i - text.len() - 2]);
        }
    }
    assert forall|i: int|
        #![trigger all[i]]
        0 <= i < all.len() && all[i] == '\r' implies i + 2 < all.len() && all[i + 2] != '\r' by {
        if i < text.len() {
            assert(all[i] == text[i]);
            assert(all[i + 2] == text[i + 2]);
        } else if i == text.len() {
            assert(all[i + 2] == line[0]);
            assert(line.contains(line[0]));
        } else if i >= text.len() + 2 {
            assert(line.contains(line[i - text.len() - 2]));
        }
    }
}

proof fn lemma_first_blank(s: Seq<u8>, i: int, end: int)
    requires
        0 <= i <= end,
        blank_line(s, end),
        forall|k: int| i <= k < end ==> !blank_line(s, k),
    ensures
        find_blank(s, i) == Some(end),
    decreases end - i,
{
    if i < end {
        lemma_first_blank(s, i + 1, end);
    }
}

/// A head in lines ends at the first blank line, and the body follows.
proof fn lemma_split(head: Seq<char>, body: Seq<char>)
    requires
        in_lines(head),
    ensures
        ({
            let bytes = encode_utf8(head + "\r\n\r\n"@ + body);
            &&& find_blank(bytes, 0) == Some(head.len() as int)
            &&& bytes.take(head.len() as int) == encode_utf8(head)
            &&& bytes.skip(head.len() + 4int) == encode_utf8(body)
        }),
{
    reveal_strlit("\r\n\r\n");
    let end = "\r\n\r\n"@;
    let bytes = encode_utf8(head + end + body);
    lemma_encode_sum(head + end, body);
    lemma_encode_sum(head, end);
    is_ascii_chars_encode_utf8(head);
    is_ascii_chars_encode_utf8(end);
    let n = head.len() as int;
    let (h, e) = (encode_utf8(head), encode_utf8(end));
    assert(bytes == h + e + encode_utf8(body));
    assert(e[0] == end[0] as u8 && e[1] == end[1] as u8 && e[2] == end[2] as u8 && e[3]
        == end[3] as u8);
    assert(bytes[n] == e[0] && bytes[n + 1] == e[1] && bytes[n + 2] == e[2] && bytes[n + 3] == e[3]);
    assert forall|k: int| 0 <= k < n implies !blank_line(bytes, k) by {
        assert(bytes[k] == h[k] && h[k] == head[k] as u8);
        if head[k] == '\r' {
            assert(bytes[k + 2] == h[k + 2] && h[k + 2] == head[k + 2] as u8);
        }
    }
    lemma_first_blank(bytes, 0, n);
    assert(bytes.take(n) =~= h);
    assert(bytes.skip(n + 4) =~= encode_utf8(body));
}

/// The line at `i`, with another behind it.
proof fn lemma_line(t: Seq<char>, i: int, line: Seq<char>, rest: Seq<char>)
    requires
        0 <= i <= t.len(),
        t.skip(i) == line + "\r\n"@ + rest,
        is_field(line),
    ensures
        line_end(t, i) == i + line.len(),
        t.subrange(i, i + line.len()) == line,
        t.skip(i + line.len() + 2) == rest,
        i + line.len() + 2 <= t.len(),
{
    reveal_strlit("\r\n");
    let all = line + "\r\n"@ + rest;
    assert(t.len() == i + all.len());
    assert forall|k: int| 0 <= k < all.len() implies t[i + k] == all[k] by {
        assert(t.skip(i)[k] == all[k]);
    }
    assert(t.subrange(i, i + line.len()) =~= line);
    assert(all.skip(line.len() + 2int) =~= rest);
    assert(t.skip(i + line.len() + 2) =~= t.skip(i).skip(line.len() + 2int));
    assert forall|k: int| i <= k < i + line.len() implies #[trigger] t[k] != '\r' by {
        assert(t[i + (k - i)] == all[k - i]);
        assert(all[k - i] == line[k - i] && line.contains(line[k - i]));
    }
    assert(t[i + line.len()] == all[line.len() as int]);
    assert(t[i + (line.len() + 1)] == all[line.len() + 1int]);
    lemma_line_run(t, i, i + line.len());
}

/// The last line, at `i`.
proof fn lemma_last_line(t: Seq<char>, i: int)
    requires
        0 <= i <= t.len(),
        is_field(t.skip(i)),
    ensures
        line_end(t, i) == t.len(),
    decreases t.len() - i,
{
    if i < t.len() {
        let line = t.skip(i);
        assert(line[0] == t[i] && line.contains(line[0]));
        let next = t.skip(i + 1);
        assert forall|k: int| 0 <= k < next.len() implies '\0' <= #[trigger] next[k] <= '\u{7f}' by {
            assert(next[k] == line[k + 1]);
        }
        assert(!next.contains('\r')) by {
            if next.contains('\r') {
                let k = choose|k: int| 0 <= k < next.len() && next[k] == '\r';
                assert(line[k + 1] == '\r');
            }
        }
        lemma_last_line(t, i + 1);
    }
}

proof fn lemma_line_run(t: Seq<char>, i: int, end: int)
    requires
        0 <= i <= end,
        end + 2 <= t.len(),
        forall|k: int| i <= k < end ==> #[trigger] t[k] != '\r',
        t[end] == '\r',
        t[end + 1] == '\n',
    ensures
        line_end(t, i) == end,
    decreases end - i,
{
    if i < end {
        lemma_line_run(t, i + 1, end);
    }
}

proof fn lemma_trimmed_len(t: Seq<char>)
    ensures
        trimmed(t).len() <= t.len(),
{
    lemma_space_end(t, 0);
    lemma_trimmed_end(t, t.len() as int);
}

proof fn lemma_space_end(t: Seq<char>, i: int)
    requires
        0 <= i <= t.len(),
    ensures
        i <= space_end(t, i) <= t.len(),
    decreases t.len() - i,
{
    if i < t.len() && is_space(t[i]) {
        lemma_space_end(t, i + 1);
    }
}

proof fn lemma_trimmed_end(t: Seq<char>, n: int)
    requires
        0 <= n <= t.len(),
    ensures
        0 <= trimmed_end(t, n) <= n,
    decreases n,
{
    if n > 0 && is_space(t[n - 1]) {
        lemma_trimmed_end(t, n - 1);
    }
}

/// A header with a shorter name does not announce a length.
proof fn lemma_other_header(line: Seq<char>, colon: int)
    requires
        0 <= colon < 14,
        colon < line.len(),
        find_char(line, ':', 0) == colon,
    ensures
        length_line(line) is None,
{
    reveal_strlit("content-length");
    lemma_trimmed_len(line.take(colon));
    assert(lowered(trimmed(line.take(colon))).len() < "content-length"@.len());
}

/// Where the colon of a header is.
proof fn lemma_colon(line: Seq<char>, i: int, colon: int)
    requires
        0 <= i <= colon < line.len(),
        line[colon] == ':',
        forall|k: int| i <= k < colon ==> #[trigger] line[k] != ':',
    ensures
        find_char(line, ':', i) == colon,
    decreases colon - i,
{
    if i < colon {
        lemma_colon(line, i + 1, colon);
    }
}

/// A decimal numeral spells its number.
proof fn lemma_spelled(n: nat)
    ensures
        spelled(decimal_text(n)) == Some(n),
    decreases n,
{
    let text = decimal_text(n);
    if n < 10 {
        assert(text.drop_last() =~= seq![]);
        assert(spelled(seq![]) == Some(0nat));
    } else {
        lemma_spelled(n / 10);
        assert(text.drop_last() =~= decimal_text(n / 10));
    }
}

/// The header that announces a length does so.
proof fn lemma_length_header(n: nat)
    requires
        n <= usize::MAX,
    ensures
        length_line("Content-Length: "@ + decimal_text(n)) == Some(n),
{
    reveal_strlit("Content-Length: ");
    reveal_strlit("content-length");
    let number = decimal_text(n);
    let line = "Content-Length: "@ + number;
    lemma_decimal_digits(n);
    lemma_colon(line, 0, 14);
    let key = line.take(14);
    assert(!is_space(key[0]) && !is_space(key[13]));
    assert(trimmed(key) =~= key);
    assert(lowered(key) =~= "content-length"@);
    let value = line.skip(15);
    assert(value =~= seq![' '] + number);
    assert(value[1] == number[0] && '0' <= number[0] <= '9');
    assert(value[number.len() as int] == number[number.len() - 1]);
    assert('0' <= number[number.len() - 1] <= '9');
    assert(space_end(value, 1) == 1);
    assert(space_end(value, 0) == 1);
    assert(trimmed_end(value, value.len() as int) == value.len());
    assert(trimmed(value) =~= number);
    lemma_spelled(n);
}

/// The lines of the head of a response.
spec fn status_line(r: ResponseView) -> Seq<char> {
    "HTTP/1.1 "@ + decimal_text(r.status as nat) + " "@ + r.reason
}

spec fn type_line(r: ResponseView) -> Seq<char> {
    "Content-Type: "@ + r.ctype
}

spec fn size_line(r: ResponseView) -> Seq<char> {
    "Content-Length: "@ + decimal_text(encode_utf8(r.body).len())
}

spec fn head_text(r: ResponseView) -> Seq<char> {
    status_line(r) + ("\r\n"@ + type_line(r)) + ("\r\n"@ + size_line(r)) + ("\r\n"@
        + "Connection: close"@)
}

proof fn lemma_fields(r: ResponseView)
    requires
        is_field(r.reason),
        is_field(r.ctype),
    ensures
        is_field(status_line(r)),
        is_field(type_line(r)),
        is_field(size_line(r)),
        is_field("Connection: close"@),
{
    reveal_strlit("HTTP/1.1 ");
    reveal_strlit(" ");
    reveal_strlit("Content-Type: ");
    reveal_strlit("Content-Length: ");
    reveal_strlit("Connection: close");
    lemma_number_field(r.status as nat);
    lemma_number_field(encode_utf8(r.body).len());
    lemma_field_sum("HTTP/1.1 "@, decimal_text(r.status as nat));
    lemma_field_sum("HTTP/1.1 "@ + decimal_text(r.status as nat), " "@);
    lemma_field_sum("HTTP/1.1 "@ + decimal_text(r.status as nat) + " "@, r.reason);
    lemma_field_sum("Content-Type: "@, r.ctype);
    lemma_field_sum("Content-Length: "@, decimal_text(encode_utf8(r.body).len()));
}

proof fn lemma_number_field(n: nat)
    ensures
        is_field(decimal_text(n)),
{
    lemma_decimal_digits(n);
}

proof fn lemma_field_sum(a: Seq<char>, b: Seq<char>)
    requires
        is_field(a),
        is_field(b),
    ensures
        is_field(a + b),
{
    let all = a + b;
    assert forall|i: int| 0 <= i < all.len() implies '\0' <= #[trigger] all[i] <= '\u{7f}' && all[i]
        != '\r' by {
        if i < a.len() {
            assert(all[i] == a[i] && a.contains(a[i]));
        } else {
            assert(all[i] == b[i - a.len()] && b.contains(b[i - a.len()]));
        }
    }
}

/// A response is its head, a blank line and its body.
proof fn lemma_response(r: ResponseView)
    ensures
        response_text(r) == head_text(r) + "\r\n\r\n"@ + r.body,
{
    reveal_strlit("\r\n");
    reveal_strlit("\r\n\r\n");
    reveal_strlit("\r\nContent-Type: ");
    reveal_strlit("Content-Type: ");
    reveal_strlit("\r\nContent-Length: ");
    reveal_strlit("Content-Length: ");
    reveal_strlit("\r\nConnection: close\r\n\r\n");
    reveal_strlit("Connection: close");
    assert("\r\nContent-Type: "@ =~= "\r\n"@ + "Content-Type: "@);
    assert("\r\nContent-Length: "@ =~= "\r\n"@ + "Content-Length: "@);
    assert("\r\nConnection: close\r\n\r\n"@ =~= "\r\n"@ + "Connection: close"@ + "\r\n\r\n"@);
    lemma_regroup(
        status_line(r),
        "\r\n"@,
        "Content-Type: "@,
        r.ctype,
        "Content-Length: "@,
        decimal_text(encode_utf8(r.body).len()),
        "Connection: close"@,
        "\r\n\r\n"@,
    );
}

proof fn lemma_regroup(
    a: Seq<char>,
    nl: Seq<char>,
    b: Seq<char>,
    c: Seq<char>,
    d: Seq<char>,
    e: Seq<char>,
    f: Seq<char>,
    g: Seq<char>,
)
    ensures
        a + (nl + b) + c + (nl + d) + e + (nl + f + g) == a + (nl + (b + c)) + (nl + (d + e)) + (nl
            + f) + g,
{
    assert(a + (nl + b) + c =~= a + (nl + (b + c)));
    let x = a + (nl + (b + c));
    assert(x + (nl + d) + e =~= x + (nl + (d + e)));
    let y = x + (nl + (d + e));
    assert(y + (nl + f + g) =~= y + (nl + f) + g);
}

/// The head of a response announces the length of the body.
proof fn lemma_announced(r: ResponseView)
    requires
        is_field(r.reason),
        is_field(r.ctype),
        encode_utf8(r.body).len() <= usize::MAX,
    ensures
        ({
            let head = head_text(r);
            announced(head, line_end(head, 0) + 2, 0) == encode_utf8(r.body).len()
        }),
{
    let head = head_text(r);
    let (l1, l2, l3, l4) = (status_line(r), type_line(r), size_line(r), "Connection: close"@);
    lemma_fields(r);
    let rest3 = l4;
    let rest2 = l3 + "\r\n"@ + rest3;
    let rest1 = l2 + "\r\n"@ + rest2;
    assert(head.skip(0) =~= l1 + "\r\n"@ + rest1);
    lemma_line(head, 0, l1, rest1);
    let p2 = l1.len() + 2int;
    lemma_line(head, p2, l2, rest2);
    let p3 = p2 + l2.len() + 2int;
    lemma_line(head, p3, l3, rest3);
    let p4 = p3 + l3.len() + 2int;
    lemma_last_line(head, p4);
    assert(length_line(l2) is None) by {
        reveal_strlit("Content-Type: ");
        lemma_colon(l2, 0, 12);
        lemma_other_header(l2, 12);
    }
    lemma_length_header(encode_utf8(r.body).len());
    assert(length_line(l4) is None) by {
        reveal_strlit("Connection: close");
        lemma_colon(l4, 0, 10);
        lemma_other_header(l4, 10);
    }
    assert(head.subrange(p4, head.len() as int) =~= l4);
    let n = encode_utf8(r.body).len();
    assert(announced(head, p4, n) == n);
    assert(announced(head, p3, 0) == announced(head, p4, n));
    assert(announced(head, p2, 0) == announced(head, p3, 0));
}

/// Whoever reads a response up to its first blank line has its head, which announces the length of
/// the body; all that follows is the body.
pub proof fn law_response_is_framed(r: ResponseView)
    requires
        is_field(r.reason),
        is_field(r.ctype),
        encode_utf8(r.body).len() <= usize::MAX,
    ensures
        ({
            let bytes = encode_utf8(response_text(r));
            let end = find_blank(bytes, 0);
            let head = decode_utf8(bytes.take(end->0));
            &&& end is Some
            &&& bytes.skip(end->0 + 4) == encode_utf8(r.body)
            &&& announced(head, line_end(head, 0) + 2, 0) == encode_utf8(r.body).len()
        }),
{
    let head = head_text(r);
    lemma_response(r);
    lemma_fields(r);
    reveal_strlit("Content-Type: ");
    reveal_strlit("Content-Length: ");
    reveal_strlit("Connection: close");
    assert(in_lines(seq![]));
    assert(seq![] + status_line(r) =~= status_line(r));
    lemma_with_field(seq![], status_line(r));
    lemma_with_line(status_line(r), type_line(r));
    lemma_with_line(status_line(r) + ("\r\n"@ + type_line(r)), size_line(r));
    lemma_with_line(
        status_line(r) + ("\r\n"@ + type_line(r)) + ("\r\n"@ + size_line(r)),
        "Connection: close"@,
    );
    lemma_split(head, r.body);
    encode_utf8_decode_utf8(head);
    lemma_announced(r);
}

/// The first line of a response says its status and its reason, and the next ones its type, its
/// length and that the connection is closed; a blank line and the body follow.
pub proof fn law_response_says_its_status(r: ResponseView)
    ensures
        response_text(r) == seq![
            "HTTP/1.1 "@ + decimal_text(r.status as nat) + seq![' '] + r.reason,
            "Content-Type: "@ + r.ctype,
            "Content-Length: "@ + decimal_text(encode_utf8(r.body).len()),
            "Connection: close"@,
            seq![],
        ].map_values(|line: Seq<char>| line + seq!['\r', '\n']).flatten() + r.body,
{
    let nl = seq!['\r', '\n'];
    let lines = seq![
        "HTTP/1.1 "@ + decimal_text(r.status as nat) + seq![' '] + r.reason,
        "Content-Type: "@ + r.ctype,
        "Content-Length: "@ + decimal_text(encode_utf8(r.body).len()),
        "Connection: close"@,
        seq![],
    ];
    lemma_response(r);
    reveal_strlit("\r\n");
    reveal_strlit("\r\n\r\n");
    reveal_strlit(" ");
    assert("\r\n"@ =~= nl);
    assert("\r\n\r\n"@ =~= nl + nl);
    assert(" "@ =~= seq![' ']);
    let all = lines.map_values(|line: Seq<char>| line + nl);
    lemma_five_lines(all);
    let (a, b, c, d) = (lines[0], lines[1], lines[2], lines[3]);
    assert(a == status_line(r) && b == type_line(r) && c == size_line(r));
    assert(all[4] =~= nl);
    assert(a + (nl + b) + (nl + c) + (nl + d) + (nl + nl) =~= (a + nl) + (b + nl) + (c + nl) + (d + nl)
        + nl);
}

proof fn lemma_five_lines(lines: Seq<Seq<char>>)
    requires
        lines.len() == 5,
    ensures
        lines.flatten() == lines[0] + lines[1] + lines[2] + lines[3] + lines[4],
{
    let l1 = lines.drop_first();
    let l2 = l1.drop_first();
    let l3 = l2.drop_first();
    let l4 = l3.drop_first();
    let l5 = l4.drop_first();
    assert(l5.flatten() =~= seq![]);
    assert(l4.flatten() =~= lines[4]);
    assert(l3.flatten() =~= lines[3] + lines[4]);
    assert(l2.flatten() =~= lines[2] + lines[3] + lines[4]);
    assert(l1.flatten() =~= lines[1] + lines[2] + lines[3] + lines[4]);
    assert(lines.flatten() =~= lines[0] + lines[1] + lines[2] + lines[3] + lines[4]);
}

/// A header as a client writes it: a name, a colon and a value, with white space round each.
pub struct Header {
    pub indent: Seq<char>,
    pub name: Seq<char>,
    pub gap: Seq<char>,
    pub lead: Seq<char>,
    pub value: Seq<char>,
    pub trail: Seq<char>,
}

/// Is a text one word of ASCII characters?
pub open spec fn is_word(text: Seq<char>) -> bool {
    &&& text.len() > 0
    &&& forall|k: int| 0 <= k < text.len() ==> '!' <= #[trigger] text[k] <= '~'
}

/// Is a text ASCII white space inside a line?
pub open spec fn is_padding(text: Seq<char>) -> bool {
    is_field(text) && is_white(text)
}

/// Can a client write this header? Its name is a word without a colon, and its value has one line.
pub open spec fn is_header(h: Header) -> bool {
    &&& is_padding(h.indent)
    &&& is_word(h.name)
    &&& !h.name.contains(':')
    &&& is_padding(h.gap)
    &&& is_padding(h.lead)
    &&& is_field(h.value)
    &&& is_padding(h.trail)
}

/// Is this the name of the header that announces the length of the body, in whatever case?
pub open spec fn names_length(name: Seq<char>) -> bool {
    let word = "content-length"@;
    &&& name.len() == word.len()
    &&& forall|k: int|
        0 <= k < name.len() ==> #[trigger] name[k] == word[k] || (word[k] != '-' && name[k] as nat + 32
            == word[k] as nat)
}

/// A header as it stands in a line.
pub open spec fn header_line(h: Header) -> Seq<char> {
    (h.indent + h.name + h.gap) + seq![':'] + (h.lead + h.value + h.trail)
}

/// The headers from header `k` on, each behind a line end.
pub open spec fn header_lines(headers: Seq<Header>, k: int) -> Seq<char>
    decreases headers.len() - k,
{
    if k < 0 || k >= headers.len() {
        seq![]
    } else {
        seq!['\r', '\n'] + header_line(headers[k]) + header_lines(headers, k + 1)
    }
}

/// The first line of a request as a client writes it: method and target with white space round them,
/// and what else stands in the line behind white space.
pub open spec fn request_line(
    lead: Seq<char>,
    method: Seq<char>,
    gap: Seq<char>,
    target: Seq<char>,
    rest: Seq<char>,
) -> Seq<char> {
    lead + method + gap + target + rest
}

/// The head of a request as a client writes it: its first line and the headers.
pub open spec fn request_head(line: Seq<char>, headers: Seq<Header>) -> Seq<char> {
    line + header_lines(headers, 0)
}

/// Do the headers announce a body of `n` bytes: the last that announces a length says `n`, or there
/// is none and `n` is 0?
pub open spec fn announce(headers: Seq<Header>, n: nat) -> bool {
    ||| n == 0 && forall|k: int|
        0 <= k < headers.len() ==> !names_length((#[trigger] headers[k]).name)
    ||| exists|i: int|
        {
            &&& 0 <= i < headers.len()
            &&& names_length((#[trigger] headers[i]).name)
            &&& headers[i].value == decimal_text(n)
            &&& forall|k: int|
                i < k < headers.len() ==> !names_length((#[trigger] headers[k]).name)
        }
}

proof fn lemma_space_run(t: Seq<char>, i: int, end: int)
    requires
        0 <= i <= end <= t.len(),
        forall|k: int| i <= k < end ==> !is_space(#[trigger] t[k]),
        end == t.len() || is_space(t[end]),
    ensures
        word_end(t, i) == end,
    decreases end - i,
{
    if i < end {
        lemma_space_run(t, i + 1, end);
    }
}

proof fn lemma_find(t: Seq<char>, c: char, i: int, end: int)
    requires
        0 <= i <= end <= t.len(),
        forall|k: int| i <= k < end ==> #[trigger] t[k] != c,
        end == t.len() || t[end] == c,
    ensures
        find_char(t, c, i) == end,
    decreases end - i,
{
    if i < end {
        lemma_find(t, c, i + 1, end);
    }
}

proof fn lemma_word_char(c: char)
    requires
        '!' <= c <= '~',
    ensures
        !is_space(c),
        '\0' <= c <= '\u{7f}',
        c != '\r',
{
}

proof fn lemma_word_is_field(text: Seq<char>)
    requires
        is_word(text),
    ensures
        is_field(text),
        forall|k: int| 0 <= k < text.len() ==> !is_space(#[trigger] text[k]),
{
    assert forall|k: int| 0 <= k < text.len() implies '\0' <= #[trigger] text[k] <= '\u{7f}'
        && !is_space(text[k]) && text[k] != '\r' by {
        lemma_word_char(text[k]);
    }
}

proof fn lemma_letter_case(c: char, w: char)
    requires
        'a' <= w <= 'z' || w == '-',
        '!' <= c <= '~',
    ensures
        lower(c) == w <==> (c == w || (w != '-' && c as nat + 32 == w as nat)),
{
}

/// Names are compared without regard to case.
proof fn lemma_name(name: Seq<char>)
    requires
        is_word(name),
    ensures
        lowered(name) == "content-length"@ <==> names_length(name),
{
    let word = "content-length"@;
    reveal_strlit("content-length");
    if name.len() == word.len() {
        assert forall|k: int| 0 <= k < name.len() implies (#[trigger] lowered(name)[k] == word[k] <==> (
        name[k] == word[k] || (word[k] != '-' && name[k] as nat + 32 == word[k] as nat))) by {
            assert(k == 0 || k == 1 || k == 2 || k == 3 || k == 4 || k == 5 || k == 6 || k == 7 || k == 8
                || k == 9 || k == 10 || k == 11 || k == 12 || k == 13);
            lemma_letter_case(name[k], word[k]);
        }
        if names_length(name) {
            assert(lowered(name) =~= word);
        }
        if lowered(name) == word {
            assert forall|k: int| 0 <= k < name.len() implies #[trigger] name[k] == word[k] || (word[k]
                != '-' && name[k] as nat + 32 == word[k] as nat) by {
                assert(lowered(name)[k] == word[k]);
            }
        }
    } else {
        assert(lowered(name).len() != word.len());
    }
}

/// What a header line announces.
proof fn lemma_header_line(h: Header)
    requires
        is_header(h),
    ensures
        is_field(header_line(h)),
        header_line(h).len() > 0,
        !names_length(h.name) ==> length_line(header_line(h)) is None,
        names_length(h.name) ==> forall|n: nat|
            h.value == #[trigger] decimal_text(n) && n <= usize::MAX ==> length_line(header_line(h))
                == Some(n),
{
    let line = header_line(h);
    let key = h.indent + h.name + h.gap;
    let value = h.lead + h.value + h.trail;
    let at = key.len() as int;
    lemma_word_is_field(h.name);
    lemma_field_sum(h.indent, h.name);
    lemma_field_sum(h.indent + h.name, h.gap);
    lemma_field_sum(h.lead, h.value);
    lemma_field_sum(h.lead + h.value, h.trail);
    lemma_field_sum(key, seq![':']);
    lemma_field_sum(key + seq![':'], value);
    assert forall|k: int| 0 <= k < at implies #[trigger] line[k] != ':' by {
        assert(line[k] == key[k]);
        let (a, b) = (h.indent.len(), h.name.len());
        if k < a {
            assert(key[k] == h.indent[k] && is_space(h.indent[k]));
        } else if k < a + b {
            assert(key[k] == h.name[k - a] && h.name.contains(h.name[k - a]));
        } else {
            assert(key[k] == h.gap[k - a - b] && is_space(h.gap[k - a - b]));
        }
    }
    lemma_find(line, ':', 0, at);
    assert(line.take(at) =~= key);
    law_trim_takes_white_space_away(h.indent, h.name, h.gap);
    lemma_name(h.name);
    if names_length(h.name) {
        assert forall|n: nat| h.value == #[trigger] decimal_text(n) && n <= usize::MAX implies length_line(
            line,
        ) == Some(n) by {
            lemma_decimal_digits(n);
            assert(line.skip(at + 1) =~= value);
            lemma_digit_char(h.value[0]);
            lemma_digit_char(h.value.last());
            law_trim_takes_white_space_away(h.lead, h.value, h.trail);
            law_length_is_what_is_written(n, seq![]);
        }
    }
}

proof fn lemma_digit_char(c: char)
    requires
        '0' <= c <= '9',
    ensures
        !is_space(c),
{
}

/// A further line does not bring the end of the head.
proof fn lemma_lines_go_on(text: Seq<char>, headers: Seq<Header>, k: int)
    requires
        in_lines(text),
        0 <= k <= headers.len(),
        forall|i: int| 0 <= i < headers.len() ==> is_header(#[trigger] headers[i]),
    ensures
        in_lines(text + header_lines(headers, k)),
    decreases headers.len() - k,
{
    if k < headers.len() {
        let line = header_line(headers[k]);
        assert(is_header(headers[k]));
        lemma_header_line(headers[k]);
        lemma_with_line(text, line);
        reveal_strlit("\r\n");
        assert("\r\n"@ =~= seq!['\r', '\n']);
        lemma_lines_go_on(text + ("\r\n"@ + line), headers, k + 1);
        assert(text + header_lines(headers, k) =~= text + ("\r\n"@ + line) + header_lines(
            headers,
            k + 1,
        ));
    } else {
        assert(text + header_lines(headers, k) =~= text);
    }
}

/// The headers from `k` on announce a length, or leave the one before.
proof fn lemma_headers_announce(
    t: Seq<char>,
    i: int,
    headers: Seq<Header>,
    k: int,
    so_far: nat,
    n: nat,
)
    requires
        0 <= k < headers.len(),
        0 <= i <= t.len(),
        n <= usize::MAX,
        forall|j: int| 0 <= j < headers.len() ==> is_header(#[trigger] headers[j]),
        t.skip(i) == header_line(headers[k]) + header_lines(headers, k + 1),
    ensures
        (forall|j: int| k <= j < headers.len() ==> !names_length((#[trigger] headers[j]).name))
            ==> announced(t, i, so_far) == so_far,
        (exists|j: int|
            {
                &&& k <= j < headers.len()
                &&& names_length((#[trigger] headers[j]).name)
                &&& headers[j].value == decimal_text(n)
                &&& forall|l: int|
                    j < l < headers.len() ==> !names_length((#[trigger] headers[l]).name)
            }) ==> announced(t, i, so_far) == n,
    decreases headers.len() - k,
{
    let line = header_line(headers[k]);
    assert(is_header(headers[k]));
    lemma_header_line(headers[k]);
    let here = match length_line(line) {
        Some(x) => x,
        None => so_far,
    };
    if k == headers.len() - 1 {
        assert(t.skip(i) =~= line);
        lemma_last_line(t, i);
        assert(t.subrange(i, t.len() as int) =~= t.skip(i));
        assert(announced(t, i, so_far) == here);
    } else {
        let next = header_line(headers[k + 1]);
        let rest = next + header_lines(headers, k + 2);
        reveal_strlit("\r\n");
        assert("\r\n"@ =~= seq!['\r', '\n']);
        assert(t.skip(i) =~= line + "\r\n"@ + rest);
        lemma_line(t, i, line, rest);
        let p = i + line.len() + 2;
        assert(announced(t, i, so_far) == announced(t, p, here));
        lemma_headers_announce(t, p, headers, k + 1, here, n);
    }
}

/// The first line of a request.
proof fn lemma_first_line(
    line: Seq<char>,
    lead: Seq<char>,
    method: Seq<char>,
    gap: Seq<char>,
    path: Seq<char>,
    query: Seq<char>,
    rest: Seq<char>,
)
    requires
        is_white(lead),
        is_word(method),
        is_white(gap),
        gap.len() > 0,
        is_word(path),
        !path.contains('?'),
        query.len() == 0 || (is_word(query) && query[0] == '?'),
        rest.len() == 0 || is_space(rest[0]),
        line == request_line(lead, method, gap, path + query, rest),
    ensures
        ({
            let m = space_end(line, 0);
            let m_end = word_end(line, m);
            let p = space_end(line, m_end);
            let p_end = word_end(line, p);
            let raw = line.subrange(p, p_end);
            &&& m < line.len()
            &&& p < line.len()
            &&& line.subrange(m, m_end) == method
            &&& raw.take(find_char(raw, '?', 0)) == path
        }),
{
    let target = path + query;
    let z = lead.len() as int;
    let a = z + method.len();
    let p = a + gap.len();
    let b = p + target.len();
    assert forall|k: int| 0 <= k < target.len() implies '!' <= #[trigger] target[k] <= '~' by {
        if k < path.len() {
            assert(target[k] == path[k]);
        } else {
            assert(target[k] == query[k - path.len()]);
        }
    }
    lemma_word_is_field(method);
    lemma_word_is_field(target);
    assert forall|k: int| 0 <= k < z implies is_space(#[trigger] line[k]) by {
        assert(line[k] == lead[k]);
    }
    assert forall|k: int| z <= k < a implies !is_space(#[trigger] line[k]) by {
        assert(line[k] == method[k - z]);
    }
    assert forall|k: int| a <= k < p implies is_space(#[trigger] line[k]) by {
        assert(line[k] == gap[k - a]);
    }
    assert forall|k: int| p <= k < b implies !is_space(#[trigger] line[k]) by {
        assert(line[k] == target[k - p]);
    }
    assert(b == line.len() || is_space(line[b])) by {
        if rest.len() > 0 {
            assert(line[b] == rest[0]);
        }
    }
    lemma_white_run(line, 0, z);
    lemma_space_run(line, z, a);
    lemma_white_run(line, a, p);
    lemma_space_run(line, p, b);
    assert(line.subrange(z, a) =~= method);
    let raw = line.subrange(p, b);
    assert(raw =~= target);
    assert forall|k: int| 0 <= k < path.len() implies #[trigger] raw[k] != '?' by {
        assert(raw[k] == path[k] && path.contains(path[k]));
    }
    lemma_find(raw, '?', 0, path.len() as int);
    assert(raw.take(path.len() as int) =~= path);
}

/// A head in lines ends at the first blank line, whatever bytes follow.
proof fn lemma_split_bytes(head: Seq<char>, body: Seq<u8>)
    requires
        in_lines(head),
    ensures
        ({
            let bytes = encode_utf8(head) + seq![0x0du8, 0x0au8, 0x0du8, 0x0au8] + body;
            &&& find_blank(bytes, 0) == Some(head.len() as int)
            &&& bytes.take(head.len() as int) == encode_utf8(head)
            &&& bytes.skip(head.len() + 4int) == body
        }),
{
    let bytes = encode_utf8(head) + seq![0x0du8, 0x0au8, 0x0du8, 0x0au8] + body;
    is_ascii_chars_encode_utf8(head);
    let n = head.len() as int;
    let h = encode_utf8(head);
    assert(bytes[n] == 0x0d && bytes[n + 1] == 0x0a && bytes[n + 2] == 0x0d && bytes[n + 3] == 0x0a);
    assert forall|k: int| 0 <= k < n implies !blank_line(bytes, k) by {
        assert(bytes[k] == h[k] && h[k] == head[k] as u8);
        if head[k] == '\r' {
            assert(bytes[k + 2] == h[k + 2] && h[k + 2] == head[k + 2] as u8);
        }
    }
    lemma_first_blank(bytes, 0, n);
    assert(bytes.take(n) =~= h);
    assert(bytes.skip(n + 4) =~= body);
}

/// A request as a client writes it is read as what it says: its method, its path without the query,
/// and of the bytes behind the blank line as many as its last length header announces, or none if
/// there is no such header. More than a million bytes are refused.
pub proof fn law_written_request_is_read(
    lead: Seq<char>,
    method: Seq<char>,
    gap: Seq<char>,
    path: Seq<char>,
    query: Seq<char>,
    rest: Seq<char>,
    headers: Seq<Header>,
    n: nat,
    body: Seq<u8>,
)
    requires
        is_padding(lead),
        is_word(method),
        is_padding(gap),
        gap.len() > 0,
        is_word(path),
        !path.contains('?'),
        query.len() == 0 || (is_word(query) && query[0] == '?'),
        is_field(rest),
        rest.len() == 0 || is_space(rest[0]),
        forall|k: int| 0 <= k < headers.len() ==> is_header(#[trigger] headers[k]),
        announce(headers, n),
        n <= usize::MAX,
    ensures
        ({
            let head = request_head(request_line(lead, method, gap, path + query, rest), headers);
            let bytes = encode_utf8(head) + seq![0x0du8, 0x0au8, 0x0du8, 0x0au8] + body;
            request_in(bytes) == (if n > 1000000 {
                ReadingView::Failed("body too large"@)
            } else {
                ReadingView::Done(
                    RequestView {
                        method,
                        path,
                        body: if n < body.len() {
                            body.take(n as int)
                        } else {
                            body
                        },
                    },
                )
            })
        }),
{
    let line = request_line(lead, method, gap, path + query, rest);
    let head = request_head(line, headers);
    lemma_word_is_field(method);
    lemma_word_is_field(path);
    if query.len() > 0 {
        lemma_word_is_field(query);
    }
    lemma_field_sum(path, query);
    lemma_field_sum(lead, method);
    lemma_field_sum(lead + method, gap);
    lemma_field_sum(lead + method + gap, path + query);
    lemma_field_sum(lead + method + gap + (path + query), rest);
    assert(in_lines(seq![]));
    lemma_with_field(seq![], line);
    assert(seq![] + line =~= line);
    lemma_lines_go_on(line, headers, 0);
    lemma_split_bytes(head, body);
    encode_utf8_valid_utf8(head);
    encode_utf8_decode_utf8(head);
    lemma_first_line(line, lead, method, gap, path, query, rest);
    if headers.len() == 0 {
        assert(head =~= line);
        assert(head.skip(0) =~= head);
        lemma_last_line(head, 0);
        assert(head.take(head.len() as int) =~= line);
        assert(n == 0);
    } else {
        let more = header_line(headers[0]) + header_lines(headers, 1);
        reveal_strlit("\r\n");
        assert("\r\n"@ =~= seq!['\r', '\n']);
        assert(head.skip(0) =~= line + "\r\n"@ + more);
        lemma_line(head, 0, line, more);
        let p = line.len() + 2int;
        assert(head.take(line.len() as int) =~= line);
        lemma_headers_announce(head, p, headers, 0, 0, n);
        assert(announced(head, p, 0) == n);
    }
}

/// The head of an event stream is split off at its blank line, whatever is streamed behind it: its
/// first line says that all is well, and its next lines that events follow, uncached, until the
/// connection is closed.
pub proof fn law_stream_is_framed(events: Seq<char>)
    ensures
        ({
            let bytes = encode_utf8(stream_head_text() + events);
            let head = seq![
                "HTTP/1.1 200 OK"@,
                "Content-Type: text/event-stream"@,
                "Cache-Control: no-cache"@,
                "Connection: close"@,
            ];
            let lines = head[0] + seq!['\r', '\n'] + head[1] + seq!['\r', '\n'] + head[2] + seq![
                '\r',
                '\n',
            ] + head[3];
            &&& find_blank(bytes, 0) == Some(lines.len() as int)
            &&& decode_utf8(bytes.take(lines.len() as int)) == lines
            &&& bytes.skip(lines.len() + 4int) == encode_utf8(events)
        }),
{
    let nl = seq!['\r', '\n'];
    let (a, b, c, d) = (
        "HTTP/1.1 200 OK"@,
        "Content-Type: text/event-stream"@,
        "Cache-Control: no-cache"@,
        "Connection: close"@,
    );
    let lines = a + nl + b + nl + c + nl + d;
    reveal_strlit("HTTP/1.1 200 OK");
    reveal_strlit("Content-Type: text/event-stream");
    reveal_strlit("Cache-Control: no-cache");
    reveal_strlit("Connection: close");
    reveal_strlit("\r\n");
    reveal_strlit("\r\n\r\n");
    reveal_strlit(
        "HTTP/1.1 200 OK\r\nContent-Type: text/event-stream\r\nCache-Control: no-cache\r\nConnection: close\r\n\r\n",
    );
    assert("\r\n"@ =~= nl);
    assert(stream_head_text() =~= lines + "\r\n\r\n"@);
    assert(in_lines(seq![]));
    assert(seq![] + a =~= a);
    lemma_with_field(seq![], a);
    lemma_with_line(a, b);
    lemma_with_line(a + ("\r\n"@ + b), c);
    lemma_with_line(a + ("\r\n"@ + b) + ("\r\n"@ + c), d);
    assert(a + ("\r\n"@ + b) + ("\r\n"@ + c) + ("\r\n"@ + d) =~= lines);
    lemma_split(lines, events);
    encode_utf8_decode_utf8(lines);
}

/// The white space that parts words: six ASCII characters, and those of Unicode.
pub proof fn law_white_space_is_known(c: char)
    ensures
        is_space(c) <==> seq![
            0x09u32,
            0x0a,
            0x0b,
            0x0c,
            0x0d,
            0x20,
            0x85,
            0xa0,
            0x1680,
            0x2000,
            0x2001,
            0x2002,
            0x2003,
            0x2004,
            0x2005,
            0x2006,
            0x2007,
            0x2008,
            0x2009,
            0x200a,
            0x2028,
            0x2029,
            0x202f,
            0x205f,
            0x3000,
        ].contains(c as u32),
{
    let all = seq![
        0x09u32,
        0x0a,
        0x0b,
        0x0c,
        0x0d,
        0x20,
        0x85,
        0xa0,
        0x1680,
        0x2000,
        0x2001,
        0x2002,
        0x2003,
        0x2004,
        0x2005,
        0x2006,
        0x2007,
        0x2008,
        0x2009,
        0x200a,
        0x2028,
        0x2029,
        0x202f,
        0x205f,
        0x3000,
    ];
    if is_space(c) {
        let n = c as u32;
        let i = if n <= 0x0d {
            n - 9
        } else if 0x2000 <= n <= 0x200a {
            n - 0x2000 + 9
        } else if n == 0x20 {
            5
        } else if n == 0x85 {
            6
        } else if n == 0xa0 {
            7
        } else if n == 0x1680 {
            8
        } else if n == 0x2028 {
            20
        } else if n == 0x2029 {
            21
        } else if n == 0x202f {
            22
        } else if n == 0x205f {
            23
        } else {
            24
        };
        assert(all[i] == n);
    }
}

/// Is a text all white space?
pub open spec fn is_white(text: Seq<char>) -> bool {
    forall|k: int| 0 <= k < text.len() ==> is_space(#[trigger] text[k])
}

proof fn lemma_white_run(t: Seq<char>, i: int, end: int)
    requires
        0 <= i <= end <= t.len(),
        forall|k: int| i <= k < end ==> is_space(#[trigger] t[k]),
        end == t.len() || !is_space(t[end]),
    ensures
        space_end(t, i) == end,
    decreases end - i,
{
    if i < end {
        lemma_white_run(t, i + 1, end);
    }
}

proof fn lemma_white_tail(t: Seq<char>, n: int, start: int)
    requires
        0 <= start <= n <= t.len(),
        forall|k: int| start <= k < n ==> is_space(#[trigger] t[k]),
        start == 0 || !is_space(t[start - 1]),
    ensures
        trimmed_end(t, n) == start,
    decreases n - start,
{
    if start < n {
        lemma_white_tail(t, n - 1, start);
    }
}

/// Trimming takes the white space before and behind a text away and nothing else.
pub proof fn law_trim_takes_white_space_away(before: Seq<char>, core: Seq<char>, behind: Seq<char>)
    requires
        is_white(before),
        is_white(behind),
        core.len() > 0 ==> !is_space(core[0]) && !is_space(core.last()),
    ensures
        trimmed(before + core + behind) == core,
{
    let t = before + core + behind;
    let (a, b) = (before.len() as int, (before.len() + core.len()) as int);
    assert forall|k: int| 0 <= k < a implies is_space(#[trigger] t[k]) by {
        assert(t[k] == before[k]);
    }
    assert forall|k: int| b <= k < t.len() implies is_space(#[trigger] t[k]) by {
        assert(t[k] == behind[k - b]);
    }
    if core.len() > 0 {
        assert(t[a] == core[0] && t[b - 1] == core.last());
        lemma_white_run(t, 0, a);
        lemma_white_tail(t, t.len() as int, b);
        assert(trimmed(t) =~= core);
    } else {
        lemma_white_run(t, 0, t.len() as int);
        lemma_white_tail(t, t.len() as int, 0);
        assert(trimmed(t) =~= core);
    }
}

/// A length in a header is what its digits spell, with a plus sign or without, as far as the machine
/// can count. What has no digits, or something else among them, counts as nothing.
pub proof fn law_length_is_what_is_written(n: nat, text: Seq<char>)
    ensures
        n <= usize::MAX ==> length_of(decimal_text(n)) == n && length_of(seq!['+'] + decimal_text(n))
            == n,
        n > usize::MAX ==> length_of(decimal_text(n)) == 0 && length_of(seq!['+'] + decimal_text(n))
            == 0,
        text.len() == 0 || !all_digits(text) ==> length_of(seq!['+'] + text) == 0,
        text.len() == 0 || (text[0] != '+' && !all_digits(text)) ==> length_of(text) == 0,
{
    lemma_decimal_digits(n);
    lemma_spelled(n);
    assert((seq!['+'] + decimal_text(n)).drop_first() =~= decimal_text(n));
    assert((seq!['+'] + text).drop_first() =~= text);
    lemma_spelled_digits(text);
}

proof fn lemma_spelled_digits(t: Seq<char>)
    ensures
        spelled(t) is Some ==> all_digits(t),
    decreases t.len(),
{
    if t.len() > 0 {
        let front = t.drop_last();
        lemma_spelled_digits(front);
        if spelled(t) is Some {
            assert forall|k: int| 0 <= k < t.len() implies '0' <= #[trigger] t[k] <= '9' by {
                if k < front.len() {
                    assert(t[k] == front[k]);
                }
            }
        }
    }
}

/// Zeros in front of a length do not count.
pub proof fn law_zeros_in_front_do_not_count(n: nat)
    requires
        n <= usize::MAX,
    ensures
        length_of(seq!['0'] + decimal_text(n)) == n,
{
    lemma_decimal_digits(n);
    lemma_zero_first(decimal_text(n));
    lemma_spelled(n);
}

proof fn lemma_zero_first(t: Seq<char>)
    ensures
        spelled(seq!['0'] + t) == spelled(t),
    decreases t.len(),
{
    let all = seq!['0'] + t;
    if t.len() == 0 {
        assert(all.drop_last() =~= seq![]);
        assert(spelled(all.drop_last()) == Some(0nat));
        assert(all.last() == '0');
    } else {
        assert(all.drop_last() =~= seq!['0'] + t.drop_last());
        lemma_zero_first(t.drop_last());
    }
}

/// A first line without a word has no method, and one with one word has no path, whatever the
/// headers say.
pub proof fn law_first_line_needs_two_words(method: Seq<char>, white: Seq<char>)
    requires
        is_word(method),
        is_field(white),
        is_white(white),
    ensures
        head_of(white) == Err::<HeadView, Seq<char>>("no method"@),
        head_of(method + white) == Err::<HeadView, Seq<char>>("no path"@),
{
    lemma_word_is_field(method);
    lemma_field_sum(method, white);
    assert(white.skip(0) =~= white);
    lemma_last_line(white, 0);
    assert(white.take(white.len() as int) =~= white);
    lemma_white_run(white, 0, white.len() as int);
    let t = method + white;
    let a = method.len() as int;
    assert(t.skip(0) =~= t);
    lemma_last_line(t, 0);
    assert(t.take(t.len() as int) =~= t);
    assert forall|k: int| 0 <= k < a implies !is_space(#[trigger] t[k]) by {
        assert(t[k] == method[k]);
    }
    assert forall|k: int| a <= k < t.len() implies is_space(#[trigger] t[k]) by {
        assert(t[k] == white[k - a]);
    }
    assert(space_end(t, 0) == 0);
    assert(a == t.len() || is_space(t[a]));
    lemma_space_run(t, 0, a);
    lemma_white_run(t, a, t.len() as int);
}

/// As long as no blank line has come, the reader goes on up to a million bytes, keeps all of them,
/// and gives up beyond; where the input ends before the head does, the request is incomplete; and
/// where it ends before the body does, the request has what there is of it.
pub proof fn law_reader_waits_for_the_head(buf: Seq<u8>, chunk: Seq<u8>, head: HeadView)
    requires
        find_blank(buf + chunk, 0) is None,
    ensures
        chunk.len() > 0 && (buf + chunk).len() <= 1000000 ==> read_step(ReaderView::Head(buf), chunk)
            == (ReaderView::Head(buf + chunk), ReadingView::More),
        chunk.len() > 0 && (buf + chunk).len() > 1000000 ==> read_step(ReaderView::Head(buf), chunk).1
            == ReadingView::Failed("headers too large"@),
        read_step(ReaderView::Head(buf), seq![]).1 == ReadingView::Failed("incomplete request"@),
        buf.len() < head.content_len ==> read_step(ReaderView::Body(head, buf), seq![]).1
            == ReadingView::Done(RequestView { method: head.method, path: head.path, body: buf }),
{
}

/// Behind a request, and behind one that is refused, the reader starts anew; and a head that is not
/// UTF-8 is refused with what is wrong with it.
pub proof fn law_reader_starts_anew(state: ReaderView, chunk: Seq<u8>, head: Seq<u8>, body: Seq<u8>)
    ensures
        !(read_step(state, chunk).1 is More) ==> read_step(state, chunk).0 == ReaderView::Head(seq![]),
        !valid_utf8(head) ==> {
            let bytes = head + seq![0x0du8, 0x0au8, 0x0du8, 0x0au8] + body;
            find_blank(bytes, 0) == Some(head.len() as int) ==> request_in(bytes)
                == ReadingView::Failed(utf8_complaint(head))
        },
{
    let bytes = head + seq![0x0du8, 0x0au8, 0x0du8, 0x0au8] + body;
    assert(bytes.take(head.len() as int) =~= head);
}

/// The case of the 26 letters does not matter in the name of a header, and any other character is
/// compared as it is.
pub proof fn law_case_of_letters_does_not_matter(c: char)
    ensures
        'A' <= c <= 'Z' ==> lower(c) as nat == c as nat + 32,
        !('A' <= c <= 'Z') ==> lower(c) == c,
{
}

} // verus!
