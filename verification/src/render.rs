//! JSON as it is written, with white space or without: reading gives back what was written, and what
//! is not written like this is refused.

use vstd::prelude::*;
use vstd::string::*;
use vstd::utf8::*;

use crate::json::{
    ascii_text, body_stop, byte_at, char_at, digits_end, document, elements_at, escaped, escaped_char,
    exponent_start, fraction_end, has_exponent, hex4, hex_digit, hex_number, hex_value, is_digit,
    is_ws, lemma_digits_end, lemma_ws_end, literal_at, members_at, number_at, prepend, sign_end,
    string_at, string_body, string_stop, unicode_at, value_at, ws_end, JsonView,
};
use crate::margin::{is_blank, is_blank_char, lemma_not_hex};
use crate::text::{decimal_text, lemma_encode_sum};

verus! {

/// The bytes of a text that is all ASCII.
pub open spec fn ascii_bytes(text: Seq<char>) -> Seq<u8> {
    Seq::new(text.len(), |k: int| text[k] as u8)
}

/// Is a text a number as JSON writes them?
pub open spec fn is_numeral(text: Seq<char>) -> bool {
    &&& text.len() > 0
    &&& (text[0] == '-' || '0' <= text[0] <= '9')
    &&& is_ascii_chars(text)
    &&& number_at(ascii_bytes(text), 0) == Ok::<(Seq<char>, int), Seq<char>>(
        (text, text.len() as int),
    )
}

/// A string as it is written.
pub open spec fn quoted(text: Seq<char>) -> Seq<char> {
    seq!['"'] + escaped(text) + seq!['"']
}

/// A value as it is written.
pub open spec fn rendered(v: JsonView) -> Seq<char>
    decreases v, 0nat,
{
    match v {
        JsonView::Null => "null"@,
        JsonView::Bool(b) => if b {
            "true"@
        } else {
            "false"@
        },
        JsonView::Number(text) => text,
        JsonView::String(text) => quoted(text),
        JsonView::Array(items) => seq!['['] + rendered_items(items, 0) + seq![']'],
        JsonView::Object(pairs) => seq!['{'] + rendered_members(pairs, 0) + seq!['}'],
    }
}

/// The items of an array from item `k` on as they are written.
pub open spec fn rendered_items(items: Seq<JsonView>, k: int) -> Seq<char>
    decreases items, items.len() - k,
{
    if k < 0 || k >= items.len() {
        seq![]
    } else if k == items.len() - 1 {
        rendered(items[k])
    } else {
        rendered(items[k]) + seq![','] + rendered_items(items, k + 1)
    }
}

/// A member of an object as it is written.
pub open spec fn rendered_member(pair: (Seq<char>, JsonView)) -> Seq<char>
    decreases pair, 0nat,
{
    quoted(pair.0) + seq![':'] + rendered(pair.1)
}

/// The members of an object from member `k` on as they are written.
pub open spec fn rendered_members(pairs: Seq<(Seq<char>, JsonView)>, k: int) -> Seq<char>
    decreases pairs, pairs.len() - k,
{
    if k < 0 || k >= pairs.len() {
        seq![]
    } else if k == pairs.len() - 1 {
        rendered_member(pairs[k])
    } else {
        rendered_member(pairs[k]) + seq![','] + rendered_members(pairs, k + 1)
    }
}

/// Can a value be written, that is, are its numbers numerals?
pub open spec fn writable(v: JsonView) -> bool
    decreases v,
{
    match v {
        JsonView::Number(text) => is_numeral(text),
        JsonView::Array(items) => forall|k: int| 0 <= k < items.len() ==> writable(#[trigger] items[k]),
        JsonView::Object(pairs) => forall|k: int|
            0 <= k < pairs.len() ==> writable_member(#[trigger] pairs[k]),
        _ => true,
    }
}

/// Can a member of an object be written?
pub open spec fn writable_member(pair: (Seq<char>, JsonView)) -> bool
    decreases pair,
{
    writable(pair.1)
}

/// Do the bytes from `i` on spell `text`, up to the end?
#[verifier::opaque]
spec fn spells(s: Seq<u8>, i: int, text: Seq<char>) -> bool {
    0 <= i <= s.len() && s.skip(i) == encode_utf8(text)
}

/// The first character of what is spelled.
proof fn lemma_step(s: Seq<u8>, i: int, t: Seq<char>)
    requires
        spells(s, i, t),
        t.len() > 0,
    ensures
        ({
            let c = t[0] as u32;
            let n = encode_scalar(c).len();
            &&& 0 <= i && 1 <= n && i + n <= s.len()
            &&& spells(s, i + n, t.drop_first())
            &&& c < 0x80 ==> n == 1 && s[i] == c
            &&& c >= 0x80 ==> s[i] >= 0x80 && valid_utf8(s.skip(i)) && decode_first_scalar(
                s.skip(i),
            ) == c && length_of_first_scalar(s.skip(i)) == n
        }),
{
    reveal(spells);
    let c = t[0] as u32;
    let rest = s.skip(i);
    let head = encode_scalar(c);
    char_is_scalar(t[0]);
    encode_utf8_first_scalar(t);
    encode_utf8_valid_utf8(t);
    assert(rest == head + encode_utf8(t.drop_first()));
    assert(s.skip(i + head.len()) =~= rest.skip(head.len() as int));
    assert(rest.skip(head.len() as int) =~= encode_utf8(t.drop_first()));
    assert(s[i] == rest[0] && rest[0] == head[0]);
    if c < 0x80 {
        assert(c & 0x7f == c) by (bit_vector)
            requires
                c < 0x80,
        ;
    }
}

proof fn lemma_ascii_char(c: char)
    requires
        c <= '\u{7f}',
    ensures
        c as u8 == c as u32,
{
}

/// The ASCII front of what is spelled.
proof fn lemma_ascii_front(s: Seq<u8>, i: int, front: Seq<char>, t: Seq<char>)
    requires
        spells(s, i, front + t),
        is_ascii_chars(front),
    ensures
        0 <= i,
        i + front.len() <= s.len(),
        spells(s, i + front.len(), t),
        forall|k: int| 0 <= k < front.len() ==> s[i + k] == #[trigger] front[k] as u8,
    decreases front.len(),
{
    if front.len() == 0 {
        reveal(spells);
        assert(front + t =~= t);
    } else {
        let all = front + t;
        let rest = front.drop_first();
        assert(all[0] == front[0]);
        lemma_step(s, i, all);
        assert(all.drop_first() =~= rest + t);
        assert forall|k: int| 0 <= k < rest.len() implies '\0' <= #[trigger] rest[k] <= '\u{7f}' by {
            assert(rest[k] == front[k + 1]);
        }
        lemma_ascii_front(s, i + 1, rest, t);
        assert forall|k: int| 0 <= k < front.len() implies s[i + k] == #[trigger] front[k] as u8 by {
            if k == 0 {
                lemma_ascii_char(front[0]);
            } else {
                assert(front[k] == rest[k - 1]);
                assert(s[(i + 1) + (k - 1)] == rest[k - 1] as u8);
            }
        }
    }
}

/// The digits of a control character spell it.
proof fn lemma_control(c: char, bytes: Seq<u8>)
    requires
        (c as u32) < 32,
        bytes.len() == 4,
        bytes[0] == 0x30,
        bytes[1] == 0x30,
        bytes[2] == hex_digit(c as nat / 16) as u8,
        bytes[3] == hex_digit(c as nat % 16) as u8,
    ensures
        hex4(bytes) == Some(c as nat),
{
    let a = bytes.drop_last();
    let b = a.drop_last();
    let d = b.drop_last();
    assert(d.drop_last() =~= seq![]);
    reveal_with_fuel(hex_number, 5);
    assert(hex_value(bytes[2]) == Some(c as nat / 16));
    assert(hex_value(bytes[3]) == Some(c as nat % 16));
    assert(a.last() == bytes[2] && b.last() == bytes[1] && d.last() == bytes[0]);
    assert(hex_number(d) == Some(0nat));
    assert(hex_number(b) == Some(0nat));
    assert(hex_number(a) == Some(c as nat / 16));
}

/// An escaped character is read as the character.
proof fn lemma_char(s: Seq<u8>, i: int, c: char, t: Seq<char>)
    requires
        spells(s, i, escaped_char(c) + t),
    ensures
        0 <= i < s.len(),
        s[i] != 0x22,
        char_at(s, i) matches Ok((d, j)) && d == c && i < j && spells(s, j, t),
{
    let e = escaped_char(c);
    if e.len() == 1 {
        assert((e + t)[0] == c);
        assert((e + t).drop_first() =~= t);
        lemma_step(s, i, e + t);
        assert(s.subrange(i, s.len() as int) == s.skip(i));
        char_u32_cast(c, c as u32);
    } else {
        assert(is_ascii_chars(e));
        lemma_ascii_front(s, i, e, t);
        assert(e[0] == '\\' && s[i + 0] == e[0] as u8);
        assert(s[i + 1] == e[1] as u8);
        if e.len() == 6 {
            assert(e[1] == 'u');
            let bytes = s.subrange(i + 2, i + 6);
            assert(s[i + 2] == e[2] as u8 && s[i + 3] == e[3] as u8 && s[i + 4] == e[4] as u8 && s[i
                + 5] == e[5] as u8);
            lemma_control(c, bytes);
            assert(unicode_at(s, i + 2) == Ok::<(char, int), Seq<char>>((c, i + 6)));
        }
    }
}

/// An escaped text is read as the text.
proof fn lemma_string_body(s: Seq<u8>, i: int, text: Seq<char>, t: Seq<char>)
    requires
        spells(s, i, escaped(text) + seq!['"'] + t),
    ensures
        string_body(s, i) matches Ok((x, j)) && x == text && i < j && spells(s, j, t),
    decreases text.len(),
{
    let all = escaped(text) + seq!['"'] + t;
    if text.len() == 0 {
        assert(all =~= seq!['"'] + t);
        lemma_ascii_front(s, i, seq!['"'], t);
        assert(s[i + 0] == seq!['"'][0] as u8);
        assert(text =~= seq![]);
    } else {
        let rest = escaped(text.drop_first()) + seq!['"'] + t;
        assert(all =~= escaped_char(text[0]) + rest);
        lemma_char(s, i, text[0], rest);
        let j = char_at(s, i)->Ok_0.1;
        lemma_string_body(s, j, text.drop_first(), t);
        assert(seq![text[0]] + text.drop_first() =~= text);
    }
}

/// A quoted text is read as the text.
proof fn lemma_string(s: Seq<u8>, i: int, text: Seq<char>, t: Seq<char>)
    requires
        spells(s, i, quoted(text) + t),
    ensures
        byte_at(s, i, 0x22),
        string_at(s, i) matches Ok((x, j)) && x == text && i < j && spells(s, j, t),
{
    let rest = escaped(text) + seq!['"'] + t;
    assert(quoted(text) + t =~= seq!['"'] + rest);
    lemma_ascii_front(s, i, seq!['"'], rest);
    assert(s[i + 0] == seq!['"'][0] as u8);
    lemma_string_body(s, i + 1, text, t);
}

/// Can `t` stand behind a value?
pub open spec fn follows_value(t: Seq<char>) -> bool {
    t.len() == 0 || t[0] == ',' || t[0] == ']' || t[0] == '}' || is_blank_char(t[0])
}

/// Does what stands behind a number end it?
spec fn number_ends(s: Seq<u8>, end: int) -> bool {
    ||| end == s.len()
    ||| byte_at(s, end, 0x2c) || byte_at(s, end, 0x5d) || byte_at(s, end, 0x7d)
    ||| 0 <= end < s.len() && is_ws(s[end])
}

proof fn lemma_number_ends(s: Seq<u8>, end: int, t: Seq<char>)
    requires
        spells(s, end, t),
        follows_value(t),
    ensures
        number_ends(s, end),
{
    if t.len() > 0 {
        lemma_step(s, end, t);
    } else {
        reveal(spells);
        assert(s.skip(end).len() == 0);
    }
}

/// Digits end at the same place inside a longer text.
proof fn lemma_digits_inside(s: Seq<u8>, i: int, b: Seq<u8>, k: int)
    requires
        0 <= i,
        0 <= k <= b.len(),
        i + b.len() <= s.len(),
        s.subrange(i, i + b.len()) == b,
        number_ends(s, i + b.len()),
    ensures
        digits_end(s, i + k) == i + digits_end(b, k),
        k <= digits_end(b, k) <= b.len(),
    decreases b.len() - k,
{
    lemma_digits_end(b, k);
    if k < b.len() {
        assert(s[i + k] == s.subrange(i, i + b.len())[k]);
        if is_digit(b[k]) {
            lemma_digits_inside(s, i, b, k + 1);
        }
    }
}

/// A byte stands at the same place inside a longer text.
proof fn lemma_byte_inside(s: Seq<u8>, i: int, b: Seq<u8>, k: int, x: u8)
    requires
        0 <= i,
        0 <= k <= b.len(),
        i + b.len() <= s.len(),
        s.subrange(i, i + b.len()) == b,
        number_ends(s, i + b.len()),
        x != 0x2c && x != 0x5d && x != 0x7d && !is_ws(x),
    ensures
        byte_at(s, i + k, x) == byte_at(b, k, x),
{
    if k < b.len() {
        assert(s[i + k] == s.subrange(i, i + b.len())[k]);
    }
}

/// A numeral is read as a number.
proof fn lemma_number(s: Seq<u8>, i: int, text: Seq<char>, t: Seq<char>)
    requires
        spells(s, i, text + t),
        is_numeral(text),
        follows_value(t),
    ensures
        number_at(s, i) == Ok::<(Seq<char>, int), Seq<char>>((text, i + text.len())),
        spells(s, i + text.len(), t),
{
    let b = ascii_bytes(text);
    lemma_ascii_front(s, i, text, t);
    assert(s.subrange(i, i + b.len()) =~= b) by {
        assert forall|k: int| 0 <= k < b.len() implies s[i + k] == b[k] by {
            assert(s[i + k] == text[k] as u8);
        }
    }
    lemma_number_ends(s, i + b.len(), t);
    lemma_byte_inside(s, i, b, 0, 0x2d);
    let whole = sign_end(b, 0);
    lemma_digits_inside(s, i, b, whole);
    let point = digits_end(b, whole);
    lemma_byte_inside(s, i, b, point, 0x2e);
    if byte_at(b, point, 0x2e) {
        lemma_digits_inside(s, i, b, point + 1);
    }
    let exp = fraction_end(b, point);
    lemma_byte_inside(s, i, b, exp, 0x65);
    lemma_byte_inside(s, i, b, exp, 0x45);
    if has_exponent(b, exp) {
        lemma_byte_inside(s, i, b, exp + 1, 0x2b);
        lemma_byte_inside(s, i, b, exp + 1, 0x2d);
        lemma_digits_inside(s, i, b, exponent_start(b, exp));
    }
    assert(b.subrange(0, b.len() as int) =~= b);
}

/// Can a value start with `c`?
pub open spec fn starts_value(c: char) -> bool {
    c == 'n' || c == 't' || c == 'f' || c == '"' || c == '[' || c == '{' || c == '-' || '0' <= c <= '9'
}

/// A value as it is written with the white space `w` wherever white space may stand inside it.
pub open spec fn spaced(v: JsonView, w: Seq<char>) -> Seq<char>
    decreases v, 0nat,
{
    match v {
        JsonView::Array(items) => seq!['['] + w + spaced_items(items, 0, w) + seq![']'],
        JsonView::Object(pairs) => seq!['{'] + w + spaced_members(pairs, 0, w) + seq!['}'],
        _ => rendered(v),
    }
}

/// Array items from item `k` on as they are written with white space.
pub open spec fn spaced_items(items: Seq<JsonView>, k: int, w: Seq<char>) -> Seq<char>
    decreases items, items.len() - k,
{
    if k < 0 || k >= items.len() {
        seq![]
    } else if k == items.len() - 1 {
        spaced(items[k], w) + w
    } else {
        spaced(items[k], w) + w + seq![','] + w + spaced_items(items, k + 1, w)
    }
}

/// A member of an object as it is written with white space.
pub open spec fn spaced_member(pair: (Seq<char>, JsonView), w: Seq<char>) -> Seq<char>
    decreases pair, 0nat,
{
    quoted(pair.0) + w + seq![':'] + w + spaced(pair.1, w)
}

/// The members of an object from member `k` on as they are written with white space.
pub open spec fn spaced_members(pairs: Seq<(Seq<char>, JsonView)>, k: int, w: Seq<char>) -> Seq<char>
    decreases pairs, pairs.len() - k,
{
    if k < 0 || k >= pairs.len() {
        seq![]
    } else if k == pairs.len() - 1 {
        spaced_member(pairs[k], w) + w
    } else {
        spaced_member(pairs[k], w) + w + seq![','] + w + spaced_members(pairs, k + 1, w)
    }
}

/// With no white space a value is written as ever.
proof fn lemma_tight(v: JsonView)
    ensures
        spaced(v, seq![]) == rendered(v),
    decreases v, 0nat,
{
    match v {
        JsonView::Array(items) => {
            lemma_tight_items(items, 0);
            assert(spaced(v, seq![]) =~= rendered(v));
        },
        JsonView::Object(pairs) => {
            lemma_tight_members(pairs, 0);
            assert(spaced(v, seq![]) =~= rendered(v));
        },
        _ => {},
    }
}

proof fn lemma_tight_items(items: Seq<JsonView>, k: int)
    requires
        0 <= k,
    ensures
        spaced_items(items, k, seq![]) == rendered_items(items, k),
    decreases items, items.len() - k,
{
    if k < items.len() {
        lemma_tight(items[k]);
        lemma_tight_items(items, k + 1);
        assert(spaced_items(items, k, seq![]) =~= rendered_items(items, k));
    }
}

proof fn lemma_tight_member(pair: (Seq<char>, JsonView))
    ensures
        spaced_member(pair, seq![]) == rendered_member(pair),
    decreases pair, 0nat,
{
    lemma_tight(pair.1);
    assert(spaced_member(pair, seq![]) =~= rendered_member(pair));
}

proof fn lemma_tight_members(pairs: Seq<(Seq<char>, JsonView)>, k: int)
    requires
        0 <= k,
    ensures
        spaced_members(pairs, k, seq![]) == rendered_members(pairs, k),
    decreases pairs, pairs.len() - k,
{
    if k < pairs.len() {
        lemma_tight_member(pairs[k]);
        lemma_tight_members(pairs, k + 1);
        assert(spaced_members(pairs, k, seq![]) =~= rendered_members(pairs, k));
    }
}

/// A written value starts like one.
proof fn lemma_start(v: JsonView, w: Seq<char>)
    requires
        writable(v),
    ensures
        spaced(v, w).len() > 0,
        starts_value(spaced(v, w)[0]),
{
    reveal_strlit("null");
    reveal_strlit("true");
    reveal_strlit("false");
}

/// White space ends where something else begins.
proof fn lemma_ws_run(s: Seq<u8>, i: int, end: int)
    requires
        0 <= i <= end <= s.len(),
        forall|k: int| i <= k < end ==> is_ws(#[trigger] s[k]),
        end == s.len() || !is_ws(s[end]),
    ensures
        ws_end(s, i) == end,
    decreases end - i,
{
    if i < end {
        lemma_ws_run(s, i + 1, end);
    }
}

proof fn lemma_blank_code(c: char)
    ensures
        is_blank_char(c) <==> (c as u32 == 0x20 || c as u32 == 0x0a || c as u32 == 0x0d || c as u32
            == 0x09),
{
}

/// White space that is spelled is skipped.
proof fn lemma_blank(s: Seq<u8>, i: int, w: Seq<char>, t: Seq<char>)
    requires
        spells(s, i, w + t),
        is_blank(w),
        t.len() > 0 ==> !is_blank_char(t[0]),
    ensures
        ws_end(s, i) == i + w.len(),
        ws_end(s, i + w.len()) == i + w.len(),
        spells(s, i + w.len(), t),
        0 <= i,
        i + w.len() <= s.len(),
        t.len() > 0 <==> i + w.len() < s.len(),
{
    assert forall|k: int| 0 <= k < w.len() implies '\0' <= #[trigger] w[k] <= '\u{7f}' by {
        assert(is_blank_char(w[k]));
    }
    lemma_ascii_front(s, i, w, t);
    let end = i + w.len();
    assert forall|k: int| i <= k < end implies is_ws(#[trigger] s[k]) by {
        assert(is_blank_char(w[k - i]));
        assert(s[i + (k - i)] == w[k - i] as u8);
    }
    if t.len() > 0 {
        lemma_step(s, end, t);
        lemma_blank_code(t[0]);
    } else {
        reveal(spells);
        assert(s.skip(end).len() == 0);
    }
    lemma_ws_run(s, i, end);
}

/// White space in front of a value does not change it.
proof fn lemma_value_behind_blank(s: Seq<u8>, i: int)
    requires
        0 <= i,
        ws_end(s, ws_end(s, i)) == ws_end(s, i),
    ensures
        value_at(s, i) == value_at(s, ws_end(s, i)),
{
    lemma_ws_end(s, i);
}

/// What is spelled, if it starts like a value, has no white space in front.
proof fn lemma_value_starts(s: Seq<u8>, i: int, t: Seq<char>)
    requires
        spells(s, i, t),
        t.len() > 0,
        starts_value(t[0]),
    ensures
        0 <= i < s.len(),
        ws_end(s, i) == i,
        s[i] == t[0] as u8,
        s[i] != 0x5d,
        s[i] != 0x7d,
{
    lemma_step(s, i, t);
    lemma_ascii_char(t[0]);
}

/// A mark that is spelled, and no white space in front of it.
proof fn lemma_mark(s: Seq<u8>, i: int, c: char, t: Seq<char>)
    requires
        spells(s, i, seq![c] + t),
        c == ',' || c == ':' || c == '[' || c == ']' || c == '{' || c == '}',
    ensures
        i < s.len(),
        s[i] == c as u8,
        ws_end(s, i) == i,
        spells(s, i + 1, t),
{
    lemma_ascii_front(s, i, seq![c], t);
    assert(s[i + 0] == seq![c][0] as u8);
    lemma_step(s, i, seq![c] + t);
}

/// A word is read as what it stands for.
proof fn lemma_literal(s: Seq<u8>, i: int, word: &str, value: JsonView, t: Seq<char>)
    requires
        spells(s, i, word@ + t),
        is_ascii_chars(word@),
    ensures
        literal_at(s, i, word, value) == Ok::<(JsonView, int), Seq<char>>((value, i + word@.len())),
        spells(s, i + word@.len(), t),
{
    lemma_ascii_front(s, i, word@, t);
    is_ascii_chars_encode_utf8(word@);
    let n = word.spec_bytes().len();
    assert(s.subrange(i, i + n) =~= word.spec_bytes()) by {
        assert forall|k: int| 0 <= k < n implies s[i + k] == word.spec_bytes()[k] by {
            assert(s[i + k] == word@[k] as u8);
        }
    }
}

/// A written value is read as the value.
#[verifier::spinoff_prover]
proof fn lemma_value(s: Seq<u8>, i: int, v: JsonView, w: Seq<char>, t: Seq<char>)
    requires
        spells(s, i, spaced(v, w) + t),
        is_blank(w),
        writable(v),
        follows_value(t),
    ensures
        value_at(s, i) matches Ok((x, j)) && x == v && i < j && spells(s, j, t),
    decreases v, 0nat,
{
    let all = spaced(v, w) + t;
    lemma_start(v, w);
    assert(all[0] == spaced(v, w)[0]);
    lemma_value_starts(s, i, all);
    match v {
        JsonView::Null => {
            reveal_strlit("null");
            assert(all[0] == 'n');
            lemma_literal(s, i, "null", v, t);
        },
        JsonView::Bool(b) => {
            reveal_strlit("true");
            reveal_strlit("false");
            if b {
                lemma_literal(s, i, "true", v, t);
            } else {
                lemma_literal(s, i, "false", v, t);
            }
        },
        JsonView::Number(text) => {
            lemma_number(s, i, text, t);
        },
        JsonView::String(text) => {
            lemma_string(s, i, text, t);
        },
        JsonView::Array(items) => {
            let rest = spaced_items(items, 0, w) + seq![']'] + t;
            assert(all =~= seq!['['] + (w + rest));
            lemma_mark(s, i, '[', w + rest);
            if items.len() == 0 {
                assert(rest =~= seq![']'] + t);
                lemma_blank(s, i + 1, w, rest);
                lemma_mark(s, i + 1 + w.len(), ']', t);
                assert(items =~= seq![]);
            } else {
                lemma_start(items[0], w);
                assert(rest[0] == spaced(items[0], w)[0]);
                lemma_blank(s, i + 1, w, rest);
                lemma_value_starts(s, i + 1 + w.len(), rest);
                lemma_items(s, i + 1 + w.len(), items, 0, w, t);
                assert(items.skip(0) =~= items);
            }
        },
        JsonView::Object(pairs) => {
            let rest = spaced_members(pairs, 0, w) + seq!['}'] + t;
            assert(all =~= seq!['{'] + (w + rest));
            lemma_mark(s, i, '{', w + rest);
            if pairs.len() == 0 {
                assert(rest =~= seq!['}'] + t);
                lemma_blank(s, i + 1, w, rest);
                lemma_mark(s, i + 1 + w.len(), '}', t);
                assert(pairs =~= seq![]);
            } else {
                lemma_member_start(pairs, 0, w);
                assert(rest[0] == '"');
                lemma_blank(s, i + 1, w, rest);
                lemma_value_starts(s, i + 1 + w.len(), rest);
                lemma_members(s, i + 1 + w.len(), pairs, 0, w, t);
                assert(pairs.skip(0) =~= pairs);
            }
        },
    }
}

/// What may follow a value may do so behind white space.
proof fn lemma_follows(w: Seq<char>, t: Seq<char>)
    requires
        is_blank(w),
        follows_value(t),
    ensures
        follows_value(w + t),
{
    if w.len() > 0 {
        assert((w + t)[0] == w[0] && is_blank_char(w[0]));
    } else {
        assert(w + t =~= t);
    }
}

/// Written items are read as the items.
#[verifier::spinoff_prover]
proof fn lemma_items(
    s: Seq<u8>,
    i: int,
    items: Seq<JsonView>,
    k: int,
    w: Seq<char>,
    t: Seq<char>,
)
    requires
        0 <= k < items.len(),
        spells(s, i, spaced_items(items, k, w) + seq![']'] + t),
        is_blank(w),
        forall|n: int| 0 <= n < items.len() ==> writable(#[trigger] items[n]),
    ensures
        elements_at(s, i) matches Ok((x, j)) && x == items.skip(k) && i < j && spells(s, j, t),
    decreases items, items.len() - k,
{
    let all = spaced_items(items, k, w) + seq![']'] + t;
    if k == items.len() - 1 {
        let rest = seq![']'] + t;
        assert(all =~= spaced(items[k], w) + (w + rest));
        lemma_follows(w, rest);
        lemma_value(s, i, items[k], w, w + rest);
        let j = value_at(s, i)->Ok_0.1;
        lemma_blank(s, j, w, rest);
        lemma_mark(s, j + w.len(), ']', t);
        assert(items.skip(k) =~= seq![items[k]]);
    } else {
        let more = spaced_items(items, k + 1, w) + seq![']'] + t;
        let rest = seq![','] + (w + more);
        assert(all =~= spaced(items[k], w) + (w + rest));
        lemma_follows(w, rest);
        lemma_value(s, i, items[k], w, w + rest);
        let j = value_at(s, i)->Ok_0.1;
        lemma_blank(s, j, w, rest);
        let m = j + w.len();
        lemma_mark(s, m, ',', w + more);
        lemma_start(items[k + 1], w);
        assert(more[0] == spaced(items[k + 1], w)[0]);
        lemma_blank(s, m + 1, w, more);
        lemma_items(s, m + 1 + w.len(), items, k + 1, w, t);
        assert(items.skip(k) =~= seq![items[k]] + items.skip(k + 1));
    }
}

/// A written member is read as the member: its name, a colon, its value, and what follows.
spec fn member_read(
    s: Seq<u8>,
    i: int,
    pair: (Seq<char>, JsonView),
    c: int,
    n: int,
) -> bool {
    &&& string_at(s, i) matches Ok((x, j)) && x == pair.0 && i < j && j <= c && ws_end(s, j) == c
    &&& byte_at(s, c, 0x3a)
    &&& value_at(s, c + 1) == Ok::<(JsonView, int), Seq<char>>((pair.1, n))
    &&& c < n
}

/// A written member is read as the member.
proof fn lemma_member(
    s: Seq<u8>,
    i: int,
    pair: (Seq<char>, JsonView),
    w: Seq<char>,
    t: Seq<char>,
) -> (ends: (int, int))
    requires
        spells(s, i, spaced_member(pair, w) + t),
        is_blank(w),
        writable_member(pair),
        follows_value(t),
    ensures
        member_read(s, i, pair, ends.0, ends.1),
        spells(s, ends.1, t),
    decreases pair, 0nat,
{
    let rest = spaced(pair.1, w) + t;
    let colon = seq![':'] + (w + rest);
    assert(spaced_member(pair, w) + t =~= quoted(pair.0) + (w + colon));
    lemma_string(s, i, pair.0, w + colon);
    let j = string_at(s, i)->Ok_0.1;
    lemma_blank(s, j, w, colon);
    let c = j + w.len();
    lemma_mark(s, c, ':', w + rest);
    lemma_start(pair.1, w);
    assert(rest[0] == spaced(pair.1, w)[0]);
    lemma_blank(s, c + 1, w, rest);
    lemma_value_behind_blank(s, c + 1);
    lemma_value(s, c + 1 + w.len(), pair.1, w, t);
    (c, value_at(s, c + 1)->Ok_0.1)
}

/// Written members start with a quote.
proof fn lemma_member_start(pairs: Seq<(Seq<char>, JsonView)>, k: int, w: Seq<char>)
    requires
        0 <= k < pairs.len(),
    ensures
        spaced_members(pairs, k, w).len() > 0,
        spaced_members(pairs, k, w)[0] == '"',
{
    let key = pairs[k].0;
    assert(quoted(key).len() > 0 && quoted(key)[0] == '"');
    assert(spaced_member(pairs[k], w)[0] == '"');
}

/// Members behind one another.
proof fn lemma_next_member(
    s: Seq<u8>,
    i: int,
    pair: (Seq<char>, JsonView),
    c: int,
    n: int,
    m: int,
)
    requires
        member_read(s, i, pair, c, n),
        ws_end(s, n) == m,
    ensures
        byte_at(s, m, 0x7d) ==> members_at(s, i) == Ok::<(Seq<(Seq<char>, JsonView)>, int), Seq<char>>(
            (seq![pair], m + 1),
        ),
        byte_at(s, m, 0x2c) ==> members_at(s, i) == prepend(
            seq![pair],
            members_at(s, ws_end(s, m + 1)),
        ),
{
    assert((pair.0, pair.1) == pair);
}

/// Written members are read as the members.
#[verifier::spinoff_prover]
proof fn lemma_members(
    s: Seq<u8>,
    i: int,
    pairs: Seq<(Seq<char>, JsonView)>,
    k: int,
    w: Seq<char>,
    t: Seq<char>,
)
    requires
        0 <= k < pairs.len(),
        spells(s, i, spaced_members(pairs, k, w) + seq!['}'] + t),
        is_blank(w),
        forall|n: int| 0 <= n < pairs.len() ==> writable_member(#[trigger] pairs[n]),
    ensures
        members_at(s, i) matches Ok((x, j)) && x == pairs.skip(k) && i < j && spells(s, j, t),
    decreases pairs, pairs.len() - k,
{
    let all = spaced_members(pairs, k, w) + seq!['}'] + t;
    let pair = pairs[k];
    let last = k == pairs.len() - 1;
    let more = spaced_members(pairs, k + 1, w) + seq!['}'] + t;
    let rest = if last {
        seq!['}'] + t
    } else {
        seq![','] + (w + more)
    };
    assert(all =~= spaced_member(pair, w) + (w + rest));
    lemma_follows(w, rest);
    let (c, n) = lemma_member(s, i, pair, w, w + rest);
    lemma_blank(s, n, w, rest);
    let m = n + w.len();
    if last {
        lemma_mark(s, m, '}', t);
        lemma_next_member(s, i, pair, c, n, m);
        assert(seq![pair] =~= pairs.skip(k));
    } else {
        lemma_mark(s, m, ',', w + more);
        lemma_member_start(pairs, k + 1, w);
        assert(more[0] == '"');
        lemma_blank(s, m + 1, w, more);
        lemma_next_member(s, i, pair, c, n, m);
        lemma_members(s, m + 1 + w.len(), pairs, k + 1, w, t);
        assert(seq![pair] + pairs.skip(k + 1) =~= pairs.skip(k));
    }
}

/// White space inside a value does not matter: reading a value that is written with any white space
/// behind brackets, commas and colons, and before them, gives the value back.
pub proof fn law_white_space_inside_does_not_matter(v: JsonView, w: Seq<char>)
    requires
        writable(v),
        is_blank(w),
    ensures
        document(encode_utf8(spaced(v, w))) == Ok::<JsonView, Seq<char>>(v),
{
    let s = encode_utf8(spaced(v, w));
    assert(spells(s, 0, spaced(v, w) + seq![])) by {
        reveal(spells);
        assert(s.skip(0) =~= s);
        assert(spaced(v, w) + seq![] =~= spaced(v, w));
    }
    lemma_value(s, 0, v, w, seq![]);
    reveal(spells);
    let j = value_at(s, 0)->Ok_0.1;
    assert(s.skip(j).len() == 0);
}

/// Reading a written value gives the value back.
pub proof fn law_read_undoes_write(v: JsonView)
    requires
        writable(v),
    ensures
        document(encode_utf8(rendered(v))) == Ok::<JsonView, Seq<char>>(v),
{
    lemma_tight(v);
    law_white_space_inside_does_not_matter(v, seq![]);
}

/// A text that is escaped and put in quotes is read as the text, whatever it holds.
pub proof fn law_escape_is_undone(text: Seq<char>)
    ensures
        document(encode_utf8(quoted(text))) == Ok::<JsonView, Seq<char>>(JsonView::String(text)),
{
    law_read_undoes_write(JsonView::String(text));
}

/// An escaped text in quotes is read as the text, whatever stands behind it, and reading stops right
/// behind the closing quote.
pub proof fn law_string_ends_at_its_quote(text: Seq<char>, rest: Seq<char>)
    ensures
        string_at(encode_utf8(quoted(text) + rest), 0) == Ok::<(Seq<char>, int), Seq<char>>(
            (text, encode_utf8(escaped(text)).len() + 2int),
        ),
{
    let s = encode_utf8(quoted(text) + rest);
    assert(spells(s, 0, quoted(text) + rest)) by {
        reveal(spells);
        assert(s.skip(0) =~= s);
    }
    lemma_string(s, 0, text, rest);
    let j = string_at(s, 0)->Ok_0.1;
    let quote = seq!['"'];
    lemma_encode_sum(quoted(text), rest);
    lemma_encode_sum(quote + escaped(text), quote);
    lemma_encode_sum(quote, escaped(text));
    is_ascii_chars_encode_utf8(quote);
    assert(j == encode_utf8(quoted(text)).len()) by {
        reveal(spells);
        assert(s.skip(j).len() == encode_utf8(rest).len());
    }
}

/// Digits end at the same place when what stands behind them is cut off.
proof fn lemma_digits_cut(s: Seq<u8>, i: int, end: int, k: int)
    requires
        0 <= i <= k <= digits_end(s, k) <= end <= s.len(),
    ensures
        digits_end(s.subrange(i, end), k - i) == digits_end(s, k) - i,
    decreases end - k,
{
    let b = s.subrange(i, end);
    if k < s.len() && is_digit(s[k]) {
        lemma_digits_end(s, k + 1);
        assert(b[k - i] == s[k]);
        lemma_digits_cut(s, i, end, k + 1);
    } else if k < end {
        assert(b[k - i] == s[k]);
    }
}

/// A number that was read can be written.
proof fn lemma_number_read(s: Seq<u8>, i: int)
    requires
        0 <= i < s.len(),
        s[i] == 0x2d || is_digit(s[i]),
        number_at(s, i) is Ok,
    ensures
        is_numeral(number_at(s, i)->Ok_0.0),
{
    let (text, end) = number_at(s, i)->Ok_0;
    let whole = sign_end(s, i);
    let point = digits_end(s, whole);
    let exp = fraction_end(s, point);
    lemma_digits_end(s, whole);
    lemma_digits_end(s, point + 1);
    lemma_digits_end(s, exponent_start(s, exp));
    let b = s.subrange(i, end);
    assert forall|k: int| 0 <= k < b.len() implies #[trigger] b[k] < 0x80 by {
        let p = i + k;
        assert(b[k] == s[p]);
        if whole <= p < point || point < p < exp || exponent_start(s, exp) <= p < end {
            assert(is_digit(s[p]));
        }
    }
    lemma_digits_cut(s, i, end, whole);
    if byte_at(s, point, 0x2e) {
        lemma_digits_cut(s, i, end, point + 1);
        assert(b[point - i] == s[point]);
    } else if point < end {
        assert(b[point - i] == s[point]);
    }
    if has_exponent(s, exp) {
        assert(b[exp - i] == s[exp]);
        assert(b[exp + 1 - i] == s[exp + 1]);
        lemma_digits_cut(s, i, end, exponent_start(s, exp));
    }
    assert(b[0] == s[i]);
    assert(text == ascii_text(b));
    assert(ascii_bytes(text) =~= b);
    assert(b.subrange(0, b.len() as int) =~= b);
    assert(is_ascii_chars(text));
}

/// A value that was read can be written.
proof fn lemma_value_read(s: Seq<u8>, i: int)
    ensures
        value_at(s, i) matches Ok((v, _)) ==> writable(v),
    decreases s.len() - i, 0nat,
{
    lemma_ws_end(s, i);
    let k = ws_end(s, i);
    if 0 <= i && k < s.len() {
        lemma_ws_end(s, k + 1);
        let first = ws_end(s, k + 1);
        if s[k] == 0x5b {
            lemma_elements_read(s, first);
        } else if s[k] == 0x7b {
            lemma_members_read(s, first);
        } else if s[k] == 0x2d || is_digit(s[k]) {
            if number_at(s, k) is Ok {
                lemma_number_read(s, k);
            }
        }
    }
}

proof fn lemma_elements_read(s: Seq<u8>, i: int)
    ensures
        elements_at(s, i) matches Ok((items, _)) ==> forall|k: int|
            0 <= k < items.len() ==> writable(#[trigger] items[k]),
    decreases s.len() - i, 1nat,
{
    lemma_value_read(s, i);
    if let Ok((v, j)) = value_at(s, i) {
        lemma_ws_end(s, j);
        let m = ws_end(s, j);
        lemma_ws_end(s, m + 1);
        if i < j && m < s.len() && s[m] == 0x2c {
            lemma_elements_read(s, ws_end(s, m + 1));
        }
    }
}

proof fn lemma_members_read(s: Seq<u8>, i: int)
    ensures
        members_at(s, i) matches Ok((pairs, _)) ==> forall|k: int|
            0 <= k < pairs.len() ==> writable_member(#[trigger] pairs[k]),
    decreases s.len() - i, 1nat,
{
    if let Ok((key, j)) = string_at(s, i) {
        lemma_ws_end(s, j);
        let c = ws_end(s, j);
        if i < j && c < s.len() && s[c] == 0x3a {
            lemma_value_read(s, c + 1);
            if let Ok((v, n)) = value_at(s, c + 1) {
                assert(writable_member((key, v)));
                lemma_ws_end(s, n);
                let m = ws_end(s, n);
                lemma_ws_end(s, m + 1);
                if c < n && m < s.len() && s[m] == 0x2c {
                    lemma_members_read(s, ws_end(s, m + 1));
                }
            }
        }
    }
}

/// What was read can be written without white space, and reads as the same value again.
pub proof fn law_read_value_can_be_written(s: Seq<u8>)
    ensures
        document(s) matches Ok(v) ==> writable(v) && document(encode_utf8(rendered(v))) == document(
            s,
        ),
{
    lemma_value_read(s, 0);
    if let Ok(v) = document(s) {
        law_read_undoes_write(v);
    }
}

/// An escaped text at the start of the rest of a string is read as the text, whatever follows.
proof fn lemma_body_front(s: Seq<u8>, i: int, text: Seq<char>, t: Seq<char>) -> (j: int)
    requires
        spells(s, i, escaped(text) + t),
    ensures
        i <= j,
        spells(s, j, t),
        string_body(s, i) == prepend(text, string_body(s, j)),
        body_stop(s, i) == body_stop(s, j),
    decreases text.len(),
{
    if text.len() == 0 {
        assert(escaped(text) + t =~= t);
        assert(text =~= seq![]);
        if let Ok((x, end)) = string_body(s, i) {
            assert(text + x =~= x);
        }
        i
    } else {
        let rest = escaped(text.drop_first()) + t;
        assert(escaped(text) + t =~= escaped_char(text[0]) + rest);
        lemma_char(s, i, text[0], rest);
        let k = char_at(s, i)->Ok_0.1;
        let j = lemma_body_front(s, k, text.drop_first(), t);
        if let Ok((x, end)) = string_body(s, j) {
            assert(seq![text[0]] + (text.drop_first() + x) =~= text + x);
        }
        j
    }
}

/// A text that starts with a quote is a string, if it is anything.
proof fn lemma_quote_starts_string(s: Seq<u8>)
    requires
        byte_at(s, 0, 0x22),
    ensures
        document(s) == (match string_body(s, 1) {
            Ok((text, end)) => if ws_end(s, end) == s.len() {
                Ok::<JsonView, Seq<char>>(JsonView::String(text))
            } else {
                Err("trailing junk after JSON value"@)
            },
            Err(message) => Err(message),
        }),
{
    assert(ws_end(s, 0) == 0);
}

/// A string that begins with an escaped text.
proof fn lemma_open_string(text: Seq<char>, t: Seq<char>) -> (j: int)
    ensures
        ({
            let s = encode_utf8(seq!['"'] + escaped(text) + t);
            &&& byte_at(s, 0, 0x22)
            &&& 1 <= j
            &&& spells(s, j, t)
            &&& string_body(s, 1) == prepend(text, string_body(s, j))
            &&& string_stop(s, 0) == body_stop(s, j)
        }),
{
    let s = encode_utf8(seq!['"'] + escaped(text) + t);
    assert(spells(s, 0, seq!['"'] + (escaped(text) + t))) by {
        reveal(spells);
        assert(s.skip(0) =~= s);
        assert(seq!['"'] + escaped(text) + t =~= seq!['"'] + (escaped(text) + t));
    }
    lemma_ascii_front(s, 0, seq!['"'], escaped(text) + t);
    assert(s[0int + 0] == seq!['"'][0] as u8);
    lemma_body_front(s, 1, text, t)
}

/// The rest of a string whose first character is read, and which is closed behind `tail`.
proof fn lemma_closed_string(s: Seq<u8>, j: int, c: char, tail: Seq<char>)
    requires
        0 <= j < s.len(),
        s[j] != 0x22,
        char_at(s, j) matches Ok((d, k)) && d == c && spells(s, k, escaped(tail) + seq!['"']),
    ensures
        string_body(s, j) == Ok::<(Seq<char>, int), Seq<char>>((seq![c] + tail, s.len() as int)),
{
    let k = char_at(s, j)->Ok_0.1;
    assert(escaped(tail) + seq!['"'] + seq![] =~= escaped(tail) + seq!['"']);
    lemma_string_body(s, k, tail, seq![]);
    let end = string_body(s, k)->Ok_0.1;
    reveal(spells);
    assert(s.skip(end).len() == 0);
}

/// The letters that stand behind a backslash, and the characters that they stand for.
pub open spec fn is_short_escape(letter: char, c: char) -> bool {
    ||| letter == '"' && c == '"'
    ||| letter == '\\' && c == '\\'
    ||| letter == '/' && c == '/'
    ||| letter == 'b' && c == '\u{8}'
    ||| letter == 'f' && c == '\u{c}'
    ||| letter == 'n' && c == '\n'
    ||| letter == 'r' && c == '\r'
    ||| letter == 't' && c == '\t'
}

/// A backslash and a letter inside a string are read as the character that they stand for, and what
/// stands before and behind them is read as ever.
pub proof fn law_short_escape_is_read(before: Seq<char>, letter: char, c: char, behind: Seq<char>)
    requires
        is_short_escape(letter, c),
    ensures
        document(
            encode_utf8(
                seq!['"'] + escaped(before) + (seq!['\\', letter] + (escaped(behind) + seq!['"'])),
            ),
        ) == Ok::<JsonView, Seq<char>>(JsonView::String(before + seq![c] + behind)),
{
    let close = escaped(behind) + seq!['"'];
    let mark = seq!['\\', letter];
    let s = encode_utf8(seq!['"'] + escaped(before) + (mark + close));
    let j = lemma_open_string(before, mark + close);
    lemma_ascii_front(s, j, mark, close);
    assert(s[j + 0] == mark[0] as u8 && s[j + 1] == mark[1] as u8);
    lemma_closed_string(s, j, c, behind);
    assert(before + (seq![c] + behind) =~= before + seq![c] + behind);
    lemma_quote_starts_string(s);
}

/// A backslash and any other byte but a `u` are refused.
pub proof fn law_unknown_escape_is_refused(before: Seq<char>, letter: char, behind: Seq<char>)
    requires
        letter <= '\u{7f}',
        letter != 'u',
        forall|c: char| !is_short_escape(letter, c),
    ensures
        document(encode_utf8(seq!['"'] + escaped(before) + (seq!['\\', letter] + behind))) == Err::<
            JsonView,
            Seq<char>,
        >("bad escape "@ + decimal_text(letter as nat)),
{
    let mark = seq!['\\', letter];
    let s = encode_utf8(seq!['"'] + escaped(before) + (mark + behind));
    let j = lemma_open_string(before, mark + behind);
    lemma_ascii_front(s, j, mark, behind);
    assert(s[j + 0] == mark[0] as u8 && s[j + 1] == mark[1] as u8);
    lemma_ascii_char(letter);
    assert(!is_short_escape(letter, '"') && !is_short_escape(letter, '\\') && !is_short_escape(
        letter,
        '/',
    ) && !is_short_escape(letter, '\u{8}') && !is_short_escape(letter, '\u{c}')
        && !is_short_escape(letter, '\n') && !is_short_escape(letter, '\r') && !is_short_escape(
        letter,
        '\t',
    ));
    lemma_quote_starts_string(s);
}

/// Is `digit` the hexadecimal digit of `d`, in either case?
pub open spec fn is_hex_digit(digit: char, d: nat) -> bool {
    ||| d < 10 && digit as nat == '0' as nat + d
    ||| 10 <= d < 16 && digit as nat == 'a' as nat + (d - 10)
    ||| 10 <= d < 16 && digit as nat == 'A' as nat + (d - 10)
}

/// A backslash, a `u` and four hexadecimal digits inside a string are read as the character with
/// that number; half of a surrogate pair is no character, and is read as the replacement character.
pub proof fn law_unicode_escape_is_read(
    before: Seq<char>,
    digits: Seq<char>,
    a: nat,
    b: nat,
    c: nat,
    d: nat,
    behind: Seq<char>,
)
    requires
        digits.len() == 4,
        is_hex_digit(digits[0], a),
        is_hex_digit(digits[1], b),
        is_hex_digit(digits[2], c),
        is_hex_digit(digits[3], d),
    ensures
        ({
            let n = 4096 * a + 256 * b + 16 * c + d;
            let read = if 0xd800 <= n <= 0xdfff {
                '\u{fffd}'
            } else {
                n as char
            };
            document(
                encode_utf8(
                    seq!['"'] + escaped(before) + (seq!['\\', 'u'] + digits + (escaped(behind)
                        + seq!['"'])),
                ),
            ) == Ok::<JsonView, Seq<char>>(JsonView::String(before + seq![read] + behind))
        }),
{
    let n = 4096 * a + 256 * b + 16 * c + d;
    let read = if 0xd800 <= n <= 0xdfff {
        '\u{fffd}'
    } else {
        n as char
    };
    let close = escaped(behind) + seq!['"'];
    let mark = seq!['\\', 'u'] + digits;
    let s = encode_utf8(seq!['"'] + escaped(before) + (mark + close));
    let j = lemma_open_string(before, mark + close);
    lemma_hex_char(digits[0], a);
    lemma_hex_char(digits[1], b);
    lemma_hex_char(digits[2], c);
    lemma_hex_char(digits[3], d);
    assert(is_ascii_chars(mark)) by {
        assert forall|k: int| 0 <= k < mark.len() implies '\0' <= #[trigger] mark[k] <= '\u{7f}' by {
            if k >= 2 {
                assert(mark[k] == digits[k - 2]);
                assert(k == 2 || k == 3 || k == 4 || k == 5);
            }
        }
    }
    lemma_ascii_front(s, j, mark, close);
    assert(s[j + 0] == mark[0] as u8 && s[j + 1] == mark[1] as u8 && s[j + 2] == mark[2] as u8 && s[j
        + 3] == mark[3] as u8 && s[j + 4] == mark[4] as u8 && s[j + 5] == mark[5] as u8);
    let bytes = s.subrange(j + 2, j + 6);
    lemma_hex4(bytes, a, b, c, d);
    assert(unicode_at(s, j + 2) == Ok::<(char, int), Seq<char>>((read, j + 6)));
    lemma_closed_string(s, j, read, behind);
    assert(before + (seq![read] + behind) =~= before + seq![read] + behind);
    lemma_quote_starts_string(s);
}

proof fn lemma_hex_char(digit: char, d: nat)
    requires
        is_hex_digit(digit, d),
    ensures
        '\0' <= digit <= '\u{7f}',
        digit as u8 != 0x2b,
        hex_value(digit as u8) == Some(d),
        d < 16,
{
}

proof fn lemma_hex4(bytes: Seq<u8>, a: nat, b: nat, c: nat, d: nat)
    requires
        bytes.len() == 4,
        bytes[0] != 0x2b,
        hex_value(bytes[0]) == Some(a),
        hex_value(bytes[1]) == Some(b),
        hex_value(bytes[2]) == Some(c),
        hex_value(bytes[3]) == Some(d),
    ensures
        hex4(bytes) == Some(4096 * a + 256 * b + 16 * c + d),
{
    let x = bytes.drop_last();
    let y = x.drop_last();
    let z = y.drop_last();
    assert(z.drop_last() =~= seq![]);
    assert(hex_number(z.drop_last()) == Some(0nat));
    assert(x.last() == bytes[2] && y.last() == bytes[1] && z.last() == bytes[0]);
    assert(hex_number(z) == Some(a));
    assert(hex_number(y) == Some(16 * a + b));
    assert(hex_number(x) == Some(16 * (16 * a + b) + c));
}

/// A control character inside a string must be escaped.
pub proof fn law_bare_control_is_refused(before: Seq<char>, c: char, behind: Seq<char>)
    requires
        c < ' ',
    ensures
        document(encode_utf8(seq!['"'] + escaped(before) + (seq![c] + behind))) == Err::<
            JsonView,
            Seq<char>,
        >("unescaped control in string"@),
{
    let mark = seq![c];
    let s = encode_utf8(seq!['"'] + escaped(before) + (mark + behind));
    let j = lemma_open_string(before, mark + behind);
    lemma_ascii_char(c);
    lemma_ascii_front(s, j, mark, behind);
    assert(s[j + 0] == mark[0] as u8);
    lemma_quote_starts_string(s);
}

/// A string must be closed.
pub proof fn law_open_string_is_refused(text: Seq<char>)
    ensures
        document(encode_utf8(seq!['"'] + escaped(text))) == Err::<JsonView, Seq<char>>(
            "unexpected end of JSON"@,
        ),
{
    let s = encode_utf8(seq!['"'] + escaped(text) + seq![]);
    let j = lemma_open_string(text, seq![]);
    assert(seq!['"'] + escaped(text) + seq![] =~= seq!['"'] + escaped(text));
    assert(j == s.len()) by {
        reveal(spells);
        assert(s.skip(j).len() == 0);
    }
    lemma_quote_starts_string(s);
}

/// Inside a string all characters are written as they are, but for quotes, backslashes and control
/// characters. Of these quote, backslash, line feed, carriage return and tabulator have a letter,
/// and the others are written by number.
pub proof fn law_only_marks_and_controls_are_escaped(c: char)
    ensures
        c >= ' ' && c != '"' && c != '\\' ==> escaped(seq![c]) == seq![c],
        c == '"' || c == '\\' ==> escaped(seq![c]) == seq!['\\', c],
        c == '\n' ==> escaped(seq![c]) == seq!['\\', 'n'],
        c == '\r' ==> escaped(seq![c]) == seq!['\\', 'r'],
        c == '\t' ==> escaped(seq![c]) == seq!['\\', 't'],
        c < ' ' && c != '\n' && c != '\r' && c != '\t' ==> {
            let e = escaped(seq![c]);
            &&& e.len() == 6
            &&& e.take(4) == seq!['\\', 'u', '0', '0']
            &&& is_hex_digit(e[4], c as nat / 16)
            &&& is_hex_digit(e[5], c as nat % 16)
            &&& !('A' <= e[5] <= 'F')
        },
{
    let one = seq![c];
    assert(one.drop_first() =~= seq![]);
    assert(escaped(one) =~= escaped_char(c)) by {
        assert(escaped(one.drop_first()) =~= seq![]);
    }
    if c < ' ' && c != '\n' && c != '\r' && c != '\t' {
        let e = escaped(one);
        assert(e.take(4) =~= seq!['\\', 'u', '0', '0']);
    }
}

/// Escaping goes character by character.
pub proof fn law_escape_goes_by_character(a: Seq<char>, b: Seq<char>)
    ensures
        escaped(a + b) == escaped(a) + escaped(b),
    decreases a.len(),
{
    if a.len() == 0 {
        assert(a + b =~= b);
        assert(escaped(a) + escaped(b) =~= escaped(b));
    } else {
        law_escape_goes_by_character(a.drop_first(), b);
        assert((a + b).drop_first() =~= a.drop_first() + b);
        assert(escaped(a + b) =~= escaped(a) + escaped(b));
    }
}

/// Can `t` stand where a mark is missing: is it empty, or starts with an ASCII character that is no
/// white space?
pub open spec fn stands_instead(t: Seq<char>) -> bool {
    t.len() == 0 || (t[0] <= '\u{7f}' && !is_blank_char(t[0]))
}

/// The complaint about what stands where a mark is missing.
pub open spec fn complaint(message: Seq<char>, t: Seq<char>) -> Seq<char> {
    if t.len() == 0 {
        "unexpected end of JSON"@
    } else {
        message + decimal_text(t[0] as nat)
    }
}

/// Is `b` the byte of `c`? Then it is the byte of a mark only if `c` is the mark.
spec fn is_code(b: u8, c: char) -> bool {
    &&& b as nat == c as nat
    &&& b == 0x2c <==> c == ','
    &&& b == 0x5d <==> c == ']'
    &&& b == 0x7d <==> c == '}'
    &&& b == 0x3a <==> c == ':'
    &&& b == 0x22 <==> c == '"'
}

proof fn lemma_mark_code(c: char)
    requires
        c <= '\u{7f}',
    ensures
        is_code(c as u8, c),
        c as u8 == c as u32,
        (c as u32) < 0x80,
{
}

/// What stands where a mark is missing.
proof fn lemma_instead(s: Seq<u8>, i: int, w: Seq<char>, t: Seq<char>)
    requires
        spells(s, i, w + t),
        is_blank(w),
        stands_instead(t),
    ensures
        0 <= i,
        ws_end(s, i) == i + w.len(),
        t.len() == 0 ==> i + w.len() >= s.len(),
        t.len() > 0 ==> i + w.len() < s.len() && is_code(s[i + w.len()], t[0]),
{
    lemma_blank(s, i, w, t);
    if t.len() > 0 {
        lemma_step(s, i + w.len(), t);
        lemma_mark_code(t[0]);
    }
}

/// Items behind one another, up to where a mark is missing.
proof fn lemma_next_item_stop(s: Seq<u8>, i: int, v: JsonView, j: int, m: int, t: Seq<char>)
    requires
        value_at(s, i) == Ok::<(JsonView, int), Seq<char>>((v, j)),
        i < j,
        ws_end(s, j) == m,
        t.len() == 0 ==> m >= s.len(),
        t.len() > 0 ==> 0 <= m < s.len() && is_code(s[m], t[0]) && t[0] != ',' && t[0] != ']',
    ensures
        elements_at(s, i) == Err::<(Seq<JsonView>, int), Seq<char>>(
            complaint("expected comma or ], got "@, t),
        ),
{
}

/// Items behind one another.
proof fn lemma_next_item(s: Seq<u8>, i: int, v: JsonView, j: int, m: int)
    requires
        value_at(s, i) == Ok::<(JsonView, int), Seq<char>>((v, j)),
        i < j,
        ws_end(s, j) == m,
        byte_at(s, m, 0x2c),
    ensures
        elements_at(s, i) == prepend(seq![v], elements_at(s, ws_end(s, m + 1))),
{
}

#[verifier::spinoff_prover]
proof fn lemma_items_stop(
    s: Seq<u8>,
    i: int,
    items: Seq<JsonView>,
    k: int,
    w: Seq<char>,
    t: Seq<char>,
)
    requires
        0 <= k < items.len(),
        spells(s, i, spaced_items(items, k, w) + t),
        is_blank(w),
        w.len() > 0,
        forall|n: int| 0 <= n < items.len() ==> writable(#[trigger] items[n]),
        stands_instead(t),
        t.len() > 0 ==> t[0] != ',' && t[0] != ']',
    ensures
        elements_at(s, i) == Err::<(Seq<JsonView>, int), Seq<char>>(
            complaint("expected comma or ], got "@, t),
        ),
    decreases items.len() - k,
{
    let all = spaced_items(items, k, w) + t;
    assert(is_blank_char(w[0]));
    if k == items.len() - 1 {
        assert(all =~= spaced(items[k], w) + (w + t));
        assert((w + t)[0] == w[0]);
        lemma_value(s, i, items[k], w, w + t);
        let j = value_at(s, i)->Ok_0.1;
        lemma_instead(s, j, w, t);
        lemma_next_item_stop(s, i, items[k], j, j + w.len(), t);
    } else {
        let more = spaced_items(items, k + 1, w) + t;
        let rest = seq![','] + (w + more);
        assert(all =~= spaced(items[k], w) + (w + rest));
        lemma_follows(w, rest);
        lemma_value(s, i, items[k], w, w + rest);
        let j = value_at(s, i)->Ok_0.1;
        lemma_blank(s, j, w, rest);
        let m = j + w.len();
        lemma_mark(s, m, ',', w + more);
        lemma_start(items[k + 1], w);
        assert(more[0] == spaced(items[k + 1], w)[0]);
        lemma_blank(s, m + 1, w, more);
        lemma_next_item(s, i, items[k], j, m);
        lemma_items_stop(s, m + 1 + w.len(), items, k + 1, w, t);
    }
}

/// What starts with a bracket or a brace is an array or an object, if it is anything.
proof fn lemma_opened(s: Seq<u8>, first: int)
    requires
        s.len() > 0,
        ws_end(s, 1) == first,
    ensures
        s[0] == 0x5b && !byte_at(s, first, 0x5d) && elements_at(s, first) is Err ==> document(s)
            == Err::<JsonView, Seq<char>>(elements_at(s, first)->Err_0),
        s[0] == 0x7b && !byte_at(s, first, 0x7d) && members_at(s, first) is Err ==> document(s)
            == Err::<JsonView, Seq<char>>(members_at(s, first)->Err_0),
{
    if s[0] == 0x5b || s[0] == 0x7b {
        assert(ws_end(s, 0) == 0);
    }
}

/// Behind an item of an array a comma or the closing bracket must stand.
#[verifier::spinoff_prover]
pub proof fn law_array_needs_commas(items: Seq<JsonView>, w: Seq<char>, t: Seq<char>)
    requires
        items.len() > 0,
        forall|n: int| 0 <= n < items.len() ==> writable(#[trigger] items[n]),
        is_blank(w),
        w.len() > 0,
        stands_instead(t),
        t.len() > 0 ==> t[0] != ',' && t[0] != ']',
    ensures
        document(encode_utf8(seq!['['] + w + spaced_items(items, 0, w) + t)) == Err::<
            JsonView,
            Seq<char>,
        >(complaint("expected comma or ], got "@, t)),
{
    let rest = spaced_items(items, 0, w) + t;
    let all = seq!['['] + w + spaced_items(items, 0, w) + t;
    let s = encode_utf8(all);
    assert(spells(s, 0, seq!['['] + (w + rest))) by {
        reveal(spells);
        assert(s.skip(0) =~= s);
        assert(all =~= seq!['['] + (w + rest));
    }
    lemma_mark(s, 0, '[', w + rest);
    lemma_start(items[0], w);
    assert(rest[0] == spaced(items[0], w)[0]);
    lemma_blank(s, 1, w, rest);
    lemma_value_starts(s, 1 + w.len() as int, rest);
    lemma_items_stop(s, 1 + w.len() as int, items, 0, w, t);
    lemma_opened(s, 1 + w.len() as int);
}

/// Members behind one another, up to where a mark is missing.
proof fn lemma_next_member_stop(
    s: Seq<u8>,
    i: int,
    pair: (Seq<char>, JsonView),
    c: int,
    n: int,
    m: int,
    t: Seq<char>,
)
    requires
        member_read(s, i, pair, c, n),
        ws_end(s, n) == m,
        t.len() == 0 ==> m >= s.len(),
        t.len() > 0 ==> 0 <= m < s.len() && is_code(s[m], t[0]) && t[0] != ',' && t[0] != '}',
    ensures
        members_at(s, i) == Err::<(Seq<(Seq<char>, JsonView)>, int), Seq<char>>(
            complaint("expected comma or }, got "@, t),
        ),
{
}

#[verifier::spinoff_prover]
proof fn lemma_members_stop(
    s: Seq<u8>,
    i: int,
    pairs: Seq<(Seq<char>, JsonView)>,
    k: int,
    w: Seq<char>,
    t: Seq<char>,
)
    requires
        0 <= k < pairs.len(),
        spells(s, i, spaced_members(pairs, k, w) + t),
        is_blank(w),
        w.len() > 0,
        forall|n: int| 0 <= n < pairs.len() ==> writable_member(#[trigger] pairs[n]),
        stands_instead(t),
        t.len() > 0 ==> t[0] != ',' && t[0] != '}',
    ensures
        members_at(s, i) == Err::<(Seq<(Seq<char>, JsonView)>, int), Seq<char>>(
            complaint("expected comma or }, got "@, t),
        ),
    decreases pairs.len() - k,
{
    let all = spaced_members(pairs, k, w) + t;
    let pair = pairs[k];
    assert(is_blank_char(w[0]));
    if k == pairs.len() - 1 {
        assert(all =~= spaced_member(pair, w) + (w + t));
        assert((w + t)[0] == w[0]);
        let (c, n) = lemma_member(s, i, pair, w, w + t);
        lemma_instead(s, n, w, t);
        lemma_next_member_stop(s, i, pair, c, n, n + w.len(), t);
    } else {
        let more = spaced_members(pairs, k + 1, w) + t;
        let rest = seq![','] + (w + more);
        assert(all =~= spaced_member(pair, w) + (w + rest));
        lemma_follows(w, rest);
        let (c, n) = lemma_member(s, i, pair, w, w + rest);
        lemma_blank(s, n, w, rest);
        let m = n + w.len();
        lemma_mark(s, m, ',', w + more);
        lemma_member_start(pairs, k + 1, w);
        assert(more[0] == '"');
        lemma_blank(s, m + 1, w, more);
        lemma_next_member(s, i, pair, c, n, m);
        lemma_members_stop(s, m + 1 + w.len(), pairs, k + 1, w, t);
    }
}

/// An opened object.
#[verifier::spinoff_prover]
proof fn lemma_open_object(w: Seq<char>, rest: Seq<char>)
    requires
        is_blank(w),
        stands_instead(rest),
        rest.len() > 0 ==> rest[0] != '}',
    ensures
        ({
            let s = encode_utf8(seq!['{'] + w + rest);
            let i = 1 + w.len() as int;
            &&& spells(s, i, rest)
            &&& members_at(s, i) matches Err(message) ==> document(s) == Err::<JsonView, Seq<char>>(
                message,
            )
        }),
{
    let all = seq!['{'] + w + rest;
    let s = encode_utf8(all);
    assert(spells(s, 0, seq!['{'] + (w + rest))) by {
        reveal(spells);
        assert(s.skip(0) =~= s);
        assert(all =~= seq!['{'] + (w + rest));
    }
    lemma_mark(s, 0, '{', w + rest);
    lemma_blank(s, 1, w, rest);
    lemma_instead(s, 1, w, rest);
    lemma_opened(s, 1 + w.len() as int);
}

/// Behind a member of an object a comma or the closing brace must stand.
pub proof fn law_object_needs_commas(pairs: Seq<(Seq<char>, JsonView)>, w: Seq<char>, t: Seq<char>)
    requires
        pairs.len() > 0,
        forall|n: int| 0 <= n < pairs.len() ==> writable_member(#[trigger] pairs[n]),
        is_blank(w),
        w.len() > 0,
        stands_instead(t),
        t.len() > 0 ==> t[0] != ',' && t[0] != '}',
    ensures
        document(encode_utf8(seq!['{'] + w + (spaced_members(pairs, 0, w) + t))) == Err::<
            JsonView,
            Seq<char>,
        >(complaint("expected comma or }, got "@, t)),
{
    let rest = spaced_members(pairs, 0, w) + t;
    lemma_member_start(pairs, 0, w);
    assert(rest[0] == '"');
    lemma_open_object(w, rest);
    lemma_members_stop(
        encode_utf8(seq!['{'] + w + rest),
        1 + w.len() as int,
        pairs,
        0,
        w,
        t,
    );
}

/// A member without a name, or without a colon.
proof fn lemma_member_stop(s: Seq<u8>, i: int)
    requires
        0 <= i,
    ensures
        i >= s.len() ==> members_at(s, i) == Err::<(Seq<(Seq<char>, JsonView)>, int), Seq<char>>(
            "unexpected end of JSON"@,
        ),
        i < s.len() && s[i] != 0x22 ==> members_at(s, i) == Err::<
            (Seq<(Seq<char>, JsonView)>, int),
            Seq<char>,
        >("expected string"@),
        string_at(s, i) matches Ok((key, j)) ==> {
            &&& i < j && ws_end(s, j) >= s.len() ==> members_at(s, i) == Err::<
                (Seq<(Seq<char>, JsonView)>, int),
                Seq<char>,
            >("unexpected end of JSON"@)
            &&& i < j && 0 <= ws_end(s, j) < s.len() && s[ws_end(s, j)] != 0x3a ==> members_at(s, i)
                == Err::<(Seq<(Seq<char>, JsonView)>, int), Seq<char>>("expected colon"@)
        },
{
}

/// A member must have a name in quotes.
#[verifier::spinoff_prover]
pub proof fn law_member_needs_a_name(w: Seq<char>, t: Seq<char>)
    requires
        is_blank(w),
        stands_instead(t),
        t.len() > 0 ==> t[0] != '"' && t[0] != '}',
    ensures
        document(encode_utf8(seq!['{'] + w + t)) == Err::<JsonView, Seq<char>>(
            if t.len() > 0 {
                "expected string"@
            } else {
                "unexpected end of JSON"@
            },
        ),
{
    let i = 1 + w.len() as int;
    let s = encode_utf8(seq!['{'] + w + t);
    lemma_open_object(w, t);
    assert(seq![] + t =~= t);
    lemma_instead(s, i, seq![], t);
    lemma_member_stop(s, i);
}

/// Behind the name of a member a colon must stand.
#[verifier::spinoff_prover]
pub proof fn law_member_needs_a_colon(key: Seq<char>, w: Seq<char>, t: Seq<char>)
    requires
        is_blank(w),
        stands_instead(t),
        t.len() > 0 ==> t[0] != ':',
    ensures
        document(encode_utf8(seq!['{'] + w + (quoted(key) + (w + t)))) == Err::<JsonView, Seq<char>>(
            if t.len() > 0 {
                "expected colon"@
            } else {
                "unexpected end of JSON"@
            },
        ),
{
    let i = 1 + w.len() as int;
    let rest = quoted(key) + (w + t);
    let s = encode_utf8(seq!['{'] + w + rest);
    assert(rest[0] == '"');
    lemma_open_object(w, rest);
    lemma_string(s, i, key, w + t);
    let j = string_at(s, i)->Ok_0.1;
    lemma_instead(s, j, w, t);
    lemma_member_stop(s, i);
}

/// A text that is empty or white space holds no value, and neither does one that starts with a byte
/// that no value starts with. A word must be spelled right.
pub proof fn law_value_must_start_like_one(s: Seq<u8>)
    ensures
        (forall|k: int| 0 <= k < s.len() ==> is_ws(#[trigger] s[k])) ==> document(s) == Err::<
            JsonView,
            Seq<char>,
        >("unexpected end of JSON"@),
        s.len() > 0 && !is_ws(s[0]) && !(s[0] < 0x80 && starts_value(s[0] as char)) ==> document(s)
            == Err::<JsonView, Seq<char>>("unexpected byte "@ + decimal_text(s[0] as nat)),
        s.len() > 0 && s[0] == 0x6e && !encode_utf8("null"@).is_prefix_of(s) ==> document(s) == Err::<
            JsonView,
            Seq<char>,
        >("expected null"@),
        s.len() > 0 && s[0] == 0x74 && !encode_utf8("true"@).is_prefix_of(s) ==> document(s) == Err::<
            JsonView,
            Seq<char>,
        >("expected true"@),
        s.len() > 0 && s[0] == 0x66 && !encode_utf8("false"@).is_prefix_of(s) ==> document(s) == Err::<
            JsonView,
            Seq<char>,
        >("expected false"@),
{
    if forall|k: int| 0 <= k < s.len() ==> is_ws(#[trigger] s[k]) {
        lemma_ws_run(s, 0, s.len() as int);
    }
    if s.len() > 0 && !is_ws(s[0]) {
        assert(ws_end(s, 0) == 0);
        reveal_strlit("expected ");
        reveal_strlit("null");
        reveal_strlit("true");
        reveal_strlit("false");
        reveal_strlit("expected null");
        reveal_strlit("expected true");
        reveal_strlit("expected false");
        assert("expected "@ + "null"@ =~= "expected null"@);
        assert("expected "@ + "true"@ =~= "expected true"@);
        assert("expected "@ + "false"@ =~= "expected false"@);
        lemma_prefix(s, encode_utf8("null"@));
        lemma_prefix(s, encode_utf8("true"@));
        lemma_prefix(s, encode_utf8("false"@));
    }
}

proof fn lemma_prefix(s: Seq<u8>, front: Seq<u8>)
    ensures
        front.len() <= s.len() && s.subrange(0, front.len() as int) == front ==> front.is_prefix_of(s),
{
}

/// Something else among the four characters behind a backslash and a `u` is refused, but that a plus
/// sign may stand first.
pub proof fn law_bad_unicode_escape_is_refused(
    before: Seq<char>,
    digits: Seq<char>,
    k: int,
    behind: Seq<char>,
)
    requires
        digits.len() == 4,
        is_ascii_chars(digits),
        0 <= k < 4,
        forall|d: nat| !is_hex_digit(digits[k], d),
        k == 0 ==> digits[0] != '+',
    ensures
        document(
            encode_utf8(seq!['"'] + escaped(before) + (seq!['\\', 'u'] + digits + behind)),
        ) == Err::<JsonView, Seq<char>>("bad unicode escape"@),
{
    let mark = seq!['\\', 'u'] + digits;
    let s = encode_utf8(seq!['"'] + escaped(before) + (mark + behind));
    let j = lemma_open_string(before, mark + behind);
    lemma_bad_unicode(s, j, digits, k, behind);
    lemma_quote_starts_string(s);
}

/// A unicode escape with something else among its digits.
proof fn lemma_bad_unicode(s: Seq<u8>, j: int, digits: Seq<char>, k: int, behind: Seq<char>)
    requires
        spells(s, j, seq!['\\', 'u'] + digits + behind),
        digits.len() == 4,
        is_ascii_chars(digits),
        0 <= k < 4,
        forall|d: nat| !is_hex_digit(digits[k], d),
        k == 0 ==> digits[0] != '+',
    ensures
        0 <= j,
        j + 6 <= s.len(),
        s[j] == 0x5c,
        s[j + 1] == 0x75,
        char_at(s, j) == Err::<(char, int), Seq<char>>("bad unicode escape"@),
        spells(s, j + 6, behind),
{
    let mark = seq!['\\', 'u'] + digits;
    assert forall|n: int| 0 <= n < mark.len() implies '\0' <= #[trigger] mark[n] <= '\u{7f}' by {
        if n >= 2 {
            assert(mark[n] == digits[n - 2]);
        }
    }
    lemma_ascii_front(s, j, mark, behind);
    assert(s[j + 0] == mark[0] as u8 && s[j + 1] == mark[1] as u8);
    let bytes = s.subrange(j + 2, j + 6);
    assert(s[j + (2 + k)] == mark[2 + k] as u8);
    assert(bytes[k] == digits[k] as u8);
    assert(s[j + 2] == mark[2] as u8);
    lemma_hex_code(digits[k], bytes[k]);
    if bytes[0] == 0x2b {
        lemma_plus(digits[0]);
        assert(bytes.drop_first()[k - 1] == bytes[k]);
        lemma_not_hex(bytes.drop_first(), k - 1);
    } else {
        lemma_not_hex(bytes, k);
    }
}

proof fn lemma_plus(c: char)
    requires
        '\0' <= c <= '\u{7f}',
    ensures
        c as u8 == 0x2b <==> c == '+',
{
}

proof fn lemma_hex_code(c: char, b: u8)
    requires
        '\0' <= c <= '\u{7f}',
        b == c as u8,
    ensures
        hex_value(b) matches Some(d) ==> is_hex_digit(c, d),
{
}

/// Does the reader of a string that is refused leave exactly `behind` unread?
pub open spec fn leaves(s: Seq<u8>, behind: Seq<char>) -> bool {
    0 <= string_stop(s, 0) <= s.len() && s.skip(string_stop(s, 0)) == encode_utf8(behind)
}

/// The reader of a string stops right behind what it refuses: a bare control character, or an escape
/// that stands for nothing. What follows stays unread.
pub proof fn law_refused_string_is_left_at_its_fault(
    before: Seq<char>,
    c: char,
    letter: char,
    digits: Seq<char>,
    k: int,
    behind: Seq<char>,
)
    requires
        c < ' ',
        letter <= '\u{7f}',
        letter != 'u',
        forall|d: char| !is_short_escape(letter, d),
        digits.len() == 4,
        is_ascii_chars(digits),
        0 <= k < 4,
        forall|d: nat| !is_hex_digit(digits[k], d),
        k == 0 ==> digits[0] != '+',
    ensures
        leaves(encode_utf8(seq!['"'] + escaped(before) + seq![]), seq![]),
        leaves(encode_utf8(seq!['"'] + escaped(before) + (seq![c] + behind)), behind),
        leaves(encode_utf8(seq!['"'] + escaped(before) + (seq!['\\', letter] + behind)), behind),
        leaves(
            encode_utf8(seq!['"'] + escaped(before) + (seq!['\\', 'u'] + digits + behind)),
            behind,
        ),
{
    lemma_left_open(before);
    lemma_left_at_control(before, c, behind);
    lemma_left_at_escape(before, letter, behind);
    lemma_left_at_unicode(before, digits, k, behind);
}

proof fn lemma_left_open(before: Seq<char>)
    ensures
        leaves(encode_utf8(seq!['"'] + escaped(before) + seq![]), seq![]),
{
    let s = encode_utf8(seq!['"'] + escaped(before) + seq![]);
    let j = lemma_open_string(before, seq![]);
    reveal(spells);
    assert(s.skip(j).len() == 0);
}

proof fn lemma_left_at_control(before: Seq<char>, c: char, behind: Seq<char>)
    requires
        c < ' ',
    ensures
        leaves(encode_utf8(seq!['"'] + escaped(before) + (seq![c] + behind)), behind),
{
    let mark = seq![c];
    let s = encode_utf8(seq!['"'] + escaped(before) + (mark + behind));
    let j = lemma_open_string(before, mark + behind);
    lemma_ascii_char(c);
    lemma_ascii_front(s, j, mark, behind);
    assert(s[j + 0] == mark[0] as u8);
    reveal(spells);
}

proof fn lemma_left_at_escape(before: Seq<char>, letter: char, behind: Seq<char>)
    requires
        letter <= '\u{7f}',
        letter != 'u',
        forall|c: char| !is_short_escape(letter, c),
    ensures
        leaves(encode_utf8(seq!['"'] + escaped(before) + (seq!['\\', letter] + behind)), behind),
{
    let mark = seq!['\\', letter];
    let s = encode_utf8(seq!['"'] + escaped(before) + (mark + behind));
    let j = lemma_open_string(before, mark + behind);
    lemma_ascii_front(s, j, mark, behind);
    assert(s[j + 0] == mark[0] as u8 && s[j + 1] == mark[1] as u8);
    lemma_ascii_char(letter);
    assert(!is_short_escape(letter, '"') && !is_short_escape(letter, '\\') && !is_short_escape(
        letter,
        '/',
    ) && !is_short_escape(letter, '\u{8}') && !is_short_escape(letter, '\u{c}')
        && !is_short_escape(letter, '\n') && !is_short_escape(letter, '\r') && !is_short_escape(
        letter,
        '\t',
    ));
    reveal(spells);
}

proof fn lemma_left_at_unicode(before: Seq<char>, digits: Seq<char>, k: int, behind: Seq<char>)
    requires
        digits.len() == 4,
        is_ascii_chars(digits),
        0 <= k < 4,
        forall|d: nat| !is_hex_digit(digits[k], d),
        k == 0 ==> digits[0] != '+',
    ensures
        leaves(
            encode_utf8(seq!['"'] + escaped(before) + (seq!['\\', 'u'] + digits + behind)),
            behind,
        ),
{
    let mark = seq!['\\', 'u'] + digits;
    let s = encode_utf8(seq!['"'] + escaped(before) + (mark + behind));
    let j = lemma_open_string(before, mark + behind);
    lemma_bad_unicode(s, j, digits, k, behind);
    reveal(spells);
}

/// Behind a value and white space nothing else may stand, be the value a number or not.
pub proof fn law_second_value_is_refused(v: JsonView, w: Seq<char>, t: Seq<char>)
    requires
        writable(v),
        is_blank(w),
        w.len() > 0,
        t.len() > 0,
        !is_blank_char(t[0]),
    ensures
        document(encode_utf8(spaced(v, w) + (w + t))) == Err::<JsonView, Seq<char>>(
            "trailing junk after JSON value"@,
        ),
{
    let all = spaced(v, w) + (w + t);
    let s = encode_utf8(all);
    assert(spells(s, 0, all)) by {
        reveal(spells);
        assert(s.skip(0) =~= s);
    }
    assert((w + t)[0] == w[0] && is_blank_char(w[0]));
    lemma_value(s, 0, v, w, w + t);
    let j = value_at(s, 0)->Ok_0.1;
    lemma_blank(s, j, w, t);
}

} // verus!
