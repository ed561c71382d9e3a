//! Minimal JSON: values, a recursive-descent parser over UTF-8 bytes, and string escaping.
//!
//! A number is kept as the text it was written with; what it counts as is read by
//! [`Json::as_usize`] and [`Json::as_u64`].

use vstd::prelude::*;
use vstd::string::*;
use vstd::utf8::*;

use crate::number::{counted, decimal_of};
use crate::text::{decimal, same_text, utf8_text};

verus! {

/// A JSON value. Object members stay in the order, and as often, as they were written.
#[derive(Debug)]
pub enum Json {
    Null,
    Bool(bool),
    Number(String),
    String(String),
    Array(Vec<Json>),
    Object(Vec<(String, Json)>),
}

/// What a [`Json`] stands for.
pub enum JsonView {
    Null,
    Bool(bool),
    Number(Seq<char>),
    String(Seq<char>),
    Array(Seq<JsonView>),
    Object(Seq<(Seq<char>, JsonView)>),
}

impl View for Json {
    type V = JsonView;

    open spec fn view(&self) -> JsonView
        decreases self,
    {
        match self {
            Json::Null => JsonView::Null,
            Json::Bool(b) => JsonView::Bool(*b),
            Json::Number(text) => JsonView::Number(text@),
            Json::String(text) => JsonView::String(text@),
            Json::Array(items) => JsonView::Array(
                Seq::new(
                    items@.len(),
                    |i: int|
                        if 0 <= i < items@.len() {
                            items@[i].view()
                        } else {
                            JsonView::Null
                        },
                ),
            ),
            Json::Object(pairs) => JsonView::Object(
                Seq::<(Seq<char>, JsonView)>::new(
                    pairs@.len(),
                    |i: int|
                        if 0 <= i < pairs@.len() {
                            pair_view(pairs@[i])
                        } else {
                            (Seq::<char>::empty(), JsonView::Null)
                        },
                ),
            ),
        }
    }
}

/// The view of a member of an object.
pub open spec fn pair_view(pair: (String, Json)) -> (Seq<char>, JsonView)
    decreases pair,
{
    (pair.0@, pair.1.view())
}

/// The views of the items of an array.
pub open spec fn item_views(items: Seq<Json>) -> Seq<JsonView> {
    Seq::new(items.len(), |i: int| items[i]@)
}

/// The views of the members of an object.
pub open spec fn pair_views(pairs: Seq<(String, Json)>) -> Seq<(Seq<char>, JsonView)> {
    Seq::new(pairs.len(), |i: int| (pairs[i].0@, pairs[i].1@))
}

pub proof fn lemma_array_view(items: Vec<Json>)
    ensures
        Json::Array(items)@ == JsonView::Array(item_views(items@)),
{
    assert(Json::Array(items)@->Array_0 =~= item_views(items@));
}

pub proof fn lemma_object_view(pairs: Vec<(String, Json)>)
    ensures
        Json::Object(pairs)@ == JsonView::Object(pair_views(pairs@)),
{
    assert forall|k: int| 0 <= k < pairs@.len() implies Json::Object(pairs)@->Object_0[k]
        == pair_views(pairs@)[k] by {
        assert(pair_view(pairs@[k]) == (pairs@[k].0@, pairs@[k].1@));
    }
    assert(Json::Object(pairs)@->Object_0 =~= pair_views(pairs@));
}

/// A copy of a member.
fn clone_pair(pair: &(String, Json)) -> (r: (String, Json))
    ensures
        r.0@ == pair.0@,
        r.1@ == pair.1@,
    decreases pair,
{
    (pair.0.clone(), pair.1.clone())
}

impl Clone for Json {
    fn clone(&self) -> (r: Json)
        ensures
            r@ == self@,
        decreases self,
    {
        match self {
            Json::Null => Json::Null,
            Json::Bool(b) => Json::Bool(*b),
            Json::Number(text) => Json::Number(text.clone()),
            Json::String(text) => Json::String(text.clone()),
            Json::Array(items) => {
                let mut out: Vec<Json> = Vec::new();
                let mut k: usize = 0;
                while k < items.len()
                    invariant
                        k <= items@.len(),
                        *self == Json::Array(*items),
                        out@.len() == k,
                        forall|i: int| 0 <= i < k ==> (#[trigger] out@[i])@ == items@[i]@,
                    decreases items@.len() - k,
                {
                    assert(decreases_to!(*self => self->Array_0));
                    assert(decreases_to!(items@ => items@[k as int]));
                    out.push(items[k].clone());
                    k += 1;
                }
                proof {
                    lemma_array_view(out);
                    lemma_array_view(*items);
                    assert(item_views(out@) =~= item_views(items@));
                }
                Json::Array(out)
            },
            Json::Object(pairs) => {
                let mut out: Vec<(String, Json)> = Vec::new();
                let mut k: usize = 0;
                while k < pairs.len()
                    invariant
                        k <= pairs@.len(),
                        *self == Json::Object(*pairs),
                        out@.len() == k,
                        forall|i: int|
                            0 <= i < k ==> (#[trigger] out@[i]).0@ == pairs@[i].0@ && out@[i].1@
                                == pairs@[i].1@,
                    decreases pairs@.len() - k,
                {
                    assert(decreases_to!(*self => self->Object_0));
                    assert(decreases_to!(pairs@ => pairs@[k as int]));
                    out.push(clone_pair(&pairs[k]));
                    k += 1;
                }
                proof {
                    lemma_object_view(out);
                    lemma_object_view(*pairs);
                    assert(pair_views(out@) =~= pair_views(pairs@));
                }
                Json::Object(out)
            },
        }
    }
}

/// Why a text is not JSON.
#[derive(Debug)]
pub struct ParseError(pub String);

/// What a parser makes of the bytes from some position on: a value and the position behind it, or
/// a message.
pub type Parsed<T> = Result<(T, int), Seq<char>>;

/// The message for input that ends too soon.
pub open spec fn eof_message() -> Seq<char> {
    "unexpected end of JSON"@
}

pub open spec fn is_ws(b: u8) -> bool {
    b == 0x20 || b == 0x0a || b == 0x0d || b == 0x09
}

/// The first position from `i` on that holds no white space.
pub open spec fn ws_end(s: Seq<u8>, i: int) -> int
    decreases s.len() - i,
{
    if 0 <= i < s.len() && is_ws(s[i]) {
        ws_end(s, i + 1)
    } else {
        i
    }
}

pub open spec fn is_digit(b: u8) -> bool {
    0x30 <= b <= 0x39
}

/// The first position from `i` on that holds no decimal digit.
pub open spec fn digits_end(s: Seq<u8>, i: int) -> int
    decreases s.len() - i,
{
    if 0 <= i < s.len() && is_digit(s[i]) {
        digits_end(s, i + 1)
    } else {
        i
    }
}

/// Does position `i` hold the byte `b`?
pub open spec fn byte_at(s: Seq<u8>, i: int, b: u8) -> bool {
    0 <= i < s.len() && s[i] == b
}

/// Text that is all ASCII, from its bytes.
pub open spec fn ascii_text(bytes: Seq<u8>) -> Seq<char> {
    Seq::new(bytes.len(), |k: int| bytes[k] as char)
}

/// Where the sign of a number that starts at `i` ends.
pub open spec fn sign_end(s: Seq<u8>, i: int) -> int {
    if byte_at(s, i, 0x2d) {
        i + 1
    } else {
        i
    }
}

/// Where the fraction of a number ends, if `i` is where its whole part ends.
pub open spec fn fraction_end(s: Seq<u8>, i: int) -> int {
    if byte_at(s, i, 0x2e) {
        digits_end(s, i + 1)
    } else {
        i
    }
}

/// Is there an exponent at `i`?
pub open spec fn has_exponent(s: Seq<u8>, i: int) -> bool {
    byte_at(s, i, 0x65) || byte_at(s, i, 0x45)
}

/// Where the digits of the exponent at `i` start.
pub open spec fn exponent_start(s: Seq<u8>, i: int) -> int {
    if byte_at(s, i + 1, 0x2b) || byte_at(s, i + 1, 0x2d) {
        i + 2
    } else {
        i + 1
    }
}

/// Where the exponent of a number ends, if `i` is where its fraction ends.
pub open spec fn exponent_end(s: Seq<u8>, i: int) -> int {
    if has_exponent(s, i) {
        digits_end(s, exponent_start(s, i))
    } else {
        i
    }
}

/// The number at `i`: sign, digits, fraction and exponent, each as far as it goes. It needs a digit
/// before or behind the point, and an exponent needs a digit.
pub open spec fn number_at(s: Seq<u8>, i: int) -> Parsed<Seq<char>> {
    let whole = sign_end(s, i);
    let point = digits_end(s, whole);
    let exp = fraction_end(s, point);
    let end = exponent_end(s, exp);
    let text = ascii_text(s.subrange(i, end));
    if (point > whole || exp > point + 1) && (has_exponent(s, exp) ==> end > exponent_start(s, exp)) {
        Ok((text, end))
    } else {
        Err("invalid number "@ + text)
    }
}

/// The value of a hexadecimal digit.
pub open spec fn hex_value(b: u8) -> Option<nat> {
    if 0x30 <= b <= 0x39 {
        Some((b - 0x30) as nat)
    } else if 0x61 <= b <= 0x66 {
        Some((b - 0x61 + 10) as nat)
    } else if 0x41 <= b <= 0x46 {
        Some((b - 0x41 + 10) as nat)
    } else {
        None
    }
}

/// The number that hexadecimal digits spell.
pub open spec fn hex_number(bytes: Seq<u8>) -> Option<nat>
    decreases bytes.len(),
{
    if bytes.len() == 0 {
        Some(0)
    } else {
        match (hex_number(bytes.drop_last()), hex_value(bytes.last())) {
            (Some(n), Some(d)) => Some(16 * n + d),
            _ => None,
        }
    }
}

/// What the four bytes of a `\u` escape spell. A plus sign may stand first.
pub open spec fn hex4(bytes: Seq<u8>) -> Option<nat> {
    if bytes[0] == 0x2b {
        hex_number(bytes.drop_first())
    } else {
        hex_number(bytes)
    }
}

/// The character of a `\u` escape whose digits start at `i`; a surrogate stands for no character.
pub open spec fn unicode_at(s: Seq<u8>, i: int) -> Parsed<char> {
    if i + 4 > s.len() {
        Err(eof_message())
    } else {
        match hex4(s.subrange(i, i + 4)) {
            Some(n) => Ok(
                (
                    if is_scalar(n as u32) {
                        n as char
                    } else {
                        '\u{fffd}'
                    },
                    i + 4,
                ),
            ),
            None => Err("bad unicode escape"@),
        }
    }
}

/// The character that a one-letter escape stands for.
pub open spec fn short_escape(b: u8) -> Option<char> {
    if b == 0x22 {
        Some('"')
    } else if b == 0x5c {
        Some('\\')
    } else if b == 0x2f {
        Some('/')
    } else if b == 0x62 {
        Some('\u{8}')
    } else if b == 0x66 {
        Some('\u{c}')
    } else if b == 0x6e {
        Some('\n')
    } else if b == 0x72 {
        Some('\r')
    } else if b == 0x74 {
        Some('\t')
    } else {
        None
    }
}

/// The character of the escape behind a backslash, which starts at `i`.
pub open spec fn escape_at(s: Seq<u8>, i: int) -> Parsed<char> {
    if i >= s.len() {
        Err(eof_message())
    } else {
        match short_escape(s[i]) {
            Some(c) => Ok((c, i + 1)),
            None => if s[i] == 0x75 {
                unicode_at(s, i + 1)
            } else {
                Err("bad escape "@ + crate::text::decimal_text(s[i] as nat))
            },
        }
    }
}

/// The one character of a string at `i`, which is not its closing quote.
pub open spec fn char_at(s: Seq<u8>, i: int) -> Parsed<char> {
    let rest = s.subrange(i, s.len() as int);
    if s[i] == 0x5c {
        escape_at(s, i + 1)
    } else if s[i] < 0x20 {
        Err("unescaped control in string"@)
    } else if s[i] < 0x80 {
        Ok((s[i] as char, i + 1))
    } else if valid_utf8(rest) {
        Ok((decode_first_scalar(rest) as char, i + length_of_first_scalar(rest)))
    } else {
        Err("invalid utf-8"@)
    }
}

/// A result with `head` put in front of what was parsed.
pub open spec fn prepend<T>(head: Seq<T>, tail: Parsed<Seq<T>>) -> Parsed<Seq<T>> {
    match tail {
        Ok((items, end)) => Ok((head + items, end)),
        Err(message) => Err(message),
    }
}

/// The characters from `i` up to the closing quote.
pub open spec fn string_body(s: Seq<u8>, i: int) -> Parsed<Seq<char>>
    decreases s.len() - i,
{
    if i < 0 || i >= s.len() {
        Err(eof_message())
    } else if s[i] == 0x22 {
        Ok((seq![], i + 1))
    } else {
        match char_at(s, i) {
            Ok((c, j)) => prepend(seq![c], string_body(s, j)),
            Err(message) => Err(message),
        }
    }
}

/// The string at `i`.
pub open spec fn string_at(s: Seq<u8>, i: int) -> Parsed<Seq<char>> {
    if i >= s.len() {
        Err(eof_message())
    } else if s[i] != 0x22 {
        Err("expected string"@)
    } else {
        string_body(s, i + 1)
    }
}

/// The word `word`, which stands for `value`, at `i`.
pub open spec fn literal_at(s: Seq<u8>, i: int, word: &str, value: JsonView) -> Parsed<JsonView> {
    let n = word.spec_bytes().len();
    if i + n <= s.len() && s.subrange(i, i + n) == word.spec_bytes() {
        Ok((value, i + n))
    } else {
        Err("expected "@ + word@)
    }
}

/// The value at `i`, behind white space.
pub open spec fn value_at(s: Seq<u8>, i: int) -> Parsed<JsonView>
    decreases s.len() - i, 0nat,
{
    proof {
        lemma_ws_end(s, i);
    }
    let k = ws_end(s, i);
    if i < 0 || k >= s.len() {
        Err(eof_message())
    } else if s[k] == 0x6e {
        literal_at(s, k, "null", JsonView::Null)
    } else if s[k] == 0x74 {
        literal_at(s, k, "true", JsonView::Bool(true))
    } else if s[k] == 0x66 {
        literal_at(s, k, "false", JsonView::Bool(false))
    } else if s[k] == 0x22 {
        match string_at(s, k) {
            Ok((text, end)) => Ok((JsonView::String(text), end)),
            Err(message) => Err(message),
        }
    } else if s[k] == 0x5b {
        proof {
            lemma_ws_end(s, k + 1);
        }
        let first = ws_end(s, k + 1);
        if byte_at(s, first, 0x5d) {
            Ok((JsonView::Array(seq![]), first + 1))
        } else {
            match elements_at(s, first) {
                Ok((items, end)) => Ok((JsonView::Array(items), end)),
                Err(message) => Err(message),
            }
        }
    } else if s[k] == 0x7b {
        proof {
            lemma_ws_end(s, k + 1);
        }
        let first = ws_end(s, k + 1);
        if byte_at(s, first, 0x7d) {
            Ok((JsonView::Object(seq![]), first + 1))
        } else {
            match members_at(s, first) {
                Ok((pairs, end)) => Ok((JsonView::Object(pairs), end)),
                Err(message) => Err(message),
            }
        }
    } else if s[k] == 0x2d || is_digit(s[k]) {
        match number_at(s, k) {
            Ok((text, end)) => Ok((JsonView::Number(text), end)),
            Err(message) => Err(message),
        }
    } else {
        Err("unexpected byte "@ + crate::text::decimal_text(s[k] as nat))
    }
}

/// One or more array items from `i` on, with the closing bracket.
pub open spec fn elements_at(s: Seq<u8>, i: int) -> Parsed<Seq<JsonView>>
    decreases s.len() - i, 1nat,
{
    match value_at(s, i) {
        Ok((v, j)) => {
            proof {
                lemma_ws_end(s, j);
                lemma_ws_end(s, ws_end(s, j) + 1);
            }
            let m = ws_end(s, j);
            if !(i < j) || m >= s.len() {
                Err(eof_message())
            } else if s[m] == 0x5d {
                Ok((seq![v], m + 1))
            } else if s[m] == 0x2c {
                prepend(seq![v], elements_at(s, ws_end(s, m + 1)))
            } else {
                Err("expected comma or ], got "@ + crate::text::decimal_text(s[m] as nat))
            }
        },
        Err(message) => Err(message),
    }
}

/// One or more object members from `i` on, with the closing brace.
pub open spec fn members_at(s: Seq<u8>, i: int) -> Parsed<Seq<(Seq<char>, JsonView)>>
    decreases s.len() - i, 1nat,
{
    match string_at(s, i) {
        Ok((key, j)) => {
            proof {
                lemma_ws_end(s, j);
            }
            let c = ws_end(s, j);
            if !(i < j) || c >= s.len() {
                Err(eof_message())
            } else if s[c] != 0x3a {
                Err("expected colon"@)
            } else {
                match value_at(s, c + 1) {
                    Ok((v, n)) => {
                        proof {
                            lemma_ws_end(s, n);
                            lemma_ws_end(s, ws_end(s, n) + 1);
                        }
                        let m = ws_end(s, n);
                        if !(c < n) || m >= s.len() {
                            Err(eof_message())
                        } else if s[m] == 0x7d {
                            Ok((seq![(key, v)], m + 1))
                        } else if s[m] == 0x2c {
                            prepend(seq![(key, v)], members_at(s, ws_end(s, m + 1)))
                        } else {
                            Err("expected comma or }, got "@ + crate::text::decimal_text(s[m] as nat))
                        }
                    },
                    Err(message) => Err(message),
                }
            }
        },
        Err(message) => Err(message),
    }
}

/// The array whose opening bracket is at `i`.
pub open spec fn array_at(s: Seq<u8>, i: int) -> Parsed<Seq<JsonView>> {
    let first = ws_end(s, i + 1);
    if byte_at(s, first, 0x5d) {
        Ok((seq![], first + 1))
    } else {
        elements_at(s, first)
    }
}

/// The object whose opening brace is at `i`.
pub open spec fn object_at(s: Seq<u8>, i: int) -> Parsed<Seq<(Seq<char>, JsonView)>> {
    let first = ws_end(s, i + 1);
    if byte_at(s, first, 0x7d) {
        Ok((seq![], first + 1))
    } else {
        members_at(s, first)
    }
}

/// What a whole text is as JSON: one value with white space round it.
pub open spec fn document(s: Seq<u8>) -> Result<JsonView, Seq<char>> {
    match value_at(s, 0) {
        Ok((v, end)) => if ws_end(s, end) == s.len() {
            Ok(v)
        } else {
            Err("trailing junk after JSON value"@)
        },
        Err(message) => Err(message),
    }
}

pub proof fn lemma_ws_end(s: Seq<u8>, i: int)
    ensures
        i <= ws_end(s, i),
        i <= s.len() ==> ws_end(s, i) <= s.len(),
    decreases s.len() - i,
{
    if 0 <= i < s.len() && is_ws(s[i]) {
        lemma_ws_end(s, i + 1);
    }
}

pub proof fn lemma_digits_end(s: Seq<u8>, i: int)
    ensures
        i <= digits_end(s, i),
        i <= s.len() ==> digits_end(s, i) <= s.len(),
        forall|k: int| i <= k < digits_end(s, i) ==> is_digit(#[trigger] s[k]),
    decreases s.len() - i,
{
    if 0 <= i < s.len() && is_digit(s[i]) {
        lemma_digits_end(s, i + 1);
    }
}

/// Digits go as far as there are any.
pub proof fn lemma_digits_run(b: Seq<u8>, i: int, end: int)
    requires
        0 <= i <= end <= b.len(),
        forall|k: int| i <= k < end ==> is_digit(#[trigger] b[k]),
        end == b.len() || !is_digit(b[end]),
    ensures
        digits_end(b, i) == end,
    decreases end - i,
{
    if i < end {
        lemma_digits_run(b, i + 1, end);
    }
}

/// A string ends behind where it starts.
proof fn lemma_string_body_end(s: Seq<u8>, i: int)
    ensures
        string_body(s, i) matches Ok((_, j)) ==> i < j <= s.len(),
    decreases s.len() - i,
{
    if 0 <= i < s.len() && s[i] != 0x22 {
        if let Ok((c, j)) = char_at(s, i) {
            lemma_string_body_end(s, j);
        }
    }
}

pub proof fn lemma_string_end(s: Seq<u8>, i: int)
    ensures
        string_at(s, i) matches Ok((_, j)) ==> i < j <= s.len(),
{
    lemma_string_body_end(s, i + 1);
}

/// A value ends behind where it starts.
pub proof fn lemma_value_end(s: Seq<u8>, i: int)
    ensures
        value_at(s, i) matches Ok((_, j)) ==> i < j <= s.len(),
    decreases s.len() - i, 0nat,
{
    lemma_ws_end(s, i);
    let k = ws_end(s, i);
    if 0 <= i && k < s.len() {
        lemma_string_end(s, k);
        lemma_ws_end(s, k + 1);
        lemma_digits_end(s, sign_end(s, k));
        let point = digits_end(s, sign_end(s, k));
        lemma_digits_end(s, point + 1);
        lemma_digits_end(s, exponent_start(s, fraction_end(s, point)));
        if s[k] == 0x5b {
            lemma_elements_end(s, ws_end(s, k + 1));
        } else if s[k] == 0x7b {
            lemma_members_end(s, ws_end(s, k + 1));
        }
        reveal_strlit("null");
        reveal_strlit("true");
        reveal_strlit("false");
        is_ascii_chars_encode_utf8("null"@);
        is_ascii_chars_encode_utf8("true"@);
        is_ascii_chars_encode_utf8("false"@);
    }
}

proof fn lemma_elements_end(s: Seq<u8>, i: int)
    ensures
        elements_at(s, i) matches Ok((_, j)) ==> i < j <= s.len(),
    decreases s.len() - i, 1nat,
{
    lemma_value_end(s, i);
    if let Ok((v, j)) = value_at(s, i) {
        lemma_ws_end(s, j);
        let m = ws_end(s, j);
        lemma_ws_end(s, m + 1);
        if m < s.len() && s[m] == 0x2c {
            lemma_elements_end(s, ws_end(s, m + 1));
        }
    }
}

proof fn lemma_members_end(s: Seq<u8>, i: int)
    ensures
        members_at(s, i) matches Ok((_, j)) ==> i < j <= s.len(),
    decreases s.len() - i, 1nat,
{
    lemma_string_end(s, i);
    if let Ok((key, j)) = string_at(s, i) {
        lemma_ws_end(s, j);
        let c = ws_end(s, j);
        if c < s.len() && s[c] == 0x3a {
            lemma_value_end(s, c + 1);
            if let Ok((v, n)) = value_at(s, c + 1) {
                lemma_ws_end(s, n);
                let m = ws_end(s, n);
                lemma_ws_end(s, m + 1);
                if m < s.len() && s[m] == 0x2c {
                    lemma_members_end(s, ws_end(s, m + 1));
                }
            }
        }
    }
}

/// Putting two heads in front, one after the other.
proof fn lemma_prepend<T>(a: Seq<T>, b: Seq<T>, tail: Parsed<Seq<T>>)
    ensures
        prepend(a, prepend(b, tail)) == prepend(a + b, tail),
{
    if let Ok((items, end)) = tail {
        assert(a + (b + items) =~= (a + b) + items);
    }
}

/// A parse error with the message `message`.
fn error(message: &str) -> (r: ParseError)
    ensures
        r.0@ == message@,
{
    ParseError(message.to_string())
}

/// A parse error with the message `message` and the value of a byte behind it.
fn byte_error(message: &str, b: u8) -> (r: ParseError)
    ensures
        r.0@ == message@ + crate::text::decimal_text(b as nat),
{
    let mut text = message.to_string();
    let code = decimal(b as u128);
    text.append(code.as_str());
    ParseError(text)
}

/// Is `r` what `parsed` says, with the parser's position moved from `i` to `end` on success?
pub open spec fn agrees<T: View>(r: Result<T, ParseError>, end: int, parsed: Parsed<T::V>) -> bool {
    match r {
        Ok(v) => parsed == Ok::<(T::V, int), Seq<char>>((v@, end)),
        Err(e) => parsed == Err::<(T::V, int), Seq<char>>(e.0@),
    }
}

/// [`agrees`] for a single character.
pub open spec fn agrees_char(r: Result<char, ParseError>, end: int, parsed: Parsed<char>) -> bool {
    match r {
        Ok(c) => parsed == Ok::<(char, int), Seq<char>>((c, end)),
        Err(e) => parsed == Err::<(char, int), Seq<char>>(e.0@),
    }
}

/// Digits that do not spell a number do not spell one with more behind them.
proof fn lemma_hex_number_stops(bytes: Seq<u8>, k: int)
    requires
        0 <= k <= bytes.len(),
        hex_number(bytes.take(k)) is None,
    ensures
        hex_number(bytes) is None,
    decreases bytes.len() - k,
{
    if k < bytes.len() {
        assert(bytes.take(k + 1).drop_last() =~= bytes.take(k));
        lemma_hex_number_stops(bytes, k + 1);
    } else {
        assert(bytes.take(k) =~= bytes);
    }
}

/// Where the reader of a `\u` escape stops that refuses it.
pub open spec fn unicode_stop(s: Seq<u8>, i: int) -> int {
    if i + 4 > s.len() {
        s.len() as int
    } else {
        i + 4
    }
}

/// Where the reader of an escape stops that refuses it.
pub open spec fn escape_stop(s: Seq<u8>, i: int) -> int {
    if i >= s.len() {
        i
    } else if s[i] == 0x75 {
        unicode_stop(s, i + 1)
    } else {
        i + 1
    }
}

/// Where the reader of a character of a string stops that refuses it: before a byte that is no
/// UTF-8, and behind anything else.
pub open spec fn char_stop(s: Seq<u8>, i: int) -> int {
    if s[i] == 0x5c {
        escape_stop(s, i + 1)
    } else if s[i] < 0x20 {
        i + 1
    } else {
        i
    }
}

/// Where the reader of the inside of a string stops that refuses it: at the character that it
/// refuses, or at the end.
pub open spec fn body_stop(s: Seq<u8>, i: int) -> int
    decreases s.len() - i,
{
    if i < 0 || i >= s.len() || s[i] == 0x22 {
        i
    } else {
        match char_at(s, i) {
            Ok((_, j)) => body_stop(s, j),
            Err(_) => char_stop(s, i),
        }
    }
}

/// Where the reader of a string stops that refuses it.
pub open spec fn string_stop(s: Seq<u8>, i: int) -> int {
    if i >= s.len() {
        i
    } else if s[i] != 0x22 {
        i + 1
    } else {
        body_stop(s, i + 1)
    }
}

/// A position in a byte text.
pub struct Parser<'a> {
    pub s: &'a [u8],
    pub i: usize,
}

impl Parser<'_> {
    /// Is the position inside the text or at its end?
    pub open spec fn wf(&self) -> bool {
        self.i <= self.s@.len() <= usize::MAX
    }

    /// The byte at the position.
    pub fn peek(&self) -> (r: Option<u8>)
        ensures
            r == (if self.i < self.s@.len() {
                Some(self.s@[self.i as int])
            } else {
                None
            }),
    {
        if self.i < self.s.len() {
            Some(self.s[self.i])
        } else {
            None
        }
    }

    /// Is the next byte `b`?
    fn at(&self, b: u8) -> (r: bool)
        ensures
            r == byte_at(self.s@, self.i as int, b),
    {
        self.i < self.s.len() && self.s[self.i] == b
    }

    /// The byte at the position, which moves on.
    pub fn bump_byte(&mut self) -> (r: Result<u8, ParseError>)
        requires
            old(self).wf(),
        ensures
            final(self).wf(),
            final(self).s == old(self).s,
            match r {
                Ok(b) => old(self).i < old(self).s@.len() && b == old(self).s@[old(self).i as int]
                    && final(self).i == old(self).i + 1,
                Err(e) => old(self).i == old(self).s@.len() && e.0@ == eof_message()
                    && final(self).i == old(self).i,
            },
    {
        match self.peek() {
            Some(b) => {
                self.i += 1;
                Ok(b)
            },
            None => Err(error("unexpected end of JSON")),
        }
    }

    /// Moves on behind white space.
    pub fn skip_ws(&mut self)
        requires
            old(self).wf(),
        ensures
            final(self).wf(),
            final(self).s == old(self).s,
            final(self).i == ws_end(old(self).s@, old(self).i as int),
    {
        while self.i < self.s.len() && (self.s[self.i] == 0x20 || self.s[self.i] == 0x0a
            || self.s[self.i] == 0x0d || self.s[self.i] == 0x09)
            invariant
                self.wf(),
                self.s == old(self).s,
                ws_end(old(self).s@, old(self).i as int) == ws_end(self.s@, self.i as int),
            decreases self.s@.len() - self.i,
        {
            self.i += 1;
        }
    }

    fn skip_digits(&mut self)
        requires
            old(self).wf(),
        ensures
            final(self).wf(),
            final(self).s == old(self).s,
            final(self).i == digits_end(old(self).s@, old(self).i as int),
    {
        while self.i < self.s.len() && 0x30 <= self.s[self.i] && self.s[self.i] <= 0x39
            invariant
                self.wf(),
                self.s == old(self).s,
                digits_end(old(self).s@, old(self).i as int) == digits_end(self.s@, self.i as int),
            decreases self.s@.len() - self.i,
        {
            self.i += 1;
        }
    }

    /// The bytes from `start` to the current position, as ASCII text.
    fn ascii_since(&self, start: usize) -> (r: String)
        requires
            self.wf(),
            start <= self.i,
            forall|k: int| start <= k < self.i ==> self.s@[k] < 0x80,
        ensures
            r@ == ascii_text(self.s@.subrange(start as int, self.i as int)),
    {
        let mut text = String::new();
        let mut k: usize = start;
        while k < self.i
            invariant
                self.wf(),
                start <= k <= self.i,
                text@ == ascii_text(self.s@.subrange(start as int, k as int)),
            decreases self.i - k,
        {
            text.push(self.s[k] as char);
            k += 1;
            assert(text@ =~= ascii_text(self.s@.subrange(start as int, k as int)));
        }
        text
    }

    fn parse_number(&mut self) -> (r: Result<String, ParseError>)
        requires
            old(self).wf(),
        ensures
            final(self).wf(),
            final(self).s == old(self).s,
            agrees(r, final(self).i as int, number_at(old(self).s@, old(self).i as int)),
    {
        let start = self.i;
        if self.at(0x2d) {
            self.i += 1;
        }
        let whole = self.i;
        self.skip_digits();
        proof {
            lemma_digits_end(self.s@, whole as int);
        }
        let point = self.i;
        if self.at(0x2e) {
            self.i += 1;
            proof {
                lemma_digits_end(self.s@, point + 1);
            }
            self.skip_digits();
        }
        let exp = self.i;
        let mut exponent_ok = true;
        if self.at(0x65) || self.at(0x45) {
            self.i += 1;
            if self.at(0x2b) || self.at(0x2d) {
                self.i += 1;
            }
            let first = self.i;
            proof {
                lemma_digits_end(self.s@, first as int);
            }
            self.skip_digits();
            exponent_ok = self.i > first;
        }
        let text = self.ascii_since(start);
        if (point > whole || (exp > point && exp - point > 1)) && exponent_ok {
            Ok(text)
        } else {
            let mut message = "invalid number ".to_string();
            message.append(text.as_str());
            Err(ParseError(message))
        }
    }

    /// The four hexadecimal digits of a `\u` escape.
    fn parse_unicode(&mut self) -> (r: Result<char, ParseError>)
        requires
            old(self).wf(),
        ensures
            final(self).wf(),
            final(self).s == old(self).s,
            agrees_char(r, final(self).i as int, unicode_at(old(self).s@, old(self).i as int)),
            r is Err ==> final(self).i == unicode_stop(old(self).s@, old(self).i as int),
    {
        let start = self.i;
        let mut k: usize = 0;
        while k < 4
            invariant
                self.wf(),
                self.s == old(self).s,
                old(self).i == start,
                k <= 4,
                self.i == start + k,
            decreases 4 - k,
        {
            let _ = self.bump_byte()?;
            k += 1;
        }
        let ghost digits = self.s@.subrange(start as int, start + 4);
        let signed = self.s[start] == 0x2b;
        let first: usize = if signed {
            1
        } else {
            0
        };
        let ghost shown = digits.skip(first as int);
        proof {
            assert(digits.skip(0) =~= digits);
            assert(digits.skip(1) =~= digits.drop_first());
        }
        let mut n: u32 = 0;
        k = first;
        while k < 4
            invariant
                self.wf(),
                self.s == old(self).s,
                old(self).i == start,
                self.i == start + 4,
                hex4(digits) == hex_number(shown),
                digits == self.s@.subrange(start as int, start + 4),
                shown == digits.skip(first as int),
                first <= k <= 4,
                first <= 1,
                hex_number(shown.take(k - first)) == Some(n as nat),
                k == 0 ==> n == 0,
                k == 1 ==> n < 16,
                k == 2 ==> n < 256,
                k == 3 ==> n < 4096,
                k == 4 ==> n < 65536,
            decreases 4 - k,
        {
            let b = self.s[start + k];
            proof {
                assert(shown.take(k + 1 - first).drop_last() =~= shown.take(k - first));
                assert(shown.take(k + 1 - first).last() == b);
                if hex_value(b) is None {
                    lemma_hex_number_stops(shown, k + 1 - first);
                    assert(shown.take(shown.len() as int) =~= shown);
                }
            }
            let d: u32 = if 0x30 <= b && b <= 0x39 {
                (b - 0x30) as u32
            } else if 0x61 <= b && b <= 0x66 {
                (b - 0x61 + 10) as u32
            } else if 0x41 <= b && b <= 0x46 {
                (b - 0x41 + 10) as u32
            } else {
                return Err(error("bad unicode escape"));
            };
            n = 16 * n + d;
            k += 1;
        }
        assert(shown.take(4 - first) =~= shown);
        match std::char::from_u32(n) {
            Some(c) => Ok(c),
            None => Ok('\u{fffd}'),
        }
    }

    fn parse_escape(&mut self) -> (r: Result<char, ParseError>)
        requires
            old(self).wf(),
        ensures
            final(self).wf(),
            final(self).s == old(self).s,
            agrees_char(r, final(self).i as int, escape_at(old(self).s@, old(self).i as int)),
            r is Err ==> final(self).i == escape_stop(old(self).s@, old(self).i as int),
    {
        let b = self.bump_byte()?;
        if b == 0x22 {
            Ok('"')
        } else if b == 0x5c {
            Ok('\\')
        } else if b == 0x2f {
            Ok('/')
        } else if b == 0x62 {
            Ok('\u{8}')
        } else if b == 0x66 {
            Ok('\u{c}')
        } else if b == 0x6e {
            Ok('\n')
        } else if b == 0x72 {
            Ok('\r')
        } else if b == 0x74 {
            Ok('\t')
        } else if b == 0x75 {
            self.parse_unicode()
        } else {
            Err(byte_error("bad escape ", b))
        }
    }

    /// The character at the current position, whose first byte is not ASCII.
    fn parse_wide(&mut self) -> (r: Result<char, ParseError>)
        requires
            old(self).wf(),
            old(self).i < old(self).s@.len(),
            old(self).s@[old(self).i as int] >= 0x80,
        ensures
            final(self).wf(),
            final(self).s == old(self).s,
            agrees_char(r, final(self).i as int, char_at(old(self).s@, old(self).i as int)),
            r is Err ==> final(self).i == old(self).i,
    {
        let rest: &[u8] = &self.s[self.i..self.s.len()];
        match utf8_text(rest) {
            Err(_) => Err(error("invalid utf-8")),
            Ok(text) => {
                let b = rest[0];
                proof {
                    crate::text::lemma_text_of_bytes(text@, rest@);
                    reveal_with_fuel(valid_utf8, 2);
                }
                assert(text@[0] == decode_first_scalar(rest@) as char);
                let c = text.get_char(0);
                let width: usize = if b < 0xe0 {
                    2
                } else if b < 0xf0 {
                    3
                } else {
                    4
                };
                self.i += width;
                Ok(c)
            },
        }
    }

    /// Reads a string, in quotes.
    pub fn parse_string(&mut self) -> (r: Result<String, ParseError>)
        requires
            old(self).wf(),
        ensures
            final(self).wf(),
            final(self).s == old(self).s,
            agrees(r, final(self).i as int, string_at(old(self).s@, old(self).i as int)),
            r is Err ==> final(self).i == string_stop(old(self).s@, old(self).i as int),
    {
        let q = self.bump_byte()?;
        if q != 0x22 {
            return Err(error("expected string"));
        }
        let ghost start = self.i as int;
        let mut out = String::new();
        assert(prepend(out@, string_body(self.s@, start)) == string_body(self.s@, start)) by {
            if let Ok((items, end)) = string_body(self.s@, start) {
                assert(out@ + items =~= items);
            }
        }
        loop
            invariant
                self.wf(),
                self.s == old(self).s,
                string_at(old(self).s@, old(self).i as int) == string_body(self.s@, start),
                string_body(self.s@, start) == prepend(out@, string_body(self.s@, self.i as int)),
                string_stop(old(self).s@, old(self).i as int) == body_stop(self.s@, self.i as int),
            decreases self.s@.len() - self.i,
        {
            let ghost before = out@;
            let b = self.bump_byte()?;
            if b == 0x22 {
                assert(out@ + seq![] =~= out@);
                return Ok(out);
            }
            let c: char = if b == 0x5c {
                self.parse_escape()?
            } else if b < 0x20 {
                return Err(error("unescaped control in string"));
            } else if b < 0x80 {
                b as char
            } else {
                self.i -= 1;
                self.parse_wide()?
            };
            out.push(c);
            proof {
                lemma_prepend(before, seq![c], string_body(self.s@, self.i as int));
                assert(out@ =~= before + seq![c]);
            }
        }
    }

    fn parse_lit(&mut self, word: &str, value: Json) -> (r: Result<Json, ParseError>)
        requires
            old(self).wf(),
        ensures
            final(self).wf(),
            final(self).s == old(self).s,
            agrees(r, final(self).i as int, literal_at(old(self).s@, old(self).i as int, word, value@)),
    {
        let bytes = word.as_bytes();
        if bytes.len() <= self.s.len() - self.i {
            let ghost there = self.s@.subrange(self.i as int, self.i + bytes@.len());
            let mut k: usize = 0;
            while k < bytes.len() && self.s[self.i + k] == bytes[k]
                invariant
                    self.wf(),
                    k <= bytes@.len() <= self.s@.len() - self.i,
                    there == self.s@.subrange(self.i as int, self.i + bytes@.len()),
                    there.take(k as int) == bytes@.take(k as int),
                decreases bytes@.len() - k,
            {
                assert(there.take(k + 1) =~= there.take(k as int).push(there[k as int]));
                assert(bytes@.take(k + 1) =~= bytes@.take(k as int).push(bytes@[k as int]));
                k += 1;
            }
            if k == bytes.len() {
                assert(there.take(k as int) =~= there);
                assert(bytes@.take(k as int) =~= bytes@);
                self.i += bytes.len();
                return Ok(value);
            }
            assert(there[k as int] != bytes@[k as int]);
        }
        let mut message = "expected ".to_string();
        message.append(word);
        Err(ParseError(message))
    }

    /// Reads a value, behind white space.
    fn parse_value(&mut self) -> (r: Result<Json, ParseError>)
        requires
            old(self).wf(),
        ensures
            final(self).wf(),
            final(self).s == old(self).s,
            agrees(r, final(self).i as int, value_at(old(self).s@, old(self).i as int)),
        decreases old(self).s@.len() - old(self).i, 1nat,
    {
        proof {
            lemma_ws_end(self.s@, self.i as int);
        }
        self.skip_ws();
        match self.peek() {
            None => Err(error("unexpected end of JSON")),
            Some(b) => if b == 0x6e {
                self.parse_lit("null", Json::Null)
            } else if b == 0x74 {
                self.parse_lit("true", Json::Bool(true))
            } else if b == 0x66 {
                self.parse_lit("false", Json::Bool(false))
            } else if b == 0x22 {
                let text = self.parse_string()?;
                Ok(Json::String(text))
            } else if b == 0x5b {
                let items = self.parse_array()?;
                let r = Json::Array(items);
                proof {
                    lemma_array_view(items);
                }
                Ok(r)
            } else if b == 0x7b {
                let pairs = self.parse_object()?;
                let r = Json::Object(pairs);
                proof {
                    lemma_object_view(pairs);
                }
                Ok(r)
            } else if b == 0x2d || (0x30 <= b && b <= 0x39) {
                let text = self.parse_number()?;
                Ok(Json::Number(text))
            } else {
                Err(byte_error("unexpected byte ", b))
            },
        }
    }

    fn parse_array(&mut self) -> (r: Result<Vec<Json>, ParseError>)
        requires
            old(self).wf(),
            byte_at(old(self).s@, old(self).i as int, 0x5b),
        ensures
            final(self).wf(),
            final(self).s == old(self).s,
            match r {
                Ok(items) => array_at(old(self).s@, old(self).i as int) == Ok::<
                    (Seq<JsonView>, int),
                    Seq<char>,
                >((item_views(items@), final(self).i as int)),
                Err(e) => array_at(old(self).s@, old(self).i as int) == Err::<
                    (Seq<JsonView>, int),
                    Seq<char>,
                >(e.0@),
            },
        decreases old(self).s@.len() - old(self).i, 0nat,
    {
        proof {
            lemma_ws_end(self.s@, self.i + 1);
        }
        let _ = self.bump_byte()?;
        self.skip_ws();
        let mut out: Vec<Json> = Vec::new();
        assert(item_views(out@) =~= seq![]);
        if self.at(0x5d) {
            self.i += 1;
            return Ok(out);
        }
        let ghost first = self.i as int;
        assert(elements_at(self.s@, first) == prepend(item_views(out@), elements_at(self.s@, first))) by {
            if let Ok((items, end)) = elements_at(self.s@, first) {
                assert(item_views(out@) + items =~= items);
            }
        }
        loop
            invariant
                self.wf(),
                self.s == old(self).s,
                old(self).i < self.i,
                array_at(self.s@, old(self).i as int) == elements_at(self.s@, first),
                elements_at(self.s@, first) == prepend(
                    item_views(out@),
                    elements_at(self.s@, self.i as int),
                ),
            decreases self.s@.len() - self.i,
        {
            let ghost here = self.i as int;
            let ghost before = item_views(out@);
            let v = self.parse_value()?;
            proof {
                lemma_value_end(self.s@, here);
                lemma_ws_end(self.s@, self.i as int);
                lemma_ws_end(self.s@, ws_end(self.s@, self.i as int) + 1);
            }
            out.push(v);
            assert(item_views(out@) =~= before + seq![v@]);
            self.skip_ws();
            let b = self.bump_byte()?;
            if b == 0x5d {
                return Ok(out);
            }
            if b != 0x2c {
                return Err(byte_error("expected comma or ], got ", b));
            }
            self.skip_ws();
            proof {
                lemma_prepend(before, seq![v@], elements_at(self.s@, self.i as int));
            }
        }
    }

    fn parse_object(&mut self) -> (r: Result<Vec<(String, Json)>, ParseError>)
        requires
            old(self).wf(),
            byte_at(old(self).s@, old(self).i as int, 0x7b),
        ensures
            final(self).wf(),
            final(self).s == old(self).s,
            match r {
                Ok(pairs) => object_at(old(self).s@, old(self).i as int) == Ok::<
                    (Seq<(Seq<char>, JsonView)>, int),
                    Seq<char>,
                >((pair_views(pairs@), final(self).i as int)),
                Err(e) => object_at(old(self).s@, old(self).i as int) == Err::<
                    (Seq<(Seq<char>, JsonView)>, int),
                    Seq<char>,
                >(e.0@),
            },
        decreases old(self).s@.len() - old(self).i, 0nat,
    {
        proof {
            lemma_ws_end(self.s@, self.i + 1);
        }
        let _ = self.bump_byte()?;
        self.skip_ws();
        let mut out: Vec<(String, Json)> = Vec::new();
        assert(pair_views(out@) =~= seq![]);
        if self.at(0x7d) {
            self.i += 1;
            return Ok(out);
        }
        let ghost first = self.i as int;
        assert(members_at(self.s@, first) == prepend(pair_views(out@), members_at(self.s@, first))) by {
            if let Ok((items, end)) = members_at(self.s@, first) {
                assert(pair_views(out@) + items =~= items);
            }
        }
        loop
            invariant
                self.wf(),
                self.s == old(self).s,
                old(self).i < self.i,
                object_at(self.s@, old(self).i as int) == members_at(self.s@, first),
                members_at(self.s@, first) == prepend(
                    pair_views(out@),
                    members_at(self.s@, self.i as int),
                ),
            decreases self.s@.len() - self.i,
        {
            let ghost here = self.i as int;
            let ghost before = pair_views(out@);
            let key = self.parse_string()?;
            proof {
                lemma_string_end(self.s@, here);
                lemma_ws_end(self.s@, self.i as int);
            }
            self.skip_ws();
            let colon = self.bump_byte()?;
            if colon != 0x3a {
                return Err(error("expected colon"));
            }
            let ghost there = self.i as int;
            let v = self.parse_value()?;
            proof {
                lemma_value_end(self.s@, there);
                lemma_ws_end(self.s@, self.i as int);
                lemma_ws_end(self.s@, ws_end(self.s@, self.i as int) + 1);
            }
            let ghost pair = (key@, v@);
            out.push((key, v));
            assert(pair_views(out@) =~= before + seq![pair]);
            self.skip_ws();
            let b = self.bump_byte()?;
            if b == 0x7d {
                return Ok(out);
            }
            if b != 0x2c {
                return Err(byte_error("expected comma or }, got ", b));
            }
            self.skip_ws();
            proof {
                lemma_prepend(before, seq![pair], members_at(self.s@, self.i as int));
            }
        }
    }
}

/// The value of the first member with the name `key`.
pub open spec fn find_member(pairs: Seq<(Seq<char>, JsonView)>, key: Seq<char>) -> Option<JsonView>
    decreases pairs.len(),
{
    if pairs.len() == 0 {
        None
    } else if pairs[0].0 == key {
        Some(pairs[0].1)
    } else {
        find_member(pairs.drop_first(), key)
    }
}

impl JsonView {
    /// The first member with the name `key`, of an object that has one.
    pub open spec fn get(self, key: Seq<char>) -> Option<JsonView> {
        match self {
            JsonView::Object(pairs) => find_member(pairs, key),
            _ => None,
        }
    }
}

/// An optional value by its view.
pub open spec fn opt_view(v: Option<&Json>) -> Option<JsonView> {
    match v {
        Some(j) => Some(j@),
        None => None,
    }
}

impl Json {
    /// Reads one JSON value, with white space round it and nothing else.
    pub fn parse(s: &str) -> (r: Result<Json, ParseError>)
        ensures
            match r {
                Ok(v) => document(s.spec_bytes()) == Ok::<JsonView, Seq<char>>(v@),
                Err(e) => document(s.spec_bytes()) == Err::<JsonView, Seq<char>>(e.0@),
            },
    {
        let bytes = s.as_bytes();
        let n = bytes.len();
        let mut p = Parser { s: bytes, i: 0 };
        let v = p.parse_value()?;
        proof {
            lemma_ws_end(bytes@, p.i as int);
        }
        p.skip_ws();
        if p.i != n {
            return Err(error("trailing junk after JSON value"));
        }
        Ok(v)
    }

    /// The first member named `key`, if this is an object that has one.
    pub fn get(&self, key: &str) -> (r: Option<&Json>)
        ensures
            opt_view(r) == self@.get(key@),
    {
        match self {
            Json::Object(pairs) => {
                proof {
                    lemma_object_view(*pairs);
                }
                let ghost views = pair_views(pairs@);
                assert(views.skip(0) =~= views);
                let mut k: usize = 0;
                while k < pairs.len()
                    invariant
                        k <= pairs@.len(),
                        views == pair_views(pairs@),
                        self@ == JsonView::Object(views),
                        find_member(views, key@) == find_member(views.skip(k as int), key@),
                    decreases pairs@.len() - k,
                {
                    let pair: &(String, Json) = &pairs[k];
                    assert(views.skip(k as int)[0] == (pair.0@, pair.1@));
                    if same_text(pair.0.as_str(), key) {
                        return Some(&pair.1);
                    }
                    assert(views.skip(k as int).drop_first() =~= views.skip(k + 1));
                    k += 1;
                }
                None
            },
            _ => None,
        }
    }

    /// The text of a string.
    pub fn as_str(&self) -> (r: Option<&str>)
        ensures
            match r {
                Some(text) => self@ == JsonView::String(text@),
                None => !(self@ is String),
            },
    {
        match self {
            Json::String(text) => Some(text.as_str()),
            _ => None,
        }
    }

    /// The text of a number, as it was written.
    pub fn as_number(&self) -> (r: Option<&str>)
        ensures
            match r {
                Some(text) => self@ == JsonView::Number(text@),
                None => !(self@ is Number),
            },
    {
        match self {
            Json::Number(text) => Some(text.as_str()),
            _ => None,
        }
    }

    /// The number as a count: its nearest double, cut to an integer in the range of `usize`.
    pub fn as_usize(&self) -> (r: Option<usize>)
        ensures
            match self@ {
                JsonView::Number(text) => r is Some && r->0 == decimal_of(text).counted(
                    usize::MAX as nat,
                ),
                _ => r is None,
            },
    {
        match self {
            Json::Number(text) => {
                let n = counted(text.as_str());
                if n > usize::MAX as u64 {
                    Some(usize::MAX)
                } else {
                    Some(n as usize)
                }
            },
            _ => None,
        }
    }

    /// The number as a count: its nearest double, cut to an integer in the range of `u64`.
    pub fn as_u64(&self) -> (r: Option<u64>)
        ensures
            match self@ {
                JsonView::Number(text) => r is Some && r->0 == decimal_of(text).counted(
                    u64::MAX as nat,
                ),
                _ => r is None,
            },
    {
        match self {
            Json::Number(text) => Some(counted(text.as_str())),
            _ => None,
        }
    }

    /// The truth value.
    pub fn as_bool(&self) -> (r: Option<bool>)
        ensures
            match r {
                Some(b) => self@ == JsonView::Bool(b),
                None => !(self@ is Bool),
            },
    {
        match self {
            Json::Bool(b) => Some(*b),
            _ => None,
        }
    }

    /// The items of an array.
    pub fn as_array(&self) -> (r: Option<&[Json]>)
        ensures
            match r {
                Some(items) => self@ == JsonView::Array(item_views(items@)),
                None => !(self@ is Array),
            },
    {
        match self {
            Json::Array(items) => {
                proof {
                    lemma_array_view(*items);
                }
                Some(items.as_slice())
            },
            _ => None,
        }
    }
}

/// The hexadecimal digit, in lower case, for `d < 16`.
pub open spec fn hex_digit(d: nat) -> char {
    if d < 10 {
        (48 + d) as char
    } else {
        (87 + d) as char
    }
}

/// How a character is written inside a JSON string.
pub open spec fn escaped_char(c: char) -> Seq<char> {
    if c == '"' {
        seq!['\\', '"']
    } else if c == '\\' {
        seq!['\\', '\\']
    } else if c == '\n' {
        seq!['\\', 'n']
    } else if c == '\r' {
        seq!['\\', 'r']
    } else if c == '\t' {
        seq!['\\', 't']
    } else if (c as u32) < 32 {
        seq!['\\', 'u', '0', '0', hex_digit(c as nat / 16), hex_digit(c as nat % 16)]
    } else {
        seq![c]
    }
}

/// How a text is written inside a JSON string.
pub open spec fn escaped(text: Seq<char>) -> Seq<char>
    decreases text.len(),
{
    if text.len() == 0 {
        seq![]
    } else {
        escaped_char(text[0]) + escaped(text.drop_first())
    }
}

/// Writes `text` as the inside of a JSON string.
pub fn escape(text: &str) -> (r: String)
    ensures
        r@ == escaped(text@),
{
    let mut o = String::new();
    let ghost all = text@;
    assert(all.skip(0) =~= all);
    assert(o@ + escaped(all) =~= escaped(all));
    for c in it: text.chars()
        invariant
            it.seq() == all,
            escaped(all) == o@ + escaped(all.skip(it.index() as int)),
    {
        let ghost before = o@;
        push_escaped(&mut o, c);
        proof {
            let rest = all.skip(it.index() as int);
            assert(rest[0] == c);
            assert(rest.drop_first() =~= all.skip(it.index() + 1));
            assert(before + (escaped_char(c) + escaped(rest.drop_first())) =~= o@ + escaped(
                rest.drop_first(),
            ));
        }
    }
    assert(all.skip(all.len() as int) =~= seq![]);
    assert(o@ + escaped(seq![]) =~= o@);
    o
}

/// Writes one character as it stands inside a JSON string.
fn push_escaped(o: &mut String, c: char)
    ensures
        final(o)@ == old(o)@ + escaped_char(c),
{
    if c == '"' {
        o.push('\\');
        o.push('"');
    } else if c == '\\' {
        o.push('\\');
        o.push('\\');
    } else if c == '\n' {
        o.push('\\');
        o.push('n');
    } else if c == '\r' {
        o.push('\\');
        o.push('r');
    } else if c == '\t' {
        o.push('\\');
        o.push('t');
    } else if (c as u32) < 32 {
        let code = (c as u32) as u8;
        o.push('\\');
        o.push('u');
        o.push('0');
        o.push('0');
        o.push(hex_digit_of(code / 16));
        o.push(hex_digit_of(code % 16));
    } else {
        o.push(c);
    }
    assert(o@ =~= old(o)@ + escaped_char(c));
}

fn hex_digit_of(d: u8) -> (r: char)
    requires
        d < 16,
    ensures
        r == hex_digit(d as nat),
{
    if d < 10 {
        (48 + d) as char
    } else {
        (87 + d) as char
    }
}

/// Does member `i` have the name `key`, and none before it?
pub open spec fn first_named(pairs: Seq<(Seq<char>, JsonView)>, key: Seq<char>, i: int) -> bool {
    &&& 0 <= i < pairs.len()
    &&& pairs[i].0 == key
    &&& forall|k: int| 0 <= k < i ==> (#[trigger] pairs[k]).0 != key
}

/// A member is found by its name: the first that has it, if there is one.
pub proof fn law_member_is_found_by_its_name(pairs: Seq<(Seq<char>, JsonView)>, key: Seq<char>)
    ensures
        match JsonView::Object(pairs).get(key) {
            Some(v) => exists|i: int| #[trigger] first_named(pairs, key, i) && v == pairs[i].1,
            None => forall|k: int| 0 <= k < pairs.len() ==> (#[trigger] pairs[k]).0 != key,
        },
        forall|i: int| #[trigger]
            first_named(pairs, key, i) ==> JsonView::Object(pairs).get(key) == Some(pairs[i].1),
    decreases pairs.len(),
{
    if pairs.len() > 0 {
        let rest = pairs.drop_first();
        law_member_is_found_by_its_name(rest, key);
        assert forall|k: int| 0 < k < pairs.len() implies #[trigger] pairs[k] == rest[k - 1] by {}
        if pairs[0].0 == key {
            assert(first_named(pairs, key, 0));
        } else {
            assert forall|i: int| #[trigger] first_named(pairs, key, i) implies first_named(
                rest,
                key,
                i - 1,
            ) by {
                assert forall|k: int| 0 <= k < i - 1 implies (#[trigger] rest[k]).0 != key by {
                    assert(pairs[k + 1] == rest[k]);
                }
            }
            if find_member(rest, key) is Some {
                let i = choose|i: int| #[trigger]
                    first_named(rest, key, i) && find_member(rest, key) == Some(rest[i].1);
                assert forall|k: int| 0 <= k < i + 1 implies (#[trigger] pairs[k]).0 != key by {
                    if k > 0 {
                        assert(rest[k - 1] == pairs[k]);
                    }
                }
                assert(first_named(pairs, key, i + 1));
            }
        }
    }
}

} // verus!
