//! White space round a JSON text does not matter, and nothing else may stand behind a value.

use vstd::prelude::*;
use vstd::string::*;
use vstd::utf8::*;

use crate::json::{
    byte_at, char_at, digits_end, document, elements_at, eof_message, exponent_end, exponent_start, fraction_end,
    has_exponent, hex_number, hex_value, is_digit, is_ws, lemma_digits_end, lemma_string_end,
    lemma_value_end, lemma_ws_end, literal_at, members_at, number_at, prepend, short_escape, sign_end,
    string_at, string_body, value_at, ws_end, JsonView, Parsed,
};
use crate::text::{decimal_text, lemma_encode_sum};

verus! {

/// Is a text made of the white space that JSON knows?
pub open spec fn is_blank(text: Seq<char>) -> bool {
    forall|k: int| 0 <= k < text.len() ==> is_blank_char(#[trigger] text[k])
}

pub open spec fn is_blank_char(c: char) -> bool {
    c == ' ' || c == '\n' || c == '\r' || c == '\t'
}

/// Are bytes all white space?
spec fn all_ws(s: Seq<u8>) -> bool {
    forall|k: int| 0 <= k < s.len() ==> is_ws(#[trigger] s[k])
}

/// A result with its end moved by `n`.
spec fn moved<T>(p: Parsed<T>, n: int) -> Parsed<T> {
    match p {
        Ok((v, j)) => Ok((v, j + n)),
        Err(message) => Err(message),
    }
}

proof fn lemma_ws_moved(a: Seq<u8>, s: Seq<u8>, i: int)
    requires
        0 <= i,
    ensures
        ws_end(a + s, a.len() + i) == a.len() + ws_end(s, i),
    decreases s.len() - i,
{
    if i < s.len() {
        assert((a + s)[a.len() + i] == s[i]);
        if is_ws(s[i]) {
            lemma_ws_moved(a, s, i + 1);
        }
    }
}

proof fn lemma_digits_moved(a: Seq<u8>, s: Seq<u8>, i: int)
    requires
        0 <= i,
    ensures
        digits_end(a + s, a.len() + i) == a.len() + digits_end(s, i),
    decreases s.len() - i,
{
    if i < s.len() {
        assert((a + s)[a.len() + i] == s[i]);
        if is_digit(s[i]) {
            lemma_digits_moved(a, s, i + 1);
        }
    }
}

proof fn lemma_byte_moved(a: Seq<u8>, s: Seq<u8>, i: int, b: u8)
    requires
        0 <= i,
    ensures
        byte_at(a + s, a.len() + i, b) == byte_at(s, i, b),
{
    if i < s.len() {
        assert((a + s)[a.len() + i] == s[i]);
    }
}

proof fn lemma_number_moved(a: Seq<u8>, s: Seq<u8>, i: int)
    requires
        0 <= i < s.len(),
    ensures
        number_at(a + s, a.len() + i) == moved(number_at(s, i), a.len() as int),
{
    let n = a.len();
    let whole = sign_end(s, i);
    lemma_byte_moved(a, s, i, 0x2d);
    lemma_digits_moved(a, s, whole);
    lemma_digits_end(s, whole);
    let point = digits_end(s, whole);
    lemma_byte_moved(a, s, point, 0x2e);
    lemma_digits_moved(a, s, point + 1);
    lemma_digits_end(s, point + 1);
    let exp = fraction_end(s, point);
    lemma_byte_moved(a, s, exp, 0x65);
    lemma_byte_moved(a, s, exp, 0x45);
    lemma_byte_moved(a, s, exp + 1, 0x2b);
    lemma_byte_moved(a, s, exp + 1, 0x2d);
    lemma_digits_moved(a, s, exponent_start(s, exp));
    lemma_digits_end(s, exponent_start(s, exp));
    let end = exponent_end(s, exp);
    assert(i <= end <= s.len());
    assert((a + s).subrange(n + i, n + end) =~= s.subrange(i, end));
}

proof fn lemma_char_moved(a: Seq<u8>, s: Seq<u8>, i: int)
    requires
        0 <= i < s.len(),
    ensures
        char_at(a + s, a.len() + i) == moved(char_at(s, i), a.len() as int),
{
    let n = a.len();
    let all = a + s;
    assert(all[n + i] == s[i]);
    assert(all.subrange(n + i, all.len() as int) =~= s.subrange(i, s.len() as int));
    if i + 1 < s.len() {
        assert(all[n + i + 1] == s[i + 1]);
        if i + 6 <= s.len() {
            assert(all.subrange(n + i + 2, n + i + 6) =~= s.subrange(i + 2, i + 6));
        }
    }
}

proof fn lemma_string_moved(a: Seq<u8>, s: Seq<u8>, i: int)
    requires
        0 <= i,
    ensures
        string_body(a + s, a.len() + i) == moved(string_body(s, i), a.len() as int),
    decreases s.len() - i,
{
    if i < s.len() {
        assert((a + s)[a.len() + i] == s[i]);
        lemma_char_moved(a, s, i);
        if let Ok((c, j)) = char_at(s, i) {
            lemma_char_end(s, i);
            lemma_string_moved(a, s, j);
        }
    }
}

/// A character ends behind where it starts.
proof fn lemma_char_end(s: Seq<u8>, i: int)
    requires
        0 <= i < s.len(),
    ensures
        char_at(s, i) matches Ok((_, j)) ==> i < j <= s.len(),
{
}

proof fn lemma_string_at_moved(a: Seq<u8>, s: Seq<u8>, i: int)
    requires
        0 <= i,
    ensures
        string_at(a + s, a.len() + i) == moved(string_at(s, i), a.len() as int),
{
    if i < s.len() {
        assert((a + s)[a.len() + i] == s[i]);
        lemma_string_moved(a, s, i + 1);
    }
}

proof fn lemma_literal_moved(a: Seq<u8>, s: Seq<u8>, i: int, word: &str, v: JsonView)
    requires
        0 <= i,
    ensures
        literal_at(a + s, a.len() + i, word, v) == moved(literal_at(s, i, word, v), a.len() as int),
{
    let n = word.spec_bytes().len();
    if i + n <= s.len() {
        assert((a + s).subrange(a.len() + i, a.len() + i + n) =~= s.subrange(i, i + n));
    }
}

/// A value is the same wherever it stands.
#[verifier::spinoff_prover]
proof fn lemma_value_moved(a: Seq<u8>, s: Seq<u8>, i: int)
    requires
        0 <= i,
    ensures
        value_at(a + s, a.len() + i) == moved(value_at(s, i), a.len() as int),
    decreases s.len() - i, 0nat,
{
    let n = a.len();
    lemma_ws_end(s, i);
    lemma_ws_moved(a, s, i);
    let k = ws_end(s, i);
    if k < s.len() {
        assert((a + s)[n + k] == s[k]);
        lemma_ws_end(s, k + 1);
        lemma_ws_moved(a, s, k + 1);
        let first = ws_end(s, k + 1);
        if s[k] == 0x6e {
            lemma_literal_moved(a, s, k, "null", JsonView::Null);
        } else if s[k] == 0x74 {
            lemma_literal_moved(a, s, k, "true", JsonView::Bool(true));
        } else if s[k] == 0x66 {
            lemma_literal_moved(a, s, k, "false", JsonView::Bool(false));
        } else if s[k] == 0x22 {
            lemma_string_at_moved(a, s, k);
        } else if s[k] == 0x5b {
            lemma_byte_moved(a, s, first, 0x5d);
            lemma_elements_moved(a, s, first);
        } else if s[k] == 0x7b {
            lemma_byte_moved(a, s, first, 0x7d);
            lemma_members_moved(a, s, first);
        } else if s[k] == 0x2d || is_digit(s[k]) {
            lemma_number_moved(a, s, k);
        }
    }
}

#[verifier::spinoff_prover]
proof fn lemma_elements_moved(a: Seq<u8>, s: Seq<u8>, i: int)
    requires
        0 <= i,
    ensures
        elements_at(a + s, a.len() + i) == moved(elements_at(s, i), a.len() as int),
    decreases s.len() - i, 1nat,
{
    lemma_value_moved(a, s, i);
    lemma_value_end(s, i);
    if let Ok((v, j)) = value_at(s, i) {
        lemma_ws_end(s, j);
        lemma_ws_moved(a, s, j);
        let m = ws_end(s, j);
        if m < s.len() {
            assert((a + s)[a.len() + m] == s[m]);
            lemma_ws_end(s, m + 1);
            lemma_ws_moved(a, s, m + 1);
            if s[m] == 0x2c {
                lemma_elements_moved(a, s, ws_end(s, m + 1));
            }
        }
    }
}

/// The members from the one on whose colon is at `c`, where `p` is its value and `more` are the
/// members behind it.
spec fn members_from(
    s: Seq<u8>,
    key: Seq<char>,
    c: int,
    p: Parsed<JsonView>,
    more: Parsed<Seq<(Seq<char>, JsonView)>>,
) -> Parsed<Seq<(Seq<char>, JsonView)>> {
    match p {
        Ok((v, n)) => {
            let m = ws_end(s, n);
            if !(c < n) || m >= s.len() {
                Err(eof_message())
            } else if s[m] == 0x7d {
                Ok((seq![(key, v)], m + 1))
            } else if s[m] == 0x2c {
                prepend(seq![(key, v)], more)
            } else {
                Err("expected comma or }, got "@ + decimal_text(s[m] as nat))
            }
        },
        Err(message) => Err(message),
    }
}

/// The members at `i`, if there is a key and a colon.
proof fn lemma_members_from(s: Seq<u8>, i: int)
    requires
        string_at(s, i) is Ok,
        i < string_at(s, i)->Ok_0.1,
        byte_at(s, ws_end(s, string_at(s, i)->Ok_0.1), 0x3a),
    ensures
        ({
            let (key, j) = string_at(s, i)->Ok_0;
            let c = ws_end(s, j);
            let p = value_at(s, c + 1);
            members_at(s, i) == members_from(
                s,
                key,
                c,
                p,
                members_at(s, ws_end(s, ws_end(s, p->Ok_0.1) + 1)),
            )
        }),
{
}

proof fn lemma_members_from_moved(
    a: Seq<u8>,
    s: Seq<u8>,
    key: Seq<char>,
    c: int,
    p: Parsed<JsonView>,
    more: Parsed<Seq<(Seq<char>, JsonView)>>,
)
    requires
        p matches Ok((_, n)) ==> 0 <= n,
    ensures
        members_from(
            a + s,
            key,
            a.len() + c,
            moved(p, a.len() as int),
            moved(more, a.len() as int),
        ) == moved(members_from(s, key, c, p, more), a.len() as int),
{
    if let Ok((v, n)) = p {
        lemma_ws_moved(a, s, n);
        lemma_ws_end(s, n);
        let m = ws_end(s, n);
        if m < s.len() {
            assert((a + s)[a.len() + m] == s[m]);
        }
    }
}

/// Where the next member starts.
proof fn lemma_next_moved(a: Seq<u8>, s: Seq<u8>, n: int)
    requires
        0 <= n,
    ensures
        ws_end(a + s, ws_end(a + s, a.len() + n) + 1) == a.len() + ws_end(s, ws_end(s, n) + 1),
        n < ws_end(s, ws_end(s, n) + 1),
{
    lemma_ws_end(s, n);
    lemma_ws_moved(a, s, n);
    lemma_ws_end(s, ws_end(s, n) + 1);
    lemma_ws_moved(a, s, ws_end(s, n) + 1);
}

#[verifier::spinoff_prover]
proof fn lemma_members_moved(a: Seq<u8>, s: Seq<u8>, i: int)
    requires
        0 <= i,
    ensures
        members_at(a + s, a.len() + i) == moved(members_at(s, i), a.len() as int),
    decreases s.len() - i, 1nat,
{
    lemma_string_at_moved(a, s, i);
    if let Ok((key, j)) = string_at(s, i) {
        lemma_string_end(s, i);
        lemma_ws_end(s, j);
        lemma_ws_moved(a, s, j);
        let c = ws_end(s, j);
        lemma_byte_moved(a, s, c, 0x3a);
        if byte_at(s, c, 0x3a) {
            lemma_members_from(s, i);
            lemma_members_from(a + s, a.len() + i);
            lemma_value_moved(a, s, c + 1);
            lemma_value_end(s, c + 1);
            let p = value_at(s, c + 1);
            if let Ok((v, n)) = p {
                lemma_ws_end(s, n);
                lemma_next_moved(a, s, n);
                let next = ws_end(s, ws_end(s, n) + 1);
                if ws_end(s, n) < s.len() {
                    lemma_ws_end(s, ws_end(s, n) + 1);
                    lemma_members_moved(a, s, next);
                }
                lemma_members_from_moved(a, s, key, c, p, members_at(s, next));
            }
        }
    }
}

/// Can a number not go on with these bytes?
spec fn stops_number(t: Seq<u8>) -> bool {
    t.len() > 0 ==> !is_digit(t[0]) && t[0] != 0x2e && t[0] != 0x65 && t[0] != 0x45 && t[0] != 0x2b
        && t[0] != 0x2d
}

/// More behind a text: white space ends where it did, unless it went to the end.
proof fn lemma_ws_more(s: Seq<u8>, t: Seq<u8>, i: int)
    requires
        0 <= i <= s.len(),
    ensures
        ws_end(s, i) < s.len() ==> ws_end(s + t, i) == ws_end(s, i),
        ws_end(s, i) == s.len() ==> ws_end(s + t, i) == ws_end(s + t, s.len() as int),
    decreases s.len() - i,
{
    lemma_ws_end(s, i);
    if i < s.len() {
        assert((s + t)[i] == s[i]);
        if is_ws(s[i]) {
            lemma_ws_more(s, t, i + 1);
        }
    }
}

/// White space goes to the end if there is nothing else.
proof fn lemma_ws_to_end(s: Seq<u8>, i: int)
    requires
        0 <= i <= s.len(),
        all_ws(s.skip(i)),
    ensures
        ws_end(s, i) == s.len(),
    decreases s.len() - i,
{
    if i < s.len() {
        assert(s.skip(i)[0] == s[i]);
        assert forall|k: int| 0 <= k < s.skip(i + 1).len() implies is_ws(#[trigger] s.skip(i + 1)[k]) by {
            assert(s.skip(i)[k + 1] == s.skip(i + 1)[k]);
        }
        lemma_ws_to_end(s, i + 1);
    }
}

/// White space ends before anything else.
proof fn lemma_ws_before(s: Seq<u8>, i: int, k: int)
    requires
        0 <= i <= k < s.len(),
        !is_ws(s[k]),
    ensures
        ws_end(s, i) <= k,
    decreases k - i,
{
    if i < k {
        lemma_ws_before(s, i + 1, k);
    }
}

proof fn lemma_digits_more(s: Seq<u8>, t: Seq<u8>, i: int)
    requires
        0 <= i <= s.len(),
        digits_end(s, i) < s.len() || stops_number(t),
    ensures
        digits_end(s + t, i) == digits_end(s, i),
    decreases s.len() - i,
{
    let all = s + t;
    if i < s.len() {
        assert(all[i] == s[i]);
        if is_digit(s[i]) {
            lemma_digits_more(s, t, i + 1);
        }
    } else if t.len() > 0 {
        assert(all[i] == t[0]);
    }
}

proof fn lemma_byte_more(s: Seq<u8>, t: Seq<u8>, i: int, b: u8)
    requires
        0 <= i <= s.len(),
        i < s.len() || stops_number(t),
        b == 0x2d || b == 0x2e || b == 0x65 || b == 0x45 || b == 0x2b,
    ensures
        byte_at(s + t, i, b) == byte_at(s, i, b),
{
    if i < s.len() {
        assert((s + t)[i] == s[i]);
    } else if t.len() > 0 {
        assert((s + t)[i] == t[0]);
    }
}

/// A number is read the same with more behind it, if it ended before or cannot go on.
proof fn lemma_number_more(s: Seq<u8>, t: Seq<u8>, i: int)
    requires
        0 <= i < s.len(),
        stops_number(t) || (number_at(s, i) is Ok && number_at(s, i)->Ok_0.1 < s.len()),
    ensures
        number_at(s + t, i) == number_at(s, i),
{
    let whole = sign_end(s, i);
    lemma_byte_more(s, t, i, 0x2d);
    lemma_digits_end(s, whole);
    let point = digits_end(s, whole);
    lemma_digits_end(s, point + 1);
    let exp = fraction_end(s, point);
    lemma_digits_end(s, exponent_start(s, exp));
    let end = exponent_end(s, exp);
    assert(whole <= point <= exp <= end <= s.len());
    lemma_digits_more(s, t, whole);
    lemma_byte_more(s, t, point, 0x2e);
    if byte_at(s, point, 0x2e) {
        lemma_digits_more(s, t, point + 1);
    }
    lemma_byte_more(s, t, exp, 0x65);
    lemma_byte_more(s, t, exp, 0x45);
    if has_exponent(s, exp) {
        lemma_byte_more(s, t, exp + 1, 0x2b);
        lemma_byte_more(s, t, exp + 1, 0x2d);
        lemma_digits_more(s, t, exponent_start(s, exp));
    }
    assert((s + t).subrange(i, end) =~= s.subrange(i, end));
}

/// A character is read the same with more behind it.
proof fn lemma_char_more(s: Seq<u8>, t: Seq<u8>, i: int)
    requires
        0 <= i < s.len(),
        valid_utf8(t),
        char_at(s, i) is Ok,
    ensures
        char_at(s + t, i) == char_at(s, i),
{
    let all = s + t;
    assert(all[i] == s[i]);
    if s[i] == 0x5c {
        assert(all[i + 1] == s[i + 1]);
        if short_escape(s[i + 1]) is None {
            assert(all.subrange(i + 2, i + 6) =~= s.subrange(i + 2, i + 6));
        }
    } else if s[i] >= 0x80 {
        let rest = s.subrange(i, s.len() as int);
        assert(all.subrange(i, all.len() as int) =~= rest + t);
        valid_utf8_concat(rest, t);
        assert(valid_first_scalar(rest));
        assert(decode_first_scalar(rest + t) == decode_first_scalar(rest));
    }
}

proof fn lemma_string_more(s: Seq<u8>, t: Seq<u8>, i: int)
    requires
        0 <= i,
        valid_utf8(t),
        string_body(s, i) is Ok,
    ensures
        string_body(s + t, i) == string_body(s, i),
    decreases s.len() - i,
{
    assert((s + t)[i] == s[i]);
    if s[i] != 0x22 {
        lemma_char_more(s, t, i);
        lemma_char_end(s, i);
        lemma_string_more(s, t, char_at(s, i)->Ok_0.1);
    }
}

proof fn lemma_string_at_more(s: Seq<u8>, t: Seq<u8>, i: int)
    requires
        0 <= i,
        valid_utf8(t),
        string_at(s, i) is Ok,
    ensures
        string_at(s + t, i) == string_at(s, i),
{
    assert((s + t)[i] == s[i]);
    lemma_string_more(s, t, i + 1);
}

proof fn lemma_literal_more(s: Seq<u8>, t: Seq<u8>, i: int, word: &str, v: JsonView)
    requires
        0 <= i,
        literal_at(s, i, word, v) is Ok,
    ensures
        literal_at(s + t, i, word, v) == literal_at(s, i, word, v),
{
    let n = word.spec_bytes().len();
    assert((s + t).subrange(i, i + n) =~= s.subrange(i, i + n));
}

/// A value is read the same with more behind it; a number only if it ended before or cannot go on.
#[verifier::spinoff_prover]
proof fn lemma_value_more(s: Seq<u8>, t: Seq<u8>, i: int)
    requires
        0 <= i <= s.len(),
        valid_utf8(t),
        value_at(s, i) matches Ok((v, j)) && (v is Number && j == s.len() ==> stops_number(t)),
    ensures
        value_at(s + t, i) == value_at(s, i),
    decreases s.len() - i, 0nat,
{
    lemma_ws_end(s, i);
    lemma_ws_more(s, t, i);
    lemma_value_end(s, i);
    let k = ws_end(s, i);
    assert((s + t)[k] == s[k]);
    lemma_ws_end(s, k + 1);
    lemma_ws_more(s, t, k + 1);
    let first = ws_end(s, k + 1);
    if s[k] == 0x6e {
        lemma_literal_more(s, t, k, "null", JsonView::Null);
    } else if s[k] == 0x74 {
        lemma_literal_more(s, t, k, "true", JsonView::Bool(true));
    } else if s[k] == 0x66 {
        lemma_literal_more(s, t, k, "false", JsonView::Bool(false));
    } else if s[k] == 0x22 {
        lemma_string_at_more(s, t, k);
    } else if s[k] == 0x5b {
        if first >= s.len() {
            lemma_nothing_at_end(s, first);
        }
        assert((s + t)[first] == s[first]);
        if s[first] != 0x5d {
            lemma_elements_more(s, t, first);
        }
    } else if s[k] == 0x7b {
        if first >= s.len() {
            lemma_nothing_at_end(s, first);
        }
        assert((s + t)[first] == s[first]);
        if s[first] != 0x7d {
            lemma_members_more(s, t, first);
        }
    } else {
        lemma_number_more(s, t, k);
    }
}

/// Nothing stands behind the end.
proof fn lemma_nothing_at_end(s: Seq<u8>, i: int)
    requires
        i >= s.len(),
    ensures
        value_at(s, i) is Err,
        elements_at(s, i) is Err,
        members_at(s, i) is Err,
{
    lemma_ws_end(s, i);
}

#[verifier::spinoff_prover]
proof fn lemma_elements_more(s: Seq<u8>, t: Seq<u8>, i: int)
    requires
        0 <= i <= s.len(),
        valid_utf8(t),
        elements_at(s, i) is Ok,
    ensures
        elements_at(s + t, i) == elements_at(s, i),
    decreases s.len() - i, 1nat,
{
    let (v, j) = value_at(s, i)->Ok_0;
    lemma_value_end(s, i);
    lemma_ws_end(s, j);
    let m = ws_end(s, j);
    lemma_value_more(s, t, i);
    lemma_ws_more(s, t, j);
    assert((s + t)[m] == s[m]);
    lemma_ws_end(s, m + 1);
    lemma_ws_more(s, t, m + 1);
    if s[m] == 0x2c {
        let next = ws_end(s, m + 1);
        if next == s.len() {
            lemma_nothing_at_end(s, next);
        }
        lemma_elements_more(s, t, next);
    }
}

#[verifier::spinoff_prover]
proof fn lemma_members_more(s: Seq<u8>, t: Seq<u8>, i: int)
    requires
        0 <= i <= s.len(),
        valid_utf8(t),
        members_at(s, i) is Ok,
    ensures
        members_at(s + t, i) == members_at(s, i),
    decreases s.len() - i, 1nat,
{
    let (key, j) = string_at(s, i)->Ok_0;
    lemma_string_end(s, i);
    lemma_string_at_more(s, t, i);
    lemma_ws_end(s, j);
    lemma_ws_more(s, t, j);
    let c = ws_end(s, j);
    assert((s + t)[c] == s[c]);
    let (v, n) = value_at(s, c + 1)->Ok_0;
    lemma_value_end(s, c + 1);
    lemma_ws_end(s, n);
    let m = ws_end(s, n);
    lemma_value_more(s, t, c + 1);
    lemma_ws_more(s, t, n);
    assert((s + t)[m] == s[m]);
    lemma_ws_end(s, m + 1);
    lemma_ws_more(s, t, m + 1);
    if s[m] == 0x2c {
        let next = ws_end(s, m + 1);
        if next == s.len() {
            lemma_nothing_at_end(s, next);
        }
        lemma_members_more(s, t, next);
    }
}

/// White space is UTF-8, and no number goes on with it.
proof fn lemma_ws_bytes(t: Seq<u8>)
    requires
        all_ws(t),
    ensures
        valid_utf8(t),
        stops_number(t),
    decreases t.len(),
{
    if t.len() > 0 {
        let rest = pop_first_scalar(t);
        assert(is_ws(t[0]));
        assert(rest =~= t.skip(1));
        assert forall|k: int| 0 <= k < rest.len() implies is_ws(#[trigger] rest[k]) by {
            assert(rest[k] == t[k + 1]);
        }
        lemma_ws_bytes(rest);
        let b = t[0];
        assert(b & 0x7f == b) by (bit_vector)
            requires
                b < 0x80,
        ;
    }
}

/// Bytes that are not UTF-8 are none with white space behind them.
proof fn lemma_invalid_stays(x: Seq<u8>, t: Seq<u8>)
    requires
        !valid_utf8(x),
        all_ws(t),
    ensures
        !valid_utf8(x + t),
{
    let all = x + t;
    if t.len() == 0 {
        assert(all =~= x);
    } else if valid_utf8(all) {
        assert(all[x.len() as int] == t[0]);
        is_char_boundary_iff_not_is_continuation_byte(all, x.len() as int);
        valid_utf8_split(all, x.len() as int);
        assert(all.subrange(0, x.len() as int) =~= x);
    }
}

/// No quote comes in white space.
proof fn lemma_string_in_ws(s: Seq<u8>, i: int)
    requires
        0 <= i <= s.len(),
        all_ws(s.skip(i)),
    ensures
        string_body(s, i) is Err,
    decreases s.len() - i,
{
    if i < s.len() {
        assert(s.skip(i)[0] == s[i]);
        assert forall|k: int| 0 <= k < s.skip(i + 1).len() implies is_ws(#[trigger] s.skip(i + 1)[k]) by {
            assert(s.skip(i)[k + 1] == s.skip(i + 1)[k]);
        }
        lemma_string_in_ws(s, i + 1);
    }
}

/// What holds something else than a hexadecimal digit spells no number.
pub proof fn lemma_not_hex(bytes: Seq<u8>, k: int)
    requires
        0 <= k < bytes.len(),
        hex_value(bytes[k]) is None,
    ensures
        hex_number(bytes) is None,
    decreases bytes.len(),
{
    if k < bytes.len() - 1 {
        lemma_not_hex(bytes.drop_last(), k);
    }
}

/// A character that is refused is refused with white space behind it.
proof fn lemma_char_less(s: Seq<u8>, t: Seq<u8>, i: int)
    requires
        0 <= i < s.len(),
        all_ws(t),
        char_at(s, i) is Err,
    ensures
        char_at(s + t, i) is Err,
{
    let all = s + t;
    assert(all[i] == s[i]);
    if s[i] == 0x5c {
        if i + 1 < s.len() {
            assert(all[i + 1] == s[i + 1]);
            if s[i + 1] == 0x75 && i + 6 <= all.len() {
                let bytes = all.subrange(i + 2, i + 6);
                if i + 6 <= s.len() {
                    assert(bytes =~= s.subrange(i + 2, i + 6));
                } else {
                    let k = s.len() - (i + 2);
                    assert(bytes[k] == t[0]);
                    assert(is_ws(t[0]));
                    lemma_not_hex(bytes, k);
                    if k > 0 {
                        assert(bytes.drop_first()[k - 1] == bytes[k]);
                        lemma_not_hex(bytes.drop_first(), k - 1);
                    }
                }
            }
        } else if t.len() > 0 {
            assert(all[i + 1] == t[0]);
            assert(is_ws(t[0]));
        }
    } else if s[i] >= 0x80 {
        let rest = s.subrange(i, s.len() as int);
        assert(all.subrange(i, all.len() as int) =~= rest + t);
        lemma_invalid_stays(rest, t);
    }
}

proof fn lemma_string_less(s: Seq<u8>, t: Seq<u8>, i: int)
    requires
        0 <= i <= s.len(),
        all_ws(t),
        string_body(s, i) is Err,
    ensures
        string_body(s + t, i) is Err,
    decreases s.len() - i,
{
    if i == s.len() {
        assert((s + t).skip(i) =~= t);
        lemma_string_in_ws(s + t, i);
    } else {
        assert((s + t)[i] == s[i]);
        if char_at(s, i) is Ok {
            lemma_ws_bytes(t);
            lemma_char_more(s, t, i);
            lemma_char_end(s, i);
            lemma_string_less(s, t, char_at(s, i)->Ok_0.1);
        } else {
            lemma_char_less(s, t, i);
        }
    }
}

proof fn lemma_string_at_less(s: Seq<u8>, t: Seq<u8>, i: int)
    requires
        0 <= i <= s.len(),
        all_ws(t),
        string_at(s, i) is Err,
    ensures
        string_at(s + t, i) is Err,
{
    let all = s + t;
    if i < s.len() {
        assert(all[i] == s[i]);
        if s[i] == 0x22 {
            lemma_string_less(s, t, i + 1);
        }
    } else if t.len() > 0 {
        assert(all[i] == t[0]);
        assert(is_ws(t[0]));
    }
}

proof fn lemma_literal_less(s: Seq<u8>, t: Seq<u8>, i: int, word: &str, v: JsonView)
    requires
        0 <= i <= s.len(),
        all_ws(t),
        forall|k: int| 0 <= k < word.spec_bytes().len() ==> !is_ws(#[trigger] word.spec_bytes()[k]),
        literal_at(s, i, word, v) is Err,
    ensures
        literal_at(s + t, i, word, v) is Err,
{
    let all = s + t;
    let bytes = word.spec_bytes();
    let n = bytes.len();
    if i + n <= s.len() {
        assert(all.subrange(i, i + n) =~= s.subrange(i, i + n));
    } else if i + n <= all.len() {
        let k = s.len() - i;
        assert(all.subrange(i, i + n)[k] == t[0]);
        assert(is_ws(t[0]) && !is_ws(bytes[k]));
    }
}

/// The words of JSON hold no white space.
proof fn lemma_words()
    ensures
        forall|k: int| 0 <= k < "null".spec_bytes().len() ==> !is_ws(#[trigger] "null".spec_bytes()[k]),
        forall|k: int| 0 <= k < "true".spec_bytes().len() ==> !is_ws(#[trigger] "true".spec_bytes()[k]),
        forall|k: int|
            0 <= k < "false".spec_bytes().len() ==> !is_ws(#[trigger] "false".spec_bytes()[k]),
{
    reveal_strlit("null");
    reveal_strlit("true");
    reveal_strlit("false");
    is_ascii_chars_encode_utf8("null"@);
    is_ascii_chars_encode_utf8("true"@);
    is_ascii_chars_encode_utf8("false"@);
}

/// White space behind a text goes to the end.
proof fn lemma_ws_behind(s: Seq<u8>, t: Seq<u8>, i: int)
    requires
        0 <= i <= s.len(),
        all_ws(t),
    ensures
        ws_end(s, i) < s.len() ==> ws_end(s + t, i) == ws_end(s, i),
        ws_end(s, i) == s.len() ==> ws_end(s + t, i) == (s + t).len(),
{
    lemma_ws_more(s, t, i);
    assert((s + t).skip(s.len() as int) =~= t);
    lemma_ws_to_end(s + t, s.len() as int);
}

/// What is refused is refused with white space behind it.
#[verifier::spinoff_prover]
proof fn lemma_value_less(s: Seq<u8>, t: Seq<u8>, i: int)
    requires
        0 <= i <= s.len(),
        all_ws(t),
        value_at(s, i) is Err,
    ensures
        value_at(s + t, i) is Err,
    decreases s.len() - i, 0nat,
{
    let all = s + t;
    lemma_ws_end(s, i);
    lemma_ws_behind(s, t, i);
    let k = ws_end(s, i);
    if k < s.len() {
        assert(all[k] == s[k]);
        lemma_ws_end(s, k + 1);
        lemma_ws_behind(s, t, k + 1);
        lemma_words();
        lemma_ws_bytes(t);
        let first = ws_end(s, k + 1);
        if s[k] == 0x6e {
            lemma_literal_less(s, t, k, "null", JsonView::Null);
        } else if s[k] == 0x74 {
            lemma_literal_less(s, t, k, "true", JsonView::Bool(true));
        } else if s[k] == 0x66 {
            lemma_literal_less(s, t, k, "false", JsonView::Bool(false));
        } else if s[k] == 0x22 {
            lemma_string_at_less(s, t, k);
        } else if s[k] == 0x5b {
            if first < s.len() {
                assert(all[first] == s[first]);
                lemma_elements_less(s, t, first);
            } else {
                lemma_nothing_at_end(all, all.len() as int);
            }
        } else if s[k] == 0x7b {
            if first < s.len() {
                assert(all[first] == s[first]);
                lemma_members_less(s, t, first);
            } else {
                lemma_nothing_at_end(all, all.len() as int);
            }
        } else if s[k] == 0x2d || is_digit(s[k]) {
            lemma_number_more(s, t, k);
        }
    }
}

#[verifier::spinoff_prover]
proof fn lemma_elements_less(s: Seq<u8>, t: Seq<u8>, i: int)
    requires
        0 <= i <= s.len(),
        all_ws(t),
        elements_at(s, i) is Err,
    ensures
        elements_at(s + t, i) is Err,
    decreases s.len() - i, 1nat,
{
    let all = s + t;
    if value_at(s, i) is Err {
        lemma_value_less(s, t, i);
    } else {
        let (v, j) = value_at(s, i)->Ok_0;
        lemma_ws_bytes(t);
        lemma_value_end(s, i);
        lemma_value_more(s, t, i);
        lemma_ws_end(s, j);
        lemma_ws_behind(s, t, j);
        let m = ws_end(s, j);
        if m < s.len() {
            assert(all[m] == s[m]);
            lemma_ws_end(s, m + 1);
            lemma_ws_behind(s, t, m + 1);
            if s[m] == 0x2c {
                let next = ws_end(s, m + 1);
                if next < s.len() {
                    lemma_elements_less(s, t, next);
                } else {
                    lemma_nothing_at_end(all, all.len() as int);
                }
            }
        }
    }
}

#[verifier::spinoff_prover]
proof fn lemma_members_less(s: Seq<u8>, t: Seq<u8>, i: int)
    requires
        0 <= i <= s.len(),
        all_ws(t),
        members_at(s, i) is Err,
    ensures
        members_at(s + t, i) is Err,
    decreases s.len() - i, 1nat,
{
    let all = s + t;
    lemma_ws_bytes(t);
    if string_at(s, i) is Err {
        lemma_string_at_less(s, t, i);
    } else {
        let (key, j) = string_at(s, i)->Ok_0;
        lemma_string_end(s, i);
        lemma_string_at_more(s, t, i);
        lemma_ws_end(s, j);
        lemma_ws_behind(s, t, j);
        let c = ws_end(s, j);
        if c < s.len() {
            assert(all[c] == s[c]);
            if s[c] == 0x3a {
                if value_at(s, c + 1) is Err {
                    lemma_value_less(s, t, c + 1);
                } else {
                    let (v, n) = value_at(s, c + 1)->Ok_0;
                    lemma_value_end(s, c + 1);
                    lemma_value_more(s, t, c + 1);
                    lemma_ws_end(s, n);
                    lemma_ws_behind(s, t, n);
                    let m = ws_end(s, n);
                    if m < s.len() {
                        assert(all[m] == s[m]);
                        lemma_ws_end(s, m + 1);
                        lemma_ws_behind(s, t, m + 1);
                        if s[m] == 0x2c {
                            let next = ws_end(s, m + 1);
                            if next < s.len() {
                                lemma_members_less(s, t, next);
                            } else {
                                lemma_nothing_at_end(all, all.len() as int);
                            }
                        }
                    }
                }
            }
        }
    }
}

/// White space behind a document does not matter.
proof fn lemma_document_behind(s: Seq<u8>, t: Seq<u8>)
    requires
        all_ws(t),
    ensures
        document(s + t) is Ok <==> document(s) is Ok,
        document(s) is Ok ==> document(s + t) == document(s),
{
    if value_at(s, 0) is Ok {
        let j = value_at(s, 0)->Ok_0.1;
        lemma_ws_bytes(t);
        lemma_value_end(s, 0);
        lemma_value_more(s, t, 0);
        lemma_ws_end(s, j);
        lemma_ws_behind(s, t, j);
    } else {
        lemma_value_less(s, t, 0);
    }
}

/// White space before a document does not matter.
proof fn lemma_document_before(a: Seq<u8>, s: Seq<u8>)
    requires
        all_ws(a),
    ensures
        document(a + s) == document(s),
{
    let all = a + s;
    let n = a.len() as int;
    lemma_skip_front(a, s, 0);
    lemma_ws_moved(a, s, 0);
    lemma_value_moved(a, s, 0);
    assert(value_at(all, 0) == value_at(all, n));
    if value_at(s, 0) is Ok {
        lemma_value_end(s, 0);
        lemma_ws_moved(a, s, value_at(s, 0)->Ok_0.1);
    }
}

proof fn lemma_skip_front(a: Seq<u8>, s: Seq<u8>, i: int)
    requires
        0 <= i <= a.len(),
        all_ws(a),
    ensures
        ws_end(a + s, i) == ws_end(a + s, a.len() as int),
    decreases a.len() - i,
{
    if i < a.len() {
        assert((a + s)[i] == a[i]);
        lemma_skip_front(a, s, i + 1);
    }
}

/// The bytes of a blank text.
proof fn lemma_blank_bytes(text: Seq<char>)
    requires
        is_blank(text),
    ensures
        all_ws(encode_utf8(text)),
{
    assert forall|k: int| 0 <= k < text.len() implies '\0' <= #[trigger] text[k] <= '\u{7f}' by {
        assert(is_blank_char(text[k]));
    }
    is_ascii_chars_encode_utf8(text);
    let bytes = encode_utf8(text);
    assert forall|k: int| 0 <= k < bytes.len() implies is_ws(#[trigger] bytes[k]) by {
        assert(is_blank_char(text[k]) && text[k] as u8 == bytes[k]);
    }
}

/// A text that is not blank has a byte that is no white space.
proof fn lemma_not_blank_bytes(text: Seq<char>) -> (k: int)
    requires
        !is_blank(text),
    ensures
        0 <= k < encode_utf8(text).len(),
        !is_ws(encode_utf8(text)[k]),
    decreases text.len(),
{
    let c = text[0];
    let head = encode_scalar(c as u32);
    let rest = text.drop_first();
    if is_blank_char(c) {
        assert(!is_blank(rest)) by {
            let i = choose|i: int| 0 <= i < text.len() && !is_blank_char(#[trigger] text[i]);
            assert(rest[i - 1] == text[i]);
        }
        let k = lemma_not_blank_bytes(rest);
        head.len() + k
    } else {
        lemma_not_blank_char(c);
        0
    }
}

proof fn lemma_not_blank_char(c: char)
    requires
        !is_blank_char(c),
    ensures
        encode_scalar(c as u32).len() > 0,
        !is_ws(encode_scalar(c as u32)[0]),
{
    let n = c as u32;
    char_is_scalar(c);
    if n < 0x80 {
        assert(n & 0x7f == n) by (bit_vector)
            requires
                n < 0x80,
        ;
    } else {
        let one = seq![c];
        encode_utf8_first_scalar(one);
        assert(encode_utf8(one.drop_first()) == Seq::<u8>::empty());
        assert(encode_utf8(one) =~= encode_scalar(n));
    }
}

/// White space before and behind a text does not change what it reads as, nor whether it is JSON.
pub proof fn law_white_space_around_does_not_matter(
    before: Seq<char>,
    text: Seq<char>,
    behind: Seq<char>,
)
    requires
        is_blank(before),
        is_blank(behind),
    ensures
        document(encode_utf8(before + text + behind)) is Ok <==> document(encode_utf8(text)) is Ok,
        document(encode_utf8(text)) is Ok ==> document(encode_utf8(before + text + behind))
            == document(encode_utf8(text)),
{
    lemma_encode_sum(before + text, behind);
    lemma_encode_sum(before, text);
    lemma_blank_bytes(before);
    lemma_blank_bytes(behind);
    let (a, s, b) = (encode_utf8(before), encode_utf8(text), encode_utf8(behind));
    assert(a + s + b =~= a + (s + b));
    lemma_document_before(a, s + b);
    lemma_document_behind(s, b);
}

/// Behind a value other than a number anything but white space is refused.
pub proof fn law_junk_behind_a_value_is_refused(text: Seq<char>, junk: Seq<char>)
    requires
        document(encode_utf8(text)) matches Ok(v) && !(v is Number),
        !is_blank(junk),
    ensures
        document(encode_utf8(text + junk)) == Err::<JsonView, Seq<char>>(
            "trailing junk after JSON value"@,
        ),
{
    let (s, t) = (encode_utf8(text), encode_utf8(junk));
    let all = s + t;
    lemma_encode_sum(text, junk);
    encode_utf8_valid_utf8(junk);
    lemma_value_end(s, 0);
    lemma_value_more(s, t, 0);
    let j = value_at(s, 0)->Ok_0.1;
    let k = lemma_not_blank_bytes(junk);
    assert(all[s.len() + k] == t[k]);
    lemma_ws_before(all, j, s.len() + k);
}

} // verus!
