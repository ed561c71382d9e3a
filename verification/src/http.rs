//! HTTP/1.1 framing: requests from bytes, responses to text.

use vstd::prelude::*;
use vstd::slice::{slice_subrange, slice_to_vec};
use vstd::string::*;
use vstd::utf8::*;

use crate::text::{char_vec, decimal, decimal_text, lemma_text_of_bytes, string_of, utf8_complaint, utf8_text};

verus! {

/// The most bytes of a body, and about the most of a head.
pub const MAX_BYTES: usize = 1_000_000;

/// Does the end of a head, two line ends in a row, stand at `i`?
pub open spec fn blank_line(s: Seq<u8>, i: int) -> bool {
    0 <= i && i + 4 <= s.len() && s[i] == 0x0d && s[i + 1] == 0x0a && s[i + 2] == 0x0d && s[i + 3]
        == 0x0a
}

/// Where the first end of a head from `i` on stands.
pub open spec fn find_blank(s: Seq<u8>, i: int) -> Option<int>
    decreases s.len() - i,
{
    if i + 4 > s.len() {
        None
    } else if blank_line(s, i) {
        Some(i)
    } else {
        find_blank(s, i + 1)
    }
}

/// Where the head in `buf` ends, if it is complete.
pub fn find_crlf2(buf: &[u8]) -> (r: Option<usize>)
    ensures
        match r {
            Some(i) => find_blank(buf@, 0) == Some(i as int) && i + 4 <= buf@.len(),
            None => find_blank(buf@, 0) is None,
        },
{
    let n = buf.len();
    let mut i: usize = 0;
    while n >= 4 && i <= n - 4
        invariant
            n == buf@.len(),
            n >= 4 ==> i <= n - 3,
            n < 4 ==> i == 0,
            find_blank(buf@, 0) == find_blank(buf@, i as int),
        decreases n - i,
    {
        if buf[i] == 0x0d && buf[i + 1] == 0x0a && buf[i + 2] == 0x0d && buf[i + 3] == 0x0a {
            return Some(i);
        }
        i += 1;
    }
    None
}

/// Unicode white space.
pub open spec fn is_space(c: char) -> bool {
    ||| '\u{9}' <= c <= '\u{d}'
    ||| c == ' '
    ||| c == '\u{85}'
    ||| c == '\u{a0}'
    ||| c == '\u{1680}'
    ||| '\u{2000}' <= c <= '\u{200a}'
    ||| c == '\u{2028}'
    ||| c == '\u{2029}'
    ||| c == '\u{202f}'
    ||| c == '\u{205f}'
    ||| c == '\u{3000}'
}

/// Is `c` Unicode white space?
pub fn is_whitespace(c: char) -> (r: bool)
    ensures
        r == is_space(c),
{
    ('\u{9}' <= c && c <= '\u{d}') || c == ' ' || c == '\u{85}' || c == '\u{a0}' || c == '\u{1680}'
        || ('\u{2000}' <= c && c <= '\u{200a}') || c == '\u{2028}' || c == '\u{2029}' || c
        == '\u{202f}' || c == '\u{205f}' || c == '\u{3000}'
}

/// The first position from `i` on that holds no white space.
pub open spec fn space_end(t: Seq<char>, i: int) -> int
    decreases t.len() - i,
{
    if 0 <= i < t.len() && is_space(t[i]) {
        space_end(t, i + 1)
    } else {
        i
    }
}

/// The first position from `i` on that holds white space.
pub open spec fn word_end(t: Seq<char>, i: int) -> int
    decreases t.len() - i,
{
    if 0 <= i < t.len() && !is_space(t[i]) {
        word_end(t, i + 1)
    } else {
        i
    }
}

/// The end of `t` without white space behind it.
pub open spec fn trimmed_end(t: Seq<char>, n: int) -> int
    decreases n,
{
    if 0 < n <= t.len() && is_space(t[n - 1]) {
        trimmed_end(t, n - 1)
    } else {
        n
    }
}

/// `t` without white space before and behind it.
pub open spec fn trimmed(t: Seq<char>) -> Seq<char> {
    let start = space_end(t, 0);
    let end = trimmed_end(t, t.len() as int);
    if start < end {
        t.subrange(start, end)
    } else {
        seq![]
    }
}

/// Where `c` first stands in `t` from `i` on, or the end of `t`.
pub open spec fn find_char(t: Seq<char>, c: char, i: int) -> int
    decreases t.len() - i,
{
    if 0 <= i < t.len() && t[i] != c {
        find_char(t, c, i + 1)
    } else {
        i
    }
}

/// Where the line that starts at `i` ends: before a line end, or at the end of the text.
pub open spec fn line_end(t: Seq<char>, i: int) -> int
    decreases t.len() - i,
{
    if 0 <= i && i + 2 <= t.len() && !(t[i] == '\r' && t[i + 1] == '\n') {
        line_end(t, i + 1)
    } else if 0 <= i && i + 2 <= t.len() {
        i
    } else {
        t.len() as int
    }
}

/// An ASCII capital in lower case; any other character as it is.
pub open spec fn lower(c: char) -> char {
    if 'A' <= c <= 'Z' {
        (c as u32 + 32) as char
    } else {
        c
    }
}

/// A text with its ASCII capitals in lower case.
pub open spec fn lowered(t: Seq<char>) -> Seq<char> {
    t.map_values(|c: char| lower(c))
}

/// The number that decimal digits spell.
pub open spec fn spelled(t: Seq<char>) -> Option<nat>
    decreases t.len(),
{
    if t.len() == 0 {
        Some(0)
    } else {
        match spelled(t.drop_last()) {
            Some(n) => if '0' <= t.last() <= '9' {
                Some((10 * n + (t.last() as u32 - 48)) as nat)
            } else {
                None
            },
            None => None,
        }
    }
}

/// A length in a header: digits, perhaps behind a plus sign. What is no length, or too large for the
/// machine, counts as 0.
pub open spec fn length_of(t: Seq<char>) -> nat {
    let digits = if t.len() > 0 && t[0] == '+' {
        t.drop_first()
    } else {
        t
    };
    match spelled(digits) {
        Some(n) => if digits.len() > 0 && n <= usize::MAX {
            n
        } else {
            0
        },
        None => 0,
    }
}

/// The length that one header line announces, if it is about the length.
pub open spec fn length_line(line: Seq<char>) -> Option<nat> {
    let colon = find_char(line, ':', 0);
    if colon < line.len() && lowered(trimmed(line.take(colon))) == "content-length"@ {
        Some(length_of(trimmed(line.skip(colon + 1))))
    } else {
        None
    }
}

/// The length of the body by the lines from `i` on, where `so_far` was announced before: the last
/// line that announces one counts.
pub open spec fn announced(t: Seq<char>, i: int, so_far: nat) -> nat
    decreases t.len() - i,
{
    if i < 0 || i > t.len() {
        so_far
    } else {
        proof {
            lemma_line_end(t, i);
        }
        let end = line_end(t, i);
        let here = match length_line(t.subrange(i, end)) {
            Some(n) => n,
            None => so_far,
        };
        if end + 2 <= t.len() {
            announced(t, end + 2, here)
        } else {
            here
        }
    }
}

pub proof fn lemma_line_end(t: Seq<char>, i: int)
    requires
        0 <= i <= t.len(),
    ensures
        i <= line_end(t, i) <= t.len(),
    decreases t.len() - i,
{
    if i + 2 <= t.len() && !(t[i] == '\r' && t[i + 1] == '\n') {
        lemma_line_end(t, i + 1);
    }
}

/// What the head of a request says.
#[derive(Debug)]
pub struct Head {
    pub method: String,
    pub path: String,
    pub content_len: usize,
}

pub struct HeadView {
    pub method: Seq<char>,
    pub path: Seq<char>,
    pub content_len: nat,
}

impl View for Head {
    type V = HeadView;

    open spec fn view(&self) -> HeadView {
        HeadView {
            method: self.method@,
            path: self.path@,
            content_len: self.content_len as nat,
        }
    }
}

/// What the text of a head says: the first two words of its first line are the method and the path,
/// which ends before a question mark; the other lines may announce the length of the body.
pub open spec fn head_of(t: Seq<char>) -> Result<HeadView, Seq<char>> {
    let first = line_end(t, 0);
    let line = t.take(first);
    let m = space_end(line, 0);
    let m_end = word_end(line, m);
    let p = space_end(line, m_end);
    let p_end = word_end(line, p);
    let raw = line.subrange(p, p_end);
    let path = raw.take(find_char(raw, '?', 0));
    let len = if first + 2 <= t.len() {
        announced(t, first + 2, 0)
    } else {
        0
    };
    if m >= line.len() {
        Err("no method"@)
    } else if p >= line.len() {
        Err("no path"@)
    } else if len > MAX_BYTES {
        Err("body too large"@)
    } else {
        Ok(HeadView { method: line.subrange(m, m_end), path, content_len: len })
    }
}

/// What the bytes of a head say.
pub open spec fn parsed_head(bytes: Seq<u8>) -> Result<HeadView, Seq<char>> {
    if valid_utf8(bytes) {
        head_of(decode_utf8(bytes))
    } else {
        Err(utf8_complaint(bytes))
    }
}

/// The first position from `i` on that holds no white space.
fn after_space(t: &[char], i: usize) -> (r: usize)
    requires
        i <= t@.len(),
    ensures
        r == space_end(t@, i as int),
        i <= r <= t@.len(),
{
    let mut j: usize = i;
    while j < t.len() && is_whitespace(t[j])
        invariant
            i <= j <= t@.len(),
            space_end(t@, j as int) == space_end(t@, i as int),
        decreases t@.len() - j,
    {
        j += 1;
    }
    j
}

/// The first position from `i` on that holds white space.
fn after_word(t: &[char], i: usize) -> (r: usize)
    requires
        i <= t@.len(),
    ensures
        r == word_end(t@, i as int),
        i <= r <= t@.len(),
{
    let mut j: usize = i;
    while j < t.len() && !is_whitespace(t[j])
        invariant
            i <= j <= t@.len(),
            word_end(t@, j as int) == word_end(t@, i as int),
        decreases t@.len() - j,
    {
        j += 1;
    }
    j
}

/// Where `c` first stands in `t`, or the end of `t`.
fn position(t: &[char], c: char) -> (r: usize)
    ensures
        r == find_char(t@, c, 0),
        r <= t@.len(),
{
    let mut j: usize = 0;
    while j < t.len() && t[j] != c
        invariant
            j <= t@.len(),
            find_char(t@, c, j as int) == find_char(t@, c, 0),
        decreases t@.len() - j,
    {
        j += 1;
    }
    j
}

/// `t` without white space before and behind it.
fn trim(t: &[char]) -> (r: &[char])
    ensures
        r@ == trimmed(t@),
{
    let start = after_space(t, 0);
    let mut end: usize = t.len();
    while end > 0 && is_whitespace(t[end - 1])
        invariant
            end <= t@.len(),
            trimmed_end(t@, end as int) == trimmed_end(t@, t@.len() as int),
        decreases end,
    {
        end -= 1;
    }
    if start < end {
        slice_subrange(t, start, end)
    } else {
        let r = slice_subrange(t, 0, 0);
        assert(r@ =~= trimmed(t@));
        r
    }
}

/// Where the line that starts at `i` ends.
fn line_stop(t: &[char], i: usize) -> (r: usize)
    requires
        i <= t@.len(),
    ensures
        r == line_end(t@, i as int),
        i <= r <= t@.len(),
{
    let n = t.len();
    let mut j: usize = i;
    while n - j >= 2
        invariant
            n == t@.len(),
            i <= j <= n,
            line_end(t@, j as int) == line_end(t@, i as int),
        decreases n - j,
    {
        if t[j] == '\r' && t[j + 1] == '\n' {
            return j;
        }
        j += 1;
    }
    n
}

/// A character in lower case, as far as it is ASCII.
fn to_lower(c: char) -> (r: char)
    ensures
        r == lower(c),
{
    if 'A' <= c && c <= 'Z' {
        let n: u8 = c as u8;
        (n + 32) as char
    } else {
        c
    }
}

/// Is this the name of the header that announces the length of the body?
fn names_length(key: &[char]) -> (r: bool)
    ensures
        r == (lowered(key@) == "content-length"@),
{
    let name = char_vec("content-length");
    if key.len() != name.len() {
        assert(lowered(key@).len() != name@.len());
        return false;
    }
    let mut k: usize = 0;
    while k < key.len()
        invariant
            k <= key@.len(),
            key@.len() == name@.len(),
            name@ == "content-length"@,
            forall|j: int| 0 <= j < k ==> lowered(key@)[j] == name@[j],
        decreases key@.len() - k,
    {
        if to_lower(key[k]) != name[k] {
            assert(lowered(key@)[k as int] != name@[k as int]);
            return false;
        }
        k += 1;
    }
    assert(lowered(key@) =~= name@);
    true
}

proof fn lemma_spelled_prefix(t: Seq<char>, k: int)
    requires
        0 <= k <= t.len(),
    ensures
        spelled(t) is Some ==> spelled(t.take(k)) is Some,
        spelled(t) is Some ==> spelled(t.take(k))->0 <= spelled(t)->0,
    decreases t.len(),
{
    if k < t.len() {
        lemma_spelled_prefix(t.drop_last(), k);
        assert(t.drop_last().take(k) =~= t.take(k));
    } else {
        assert(t.take(k) =~= t);
    }
}

/// The length that a header gives.
fn length(t: &[char]) -> (r: usize)
    ensures
        r == length_of(t@),
{
    let start: usize = if t.len() > 0 && t[0] == '+' {
        1
    } else {
        0
    };
    let digits = slice_subrange(t, start, t.len());
    assert(digits@ =~= if t@.len() > 0 && t@[0] == '+' {
        t@.drop_first()
    } else {
        t@
    });
    let mut n: usize = 0;
    let mut k: usize = 0;
    while k < digits.len()
        invariant
            k <= digits@.len(),
            spelled(digits@.take(k as int)) == Some(n as nat),
            digits@ == (if t@.len() > 0 && t@[0] == '+' {
                t@.drop_first()
            } else {
                t@
            }),
        decreases digits@.len() - k,
    {
        let c = digits[k];
        let ghost next = digits@.take(k + 1);
        proof {
            assert(next.drop_last() =~= digits@.take(k as int));
            lemma_spelled_prefix(digits@, k + 1);
        }
        if !('0' <= c && c <= '9') {
            return 0;
        }
        let d: usize = (c as u8 - 48) as usize;
        if n > usize::MAX / 10 || (n == usize::MAX / 10 && d > usize::MAX % 10) {
            return 0;
        }
        n = 10 * n + d;
        k += 1;
    }
    assert(digits@.take(k as int) =~= digits@);
    if digits.len() == 0 {
        return 0;
    }
    n
}

/// The length that one header line announces, if it is about the length.
fn length_in(line: &[char]) -> (r: Option<usize>)
    ensures
        match r {
            Some(n) => length_line(line@) == Some(n as nat),
            None => length_line(line@) is None,
        },
{
    let colon = position(line, ':');
    if colon < line.len() {
        let key = slice_subrange(line, 0, colon);
        assert(key@ =~= line@.take(colon as int));
        if names_length(trim(key)) {
            let rest = slice_subrange(line, colon + 1, line.len());
            assert(rest@ =~= line@.skip(colon + 1));
            return Some(length(trim(rest)));
        }
    }
    None
}

/// The length of the body by the lines from `start` on.
fn body_length(t: &[char], start: usize) -> (r: usize)
    requires
        start <= t@.len(),
    ensures
        r == announced(t@, start as int, 0),
{
    let mut i: usize = start;
    let mut n: usize = 0;
    loop
        invariant
            i <= t@.len(),
            announced(t@, i as int, n as nat) == announced(t@, start as int, 0),
        decreases t@.len() - i,
    {
        let end = line_stop(t, i);
        let line = slice_subrange(t, i, end);
        if let Some(m) = length_in(line) {
            n = m;
        }
        if t.len() - end < 2 {
            return n;
        }
        i = end + 2;
    }
}

/// The method, the path and the length of the body that the head of a request names.
pub fn parse_head(bytes: &[u8]) -> (r: Result<Head, String>)
    ensures
        match r {
            Ok(head) => parsed_head(bytes@) == Ok::<HeadView, Seq<char>>(head@),
            Err(e) => parsed_head(bytes@) == Err::<HeadView, Seq<char>>(e@),
        },
{
    let text = utf8_text(bytes)?;
    proof {
        lemma_text_of_bytes(text@, bytes@);
    }
    let t = char_vec(text);
    let first = line_stop(t.as_slice(), 0);
    let line = slice_subrange(t.as_slice(), 0, first);
    assert(line@ =~= t@.take(first as int));
    let m = after_space(line, 0);
    if m >= line.len() {
        return Err("no method".to_string());
    }
    let m_end = after_word(line, m);
    let p = after_space(line, m_end);
    if p >= line.len() {
        return Err("no path".to_string());
    }
    let p_end = after_word(line, p);
    let raw = slice_subrange(line, p, p_end);
    let cut = position(raw, '?');
    let path = slice_subrange(raw, 0, cut);
    assert(path@ =~= raw@.take(cut as int));
    let content_len: usize = if t.len() - first >= 2 {
        body_length(t.as_slice(), first + 2)
    } else {
        0
    };
    if content_len > MAX_BYTES {
        return Err("body too large".to_string());
    }
    Ok(Head { method: string_of(slice_subrange(line, m, m_end)), path: string_of(path), content_len })
}

/// A request, read in full.
#[derive(Debug)]
pub struct Request {
    pub method: String,
    pub path: String,
    pub body: Vec<u8>,
}

pub struct RequestView {
    pub method: Seq<char>,
    pub path: Seq<char>,
    pub body: Seq<u8>,
}

impl View for Request {
    type V = RequestView;

    open spec fn view(&self) -> RequestView {
        RequestView { method: self.method@, path: self.path@, body: self.body@ }
    }
}

/// What a piece of a request leads to.
#[derive(Debug)]
pub enum Reading {
    /// More bytes are needed.
    More,
    Done(Request),
    Failed(String),
}

pub enum ReadingView {
    More,
    Done(RequestView),
    Failed(Seq<char>),
}

impl View for Reading {
    type V = ReadingView;

    open spec fn view(&self) -> ReadingView {
        match *self {
            Reading::More => ReadingView::More,
            Reading::Done(request) => ReadingView::Done(request@),
            Reading::Failed(message) => ReadingView::Failed(message@),
        }
    }
}

/// How far a request has been read.
pub enum ReaderView {
    /// Bytes in which the head has not ended.
    Head(Seq<u8>),
    /// A head, and the bytes behind it.
    Body(HeadView, Seq<u8>),
}

/// The request with the given head, of whose body `body` was read.
pub open spec fn with_body(head: HeadView, body: Seq<u8>) -> RequestView {
    RequestView {
        method: head.method,
        path: head.path,
        body: if body.len() > head.content_len {
            body.take(head.content_len as int)
        } else {
            body
        },
    }
}

/// What follows once `body` has been read behind the head.
pub open spec fn body_step(head: HeadView, body: Seq<u8>) -> (ReaderView, ReadingView) {
    if body.len() < head.content_len {
        (ReaderView::Body(head, body), ReadingView::More)
    } else {
        (ReaderView::Head(seq![]), ReadingView::Done(with_body(head, body)))
    }
}

/// What follows once `buf` has been read and the head may have ended.
pub open spec fn head_step(buf: Seq<u8>) -> (ReaderView, ReadingView) {
    match find_blank(buf, 0) {
        Some(end) => match parsed_head(buf.take(end)) {
            Ok(head) => body_step(head, buf.skip(end + 4)),
            Err(message) => (ReaderView::Head(seq![]), ReadingView::Failed(message)),
        },
        None => if buf.len() > MAX_BYTES {
            (ReaderView::Head(seq![]), ReadingView::Failed("headers too large"@))
        } else {
            (ReaderView::Head(buf), ReadingView::More)
        },
    }
}

/// What follows once `chunk` has been read; an empty chunk is the end of the input.
pub open spec fn read_step(state: ReaderView, chunk: Seq<u8>) -> (ReaderView, ReadingView) {
    match state {
        ReaderView::Head(buf) => if chunk.len() == 0 {
            (ReaderView::Head(seq![]), ReadingView::Failed("incomplete request"@))
        } else {
            head_step(buf + chunk)
        },
        ReaderView::Body(head, body) => if chunk.len() == 0 {
            (ReaderView::Head(seq![]), ReadingView::Done(with_body(head, body)))
        } else {
            body_step(head, body + chunk)
        },
    }
}

/// Reads requests piece by piece.
pub struct RequestReader {
    head: Option<Head>,
    buf: Vec<u8>,
}

impl View for RequestReader {
    type V = ReaderView;

    closed spec fn view(&self) -> ReaderView {
        match self.head {
            None => ReaderView::Head(self.buf@),
            Some(head) => ReaderView::Body(head@, self.buf@),
        }
    }
}

/// Appends bytes.
fn extend(buf: &mut Vec<u8>, chunk: &[u8])
    ensures
        final(buf)@ == old(buf)@ + chunk@,
{
    let ghost before = buf@;
    let mut k: usize = 0;
    while k < chunk.len()
        invariant
            k <= chunk@.len(),
            buf@ == before + chunk@.take(k as int),
        decreases chunk@.len() - k,
    {
        buf.push(chunk[k]);
        k += 1;
        assert(buf@ =~= before + chunk@.take(k as int));
    }
    assert(chunk@.take(k as int) =~= chunk@);
}

/// The request with the given head, of whose body `body` was read.
fn finish(head: Head, body: Vec<u8>) -> (r: Request)
    ensures
        r@ == with_body(head@, body@),
{
    let ghost all = body@;
    let mut body = body;
    if body.len() > head.content_len {
        body.truncate(head.content_len);
        assert(body@ =~= all.take(head.content_len as int));
    }
    Request { method: head.method, path: head.path, body }
}

impl RequestReader {
    /// A reader that has read nothing.
    pub fn new() -> (r: RequestReader)
        ensures
            r@ == ReaderView::Head(seq![]),
    {
        let r = RequestReader { head: None, buf: Vec::new() };
        assert(r.buf@ =~= seq![]);
        r
    }

    /// Takes the head out of what was read, if it has ended.
    fn on_head(&mut self) -> (r: Reading)
        requires
            old(self).head is None,
        ensures
            (final(self)@, r@) == head_step(old(self).buf@),
    {
        let mut buf: Vec<u8> = Vec::new();
        std::mem::swap(&mut buf, &mut self.buf);
        match find_crlf2(buf.as_slice()) {
            Some(end) => {
                let bytes = slice_subrange(buf.as_slice(), 0, end);
                assert(bytes@ =~= buf@.take(end as int));
                match parse_head(bytes) {
                    Ok(head) => {
                        self.buf = slice_to_vec(slice_subrange(buf.as_slice(), end + 4, buf.len()));
                        assert(self.buf@ =~= buf@.skip(end + 4));
                        self.head = Some(head);
                        self.on_body()
                    },
                    Err(message) => Reading::Failed(message),
                }
            },
            None => if buf.len() > MAX_BYTES {
                Reading::Failed("headers too large".to_string())
            } else {
                self.buf = buf;
                Reading::More
            },
        }
    }

    /// Hands the request out, if its body is there.
    fn on_body(&mut self) -> (r: Reading)
        requires
            old(self).head is Some,
        ensures
            (final(self)@, r@) == body_step(old(self).head->0@, old(self).buf@),
    {
        match self.head.take() {
            Some(head) => if self.buf.len() < head.content_len {
                self.head = Some(head);
                Reading::More
            } else {
                let mut body: Vec<u8> = Vec::new();
                std::mem::swap(&mut body, &mut self.buf);
                Reading::Done(finish(head, body))
            },
            None => Reading::More,
        }
    }

    /// Takes the next bytes of the input; none at its end.
    pub fn feed(&mut self, chunk: &[u8]) -> (r: Reading)
        ensures
            (final(self)@, r@) == read_step(old(self)@, chunk@),
    {
        if chunk.len() == 0 {
            let mut buf: Vec<u8> = Vec::new();
            std::mem::swap(&mut buf, &mut self.buf);
            return match self.head.take() {
                Some(head) => Reading::Done(finish(head, buf)),
                None => Reading::Failed("incomplete request".to_string()),
            };
        }
        extend(&mut self.buf, chunk);
        if self.head.is_none() {
            self.on_head()
        } else {
            self.on_body()
        }
    }
}

/// What the reader holds is bounded.
pub open spec fn bounded(state: ReaderView) -> bool {
    match state {
        ReaderView::Head(buf) => buf.len() <= MAX_BYTES,
        ReaderView::Body(head, body) => body.len() < head.content_len <= MAX_BYTES,
    }
}

/// Whatever a client sends, the reader never keeps more bytes than the bound, and no request gets a
/// longer body.
pub proof fn law_reader_is_bounded(state: ReaderView, chunk: Seq<u8>)
    requires
        bounded(state),
    ensures
        bounded(read_step(state, chunk).0),
        read_step(state, chunk).1 matches ReadingView::Done(request) ==> request.body.len()
            <= MAX_BYTES,
{
}

/// What comes of a request that arrives in the given chunks, behind which the input ends.
pub open spec fn read_all(state: ReaderView, chunks: Seq<Seq<u8>>) -> ReadingView
    decreases chunks.len(),
{
    if chunks.len() == 0 {
        read_step(state, seq![]).1
    } else {
        let (next, reading) = read_step(state, chunks.first());
        if reading is More {
            read_all(next, chunks.drop_first())
        } else {
            reading
        }
    }
}

/// The request that `bytes` hold.
pub open spec fn request_in(bytes: Seq<u8>) -> ReadingView {
    match find_blank(bytes, 0) {
        Some(end) => match parsed_head(bytes.take(end)) {
            Ok(head) => ReadingView::Done(with_body(head, bytes.skip(end + 4))),
            Err(message) => ReadingView::Failed(message),
        },
        None => ReadingView::Failed("incomplete request"@),
    }
}

/// Is the head short enough to be read whatever the chunks are?
pub open spec fn head_fits(bytes: Seq<u8>) -> bool {
    match find_blank(bytes, 0) {
        Some(end) => end + 3 <= MAX_BYTES,
        None => bytes.len() <= MAX_BYTES,
    }
}

proof fn lemma_blank_prefix(s: Seq<u8>, n: int, i: int)
    requires
        0 <= n <= s.len(),
        0 <= i,
    ensures
        find_blank(s.take(n), i) matches Some(p) ==> find_blank(s, i) == Some(p) && p + 4 <= n,
        find_blank(s, i) matches Some(p) ==> p >= i && p + 4 <= s.len() && (p + 4 <= n ==> find_blank(
            s.take(n),
            i,
        ) == Some(p)),
    decreases s.len() - i,
{
    if i + 4 <= s.len() {
        if i + 4 <= n {
            assert(blank_line(s.take(n), i) == blank_line(s, i));
        }
        lemma_blank_prefix(s, n, i + 1);
    }
}

proof fn lemma_read_body(head: HeadView, body: Seq<u8>, chunks: Seq<Seq<u8>>)
    requires
        body.len() < head.content_len,
        forall|i: int| 0 <= i < chunks.len() ==> #[trigger] chunks[i].len() > 0,
    ensures
        read_all(ReaderView::Body(head, body), chunks) == ReadingView::Done(
            with_body(head, body + chunks.flatten()),
        ),
    decreases chunks.len(),
{
    if chunks.len() == 0 {
        assert(body + chunks.flatten() =~= body);
    } else {
        let next = body + chunks.first();
        assert(chunks.first().len() > 0);
        assert(body + chunks.flatten() =~= next + chunks.drop_first().flatten());
        if next.len() < head.content_len {
            lemma_read_body(head, next, chunks.drop_first());
        } else {
            assert(with_body(head, body + chunks.flatten()).body =~= with_body(head, next).body);
        }
    }
}

proof fn lemma_read_head(buf: Seq<u8>, chunks: Seq<Seq<u8>>)
    requires
        find_blank(buf, 0) is None,
        head_fits(buf + chunks.flatten()),
        forall|i: int| 0 <= i < chunks.len() ==> #[trigger] chunks[i].len() > 0,
    ensures
        read_all(ReaderView::Head(buf), chunks) == request_in(buf + chunks.flatten()),
    decreases chunks.len(),
{
    let all = buf + chunks.flatten();
    if chunks.len() == 0 {
        assert(all =~= buf);
    } else {
        assert(chunks.first().len() > 0);
        let next = buf + chunks.first();
        let rest = chunks.drop_first();
        assert(all =~= next + rest.flatten());
        assert(all.take(next.len() as int) =~= next);
        lemma_blank_prefix(all, next.len() as int, 0);
        match find_blank(next, 0) {
            Some(end) => {
                lemma_blank_prefix(next, next.len() as int, 0);
                assert(all.take(end) =~= next.take(end));
                if let Ok(head) = parsed_head(all.take(end)) {
                    let body = next.skip(end + 4);
                    assert(all.skip(end + 4) =~= body + rest.flatten());
                    if body.len() < head.content_len {
                        lemma_read_body(head, body, rest);
                    } else {
                        assert(with_body(head, body + rest.flatten()).body =~= with_body(
                            head,
                            body,
                        ).body);
                    }
                }
            },
            None => {
                lemma_read_head(next, rest);
            },
        }
    }
}

/// A request is the same however the network cuts it into chunks.
pub proof fn law_chunks_do_not_matter(chunks: Seq<Seq<u8>>)
    requires
        forall|i: int| 0 <= i < chunks.len() ==> #[trigger] chunks[i].len() > 0,
        head_fits(chunks.flatten()),
    ensures
        read_all(ReaderView::Head(seq![]), chunks) == request_in(chunks.flatten()),
{
    assert(Seq::<u8>::empty() + chunks.flatten() =~= chunks.flatten());
    lemma_read_head(seq![], chunks);
}

/// An answer.
#[derive(Debug)]
pub struct Response {
    pub status: u16,
    pub reason: String,
    pub ctype: String,
    pub body: String,
}

pub struct ResponseView {
    pub status: u16,
    pub reason: Seq<char>,
    pub ctype: Seq<char>,
    pub body: Seq<char>,
}

impl View for Response {
    type V = ResponseView;

    open spec fn view(&self) -> ResponseView {
        ResponseView {
            status: self.status,
            reason: self.reason@,
            ctype: self.ctype@,
            body: self.body@,
        }
    }
}

/// What goes over the wire: the head, a blank line, the body.
pub open spec fn response_text(r: ResponseView) -> Seq<char> {
    "HTTP/1.1 "@ + decimal_text(r.status as nat) + " "@ + r.reason + "\r\nContent-Type: "@ + r.ctype
        + "\r\nContent-Length: "@ + decimal_text(encode_utf8(r.body).len())
        + "\r\nConnection: close\r\n\r\n"@ + r.body
}

impl Response {
    /// The answer as it goes over the wire.
    pub fn to_http(&self) -> (r: String)
        ensures
            r@ == response_text(self@),
    {
        let mut text = "HTTP/1.1 ".to_string();
        text.append(decimal(self.status as u128).as_str());
        text.append(" ");
        text.append(self.reason.as_str());
        text.append("\r\nContent-Type: ");
        text.append(self.ctype.as_str());
        text.append("\r\nContent-Length: ");
        text.append(decimal(self.body.as_str().as_bytes().len() as u128).as_str());
        text.append("\r\nConnection: close\r\n\r\n");
        text.append(self.body.as_str());
        text
    }
}

} // verus!
