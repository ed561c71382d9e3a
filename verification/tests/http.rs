use inference_server::http::{
    find_crlf2, is_whitespace, parse_head, Reading, Request, RequestReader, Response,
};

fn read(chunks: &[&[u8]]) -> Result<Request, String> {
    let mut reader = RequestReader::new();
    for chunk in chunks {
        match reader.feed(chunk) {
            Reading::More => {}
            Reading::Done(request) => return Ok(request),
            Reading::Failed(message) => return Err(message),
        }
    }
    match reader.feed(&[]) {
        Reading::More => panic!("the input has ended"),
        Reading::Done(request) => Ok(request),
        Reading::Failed(message) => Err(message),
    }
}

fn complaint(bytes: &[u8]) -> String {
    match read(&[bytes]) {
        Ok(_) => panic!("the request was accepted"),
        Err(message) => message,
    }
}

#[test]
fn finds_the_end_of_the_head() {
    assert_eq!(find_crlf2(b""), None);
    assert_eq!(find_crlf2(b"\r\n\r"), None);
    assert_eq!(find_crlf2(b"\r\n\r\n"), Some(0));
    assert_eq!(find_crlf2(b"ab\r\n\r\n\r\n"), Some(2));
    assert_eq!(find_crlf2(b"a\r\n\n\r\n\r\n"), Some(4));
}

#[test]
fn knows_unicode_white_space() {
    for n in 0u32..0x11_0000 {
        if let Some(c) = char::from_u32(n) {
            assert_eq!(is_whitespace(c), c.is_whitespace(), "{:x}", n);
        }
    }
}

#[test]
fn reads_a_post() {
    let r = read(&[b"POST /v1/completions?x=1 HTTP/1.1\r\nHost: a\r\nContent-Length: 5\r\n\r\nhello, more"]).unwrap();
    assert_eq!(r.method, "POST");
    assert_eq!(r.path, "/v1/completions");
    assert_eq!(r.body, b"hello");
}

#[test]
fn an_early_end_cuts_the_body() {
    let r = read(&[b"POST / HTTP/1.1\r\nContent-Length: 50\r\n\r\nhello"]).unwrap();
    assert_eq!(r.body, b"hello");
}

#[test]
fn a_body_needs_a_length() {
    let r = read(&[b"POST / HTTP/1.1\r\n\r\nhello"]).unwrap();
    assert_eq!(r.body, b"");
}

#[test]
fn chunks_do_not_matter() {
    let bytes: &[u8] = b"POST /a?b HTTP/1.1\r\ncontent-length:  12 \r\nX: y\r\n\r\n{\"a\":[1,2]} and more";
    let whole = read(&[bytes]).unwrap();
    assert_eq!(whole.body, b"{\"a\":[1,2]} ");
    for i in 1..bytes.len() {
        for j in i..bytes.len() {
            let mut chunks: Vec<&[u8]> = vec![&bytes[..i]];
            if j > i {
                chunks.push(&bytes[i..j]);
            }
            chunks.push(&bytes[j..]);
            let r = read(&chunks).unwrap();
            assert_eq!(r.method, whole.method);
            assert_eq!(r.path, whole.path);
            assert_eq!(r.body, whole.body);
        }
    }
}

#[test]
fn every_refusal() {
    assert_eq!(complaint(b"GET / HTTP/1.1\r\n"), "incomplete request");
    assert_eq!(complaint(b" \r\n\r\n"), "no method");
    assert_eq!(complaint(b"GET \r\n\r\n"), "no path");
    assert_eq!(complaint(b"GET / HTTP/1.1\r\nContent-Length: 1000001\r\n\r\n"), "body too large");
    assert_eq!(complaint(&vec![b'a'; 1_000_001]), "headers too large");
    let bad: &[u8] = b"GET /\xff HTTP/1.1\r\n\r\n";
    let words = std::str::from_utf8(&bad[..bad.len() - 4]).unwrap_err().to_string();
    assert_eq!(complaint(bad), words);
}

#[test]
fn the_reader_is_bounded() {
    let mut reader = RequestReader::new();
    assert!(matches!(reader.feed(&vec![b'a'; 1_000_000]), Reading::More));
    assert!(matches!(reader.feed(b"\r\n\r\n"), Reading::Failed(_)));
    let mut long = b"POST / HTTP/1.1\r\nContent-Length: 1000000\r\n\r\n".to_vec();
    long.extend_from_slice(&vec![b'x'; 1_000_500]);
    let r = read(&[long.as_slice()]).unwrap();
    assert_eq!(r.body.len(), 1_000_000);
}

#[test]
fn lengths_are_forgiving() {
    let length = |value: &str| {
        let head = format!("GET / HTTP/1.1\r\nContent-Length:{}", value);
        parse_head(head.as_bytes()).unwrap().content_len
    };
    assert_eq!(length(" 12"), 12);
    assert_eq!(length("+12"), 12);
    assert_eq!(length("\u{3000}7\t"), 7);
    assert_eq!(length(""), 0);
    assert_eq!(length("+"), 0);
    assert_eq!(length("-1"), 0);
    assert_eq!(length("1 2"), 0);
    assert_eq!(length("0x10"), 0);
    assert_eq!(length("99999999999999999999999"), 0);
    assert_eq!(length("5\r\nCONTENT-length : 6"), 6);
    assert_eq!(length("5\r\nContent-Length: x"), 0);
    assert_eq!(length("5\r\nContent-Lengths: 6"), 5);
}

fn reference(text: &str) -> Result<(String, String, usize), String> {
    let mut lines = text.split("\r\n");
    let first = lines.next().ok_or("empty request")?;
    let mut parts = first.split_whitespace();
    let method = parts.next().ok_or("no method")?.to_string();
    let raw = parts.next().ok_or("no path")?.to_string();
    let path = raw.split('?').next().unwrap_or(&raw).to_string();
    let mut length: usize = 0;
    for line in lines {
        if let Some((k, v)) = line.split_once(':') {
            if k.trim().eq_ignore_ascii_case("content-length") {
                length = v.trim().parse().unwrap_or(0);
            }
        }
    }
    if length > 1_000_000 {
        return Err("body too large".to_string());
    }
    Ok((method, path, length))
}

#[test]
fn heads_read_like_the_standard_library_reads_them() {
    let pieces = [
        "GET", " ", "  ", "/a", "?b", "\r\n", "\r", "\n", "Content-Length", "content-LENGTH", ":", "12",
        "+3", "\u{a0}", "\u{2003}", "x", "1000001", "\u{e9}",
    ];
    let mut seed: u64 = 1;
    for _ in 0..50000u32 {
        let mut text = String::new();
        for _ in 0..(seed >> 60) + 3 {
            seed = seed.wrapping_mul(6364136223846793005).wrapping_add(1442695040888963407);
            text.push_str(pieces[(seed >> 33) as usize % pieces.len()]);
        }
        let got = parse_head(text.as_bytes()).map(|h| (h.method, h.path, h.content_len));
        assert_eq!(got, reference(&text), "{:?}", text);
    }
}

#[test]
fn a_response_on_the_wire() {
    let r = Response {
        status: 200,
        reason: "OK".to_string(),
        ctype: "application/json".to_string(),
        body: "{\"a\":\"\u{e9}\"}".to_string(),
    };
    assert_eq!(
        r.to_http(),
        "HTTP/1.1 200 OK\r\nContent-Type: application/json\r\nContent-Length: 10\r\nConnection: close\r\n\r\n{\"a\":\"\u{e9}\"}"
    );
}

#[test]
fn a_response_can_be_taken_apart() {
    let r = Response {
        status: 404,
        reason: "Not Found".to_string(),
        ctype: "text/plain".to_string(),
        body: "a\r\n\r\nb\u{20ac}".to_string(),
    };
    let text = r.to_http();
    let bytes = text.as_bytes();
    let end = find_crlf2(bytes).unwrap();
    assert_eq!(&bytes[end + 4..], r.body.as_bytes());
    let head = parse_head(&bytes[..end]).unwrap();
    assert_eq!(head.content_len, r.body.len());
}
