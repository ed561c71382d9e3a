use inference_server::json::{escape, Json, Parser};

fn message(text: &str) -> String {
    match Json::parse(text) {
        Ok(_) => panic!("{} was accepted", text),
        Err(e) => e.0,
    }
}

fn string(text: &str) -> String {
    Json::parse(text).unwrap().as_str().unwrap().to_string()
}

#[test]
fn parses_chat_payload() {
    let j = Json::parse(
        r#"{"messages":[{"role":"user","content":"hi"}],"max_tokens":8,"temperature":0.5}"#,
    )
    .unwrap();
    assert_eq!(j.get("max_tokens").and_then(|v| v.as_usize()), Some(8));
    let msgs = j.get("messages").and_then(|v| v.as_array()).unwrap();
    assert_eq!(msgs[0].get("content").and_then(|v| v.as_str()), Some("hi"));
    assert_eq!(j.get("temperature").and_then(|v| v.as_number()), Some("0.5"));
}

#[test]
fn rejects_junk() {
    assert!(Json::parse("{not json").is_err());
    assert!(Json::parse("[] trailing").is_err());
}

#[test]
fn words_and_containers() {
    assert!(matches!(Json::parse(" null ").unwrap(), Json::Null));
    assert_eq!(Json::parse("true").unwrap().as_bool(), Some(true));
    assert_eq!(Json::parse("\tfalse\r\n").unwrap().as_bool(), Some(false));
    assert_eq!(Json::parse("[ ]").unwrap().as_array().unwrap().len(), 0);
    assert_eq!(Json::parse("[1 , 2,3]").unwrap().as_array().unwrap().len(), 3);
    assert!(matches!(Json::parse("{ }").unwrap(), Json::Object(_)));
    let j = Json::parse("{\"a\" : 1, \"a\" : 2}").unwrap();
    assert_eq!(j.get("a").unwrap().as_u64(), Some(1));
    assert!(j.get("b").is_none());
    assert!(Json::parse("1").unwrap().get("a").is_none());
    assert!(Json::parse("1").unwrap().as_str().is_none());
    assert!(Json::parse("1").unwrap().as_array().is_none());
    assert!(Json::parse("1").unwrap().as_bool().is_none());
    assert!(Json::parse("\"1\"").unwrap().as_u64().is_none());
    assert!(Json::parse("\"1\"").unwrap().as_number().is_none());
}

#[test]
fn every_complaint() {
    assert_eq!(message(""), "unexpected end of JSON");
    assert_eq!(message("[1"), "unexpected end of JSON");
    assert_eq!(message("\"a"), "unexpected end of JSON");
    assert_eq!(message("\"\\u00"), "unexpected end of JSON");
    assert_eq!(message("nul"), "expected null");
    assert_eq!(message("trve"), "expected true");
    assert_eq!(message("fals"), "expected false");
    assert_eq!(message("{1:2}"), "expected string");
    assert_eq!(message("{\"a\" 2}"), "expected colon");
    assert_eq!(message("{\"a\":2 3}"), "expected comma or }, got 51");
    assert_eq!(message("[2 3]"), "expected comma or ], got 51");
    assert_eq!(message("?"), "unexpected byte 63");
    assert_eq!(message("[] trailing"), "trailing junk after JSON value");
    assert_eq!(message("\"\\q\""), "bad escape 113");
    assert_eq!(message("\"\\u00g0\""), "bad unicode escape");
    assert_eq!(message("\"a\nb\""), "unescaped control in string");
    assert_eq!(message("-"), "invalid number -");
    assert_eq!(message("1e"), "invalid number 1e");
}

#[test]
fn strings_and_escapes() {
    assert_eq!(string(r#""\"\\\/\b\f\n\r\t""#), "\"\\/\u{8}\u{c}\n\r\t");
    assert_eq!(string(r#""\u0041\u00e9\u20ac""#), "A\u{e9}\u{20ac}");
    assert_eq!(string(r#""\ud83d""#), "\u{fffd}");
    assert_eq!(string("\"gr\u{fc}n \u{1f600}\""), "gr\u{fc}n \u{1f600}");
}

#[test]
fn escape_spells_controls() {
    assert_eq!(escape("a\"b\\c\n\r\t\u{1}\u{1f}\u{20ac}"), "a\\\"b\\\\c\\n\\r\\t\\u0001\\u001f\u{20ac}");
    assert_eq!(escape(""), "");
}

#[test]
fn reading_undoes_escaping() {
    let mut text = String::new();
    for n in 0u32..0x3000 {
        if let Some(c) = char::from_u32(n) {
            text.push(c);
        }
    }
    text.push('\u{fffd}');
    text.push('\u{10ffff}');
    let written = format!("\"{}\"", escape(&text));
    assert_eq!(string(&written), text);
}

fn state(seed: u64) -> u64 {
    seed.wrapping_mul(6364136223846793005).wrapping_add(1442695040888963407)
}

#[test]
fn counts_as_doubles_do() {
    let mut seed: u64 = 7;
    for round in 0..20000u32 {
        seed = state(seed);
        let mut text = String::new();
        if round % 11 == 0 {
            text.push('-');
        }
        let digits = 1 + (seed >> 40) % 24;
        for _ in 0..digits {
            seed = state(seed);
            text.push((b'0' + ((seed >> 33) % 10) as u8) as char);
        }
        if round % 3 == 0 {
            text.push('.');
            for _ in 0..(seed >> 50) % 30 {
                seed = state(seed);
                text.push((b'0' + ((seed >> 33) % 10) as u8) as char);
            }
        }
        if round % 4 == 0 {
            seed = state(seed);
            text.push_str(&format!("e{}", (seed >> 33) as i64 % 40 - 20));
        }
        let double: f64 = text.parse().unwrap();
        let j = Json::parse(&text).unwrap();
        assert_eq!(j.as_u64(), Some(double as u64), "{}", text);
        assert_eq!(j.as_usize(), Some(double as usize), "{}", text);
    }
}

#[test]
fn counts_at_the_edges() {
    let texts = [
        "0", "-0", "-1", "0.9999999999999999", "0.99999999999999999999", "1e400", "1e-400", "1E2",
        "1e+2", "9007199254740993", "9007199254740992.5", "9007199254740991.5",
        "18446744073709551615", "18446744073709550591", "18446744073709550592",
        "18446744073709551616", "4503599627370496.5", "4503599627370497.5", "-.5", "1.",
        "0.000000000000000000000000000001e40", "1e99999999999999999999",
        "1e-99999999999999999999", "00012",
    ];
    for text in texts {
        let double: f64 = text.parse().unwrap();
        let j = Json::parse(text).unwrap();
        assert_eq!(j.as_u64(), Some(double as u64), "{}", text);
        assert_eq!(j.as_usize(), Some(double as usize), "{}", text);
    }
    assert_eq!(Json::parse("9007199254740991").unwrap().as_u64(), Some(9007199254740991));
}

#[test]
fn copies_are_equal() {
    let j = Json::parse("{\"a\":[1,null,true,\"x\"],\"b\":{\"c\":-2.5}}").unwrap();
    let copy = j.clone();
    assert_eq!(format!("{:?}", copy), format!("{:?}", j));
    assert_eq!(copy.get("b").unwrap().get("c").unwrap().as_number(), Some("-2.5"));
    assert_eq!(copy.get("a").unwrap().as_array().unwrap().len(), 4);
}

#[test]
fn white_space_around_does_not_matter() {
    let texts = [
        "null", "12", "-", "\"a b\"", "\"open", "\"\\", "\"\\u00", "[1,2]", "[1", "{\"a\":1}", "{\"a\"", "tru",
        "", "1e", "\"\u{e9}",
    ];
    for text in texts {
        let plain = Json::parse(text).map(|j| format!("{:?}", j)).map_err(|_| ());
        for before in ["", " ", "\n\t"] {
            for behind in ["", " ", "\r\n  "] {
                let padded = format!("{}{}{}", before, text, behind);
                let got = Json::parse(&padded).map(|j| format!("{:?}", j)).map_err(|_| ());
                assert_eq!(got, plain, "{:?}", padded);
            }
        }
    }
}

#[test]
fn junk_behind_a_value_is_refused() {
    for text in ["null", "true ", "\"a\"", "[1, 2]", "{}", "{\"a\":[]}\n"] {
        for junk in ["x", " \u{e9}", "\n1", "]", "\"", "\u{3000}"] {
            let longer = format!("{}{}", text, junk);
            assert_eq!(message(&longer), "trailing junk after JSON value");
        }
    }
    assert_eq!(Json::parse("12").unwrap().as_u64(), Some(12));
}

#[test]
fn strings_end_at_their_quote() {
    let text = "a\"]\\ \u{e9}\n";
    let written = format!("[\"{}\",\"{}\"]", escape(text), escape("\"b"));
    let j = Json::parse(&written).unwrap();
    let items = j.as_array().unwrap();
    assert_eq!(items.len(), 2);
    assert_eq!(items[0].as_str(), Some(text));
    assert_eq!(items[1].as_str(), Some("\"b"));
}

fn string_at(text: &str, i: usize) -> (Result<String, String>, usize) {
    let mut p = Parser { s: text.as_bytes(), i };
    let r = p.parse_string().map_err(|e| e.0);
    (r, p.i)
}

#[test]
fn the_string_reader_stops_behind_the_quote() {
    for (text, rest) in [("", ""), ("a\"b", "\", 1]"), ("\u{e9}\n\u{1}", "\u{20ac}x"), ("\\", "\\")] {
        let written = format!("\"{}\"{}", escape(text), rest);
        let (r, i) = string_at(&written, 0);
        assert_eq!(r, Ok(text.to_string()));
        assert_eq!(i, escape(text).len() + 2);
    }
}

#[test]
fn the_string_reader_stops_where_it_refuses() {
    assert_eq!(string_at("", 0), (Err("unexpected end of JSON".to_string()), 0));
    assert_eq!(string_at("x\"", 0), (Err("expected string".to_string()), 1));
    assert_eq!(string_at("\"ab", 0), (Err("unexpected end of JSON".to_string()), 3));
    assert_eq!(string_at("\"a\nb\"", 0), (Err("unescaped control in string".to_string()), 3));
    assert_eq!(string_at("\"\\q\"", 0), (Err("bad escape 113".to_string()), 3));
    assert_eq!(string_at("\"\\u00g0\"", 0), (Err("bad unicode escape".to_string()), 7));
    assert_eq!(string_at("\"\\u00", 0), (Err("unexpected end of JSON".to_string()), 5));
    assert_eq!(string_at("[\"a\"]", 1), (Ok("a".to_string()), 4));
    let mut p = Parser { s: b"\"a\xff\"", i: 0 };
    assert_eq!(p.parse_string().map_err(|e| e.0), Err("invalid utf-8".to_string()));
    assert_eq!(p.i, 2);
}
