use module_routes::fields::{cookie_value, field_value};
use module_routes::text::{same_text, split, split_once, to_text, trim, white_space};
use module_routes::urlencoding::{percent_decode, urlencoding_decode};
use module_routes::{HttpRequest, PathParams};

fn request_with(headers: Vec<(String, String)>, query: &str, body: &[u8]) -> HttpRequest {
    HttpRequest {
        method: "GET".to_string(),
        path: "/".to_string(),
        headers,
        path_params: PathParams::new(),
        query: query.to_string(),
        body: body.to_vec(),
    }
}

#[test]
fn a_bad_escape_keeps_the_percent_sign_and_drops_two_bytes() {
    assert_eq!(urlencoding_decode("a%zzb"), "a%b");
    assert_eq!(urlencoding_decode("%4zb"), "%b");
    assert_eq!(urlencoding_decode("%z4b"), "%b");
    assert_eq!(urlencoding_decode("a%4"), "a%");
    assert_eq!(urlencoding_decode("a%"), "a%");
    assert_eq!(urlencoding_decode("%%41"), "%1");
    assert_eq!(urlencoding_decode(""), "");
}

#[test]
fn escapes_take_digits_in_either_case() {
    assert_eq!(urlencoding_decode("%c3%A9%2f%2F"), "é//");
    assert_eq!(percent_decode(b"%00%ff+%2B"), vec![0, 255, 0x20, 0x2B]);
}

#[test]
fn escaping_every_byte_is_undone() {
    let plain = "Grüße, 世界 & + %";
    let mut lower = String::new();
    let mut upper = String::new();
    for b in plain.bytes() {
        lower.push_str(&format!("%{:02x}", b));
        upper.push_str(&format!("%{:02X}", b));
    }
    assert_eq!(urlencoding_decode(&lower), plain);
    assert_eq!(urlencoding_decode(&upper), plain);
}

#[test]
fn plain_text_decodes_to_itself() {
    assert_eq!(urlencoding_decode("Grüße=世界?"), "Grüße=世界?");
    assert_eq!(urlencoding_decode("a+b++c"), "a b  c");
}

#[test]
fn bytes_that_are_not_utf8_are_replaced() {
    assert_eq!(urlencoding_decode("a%FFb"), "a\u{FFFD}b");
    assert_eq!(to_text(b"\xC3\xA9"), "é");
    assert_eq!(to_text(b"x\xC3y"), "x\u{FFFD}y");
}

#[test]
fn header_look_up_takes_the_first_match() {
    let req = request_with(
        vec![
            ("X-One".to_string(), "1".to_string()),
            ("x-one".to_string(), "2".to_string()),
            ("ÄRGER".to_string(), "3".to_string()),
        ],
        "",
        b"",
    );
    assert_eq!(req.header("x-ONE"), Some("1"));
    assert_eq!(req.header("ärger"), Some("3"));
    assert_eq!(req.header("Ärger"), Some("3"));
    assert_eq!(req.header("x-two"), None);
    assert_eq!(req.header(""), None);
}

#[test]
fn cookie_look_up_ignores_white_space() {
    let cookies = "  a = 1 ;b=2;\u{3000}c\t=\u{A0}3 4\r\n; d; =5; a=6; e=x=y";
    assert_eq!(cookie_value(cookies, "a"), Some("1"));
    assert_eq!(cookie_value(cookies, "b"), Some("2"));
    assert_eq!(cookie_value(cookies, "c"), Some("3 4"));
    assert_eq!(cookie_value(cookies, "d"), None);
    assert_eq!(cookie_value(cookies, ""), Some("5"));
    assert_eq!(cookie_value(cookies, "e"), Some("x=y"));
    assert_eq!(cookie_value(cookies, "A"), None);
    assert_eq!(cookie_value("", ""), None);
}

#[test]
fn cookies_come_from_the_first_cookie_header() {
    let req = request_with(
        vec![
            ("Cookie".to_string(), "a=1".to_string()),
            ("cookie".to_string(), "b=2".to_string()),
        ],
        "",
        b"",
    );
    assert_eq!(req.cookie("a"), Some("1"));
    assert_eq!(req.cookie("b"), None);
    assert_eq!(request_with(vec![], "", b"").cookie("a"), None);
}

#[test]
fn a_header_of_cookies_gives_each_of_them() {
    let pairs = [("session", "abc"), ("theme", "dark"), ("lang", "")];
    let mut header = String::new();
    for (i, (name, value)) in pairs.iter().enumerate() {
        if i > 0 {
            header.push_str("; ");
        }
        header.push_str(&format!("{}={}", name, value));
    }
    for (name, value) in pairs {
        assert_eq!(cookie_value(&header, name), Some(value));
    }
    assert_eq!(cookie_value(&header, "other"), None);
}

#[test]
fn fields_are_found_by_their_raw_names() {
    let query = "a=1&b=x+y&b=2&%63=3&d&=e&f=g=h";
    assert_eq!(field_value(query, "a"), Some("1".to_string()));
    assert_eq!(field_value(query, "b"), Some("x y".to_string()));
    assert_eq!(field_value(query, "c"), None);
    assert_eq!(field_value(query, "%63"), Some("3".to_string()));
    assert_eq!(field_value(query, "d"), None);
    assert_eq!(field_value(query, ""), Some("e".to_string()));
    assert_eq!(field_value(query, "f"), Some("g=h".to_string()));
    assert_eq!(field_value("", ""), None);
    assert_eq!(request_with(vec![], query, b"").query_param("b"), Some("x y".to_string()));
    assert_eq!(request_with(vec![], query, b"").query_param("z"), None);
}

#[test]
fn a_form_must_be_utf8() {
    assert_eq!(request_with(vec![], "", b"a=1&b=%C3%A9").form_field("b"), Some("é".to_string()));
    assert_eq!(request_with(vec![], "", "a=é".as_bytes()).form_field("a"), Some("é".to_string()));
    assert_eq!(request_with(vec![], "", b"a=1&b=\xFF").form_field("a"), None);
    assert_eq!(request_with(vec![], "", b"").form_field("a"), None);
}

#[test]
fn white_space_is_what_unicode_says() {
    for code in 0..=0x10FFFFu32 {
        if let Some(c) = char::from_u32(code) {
            assert_eq!(white_space(c), c.is_whitespace(), "{:x}", code);
        }
    }
}

#[test]
fn text_helpers_agree_with_std() {
    for text in ["", " ", "a", " a b ", "\u{2003}é\u{85}", "==", "a=b=c", "=", "é=ü", "\t \n"] {
        assert_eq!(trim(text), text.trim());
        assert_eq!(split_once(text, '='), text.split_once('='));
        assert_eq!(split(text, '='), text.split('=').collect::<Vec<&str>>());
        assert!(same_text(text, &text.to_string()));
        assert!(!same_text(text, &format!("{}x", text)));
    }
    assert!(!same_text("ab", "ac"));
}

#[test]
fn a_front_without_percent_decodes_apart() {
    for front in ["", "a+b", "é++", "x=y&z"] {
        for behind in ["", "c+d", "%C3%A9", "%FF", "%zz+", "%C3", "%A9%"] {
            let whole = format!("{}{}", front, behind);
            assert_eq!(urlencoding_decode(front), front.replace('+', " "));
            assert_eq!(
                urlencoding_decode(&whole),
                format!("{}{}", urlencoding_decode(front), urlencoding_decode(behind))
            );
            let mut bytes = percent_decode(front.as_bytes());
            bytes.extend_from_slice(&percent_decode(behind.as_bytes()));
            assert_eq!(percent_decode(whole.as_bytes()), bytes);
        }
    }
}

#[test]
fn a_valid_front_stays_before_what_is_repaired() {
    assert_eq!(to_text(b"ab\xC3\xA9\xFFcd\xE2\x82"), "ab\u{E9}\u{FFFD}cd\u{FFFD}");
    for n in 0..=4usize {
        let bytes = b"abcd\xF0\x9F\x98e";
        assert_eq!(to_text(bytes), format!("{}{}", to_text(&bytes[..n]), to_text(&bytes[n..])));
    }
}

#[test]
fn fields_show_what_is_not_utf8() {
    let query = "a=x%FF&b=%C3";
    assert_eq!(request_with(vec![], query, b"").query_param("a"), Some("x\u{FFFD}".to_string()));
    assert_eq!(
        request_with(vec![], "", query.as_bytes()).form_field("b"),
        Some("\u{FFFD}".to_string())
    );
}
