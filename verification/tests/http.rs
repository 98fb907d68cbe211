use pulsar_web::http::{
    family_of, normalize_set_cookie, not_found_bytes, parse_cookie_header, parse_cookies,
    push_all, push_decimal, Res,
};
use pulsar_web::strmap::StrMap;

fn text(value: &str) -> String {
    value.to_string()
}

fn headers_with(name: &str, value: &str) -> StrMap {
    let mut headers = StrMap::new();
    headers.insert(text(name), text(value));
    headers
}

#[test]
fn cookies_are_read_from_the_cookie_header() {
    let cookies = parse_cookies(headers_with("Cookie", "a=1; b=2"));
    assert_eq!(cookies.len(), 2);
    assert_eq!(cookies.get("a"), Some(&text("1")));
    assert_eq!(cookies.get("b"), Some(&text("2")));
}

#[test]
fn malformed_cookie_is_discarded() {
    let cookies = parse_cookies(headers_with("Cookie", "bad"));
    assert!(cookies.is_empty());
    let cookies = parse_cookies(headers_with("Cookie", "a=1; bad; b=2"));
    assert_eq!(cookies.len(), 2);
    assert_eq!(cookies.get("bad"), None);
}

#[test]
fn no_cookie_header_no_cookies() {
    assert!(parse_cookies(StrMap::new()).is_empty());
    assert!(parse_cookies(headers_with("cookie", "a=1")).is_empty());
    assert!(parse_cookies(headers_with("Host", "a=1")).is_empty());
}

#[test]
fn cookie_value_may_hold_equals_signs() {
    let cookies = parse_cookie_header("token=abc==; x=1=2");
    assert_eq!(cookies.get("token"), Some(&text("abc==")));
    assert_eq!(cookies.get("x"), Some(&text("1=2")));
}

#[test]
fn cookie_item_is_trimmed_but_not_its_halves() {
    let cookies = parse_cookie_header("  a = 1  ;b=2");
    assert_eq!(cookies.get("a "), Some(&text(" 1")));
    assert_eq!(cookies.get("b"), Some(&text("2")));
}

#[test]
fn later_cookie_replaces_the_earlier() {
    let cookies = parse_cookie_header("a=1; a=2");
    assert_eq!(cookies.len(), 1);
    assert_eq!(cookies.get("a"), Some(&text("2")));
}

#[test]
fn empty_cookie_header_has_no_cookies() {
    assert!(parse_cookie_header("").is_empty());
    assert!(parse_cookie_header(";;").is_empty());
}

#[test]
fn normalize_appends_all_defaults_in_order() {
    assert_eq!(
        normalize_set_cookie("id=7"),
        text("id=7; Secure; HttpOnly; SameSite=Lax; Path=/; Max-Age=86400")
    );
    assert_eq!(
        normalize_set_cookie(""),
        text("; Secure; HttpOnly; SameSite=Lax; Path=/; Max-Age=86400")
    );
}

#[test]
fn normalize_leaves_out_what_is_there() {
    assert_eq!(
        normalize_set_cookie("id=7; SameSite=Strict; Path=/app"),
        text("id=7; SameSite=Strict; Path=/app; Secure; HttpOnly; Max-Age=86400")
    );
    assert_eq!(
        normalize_set_cookie("id=7; Max-Age=10; HttpOnly; Secure"),
        text("id=7; Max-Age=10; HttpOnly; Secure; SameSite=Lax; Path=/")
    );
}

#[test]
fn normalize_goes_by_substring() {
    assert_eq!(
        normalize_set_cookie("Path=1"),
        text("Path=1; Secure; HttpOnly; SameSite=Lax; Max-Age=86400")
    );
    assert_eq!(
        normalize_set_cookie("InSecure=1"),
        text("InSecure=1; HttpOnly; SameSite=Lax; Path=/; Max-Age=86400")
    );
    assert_eq!(
        normalize_set_cookie("secure=1"),
        text("secure=1; Secure; HttpOnly; SameSite=Lax; Path=/; Max-Age=86400")
    );
}

#[test]
fn normalize_twice_is_normalize_once() {
    for value in ["", "id=7", "id=7; Secure", "a=b; Path=/x; SameSite=None", "Max-Age", "x; HttpOnly"] {
        let once = normalize_set_cookie(value);
        let twice = normalize_set_cookie(&once);
        assert_eq!(once, twice);
    }
}

#[test]
fn fresh_response() {
    let res = Res::new();
    assert_eq!(res.status, 200);
    assert!(res.body.is_empty());
    assert!(res.headers.is_empty());
    assert_eq!(res.session.len(), 0);
}

#[test]
fn status_and_data_are_set() {
    let mut res = Res::new();
    res.status(404);
    res.data("héllo");
    assert_eq!(res.status, 404);
    assert_eq!(res.body, "héllo".as_bytes().to_vec());
    assert!(res.headers.is_empty());
}

#[test]
fn header_is_stored_as_given() {
    let mut res = Res::new();
    res.header("X-Key", " value ");
    assert_eq!(res.headers.get("X-Key"), Some(&text(" value ")));
    res.header("X-Key", "other");
    assert_eq!(res.headers.len(), 1);
    assert_eq!(res.headers.get("X-Key"), Some(&text("other")));
}

#[test]
fn set_cookie_header_is_normalized() {
    let mut res = Res::new();
    res.header("Set-Cookie", "id=7; Secure");
    assert_eq!(
        res.headers.get("Set-Cookie"),
        Some(&text("id=7; Secure; HttpOnly; SameSite=Lax; Path=/; Max-Age=86400"))
    );
    res.header("set-cookie", "id=7");
    assert_eq!(res.headers.get("set-cookie"), Some(&text("id=7")));
}

#[test]
fn families_of_formats() {
    assert_eq!(family_of("json"), Some(text("application/")));
    assert_eq!(family_of("zip"), Some(text("application/")));
    assert_eq!(family_of("html"), Some(text("text/")));
    assert_eq!(family_of("plain"), Some(text("text/")));
    assert_eq!(family_of("svg+xml"), Some(text("image/")));
    assert_eq!(family_of("wav"), Some(text("audio/")));
    assert_eq!(family_of("ogg"), Some(text("video/")));
    assert_eq!(family_of("mixed"), Some(text("multipart/")));
    assert_eq!(family_of("woff2"), Some(text("font/")));
    assert_eq!(family_of("file"), None);
    assert_eq!(family_of("download"), None);
    assert_eq!(family_of("JSON"), None);
    assert_eq!(family_of(""), None);
}

#[test]
fn format_sets_the_content_type() {
    let mut res = Res::new();
    assert!(res.format("json"));
    assert_eq!(res.headers.get("Content-Type"), Some(&text("application/json")));
    assert!(res.format("png"));
    assert_eq!(res.headers.get("Content-Type"), Some(&text("image/png")));
    assert!(res.format("mp4"));
    assert_eq!(res.headers.get("Content-Type"), Some(&text("video/mp4")));
    assert!(res.format("form-data"));
    assert_eq!(res.headers.get("Content-Type"), Some(&text("multipart/form-data")));
    assert!(res.format("ttf"));
    assert_eq!(res.headers.get("Content-Type"), Some(&text("font/ttf")));
    assert!(res.format("mpeg"));
    assert_eq!(res.headers.get("Content-Type"), Some(&text("audio/mpeg")));
    assert!(res.format("css"));
    assert_eq!(res.headers.get("Content-Type"), Some(&text("text/css")));
    assert_eq!(res.headers.len(), 1);
}

#[test]
fn format_of_a_full_media_type_gets_the_family_in_front() {
    let mut res = Res::new();
    assert!(res.format(
        "application/vnd.openxmlformats-officedocument.presentationml.presentation"
    ));
    assert_eq!(
        res.headers.get("Content-Type"),
        Some(&text(
            "application/application/vnd.openxmlformats-officedocument.presentationml.presentation"
        ))
    );
}

#[test]
fn format_file_and_download() {
    let mut res = Res::new();
    assert!(res.format("file"));
    assert_eq!(res.headers.get("Content-Disposition"), Some(&text("inline")));
    assert_eq!(
        res.headers.get("Content-Type"),
        Some(&text("application/x-www-form-urlencoded"))
    );
    assert!(res.format("download"));
    assert_eq!(
        res.headers.get("Content-Disposition"),
        Some(&text("attachment; filename=\"downloaded_file\""))
    );
    assert_eq!(res.headers.len(), 2);
}

#[test]
fn unknown_format_changes_nothing() {
    let mut res = Res::new();
    assert!(!res.format("yaml"));
    assert!(res.headers.is_empty());
}

#[test]
fn json_and_html() {
    let mut res = Res::new();
    res.json("{\"a\":1}");
    assert_eq!(res.headers.get("Content-Type"), Some(&text("application/json")));
    assert_eq!(res.body, b"{\"a\":1}".to_vec());
    res.html("<p>hi</p>");
    assert_eq!(res.headers.get("Content-Type"), Some(&text("text/html")));
    assert_eq!(res.body, b"<p>hi</p>".to_vec());
    res.html_load("<b>x</b>");
    assert_eq!(res.headers.get("Content-Type"), Some(&text("text/html")));
    assert_eq!(res.body, b"<b>x</b>".to_vec());
}

#[test]
fn file_and_download() {
    let mut res = Res::new();
    res.file(vec![0, 159, 255]);
    assert_eq!(res.headers.get("Content-Disposition"), Some(&text("inline")));
    assert_eq!(res.body, vec![0, 159, 255]);
    res.download(vec![1, 2]);
    assert_eq!(
        res.headers.get("Content-Disposition"),
        Some(&text("attachment; filename=\"downloaded_file\""))
    );
    assert_eq!(res.body, vec![1, 2]);
}

#[test]
fn decimal_digits() {
    for n in [0u16, 7, 10, 99, 100, 200, 404, 9999, 10000, 65535] {
        let mut out = vec![b'>'];
        push_decimal(&mut out, n);
        assert_eq!(out, format!(">{}", n).into_bytes());
    }
}

#[test]
fn bytes_are_appended() {
    let mut out = vec![1u8, 2];
    push_all(&mut out, &[3, 4, 5]);
    assert_eq!(out, vec![1, 2, 3, 4, 5]);
    push_all(&mut out, &[]);
    assert_eq!(out, vec![1, 2, 3, 4, 5]);
}

#[test]
fn response_without_headers_on_the_wire() {
    let mut res = Res::new();
    res.data("hello world");
    assert_eq!(res.to_bytes(), b"HTTP/1.1 200 OK\r\n\r\nhello world".to_vec());
}

#[test]
fn response_with_headers_on_the_wire() {
    let mut res = Res::new();
    res.status(201);
    res.header("Content-Type", "text/plain");
    res.header("X-Key", "v");
    res.body = vec![0xff, 0x00];
    let mut expected = b"HTTP/1.1 201 OK\r\nContent-Type: text/plain\r\nX-Key: v\r\n\r\n".to_vec();
    expected.extend_from_slice(&[0xff, 0x00]);
    assert_eq!(res.to_bytes(), expected);
}

#[test]
fn status_line_always_says_ok() {
    let mut res = Res::new();
    res.status(500);
    assert_eq!(res.to_bytes(), b"HTTP/1.1 500 OK\r\n\r\n".to_vec());
}

#[test]
fn not_found_is_the_bare_text() {
    assert_eq!(not_found_bytes(), b"404 Not Found".to_vec());
}

#[test]
fn clone_of_a_response_keeps_everything() {
    let mut res = Res::new();
    res.status(418);
    res.header("X-Key", "v");
    res.data("tea");
    res.session.create_session_at(text("id"), text("u1"), 0);
    let copy = res.clone();
    res.status(200);
    res.data("");
    assert_eq!(copy.status, 418);
    assert_eq!(copy.body, b"tea".to_vec());
    assert_eq!(copy.headers.get("X-Key"), Some(&text("v")));
    assert_eq!(copy.session.len(), 1);
    assert_eq!(copy.to_bytes(), b"HTTP/1.1 418 OK\r\nX-Key: v\r\n\r\ntea".to_vec());
}
