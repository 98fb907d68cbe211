//! Requests and responses as handlers see them: the cookies of a request, the
//! headers and body of a response, and the bytes a response goes out as.

use crate::routes::Route;
use crate::session::SessionStorage;
use crate::strmap::{collect, lemma_collect_step, upsert, Pair, StrMap};
use crate::text::{
    contains, has_substring, occurs_at, same_text, split, split_on, split_once, split_once_on,
    trim, trimmed,
};
use vstd::prelude::*;
use vstd::string::*;
use vstd::utf8::encode_utf8;

verus! {

/// A request, as it is handed to a handler.
#[derive(Debug)]
pub struct Req {
    /// The method of the request line.
    pub method: String,
    /// The host that the request names.
    pub url: String,
    /// The path of the request line, with its query.
    pub path: String,
    /// The headers, by name as written.
    pub headers: StrMap,
    /// The cookies of the `Cookie` header.
    pub cookies: StrMap,
    /// The body.
    pub body: Vec<u8>,
    /// The query parameters of the path.
    pub query: StrMap,
    /// The route that matched, with its path parameters.
    pub route: Route,
}

/// What one item of a `Cookie` header gives: the item, without the white space
/// around it, is split at its first `=`; an item without `=` gives nothing.
pub open spec fn cookie_pair(item: Seq<char>) -> Option<Pair> {
    split_once(trim(item), '=')
}

/// What each item of a `Cookie` header gives, the items being what stands between its `;`.
pub open spec fn cookie_items(header: Seq<char>) -> Seq<Option<Pair>> {
    let items = split(header, ';');
    Seq::new(items.len(), |i: int| cookie_pair(items[i]))
}

/// The cookies that the value of a `Cookie` header holds.
pub open spec fn cookies_of(header: Seq<char>) -> Seq<Pair> {
    collect(cookie_items(header))
}

/// The cookies that a table of headers holds: those of its `Cookie` header,
/// none where it has no such header.
pub open spec fn cookies(headers: Map<Seq<char>, Seq<char>>) -> Seq<Pair> {
    if headers.contains_key("Cookie"@) {
        cookies_of(headers["Cookie"@])
    } else {
        Seq::empty()
    }
}

/// Reads the cookies out of the value of a `Cookie` header.
pub fn parse_cookie_header(value: &str) -> (out: StrMap)
    ensures
        out.pairs() == cookies_of(value@),
{
    let list = split_on(value, ';');
    let ghost items = cookie_items(value@);
    let mut out = StrMap::new();
    let mut i: usize = 0;
    assert(items.take(0) =~= Seq::empty());
    while i < list.len()
        invariant
            list.deep_view() == split(value@, ';'),
            items == cookie_items(value@),
            i <= list.len(),
            out.pairs() == collect(items.take(i as int)),
        decreases list.len() - i,
    {
        assert(list.deep_view()[i as int] == list@[i as int]@);
        proof {
            lemma_collect_step(items, i as int);
        }
        let item = trimmed(list[i].as_str());
        match split_once_on(item.as_str(), '=') {
            Some((key, value)) => {
                out.insert(key, value);
            },
            None => {},
        }
        i += 1;
    }
    assert(items.take(items.len() as int) =~= items);
    out
}

/// Reads the cookies out of a table of headers.
pub fn parse_cookies(headers: StrMap) -> (out: StrMap)
    ensures
        out.pairs() == cookies(headers@),
{
    match headers.get("Cookie") {
        Some(value) => parse_cookie_header(value.as_str()),
        None => StrMap::new(),
    }
}

/// `value`, followed by `attribute` unless `name` already occurs in it.
pub open spec fn with_default(
    value: Seq<char>,
    name: Seq<char>,
    attribute: Seq<char>,
) -> Seq<char> {
    if contains(value, name) {
        value
    } else {
        value + attribute
    }
}

/// The value of a `Set-Cookie` header with the defaults applied, in this
/// order: `Secure`, `HttpOnly`, `SameSite=Lax`, `Path=/`, `Max-Age=86400`. A
/// default is left out where the name of its attribute occurs anywhere in the
/// value as it stands by then.
pub open spec fn normalized(value: Seq<char>) -> Seq<char> {
    let a = with_default(value, "Secure"@, "; Secure"@);
    let b = with_default(a, "HttpOnly"@, "; HttpOnly"@);
    let c = with_default(b, "SameSite"@, "; SameSite=Lax"@);
    let d = with_default(c, "Path"@, "; Path=/"@);
    with_default(d, "Max-Age"@, "; Max-Age=86400"@)
}

/// Whether the names of all five default attributes occur in `value`.
pub open spec fn has_all_defaults(value: Seq<char>) -> bool {
    &&& contains(value, "Secure"@)
    &&& contains(value, "HttpOnly"@)
    &&& contains(value, "SameSite"@)
    &&& contains(value, "Path"@)
    &&& contains(value, "Max-Age"@)
}

/// What occurs in a text occurs in the text with more appended.
pub proof fn lemma_contains_extended(s: Seq<char>, t: Seq<char>, pat: Seq<char>)
    requires
        contains(s, pat),
    ensures
        contains(s + t, pat),
{
    let i = choose|i: int| occurs_at(s, pat, i);
    assert((s + t).subrange(i, i + pat.len()) =~= s.subrange(i, i + pat.len()));
    assert(occurs_at(s + t, pat, i));
}

/// What occurs in a text occurs in the text appended to another.
pub proof fn lemma_contains_appended(s: Seq<char>, t: Seq<char>, pat: Seq<char>)
    requires
        contains(t, pat),
    ensures
        contains(s + t, pat),
{
    let i = choose|i: int| occurs_at(t, pat, i);
    assert((s + t).subrange(s.len() + i, s.len() + i + pat.len()) =~= t.subrange(
        i,
        i + pat.len(),
    ));
    assert(occurs_at(s + t, pat, s.len() + i));
}

proof fn lemma_with_default(value: Seq<char>, name: Seq<char>, attribute: Seq<char>)
    requires
        contains(attribute, name),
    ensures
        contains(with_default(value, name, attribute), name),
        forall|pat: Seq<char>| #[trigger]
            contains(value, pat) ==> contains(with_default(value, name, attribute), pat),
{
    if !contains(value, name) {
        lemma_contains_appended(value, attribute, name);
    }
    assert forall|pat: Seq<char>| #[trigger] contains(value, pat) implies contains(
        with_default(value, name, attribute),
        pat,
    ) by {
        lemma_contains_extended(value, attribute, pat);
    }
}

proof fn lemma_defaults_hold_names()
    ensures
        contains("; Secure"@, "Secure"@),
        contains("; HttpOnly"@, "HttpOnly"@),
        contains("; SameSite=Lax"@, "SameSite"@),
        contains("; Path=/"@, "Path"@),
        contains("; Max-Age=86400"@, "Max-Age"@),
{
    reveal_strlit("Secure");
    reveal_strlit("; Secure");
    reveal_strlit("HttpOnly");
    reveal_strlit("; HttpOnly");
    reveal_strlit("SameSite");
    reveal_strlit("; SameSite=Lax");
    reveal_strlit("Path");
    reveal_strlit("; Path=/");
    reveal_strlit("Max-Age");
    reveal_strlit("; Max-Age=86400");
    assert("; Secure"@.subrange(2, 8) =~= "Secure"@);
    assert(occurs_at("; Secure"@, "Secure"@, 2));
    assert("; HttpOnly"@.subrange(2, 10) =~= "HttpOnly"@);
    assert(occurs_at("; HttpOnly"@, "HttpOnly"@, 2));
    assert("; SameSite=Lax"@.subrange(2, 10) =~= "SameSite"@);
    assert(occurs_at("; SameSite=Lax"@, "SameSite"@, 2));
    assert("; Path=/"@.subrange(2, 6) =~= "Path"@);
    assert(occurs_at("; Path=/"@, "Path"@, 2));
    assert("; Max-Age=86400"@.subrange(2, 9) =~= "Max-Age"@);
    assert(occurs_at("; Max-Age=86400"@, "Max-Age"@, 2));
}

/// A normalized value holds the names of all five default attributes, and a
/// value that holds them all is left as it is. So to normalize twice is to
/// normalize once.
pub proof fn law_normalize_idempotent(value: Seq<char>)
    ensures
        has_all_defaults(normalized(value)),
        has_all_defaults(value) ==> normalized(value) == value,
        normalized(normalized(value)) == normalized(value),
{
    lemma_defaults_hold_names();
    let a = with_default(value, "Secure"@, "; Secure"@);
    let b = with_default(a, "HttpOnly"@, "; HttpOnly"@);
    let c = with_default(b, "SameSite"@, "; SameSite=Lax"@);
    let d = with_default(c, "Path"@, "; Path=/"@);
    lemma_with_default(value, "Secure"@, "; Secure"@);
    lemma_with_default(a, "HttpOnly"@, "; HttpOnly"@);
    lemma_with_default(b, "SameSite"@, "; SameSite=Lax"@);
    lemma_with_default(c, "Path"@, "; Path=/"@);
    lemma_with_default(d, "Max-Age"@, "; Max-Age=86400"@);
    assert(has_all_defaults(normalized(value)));
}

/// Applies the defaults to the value of a `Set-Cookie` header.
pub fn normalize_set_cookie(value: &str) -> (out: String)
    ensures
        out@ == normalized(value@),
        normalized(out@) == out@,
{
    let mut out = value.to_owned();
    if !has_substring(out.as_str(), "Secure") {
        out.append("; Secure");
    }
    if !has_substring(out.as_str(), "HttpOnly") {
        out.append("; HttpOnly");
    }
    if !has_substring(out.as_str(), "SameSite") {
        out.append("; SameSite=Lax");
    }
    if !has_substring(out.as_str(), "Path") {
        out.append("; Path=/");
    }
    if !has_substring(out.as_str(), "Max-Age") {
        out.append("; Max-Age=86400");
    }
    proof {
        law_normalize_idempotent(value@);
    }
    out
}

/// The value that a header is stored with: the normalized value for
/// `Set-Cookie`, the value as given for every other name.
pub open spec fn stored_value(key: Seq<char>, value: Seq<char>) -> Seq<char> {
    if key == "Set-Cookie"@ {
        normalized(value)
    } else {
        value
    }
}

/// `Content-Type` and `Content-Disposition` are stored as given.
pub proof fn lemma_plain_headers()
    ensures
        forall|v: Seq<char>| #[trigger] stored_value("Content-Type"@, v) == v,
        forall|v: Seq<char>| #[trigger] stored_value("Content-Disposition"@, v) == v,
{
    reveal_strlit("Set-Cookie");
    reveal_strlit("Content-Type");
    reveal_strlit("Content-Disposition");
    assert("Content-Type"@.len() != "Set-Cookie"@.len());
    assert("Content-Disposition"@.len() != "Set-Cookie"@.len());
}

/// The family that a format belongs to, as the first half of a media type;
/// `None` for a format that has none.
pub open spec fn media_family(f: Seq<char>) -> Option<Seq<char>> {
    if f == "json"@ || f == "javascript"@ || f == "xml"@ || f == "octet-stream"@ || f
        == "x-www-form-urlencoded"@ || f == "pdf"@ || f == "zip"@ || f == "vnd.api+json"@ || f
        == "vnd.ms-excel"@ || f == "vnd.openxmlformats-officedocument.spreadsheetml.sheet"@ || f
        == "vnd.ms-powerpoint"@ || f
        == "application/vnd.openxmlformats-officedocument.presentationml.presentation"@ {
        Some("application/"@)
    } else if f == "html"@ || f == "css"@ || f == "text"@ || f == "plain"@ {
        Some("text/"@)
    } else if f == "jpeg"@ || f == "png"@ || f == "gif"@ || f == "svg+xml"@ || f == "webp"@ {
        Some("image/"@)
    } else if f == "mpeg"@ || f == "wav"@ {
        Some("audio/"@)
    } else if f == "mp4"@ || f == "x-msvideo"@ || f == "x-matroska"@ || f == "ogg"@ {
        Some("video/"@)
    } else if f == "form-data"@ || f == "alternative"@ || f == "mixed"@ {
        Some("multipart/"@)
    } else if f == "woff"@ || f == "woff2"@ || f == "ttf"@ {
        Some("font/"@)
    } else {
        None
    }
}

/// The headers after a format was chosen: a format with a family sets
/// `Content-Type` to the family followed by the format; `file` and `download`
/// set `Content-Disposition` and a form's `Content-Type`; any other format
/// changes nothing.
pub open spec fn formatted(pairs: Seq<Pair>, f: Seq<char>) -> Seq<Pair> {
    match media_family(f) {
        Some(family) => upsert(pairs, "Content-Type"@, family + f),
        None => if f == "file"@ {
            upsert(
                upsert(
                    pairs,
                    "Content-Disposition"@,
                    "inline"@,
                ),
                "Content-Type"@,
                "application/x-www-form-urlencoded"@,
            )
        } else if f == "download"@ {
            upsert(
                upsert(
                    pairs,
                    "Content-Disposition"@,
                    "attachment; filename=\"downloaded_file\""@,
                ),
                "Content-Type"@,
                "application/x-www-form-urlencoded"@,
            )
        } else {
            pairs
        },
    }
}

/// Whether a format is known: it has a family, or is `file` or `download`.
pub open spec fn known_format(f: Seq<char>) -> bool {
    media_family(f) is Some || f == "file"@ || f == "download"@
}

/// The family of a format.
pub fn family_of(format: &str) -> (r: Option<String>)
    ensures
        match r {
            Some(family) => media_family(format@) == Some(family@),
            None => media_family(format@) is None,
        },
{
    if same_text(format, "json") || same_text(format, "javascript") || same_text(format, "xml")
        || same_text(format, "octet-stream") || same_text(format, "x-www-form-urlencoded")
        || same_text(format, "pdf") || same_text(format, "zip") || same_text(
        format,
        "vnd.api+json",
    ) || same_text(format, "vnd.ms-excel") || same_text(
        format,
        "vnd.openxmlformats-officedocument.spreadsheetml.sheet",
    ) || same_text(format, "vnd.ms-powerpoint") || same_text(
        format,
        "application/vnd.openxmlformats-officedocument.presentationml.presentation",
    ) {
        Some("application/".to_owned())
    } else if same_text(format, "html") || same_text(format, "css") || same_text(format, "text")
        || same_text(format, "plain") {
        Some("text/".to_owned())
    } else if same_text(format, "jpeg") || same_text(format, "png") || same_text(format, "gif")
        || same_text(format, "svg+xml") || same_text(format, "webp") {
        Some("image/".to_owned())
    } else if same_text(format, "mpeg") || same_text(format, "wav") {
        Some("audio/".to_owned())
    } else if same_text(format, "mp4") || same_text(format, "x-msvideo") || same_text(
        format,
        "x-matroska",
    ) || same_text(format, "ogg") {
        Some("video/".to_owned())
    } else if same_text(format, "form-data") || same_text(format, "alternative") || same_text(
        format,
        "mixed",
    ) {
        Some("multipart/".to_owned())
    } else if same_text(format, "woff") || same_text(format, "woff2") || same_text(format, "ttf") {
        Some("font/".to_owned())
    } else {
        None
    }
}

/// The decimal digits of `n`, as ASCII.
pub open spec fn digits(n: nat) -> Seq<u8>
    decreases n,
{
    if n < 10 {
        seq![(48 + n) as u8]
    } else {
        digits(n / 10).push((48 + n % 10) as u8)
    }
}

/// The header lines of a response: for each pair, in order, the key, a colon
/// and a space, the value, and the end of the line.
pub open spec fn header_lines(pairs: Seq<Pair>) -> Seq<u8>
    decreases pairs.len(),
{
    if pairs.len() == 0 {
        Seq::empty()
    } else {
        header_lines(pairs.drop_last()) + encode_utf8(pairs.last().0) + encode_utf8(": "@)
            + encode_utf8(pairs.last().1) + encode_utf8("\r\n"@)
    }
}

/// The bytes of a response: the status line, which always says `OK`; the
/// header lines; an empty line; the body.
pub open spec fn wire(status: u16, pairs: Seq<Pair>, body: Seq<u8>) -> Seq<u8> {
    encode_utf8("HTTP/1.1 "@) + digits(status as nat) + encode_utf8(" OK\r\n"@) + header_lines(
        pairs,
    ) + encode_utf8("\r\n"@) + body
}

/// The bytes that answer a request which no route matches: the bare text,
/// without a status line or headers.
pub open spec fn not_found() -> Seq<u8> {
    encode_utf8("404 Not Found"@)
}

/// Appends `bytes` to `out`.
pub fn push_all(out: &mut Vec<u8>, bytes: &[u8])
    ensures
        final(out)@ == old(out)@ + bytes@,
{
    let mut i: usize = 0;
    while i < bytes.len()
        invariant
            i <= bytes.len(),
            out@ == old(out)@ + bytes@.take(i as int),
        decreases bytes.len() - i,
    {
        out.push(bytes[i]);
        assert(bytes@.take(i + 1) =~= bytes@.take(i as int).push(bytes@[i as int]));
        i += 1;
    }
    assert(bytes@.take(i as int) =~= bytes@);
}

/// Appends the decimal digits of `n` to `out`.
pub fn push_decimal(out: &mut Vec<u8>, n: u16)
    ensures
        final(out)@ == old(out)@ + digits(n as nat),
    decreases n,
{
    if n >= 10 {
        push_decimal(out, n / 10);
    }
    let d: u8 = (n % 10) as u8;
    out.push(48 + d);
    assert(out@ =~= old(out)@ + digits(n as nat));
}

/// The bytes that answer a request which no route matches.
pub fn not_found_bytes() -> (out: Vec<u8>)
    ensures
        out@ == not_found(),
{
    let mut out: Vec<u8> = Vec::new();
    push_all(&mut out, "404 Not Found".as_bytes());
    out
}

/// A response, as a handler fills it in.
#[derive(Debug)]
pub struct Res {
    /// The status code.
    pub status: u16,
    /// The body.
    pub body: Vec<u8>,
    /// The headers.
    pub headers: StrMap,
    /// The sessions that the handler may use.
    pub session: SessionStorage,
}

impl Clone for Res {
    fn clone(&self) -> (res: Res)
        ensures
            res.status == self.status,
            res.body@ == self.body@,
            res.headers.pairs() == self.headers.pairs(),
            res.session.records() == self.session.records(),
    {
        let mut body: Vec<u8> = Vec::new();
        push_all(&mut body, self.body.as_slice());
        Res {
            status: self.status,
            body,
            headers: self.headers.clone(),
            session: self.session.clone(),
        }
    }
}

impl Res {
    /// The bytes that the response goes out as.
    pub open spec fn wire(&self) -> Seq<u8> {
        wire(self.status, self.headers.pairs(), self.body@)
    }

    /// A fresh response: status 200, no headers, an empty body, no sessions.
    pub fn new() -> (res: Res)
        ensures
            res.status == 200,
            res.body@ == Seq::<u8>::empty(),
            res.headers.pairs() == Seq::<Pair>::empty(),
            res.session@ == Map::<Seq<char>, crate::session::SessionView>::empty(),
    {
        Res { status: 200, body: Vec::new(), headers: StrMap::new(), session: SessionStorage::new() }
    }

    /// Sets the status code.
    pub fn status(&mut self, code: u16)
        ensures
            final(self).status == code,
            final(self).body == old(self).body,
            final(self).headers == old(self).headers,
            final(self).session == old(self).session,
    {
        self.status = code;
    }

    /// Sets the body to the bytes of `body`.
    pub fn data(&mut self, body: &str)
        ensures
            final(self).body@ == encode_utf8(body@),
            final(self).status == old(self).status,
            final(self).headers == old(self).headers,
            final(self).session == old(self).session,
    {
        self.body = body.as_bytes_vec();
    }

    /// Sets the header `key` to `value`. The value of `Set-Cookie` is
    /// normalized first.
    pub fn header(&mut self, key: &str, value: &str)
        ensures
            final(self).headers.pairs() == upsert(
                old(self).headers.pairs(),
                key@,
                stored_value(key@, value@),
            ),
            final(self).status == old(self).status,
            final(self).body == old(self).body,
            final(self).session == old(self).session,
    {
        if same_text(key, "Set-Cookie") {
            let cookie = normalize_set_cookie(value);
            self.headers.insert(key.to_owned(), cookie);
        } else {
            self.headers.insert(key.to_owned(), value.to_owned());
        }
    }

    /// Chooses the headers for a format by its short name, and says whether
    /// the format is known. An unknown format changes nothing.
    pub fn format(&mut self, format: &str) -> (known: bool)
        ensures
            known == known_format(format@),
            final(self).headers.pairs() == formatted(old(self).headers.pairs(), format@),
            final(self).status == old(self).status,
            final(self).body == old(self).body,
            final(self).session == old(self).session,
    {
        proof {
            lemma_plain_headers();
        }
        match family_of(format) {
            Some(family) => {
                let mut value = family;
                value.append(format);
                self.header("Content-Type", value.as_str());
                true
            },
            None => {
                if same_text(format, "file") {
                    self.header("Content-Disposition", "inline");
                    self.header("Content-Type", "application/x-www-form-urlencoded");
                    true
                } else if same_text(format, "download") {
                    self.header("Content-Disposition", "attachment; filename=\"downloaded_file\"");
                    self.header("Content-Type", "application/x-www-form-urlencoded");
                    true
                } else {
                    false
                }
            },
        }
    }

    /// Answers with JSON: sets `Content-Type` and the body.
    pub fn json(&mut self, json: &str)
        ensures
            final(self).headers.pairs() == upsert(
                old(self).headers.pairs(),
                "Content-Type"@,
                "application/json"@,
            ),
            final(self).body@ == encode_utf8(json@),
            final(self).status == old(self).status,
            final(self).session == old(self).session,
    {
        proof {
            lemma_plain_headers();
        }
        self.header("Content-Type", "application/json");
        self.data(json);
    }

    /// Answers with HTML: sets `Content-Type` and the body.
    pub fn html(&mut self, html: &str)
        ensures
            final(self).headers.pairs() == upsert(
                old(self).headers.pairs(),
                "Content-Type"@,
                "text/html"@,
            ),
            final(self).body@ == encode_utf8(html@),
            final(self).status == old(self).status,
            final(self).session == old(self).session,
    {
        proof {
            lemma_plain_headers();
        }
        self.header("Content-Type", "text/html");
        self.data(html);
    }

    /// Answers with the HTML that was loaded from a file.
    pub fn html_load(&mut self, contents: &str)
        ensures
            final(self).headers.pairs() == upsert(
                old(self).headers.pairs(),
                "Content-Type"@,
                "text/html"@,
            ),
            final(self).body@ == encode_utf8(contents@),
            final(self).status == old(self).status,
            final(self).session == old(self).session,
    {
        proof {
            lemma_plain_headers();
        }
        self.header("Content-Type", "text/html");
        self.data(contents);
    }

    /// Answers with the contents of a file, to be shown in place.
    pub fn file(&mut self, contents: Vec<u8>)
        ensures
            final(self).headers.pairs() == upsert(
                old(self).headers.pairs(),
                "Content-Disposition"@,
                "inline"@,
            ),
            final(self).body@ == contents@,
            final(self).status == old(self).status,
            final(self).session == old(self).session,
    {
        proof {
            lemma_plain_headers();
        }
        self.header("Content-Disposition", "inline");
        self.body = contents;
    }

    /// Answers with the contents of a file, to be saved.
    pub fn download(&mut self, contents: Vec<u8>)
        ensures
            final(self).headers.pairs() == upsert(
                old(self).headers.pairs(),
                "Content-Disposition"@,
                "attachment; filename=\"downloaded_file\""@,
            ),
            final(self).body@ == contents@,
            final(self).status == old(self).status,
            final(self).session == old(self).session,
    {
        proof {
            lemma_plain_headers();
        }
        self.header("Content-Disposition", "attachment; filename=\"downloaded_file\"");
        self.body = contents;
    }

    /// The bytes that the response goes out as.
    pub fn to_bytes(&self) -> (out: Vec<u8>)
        ensures
            out@ == self.wire(),
    {
        let mut out: Vec<u8> = Vec::new();
        push_all(&mut out, "HTTP/1.1 ".as_bytes());
        push_decimal(&mut out, self.status);
        push_all(&mut out, " OK\r\n".as_bytes());
        let ghost start = out@;
        let ghost pairs = self.headers.pairs();
        let n = self.headers.len();
        let mut i: usize = 0;
        assert(pairs.take(0) =~= Seq::empty());
        while i < n
            invariant
                pairs == self.headers.pairs(),
                n == pairs.len(),
                i <= n,
                out@ == start + header_lines(pairs.take(i as int)),
            decreases n - i,
        {
            proof {
                assert(pairs.take(i + 1).drop_last() =~= pairs.take(i as int));
            }
            push_all(&mut out, self.headers.key_at(i).as_str().as_bytes());
            push_all(&mut out, ": ".as_bytes());
            push_all(&mut out, self.headers.value_at(i).as_str().as_bytes());
            push_all(&mut out, "\r\n".as_bytes());
            i += 1;
        }
        assert(pairs.take(n as int) =~= pairs);
        push_all(&mut out, "\r\n".as_bytes());
        push_all(&mut out, self.body.as_slice());
        out
    }
}

} // verus!
