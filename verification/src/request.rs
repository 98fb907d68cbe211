//! Reading the head of a request: the request line, the headers up to the
//! empty line, and the length of the body that is still to come.

use crate::strmap::{collect, key_index, lemma_collect_step, lemma_key_index_is, Pair, StrMap};
use crate::text::{
    chars_of, first_word, has_prefix, second_word, split, split_on, split_once, split_once_on,
    starts_with, strip_trailing, trim, trimmed, two_words, without_trailing,
};
use vstd::prelude::*;
use vstd::string::*;

verus! {

/// What can be wrong with a request as it arrives.
#[derive(Debug, Clone, Copy, PartialEq, Eq, Structural)]
pub enum RequestError {
    /// No line of the head begins with a known method.
    MalformedRequest,
    /// Fewer bytes of body arrived than `Content-Length` announced.
    TruncatedBody,
}

/// The head of a request.
#[derive(Debug)]
pub struct Head {
    /// The method: the first word of the request line.
    pub method: String,
    /// The path with its query: the second word of the request line.
    pub path: String,
    /// The headers, by name as written.
    pub headers: StrMap,
    /// The length of the body, as `Content-Length` gives it; 0 without one.
    pub content_length: usize,
}

/// A head as a plain value.
pub struct HeadView {
    pub method: Seq<char>,
    pub path: Seq<char>,
    pub headers: Seq<Pair>,
}

impl View for Head {
    type V = HeadView;

    open spec fn view(&self) -> HeadView {
        HeadView { method: self.method@, path: self.path@, headers: self.headers.pairs() }
    }
}

/// The lines of a text: what stands between its line feeds, each without the
/// carriage returns at its end.
pub open spec fn lines_of(text: Seq<char>) -> Seq<Seq<char>> {
    let raw = split(text, '\n');
    Seq::new(raw.len(), |i: int| strip_trailing(raw[i], '\r'))
}

/// Whether a line begins with one of the known methods.
pub open spec fn is_request_line(line: Seq<char>) -> bool {
    ||| starts_with(line, "GET"@)
    ||| starts_with(line, "POST"@)
    ||| starts_with(line, "PUT"@)
    ||| starts_with(line, "DELETE"@)
    ||| starts_with(line, "PATCH"@)
}

/// The position of the first request line, or the number of lines where there is none.
pub open spec fn request_line_index(lines: Seq<Seq<char>>) -> int
    decreases lines.len(),
{
    if lines.len() == 0 {
        0
    } else if is_request_line(lines[0]) {
        0
    } else {
        1 + request_line_index(lines.drop_first())
    }
}

/// The name and value of a header line: what stands before its first colon,
/// as written, and what stands after it, without the white space around it.
/// A line without a colon gives nothing.
pub open spec fn header_pair(line: Seq<char>) -> Option<Pair> {
    match split_once(line, ':') {
        Some(p) => Some((p.0, trim(p.1))),
        None => None,
    }
}

/// What each of the lines gives as a header.
pub open spec fn header_items(lines: Seq<Seq<char>>) -> Seq<Option<Pair>> {
    Seq::new(lines.len(), |i: int| header_pair(lines[i]))
}

/// The header lines: those that follow the request line at position `at`, up
/// to the first empty line.
pub open spec fn header_block(lines: Seq<Seq<char>>, at: int) -> Seq<Seq<char>> {
    let rest = lines.skip(at + 1);
    rest.take(key_index(rest, Seq::empty()))
}

/// The head that a text holds: the first line that begins with a known method
/// is the request line, and the lines after it, up to the first empty one, are
/// the headers. Of two headers with one name the later one's value stays.
/// `None` where no line begins with a known method.
pub open spec fn head_of(text: Seq<char>) -> Option<HeadView> {
    let lines = lines_of(text);
    let at = request_line_index(lines);
    if 0 <= at < lines.len() {
        Some(
            HeadView {
                method: first_word(lines[at]),
                path: second_word(lines[at]),
                headers: collect(header_items(header_block(lines, at))),
            },
        )
    } else {
        None
    }
}

/// The value of a decimal digit; 0 for any other character.
pub open spec fn digit_value(c: char) -> nat {
    if is_digit(c) {
        (c as u32 - 48) as nat
    } else {
        0
    }
}

/// Whether `c` is a decimal digit.
pub open spec fn is_digit(c: char) -> bool {
    48 <= c as u32 <= 57
}

/// Whether `s` holds decimal digits only.
pub open spec fn all_digits(s: Seq<char>) -> bool {
    forall|i: int| 0 <= i < s.len() ==> is_digit(#[trigger] s[i])
}

/// The number that the decimal digits `s` write.
pub open spec fn decimal(s: Seq<char>) -> nat
    decreases s.len(),
{
    if s.len() == 0 {
        0
    } else {
        decimal(s.drop_last()) * 10 + digit_value(s.last())
    }
}

/// The length that the value of a `Content-Length` header gives: the number
/// it writes in decimal digits, after an optional `+` and without the white
/// space around it. 0 where it writes none, or one that does not fit.
pub open spec fn length_of(value: Seq<char>) -> nat {
    let t = trim(value);
    let d = if t.len() > 0 && t[0] == '+' {
        t.skip(1)
    } else {
        t
    };
    if d.len() > 0 && all_digits(d) && decimal(d) <= usize::MAX {
        decimal(d)
    } else {
        0
    }
}

/// The length of the body that a table of headers announces: that of its
/// `Content-Length`, 0 where it has none.
pub open spec fn content_length_of(headers: Map<Seq<char>, Seq<char>>) -> nat {
    if headers.contains_key("Content-Length"@) {
        length_of(headers["Content-Length"@])
    } else {
        0
    }
}

/// The value of the header `name`, empty where the table has none.
pub open spec fn header_or_empty(
    headers: Map<Seq<char>, Seq<char>>,
    name: Seq<char>,
) -> Seq<char> {
    if headers.contains_key(name) {
        headers[name]
    } else {
        Seq::empty()
    }
}

proof fn lemma_request_line_index_is(lines: Seq<Seq<char>>, k: int)
    requires
        0 <= k <= lines.len(),
        forall|j: int| 0 <= j < k ==> !is_request_line(#[trigger] lines[j]),
        k < lines.len() ==> is_request_line(lines[k]),
    ensures
        request_line_index(lines) == k,
    decreases lines.len(),
{
    if lines.len() > 0 && !is_request_line(lines[0]) {
        let t = lines.drop_first();
        assert forall|j: int| 0 <= j < k - 1 implies !is_request_line(#[trigger] t[j]) by {
            assert(t[j] == lines[j + 1]);
        }
        lemma_request_line_index_is(t, k - 1);
    }
}

/// The number written by some of the leading digits is no larger than the
/// number written by all.
proof fn lemma_decimal_grows(s: Seq<char>, k: int)
    requires
        0 <= k <= s.len(),
    ensures
        decimal(s.take(k)) <= decimal(s),
    decreases s.len() - k,
{
    if k == s.len() {
        assert(s.take(k) =~= s);
    } else {
        lemma_decimal_grows(s, k + 1);
        assert(s.take(k + 1).drop_last() =~= s.take(k));
    }
}

/// The text that bytes stand for when every byte sequence that is not valid
/// UTF-8 is replaced by the replacement character.
pub uninterp spec fn lossy_text(bytes: Seq<u8>) -> Seq<char>;

/// Decodes bytes as UTF-8, replacing what is not valid.
///
/// Calls `String::from_utf8_lossy`. Its result depends on the bytes alone and
/// is named `lossy_text`; nothing else is claimed of it.
#[verifier::external_body]
fn decode_lossy(bytes: &[u8]) -> (text: String)
    ensures
        text@ == lossy_text(bytes@),
{
    String::from_utf8_lossy(bytes).into_owned()
}

/// Whether a line begins with one of the known methods.
pub fn line_is_request(line: &str) -> (r: bool)
    ensures
        r == is_request_line(line@),
{
    has_prefix(line, "GET") || has_prefix(line, "POST") || has_prefix(line, "PUT") || has_prefix(
        line,
        "DELETE",
    ) || has_prefix(line, "PATCH")
}

/// The length that the value of a `Content-Length` header gives.
pub fn parse_length(value: &str) -> (n: usize)
    ensures
        n == length_of(value@),
{
    let t = trimmed(value);
    let cs = chars_of(t.as_str());
    let start: usize = if cs.len() > 0 && cs[0] == '+' {
        1
    } else {
        0
    };
    let ghost d = cs@.skip(start as int);
    assert(start == 0 ==> d =~= cs@);
    if start == cs.len() {
        return 0;
    }
    let mut acc: usize = 0;
    let mut i: usize = start;
    assert(d.take(0) =~= Seq::empty());
    while i < cs.len()
        invariant
            cs@ == trim(value@),
            d == cs@.skip(start as int),
            d == (if cs@.len() > 0 && cs@[0] == '+' {
                cs@.skip(1)
            } else {
                cs@
            }),
            start <= i <= cs.len(),
            start < cs.len(),
            all_digits(d.take(i - start)),
            acc == decimal(d.take(i - start)),
        decreases cs.len() - i,
    {
        let v: u32 = cs[i] as u32;
        assert(d[i - start] == cs@[i as int]);
        if v < 48 || v > 57 {
            assert(!is_digit(d[i - start]));
            return 0;
        }
        let digit: usize = (v - 48) as usize;
        proof {
            assert(d.take(i - start + 1).drop_last() =~= d.take(i - start));
            assert(decimal(d.take(i - start + 1)) == acc * 10 + digit);
            assert forall|j: int| 0 <= j < i - start + 1 implies is_digit(
                #[trigger] d.take(i - start + 1)[j],
            ) by {
                if j < i - start {
                    assert(d.take(i - start)[j] == d.take(i - start + 1)[j]);
                }
            }
        }
        if acc > (usize::MAX - digit) / 10 {
            proof {
                lemma_decimal_grows(d, i - start + 1);
            }
            return 0;
        }
        acc = acc * 10 + digit;
        i += 1;
    }
    assert(d.take(i - start) =~= d);
    acc
}

/// The lines of a text.
pub fn lines(text: &str) -> (out: Vec<String>)
    ensures
        out.deep_view() == lines_of(text@),
{
    let raw = split_on(text, '\n');
    let mut out: Vec<String> = Vec::new();
    let mut i: usize = 0;
    while i < raw.len()
        invariant
            raw.deep_view() == split(text@, '\n'),
            i <= raw.len(),
            out@.len() == i,
            forall|j: int| 0 <= j < i ==> (#[trigger] out@[j])@ == lines_of(text@)[j],
        decreases raw.len() - i,
    {
        assert(raw.deep_view()[i as int] == raw@[i as int]@);
        out.push(without_trailing(raw[i].as_str(), '\r'));
        i += 1;
    }
    assert(out.deep_view() =~= lines_of(text@));
    out
}

/// Reads the head of a request out of its text.
pub fn parse_head(text: &str) -> (r: Result<Head, RequestError>)
    ensures
        match r {
            Ok(head) => head_of(text@) == Some(head@) && head.content_length == content_length_of(
                head.headers@,
            ),
            Err(e) => e == RequestError::MalformedRequest && head_of(text@) is None,
        },
{
    let all = lines(text);
    let ghost ls = lines_of(text@);
    let mut at: usize = 0;
    while at < all.len() && !line_is_request(all[at].as_str())
        invariant
            all.deep_view() == ls,
            at <= all.len(),
            forall|j: int| 0 <= j < at ==> !is_request_line(#[trigger] ls[j]),
        decreases all.len() - at,
    {
        assert(all.deep_view()[at as int] == all@[at as int]@);
        at += 1;
    }
    proof {
        if at < all.len() {
            assert(all.deep_view()[at as int] == all@[at as int]@);
        }
        lemma_request_line_index_is(ls, at as int);
    }
    if at == all.len() {
        return Err(RequestError::MalformedRequest);
    }
    let (method, path) = two_words(all[at].as_str());
    let ghost rest = ls.skip(at + 1);
    let ghost items = header_items(rest);
    let mut headers = StrMap::new();
    let mut j: usize = at + 1;
    assert(items.take(0) =~= Seq::empty());
    while j < all.len() && !all[j].as_str().is_empty()
        invariant
            all.deep_view() == ls,
            rest == ls.skip(at + 1),
            items == header_items(rest),
            at < j <= all.len(),
            forall|k: int| 0 <= k < j - at - 1 ==> (#[trigger] rest[k]).len() != 0,
            headers.pairs() == collect(items.take(j - at - 1)),
        decreases all.len() - j,
    {
        assert(all.deep_view()[j as int] == all@[j as int]@);
        assert(rest[j - at - 1] == ls[j as int]);
        proof {
            lemma_collect_step(items, j - at - 1);
        }
        match split_once_on(all[j].as_str(), ':') {
            Some((name, value)) => {
                headers.insert(name, trimmed(value.as_str()));
            },
            None => {},
        }
        j += 1;
    }
    proof {
        let end = j - at - 1;
        if j < all.len() {
            assert(all.deep_view()[j as int] == all@[j as int]@);
            assert(rest[end] == ls[j as int]);
            assert(rest[end] =~= Seq::<char>::empty());
        }
        assert forall|k: int| 0 <= k < end implies rest[k] != Seq::<char>::empty() by {
            assert(rest[k].len() != 0);
        }
        lemma_key_index_is(rest, Seq::empty(), end);
        assert(header_items(header_block(ls, at as int)) =~= items.take(end));
    }
    let content_length = match headers.get("Content-Length") {
        Some(value) => parse_length(value.as_str()),
        None => 0,
    };
    Ok(Head { method, path, headers, content_length })
}

/// Reads the head of a request out of the bytes that arrived first. Bytes
/// that are not valid UTF-8 are read as the replacement character.
pub fn read_head(buffer: &[u8]) -> (r: Result<Head, RequestError>)
    ensures
        match r {
            Ok(head) => head_of(lossy_text(buffer@)) == Some(head@) && head.content_length
                == content_length_of(head.headers@),
            Err(e) => e == RequestError::MalformedRequest && head_of(lossy_text(buffer@)) is None,
        },
{
    let text = decode_lossy(buffer);
    parse_head(text.as_str())
}

/// Settles the body of a request: `read` is what arrived of the `expected`
/// bytes. Where fewer arrived, the body is taken to be empty and the
/// condition is reported; the request is answered all the same.
pub fn settle_body(expected: usize, read: Vec<u8>) -> (r: (Vec<u8>, Option<RequestError>))
    ensures
        read@.len() < expected ==> r.0@ == Seq::<u8>::empty() && r.1 == Some(
            RequestError::TruncatedBody,
        ),
        read@.len() >= expected ==> r.0@ == read@ && r.1 is None,
{
    if read.len() < expected {
        (Vec::new(), Some(RequestError::TruncatedBody))
    } else {
        (read, None)
    }
}

} // verus!
