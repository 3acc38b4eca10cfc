//! Incremental HTTP/1.1 request parser.
//!
//! The parser is a state machine over the bytes received so far. The spec
//! function [`step`] states what one transition does; [`run`] repeats
//! transitions until the parser stops; [`RequestParser::feed`] is proved to
//! compute exactly [`run`].
use vstd::prelude::*;
use vstd::utf8::{
    encode_scalar, encode_utf8, last_continuation_byte, leading_byte_width_1, leading_byte_width_2,
    leading_byte_width_3, leading_byte_width_4, second_last_continuation_byte,
    third_last_continuation_byte,
};

use crate::text::{
    chars_of, contains, contains_seq, copy_range, eq_ignore_ascii_case, eq_ignore_case,
    find_char_from, find_from, has_prefix, lemma_find_from, lossy_string, lowercase,
    parse_bounded, parse_uint_range, range_eq, ranges_view, split_char_ranges, split_once_at,
    split_ranges, starts_with, string_from_range, to_lowercase, trim, trim_range, utf8_lossy,
    all_digits, digit_value, digits_value, is_ws, parse_uint,
    skip_ws, skip_ws_back,
};

verus! {

/// Errors that can occur while incrementally parsing an HTTP request.
/// Each variant maps to the HTTP status code that should be returned.
#[derive(Debug, Clone, Copy, PartialEq, Eq, Structural)]
pub enum ParseError {
    BadRequest,
    HeaderTooLarge,
    UriTooLong,
    PayloadTooLarge,
    NotImplemented,
    VersionNotSupported,
}

impl ParseError {
    pub open spec fn spec_status_code(self) -> u16 {
        match self {
            ParseError::BadRequest => 400,
            ParseError::HeaderTooLarge => 431,
            ParseError::UriTooLong => 414,
            ParseError::PayloadTooLarge => 413,
            ParseError::NotImplemented => 501,
            ParseError::VersionNotSupported => 505,
        }
    }

    pub fn status_code(&self) -> (c: u16)
        ensures
            c == self.spec_status_code(),
    {
        match self {
            ParseError::BadRequest => 400,
            ParseError::HeaderTooLarge => 431,
            ParseError::UriTooLong => 414,
            ParseError::PayloadTooLarge => 413,
            ParseError::NotImplemented => 501,
            ParseError::VersionNotSupported => 505,
        }
    }
}

/// Where the parser is in the request.
#[derive(Debug, Clone, Copy, PartialEq, Eq, Structural)]
pub enum State {
    RequestLine,
    Headers,
    BodyContentLength(usize),
    BodyChunkedSize,
    BodyChunkedData(usize),
    BodyChunkedCRLF,
    BodyChunkedTrailer,
    Done,
}

/// A list of header pairs, viewed as character sequences.
pub open spec fn headers_view(h: Seq<(String, String)>) -> Seq<(Seq<char>, Seq<char>)> {
    h.map_values(|p: (String, String)| (p.0@, p.1@))
}

/// Index of the first header at or after `k` whose name equals `name`
/// ignoring ASCII case.
pub open spec fn header_from(hs: Seq<(Seq<char>, Seq<char>)>, name: Seq<char>, k: int) -> Option<
    int,
>
    decreases hs.len() - k,
{
    if k < 0 || k >= hs.len() {
        None
    } else if eq_ignore_case(hs[k].0, name) {
        Some(k)
    } else {
        header_from(hs, name, k + 1)
    }
}

/// Index of the first header named `name` (ASCII case-insensitively).
pub open spec fn header_index(hs: Seq<(Seq<char>, Seq<char>)>, name: Seq<char>) -> Option<int> {
    header_from(hs, name, 0)
}

/// The value of the first header named `name`, if any.
pub open spec fn header_lookup(hs: Seq<(Seq<char>, Seq<char>)>, name: Seq<char>) -> Option<
    Seq<char>,
> {
    match header_index(hs, name) {
        Some(k) => Some(hs[k].1),
        None => None,
    }
}

pub proof fn lemma_header_from(hs: Seq<(Seq<char>, Seq<char>)>, name: Seq<char>, k: int)
    requires
        0 <= k <= hs.len(),
    ensures
        match header_from(hs, name, k) {
            Some(j) => k <= j < hs.len() && eq_ignore_case(hs[j].0, name) && forall|m: int|
                k <= m < j ==> !eq_ignore_case(#[trigger] hs[m].0, name),
            None => forall|m: int| k <= m < hs.len() ==> !eq_ignore_case(#[trigger] hs[m].0, name),
        },
    decreases hs.len() - k,
{
    if k < hs.len() && !eq_ignore_case(hs[k].0, name) {
        lemma_header_from(hs, name, k + 1);
    }
}

/// Index of the first header in `headers` named `name`, ignoring ASCII case.
pub fn find_header(headers: &Vec<(String, String)>, name: &str) -> (r: Option<usize>)
    ensures
        match r {
            Some(k) => header_index(headers_view(headers@), name@) == Some(k as int) && k
                < headers@.len(),
            None => header_index(headers_view(headers@), name@) is None,
        },
{
    let ghost hs = headers_view(headers@);
    let n = chars_of(name);
    let mut k: usize = 0;
    while k < headers.len()
        invariant
            k <= headers@.len(),
            hs == headers_view(headers@),
            n@ == name@,
            header_index(hs, name@) == header_from(hs, name@, k as int),
        decreases headers.len() - k,
    {
        let key = chars_of(headers[k].0.as_str());
        assert(hs[k as int].0 == headers@[k as int].0@);
        if eq_ignore_ascii_case(key.as_slice(), n.as_slice()) {
            return Some(k);
        }
        k += 1;
    }
    None
}

/// A fully parsed HTTP request.
#[derive(Debug, Clone, Default)]
pub struct Request {
    pub method: String,
    pub target: String,
    pub path: String,
    pub query: String,
    pub version: String,
    pub headers: Vec<(String, String)>,
    pub body: Vec<u8>,
}

/// The pieces of a `Cookie` header value: for each `;`-separated part,
/// its trimmed name and value when it holds a `=`.
pub open spec fn cookie_from(h: Seq<char>, parts: Seq<(int, int)>, k: int, name: Seq<char>) -> Option<
    Seq<char>,
>
    decreases parts.len() - k,
{
    if k < 0 || k >= parts.len() {
        None
    } else {
        let part = trim(h.subrange(parts[k].0, parts[k].1));
        match split_once_at(part, '=') {
            Some(e) => if trim(part.subrange(0, e)) == name {
                Some(trim(part.subrange(e + 1, part.len() as int)))
            } else {
                cookie_from(h, parts, k + 1, name)
            },
            None => cookie_from(h, parts, k + 1, name),
        }
    }
}

/// The value of cookie `name` in the header value `h`.
pub open spec fn cookie_value(h: Seq<char>, name: Seq<char>) -> Option<Seq<char>> {
    cookie_from(h, split_ranges(h, ';', 0, 0), 0, name)
}

impl Request {
    pub open spec fn headers_model(&self) -> Seq<(Seq<char>, Seq<char>)> {
        headers_view(self.headers@)
    }

    /// Case-insensitive header lookup.
    pub fn header(&self, name: &str) -> (r: Option<&str>)
        ensures
            match header_lookup(self.headers_model(), name@) {
                Some(v) => r is Some && r->0@ == v,
                None => r is None,
            },
    {
        proof {
            lemma_header_from(self.headers_model(), name@, 0);
        }
        match find_header(&self.headers, name) {
            Some(k) => {
                assert(self.headers_model()[k as int].1 == self.headers@[k as int].1@);
                let pair = &self.headers[k];
                assert(pair.1@ == self.headers@[k as int].1@);
                let v = pair.1.as_str();
                assert(v@ == pair.1@);
                assert(header_lookup(self.headers_model(), name@) == Some(self.headers_model()[k as int].1));
                Some(v)
            },
            None => None,
        }
    }

    /// Whether the connection should be kept alive after this request:
    /// a `Connection` header decides when present, else the version.
    pub open spec fn spec_keep_alive(&self) -> bool {
        match header_lookup(self.headers_model(), "connection"@) {
            Some(v) => !contains_seq(lowercase(v), "close"@),
            None => self.version@ == "HTTP/1.1"@,
        }
    }

    /// Returns true if the connection should be kept alive after this request.
    pub fn keep_alive(&self) -> (r: bool)
        ensures
            r == self.spec_keep_alive(),
    {
        match self.header("connection") {
            Some(v) => {
                let lower = to_lowercase(v);
                !asks_to_close(lower.as_str())
            },
            None => {
                let http11 = String::from_str("HTTP/1.1");
                self.version == http11
            },
        }
    }

    /// Returns the value of the cookie `name` from the `Cookie` header.
    pub fn cookie(&self, name: &str) -> (r: Option<String>)
        ensures
            match header_lookup(self.headers_model(), "cookie"@) {
                Some(h) => match cookie_value(h, name@) {
                    Some(v) => r is Some && r->0@ == v,
                    None => r is None,
                },
                None => r is None,
            },
    {
        let header = match self.header("cookie") {
            Some(h) => h,
            None => return None,
        };
        let h = chars_of(header);
        let n = chars_of(name);
        let parts = split_char_ranges(h.as_slice(), 0, h.len(), ';');
        proof {
            assert(h@.subrange(0, h@.len() as int) =~= h@);
        }
        let mut k: usize = 0;
        while k < parts.len()
            invariant
                k <= parts@.len(),
                ranges_view(parts@) == split_ranges(h@, ';', 0, 0),
                n@ == name@,
                header_lookup(self.headers_model(), "cookie"@) == Some(h@),
                forall|j: int|
                    0 <= j < parts@.len() ==> (#[trigger] parts@[j]).0 <= parts@[j].1 <= h@.len(),
                cookie_value(h@, name@) == cookie_from(h@, ranges_view(parts@), k as int, name@),
            decreases parts.len() - k,
        {
            let (pa, pb) = parts[k];
            let (ta, tb) = trim_range(h.as_slice(), pa, pb);
            assert(ranges_view(parts@)[k as int] == (pa as int, pb as int));
            let ghost part = h@.subrange(ta as int, tb as int);
            let e = find_char_from(h.as_slice(), '=', ta);
            proof {
                lemma_find_from(h@, '=', ta as int);
                lemma_find_from(part, '=', 0);
                lemma_find_in_window(h@, '=', ta as int, tb as int);
            }
            assert(part == trim(h@.subrange(pa as int, pb as int)));
            if e < tb {
                assert(split_once_at(part, '=') == Some((e - ta) as int));
                let (ka, kb) = trim_range(h.as_slice(), ta, e);
                assert(part.subrange(0, e - ta) =~= h@.subrange(ta as int, e as int));
                assert(trim(part.subrange(0, e - ta)) == h@.subrange(ka as int, kb as int));
                if range_eq(h.as_slice(), ka, kb, n.as_slice()) {
                    let (va, vb) = trim_range(h.as_slice(), e + 1, tb);
                    assert(part.subrange(e - ta + 1, part.len() as int) =~= h@.subrange(
                        e + 1,
                        tb as int,
                    ));
                    assert(cookie_from(h@, ranges_view(parts@), k as int, name@) == Some(
                        h@.subrange(va as int, vb as int),
                    ));
                    assert(cookie_value(h@, name@) == Some(h@.subrange(va as int, vb as int)));
                    assert(header_lookup(self.headers_model(), "cookie"@) == Some(h@));
                    return Some(string_from_range(h.as_slice(), va, vb));
                }
                assert(cookie_from(h@, ranges_view(parts@), k as int, name@) == cookie_from(
                    h@,
                    ranges_view(parts@),
                    k + 1,
                    name@,
                ));
            } else {
                assert(split_once_at(part, '=') is None);
            }
            k += 1;
        }
        None
    }
}

/// `find_from` restricted to a window `s[a..b]` agrees with the search in
/// the window taken as its own sequence.
pub proof fn lemma_find_in_window(s: Seq<char>, c: char, a: int, b: int)
    requires
        0 <= a <= b <= s.len(),
    ensures
        ({
            let w = s.subrange(a, b);
            let e = find_from(s, c, a);
            let f = find_from(w, c, 0);
            &&& (e < b ==> f == e - a)
            &&& (e >= b ==> f == w.len())
        }),
{
    let w = s.subrange(a, b);
    lemma_find_from(s, c, a);
    lemma_find_from(w, c, 0);
    let e = find_from(s, c, a);
    let f = find_from(w, c, 0);
    if f < w.len() {
        assert(w[f] == s[a + f]);
    }
    if e < b {
        assert(w[e - a] == s[e]);
    }
}

/// Model of the parser's fields.
pub struct ParserModel {
    pub state: State,
    pub method: Seq<char>,
    pub target: Seq<char>,
    pub version: Seq<char>,
    pub headers: Seq<(Seq<char>, Seq<char>)>,
    pub body: Seq<u8>,
    pub header_bytes: nat,
}

/// Outcome of one parser transition.
pub enum Step {
    /// Keep going with this model and buffer.
    Continue(ParserModel, Seq<u8>),
    /// Return this result, leaving this model and buffer.
    Stop(Result<bool, ParseError>, ParserModel, Seq<u8>),
}

/// Addition that saturates at `usize::MAX`.
pub open spec fn sat_add(a: nat, b: nat) -> nat {
    if a + b > usize::MAX {
        usize::MAX as nat
    } else {
        a + b
    }
}

/// All characters of `m` are ASCII uppercase letters.
fn all_upper(m: &[char]) -> (r: bool)
    ensures
        r == all_ascii_upper(m@),
{
    let mut i: usize = 0;
    while i < m.len()
        invariant
            i <= m@.len(),
            forall|j: int| 0 <= j < i ==> 'A' <= #[trigger] m@[j] <= 'Z',
        decreases m.len() - i,
    {
        if !('A' <= m[i] && m[i] <= 'Z') {
            return false;
        }
        i += 1;
    }
    true
}

/// Position of the first `\n` in `buf`.
pub open spec fn line_end(buf: Seq<u8>) -> Option<int> {
    let k = byte_find_from(buf, 10, 0);
    if k < buf.len() {
        Some(k)
    } else {
        None
    }
}

/// Index of the first byte `x` at or after `i` (or `b.len()`).
pub open spec fn byte_find_from(b: Seq<u8>, x: u8, i: int) -> int
    decreases b.len() - i,
{
    if i >= b.len() {
        b.len() as int
    } else if b[i] == x {
        i
    } else {
        byte_find_from(b, x, i + 1)
    }
}

/// The text of the line that ends with the `\n` at `pos`, without the
/// line break and a `\r` before it, decoded as `String::from_utf8_lossy`
/// does.
pub open spec fn line_text(buf: Seq<u8>, pos: int) -> Seq<char> {
    let end = if pos > 0 && buf[pos - 1] == 13 {
        pos - 1
    } else {
        pos
    };
    utf8_lossy(buf.subrange(0, end))
}

/// The bytes after the line break at `pos`.
pub open spec fn after_line(buf: Seq<u8>, pos: int) -> Seq<u8> {
    buf.subrange(pos + 1, buf.len() as int)
}

/// Length in bytes of the UTF-8 encoding of `s` (`str::len`).
pub open spec fn utf8_len(s: Seq<char>) -> nat {
    encode_utf8(s).len()
}

/// The ranges of the non-empty pieces among `r`.
pub open spec fn nonempty_ranges(r: Seq<(int, int)>) -> Seq<(int, int)>
    decreases r.len(),
{
    if r.len() == 0 {
        seq![]
    } else {
        let rest = nonempty_ranges(r.drop_last());
        if r.last().0 < r.last().1 {
            rest.push(r.last())
        } else {
            rest
        }
    }
}

/// The words of a request line: its pieces between single spaces that are
/// not empty.
pub open spec fn request_line_parts(line: Seq<char>) -> Seq<Seq<char>> {
    nonempty_ranges(split_ranges(line, ' ', 0, 0)).map_values(
        |r: (int, int)| line.subrange(r.0, r.1),
    )
}

pub open spec fn all_ascii_upper(s: Seq<char>) -> bool {
    forall|i: int| 0 <= i < s.len() ==> 'A' <= #[trigger] s[i] <= 'Z'
}

/// Parsing the request line `line` into `m`: the model afterwards and the
/// error, if any.
pub open spec fn request_line(m: ParserModel, line: Seq<char>) -> (ParserModel, Option<ParseError>) {
    let parts = request_line_parts(line);
    if parts.len() != 3 {
        (m, Some(ParseError::BadRequest))
    } else {
        let m2 = ParserModel { method: parts[0], target: parts[1], version: parts[2], ..m };
        if !has_prefix(parts[1], "/"@) {
            (m2, Some(ParseError::BadRequest))
        } else if parts[2] != "HTTP/1.0"@ && parts[2] != "HTTP/1.1"@ {
            (m2, Some(ParseError::VersionNotSupported))
        } else if parts[0].len() == 0 || !all_ascii_upper(parts[0]) {
            (m2, Some(ParseError::BadRequest))
        } else {
            (m2, None)
        }
    }
}

/// Parsing a header line: `name: value`, both trimmed; the name must be
/// non-empty and hold no space.
pub open spec fn header_line(m: ParserModel, line: Seq<char>) -> Result<ParserModel, ParseError> {
    match split_once_at(line, ':') {
        None => Err(ParseError::BadRequest),
        Some(k) => {
            let name = trim(line.subrange(0, k));
            let value = trim(line.subrange(k + 1, line.len() as int));
            if name.len() == 0 || contains_seq(name, " "@) {
                Err(ParseError::BadRequest)
            } else {
                Ok(ParserModel { headers: m.headers.push((name, value)), ..m })
            }
        },
    }
}

/// The framing that a `Transfer-Encoding` value, lowercased, calls for:
/// chunked when it names `chunked`, else not implemented.
pub open spec fn transfer_encoding_framing(lowered: Seq<char>) -> Result<State, ParseError> {
    if contains_seq(lowered, "chunked"@) {
        Ok(State::BodyChunkedSize)
    } else {
        Err(ParseError::NotImplemented)
    }
}

/// The framing that a `Content-Length` value calls for under the limit
/// `max_body`.
pub open spec fn content_length_framing(value: Seq<char>, max_body: nat) -> Result<State, ParseError> {
    match parse_bounded(trim(value), 10, usize::MAX as nat) {
        None => Err(ParseError::BadRequest),
        Some(len) => if len > max_body {
            Err(ParseError::PayloadTooLarge)
        } else if len == 0 {
            Ok(State::Done)
        } else {
            Ok(State::BodyContentLength(len as usize))
        },
    }
}

/// How the body is framed, decided once the headers are complete.
pub open spec fn body_state(m: ParserModel, max_body: nat) -> Result<State, ParseError> {
    match header_lookup(m.headers, "transfer-encoding"@) {
        Some(te) => transfer_encoding_framing(lowercase(te)),
        None => match header_lookup(m.headers, "content-length"@) {
            Some(cl) => content_length_framing(cl, max_body),
            None => Ok(State::Done),
        },
    }
}

/// One transition of the parser on the buffered bytes `buf`.
pub open spec fn step(m: ParserModel, buf: Seq<u8>, max_header: nat, max_body: nat) -> Step {
    match m.state {
        State::RequestLine => match line_end(buf) {
            Some(pos) => {
                let line = line_text(buf, pos);
                let rest = after_line(buf, pos);
                if utf8_len(line) > max_header {
                    Step::Stop(Err(ParseError::UriTooLong), m, rest)
                } else {
                    let (m2, err) = request_line(m, line);
                    match err {
                        Some(e) => Step::Stop(Err(e), m2, rest),
                        None => Step::Continue(ParserModel { state: State::Headers, ..m2 }, rest),
                    }
                }
            },
            None => if buf.len() > max_header {
                Step::Stop(Err(ParseError::UriTooLong), m, buf)
            } else {
                Step::Stop(Ok(false), m, buf)
            },
        },
        State::Headers => match line_end(buf) {
            Some(pos) => {
                let line = line_text(buf, pos);
                let rest = after_line(buf, pos);
                if line.len() == 0 {
                    match body_state(m, max_body) {
                        Ok(st) => Step::Continue(ParserModel { state: st, ..m }, rest),
                        Err(e) => Step::Stop(Err(e), m, rest),
                    }
                } else {
                    let hb = sat_add(m.header_bytes, utf8_len(line) + 2);
                    let m2 = ParserModel { header_bytes: hb, ..m };
                    if hb > max_header {
                        Step::Stop(Err(ParseError::HeaderTooLarge), m2, rest)
                    } else {
                        match header_line(m2, line) {
                            Ok(m3) => Step::Continue(m3, rest),
                            Err(e) => Step::Stop(Err(e), m2, rest),
                        }
                    }
                }
            },
            None => if sat_add(m.header_bytes, buf.len()) > max_header {
                Step::Stop(Err(ParseError::HeaderTooLarge), m, buf)
            } else {
                Step::Stop(Ok(false), m, buf)
            },
        },
        State::BodyContentLength(remaining) => {
            if remaining == 0 {
                Step::Continue(ParserModel { state: State::Done, ..m }, buf)
            } else if buf.len() == 0 {
                Step::Stop(Ok(false), m, buf)
            } else {
                let take = if remaining < buf.len() {
                    remaining as int
                } else {
                    buf.len() as int
                };
                let left = remaining - take;
                let body = m.body + buf.subrange(0, take);
                let rest = buf.subrange(take, buf.len() as int);
                if left == 0 {
                    Step::Continue(ParserModel { state: State::Done, body: body, ..m }, rest)
                } else {
                    Step::Stop(
                        Ok(false),
                        ParserModel { state: State::BodyContentLength(left as usize), body: body, ..m },
                        rest,
                    )
                }
            }
        },
        State::BodyChunkedSize => match line_end(buf) {
            Some(pos) => {
                let line = line_text(buf, pos);
                let rest = after_line(buf, pos);
                let size_str = trim(line.subrange(0, find_from(line, ';', 0)));
                if size_str.len() == 0 {
                    Step::Stop(Err(ParseError::BadRequest), m, rest)
                } else {
                    match parse_bounded(size_str, 16, usize::MAX as nat) {
                        None => Step::Stop(Err(ParseError::BadRequest), m, rest),
                        Some(size) => if size == 0 {
                            Step::Continue(ParserModel { state: State::BodyChunkedTrailer, ..m }, rest)
                        } else if sat_add(m.body.len(), size) > max_body {
                            Step::Stop(Err(ParseError::PayloadTooLarge), m, rest)
                        } else {
                            Step::Continue(
                                ParserModel { state: State::BodyChunkedData(size as usize), ..m },
                                rest,
                            )
                        },
                    }
                }
            },
            None => if buf.len() > 64 {
                Step::Stop(Err(ParseError::BadRequest), m, buf)
            } else {
                Step::Stop(Ok(false), m, buf)
            },
        },
        State::BodyChunkedData(remaining) => {
            if remaining == 0 {
                Step::Continue(ParserModel { state: State::BodyChunkedCRLF, ..m }, buf)
            } else if buf.len() == 0 {
                Step::Stop(Ok(false), m, buf)
            } else {
                let take = if remaining < buf.len() {
                    remaining as int
                } else {
                    buf.len() as int
                };
                let left = remaining - take;
                let m2 = ParserModel {
                    state: State::BodyChunkedData(left as usize),
                    body: m.body + buf.subrange(0, take),
                    ..m
                };
                let rest = buf.subrange(take, buf.len() as int);
                if left != 0 {
                    Step::Stop(Ok(false), m2, rest)
                } else {
                    Step::Continue(m2, rest)
                }
            }
        },
        State::BodyChunkedCRLF => {
            if buf.len() < 2 {
                Step::Stop(Ok(false), m, buf)
            } else if buf[0] == 13 && buf[1] == 10 {
                Step::Continue(
                    ParserModel { state: State::BodyChunkedSize, ..m },
                    buf.subrange(2, buf.len() as int),
                )
            } else {
                Step::Stop(Err(ParseError::BadRequest), m, buf)
            }
        },
        State::BodyChunkedTrailer => match line_end(buf) {
            Some(pos) => {
                let line = line_text(buf, pos);
                let rest = after_line(buf, pos);
                if line.len() == 0 {
                    Step::Continue(ParserModel { state: State::Done, ..m }, rest)
                } else {
                    Step::Continue(m, rest)
                }
            },
            None => Step::Stop(Ok(false), m, buf),
        },
        State::Done => Step::Stop(Ok(true), m, buf),
    }
}

/// Order of the states among the transitions that consume no bytes.
pub open spec fn rank(st: State) -> nat {
    match st {
        State::Done => 0,
        State::BodyChunkedCRLF => 1,
        State::BodyContentLength(_) => 2,
        State::BodyChunkedData(_) => 2,
        _ => 3,
    }
}

/// A transition either consumes bytes or moves to a lower-ranked state.
pub open spec fn progresses(m: ParserModel, buf: Seq<u8>, m2: ParserModel, buf2: Seq<u8>) -> bool {
    buf2.len() < buf.len() || (buf2.len() == buf.len() && rank(m2.state) < rank(m.state))
}

/// Transitions until the parser stops: the result, the model and the bytes
/// left in the buffer.
pub open spec fn run(m: ParserModel, buf: Seq<u8>, max_header: nat, max_body: nat) -> (
    Result<bool, ParseError>,
    ParserModel,
    Seq<u8>,
)
    decreases buf.len(), rank(m.state),
{
    match step(m, buf, max_header, max_body) {
        Step::Stop(r, m2, b2) => (r, m2, b2),
        Step::Continue(m2, b2) => if progresses(m, buf, m2, b2) {
            run(m2, b2, max_header, max_body)
        } else {
            (Err(ParseError::BadRequest), m2, b2)
        },
    }
}

pub proof fn lemma_byte_find_from(b: Seq<u8>, x: u8, i: int)
    requires
        0 <= i <= b.len(),
    ensures
        i <= byte_find_from(b, x, i) <= b.len(),
        byte_find_from(b, x, i) < b.len() ==> b[byte_find_from(b, x, i)] == x,
        forall|k: int| i <= k < byte_find_from(b, x, i) ==> b[k] != x,
    decreases b.len() - i,
{
    if i < b.len() && b[i] != x {
        lemma_byte_find_from(b, x, i + 1);
    }
}

/// Every transition that continues makes progress, so [`run`] never takes
/// its fallback branch.
pub proof fn lemma_step_progresses(m: ParserModel, buf: Seq<u8>, max_header: nat, max_body: nat)
    ensures
        step(m, buf, max_header, max_body) matches Step::Continue(m2, b2) ==> progresses(
            m,
            buf,
            m2,
            b2,
        ),
{
    lemma_byte_find_from(buf, 10, 0);
}

/// Incremental, non-blocking-friendly HTTP/1.1 request parser.
#[derive(Debug, Clone)]
pub struct RequestParser {
    state: State,
    method: String,
    target: String,
    version: String,
    headers: Vec<(String, String)>,
    body: Vec<u8>,
    header_bytes: usize,
}

impl View for RequestParser {
    type V = ParserModel;

    closed spec fn view(&self) -> ParserModel {
        ParserModel {
            state: self.state,
            method: self.method@,
            target: self.target@,
            version: self.version@,
            headers: headers_view(self.headers@),
            body: self.body@,
            header_bytes: self.header_bytes as nat,
        }
    }
}

/// The model of a fresh parser.
pub open spec fn initial_model() -> ParserModel {
    ParserModel {
        state: State::RequestLine,
        method: seq![],
        target: seq![],
        version: seq![],
        headers: seq![],
        body: seq![],
        header_bytes: 0,
    }
}

/// The request that a parser with model `m` produces: the target splits
/// at the first `?` into path and query, and the path is percent-decoded.
pub open spec fn request_of(m: ParserModel) -> (Seq<char>, Seq<char>) {
    match split_once_at(m.target, '?') {
        Some(k) => (m.target.subrange(0, k), m.target.subrange(k + 1, m.target.len() as int)),
        None => (m.target, seq![]),
    }
}

/// Appends `src[a..b]` to `dst`.
pub fn extend_bytes(dst: &mut Vec<u8>, src: &[u8], a: usize, b: usize)
    requires
        a <= b <= src@.len(),
    ensures
        final(dst)@ == old(dst)@ + src@.subrange(a as int, b as int),
{
    let mut i = a;
    while i < b
        invariant
            a <= i <= b <= src@.len(),
            dst@ == old(dst)@ + src@.subrange(a as int, i as int),
        decreases b - i,
    {
        dst.push(src[i]);
        i += 1;
        proof {
            assert(src@.subrange(a as int, i as int) == src@.subrange(a as int, i - 1).push(
                src@[i - 1],
            ));
        }
    }
}

/// Removes the first `n` bytes of `buf`.
pub fn drop_front(buf: &mut Vec<u8>, n: usize)
    requires
        n <= old(buf)@.len(),
    ensures
        final(buf)@ == old(buf)@.subrange(n as int, old(buf)@.len() as int),
{
    let rest = buf.split_off(n);
    *buf = rest;
}

/// Position of the first `\n` in `buf`.
fn find_line_end(buf: &[u8]) -> (r: Option<usize>)
    ensures
        match r {
            Some(p) => line_end(buf@) == Some(p as int) && p < buf@.len(),
            None => line_end(buf@) is None,
        },
{
    let mut i: usize = 0;
    while i < buf.len()
        invariant
            i <= buf@.len(),
            byte_find_from(buf@, 10, 0) == byte_find_from(buf@, 10, i as int),
        decreases buf.len() - i,
    {
        if buf[i] == 10 {
            proof {
                lemma_byte_find_from(buf@, 10, i as int);
            }
            return Some(i);
        }
        i += 1;
    }
    proof {
        lemma_byte_find_from(buf@, 10, i as int);
    }
    None
}

/// Removes the line ending at `nl_pos` from `buf` and returns its text
/// without the line break and a `\r` before it.
fn take_line(buf: &mut Vec<u8>, nl_pos: usize) -> (line: String)
    requires
        nl_pos < old(buf)@.len(),
    ensures
        line@ == line_text(old(buf)@, nl_pos as int),
        final(buf)@ == after_line(old(buf)@, nl_pos as int),
{
    let n = buf.len();
    let mut end = nl_pos;
    if end > 0 && buf[end - 1] == 13 {
        end -= 1;
    }
    let head = copy_range(buf.as_slice(), 0, end);
    let line = lossy_string(head.as_slice());
    drop_front(buf, nl_pos + 1);
    line
}

/// Whether a `Connection` header value, given lowercased, asks to close
/// the connection: it names `close`.
pub fn asks_to_close(lowered: &str) -> (r: bool)
    ensures
        r == contains_seq(lowered@, "close"@),
{
    let lc = chars_of(lowered);
    let close = chars_of("close");
    contains(lc.as_slice(), close.as_slice())
}

/// The framing that a `Transfer-Encoding` value calls for, given the
/// value lowercased.
pub fn transfer_encoding_state(lowered: &str) -> (r: Result<State, ParseError>)
    ensures
        r == transfer_encoding_framing(lowered@),
{
    let lc = chars_of(lowered);
    let chunked = chars_of("chunked");
    if contains(lc.as_slice(), chunked.as_slice()) {
        Ok(State::BodyChunkedSize)
    } else {
        Err(ParseError::NotImplemented)
    }
}

/// The framing that a `Content-Length` value calls for: a body of that
/// many bytes, none for 0, an error when it is no number or exceeds
/// `max_body`.
pub fn content_length_state(value: &str, max_body: usize) -> (r: Result<State, ParseError>)
    ensures
        r == content_length_framing(value@, max_body as nat),
{
    let cl = chars_of(value);
    let (a, b) = trim_range(cl.as_slice(), 0, cl.len());
    proof {
        assert(cl@.subrange(0, cl@.len() as int) =~= cl@);
    }
    match parse_uint_range(cl.as_slice(), a, b, 10, usize::MAX) {
        None => Err(ParseError::BadRequest),
        Some(len) => {
            if len > max_body {
                Err(ParseError::PayloadTooLarge)
            } else if len == 0 {
                Ok(State::Done)
            } else {
                Ok(State::BodyContentLength(len))
            }
        },
    }
}

impl RequestParser {
    pub fn new() -> (p: Self)
        ensures
            p@ == initial_model(),
    {
        let p = RequestParser {
            state: State::RequestLine,
            method: String::new(),
            target: String::new(),
            version: String::new(),
            headers: Vec::new(),
            body: Vec::new(),
            header_bytes: 0,
        };
        assert(headers_view(p.headers@) =~= seq![]);
        p
    }

    /// Parses a request line into method, target and version.
    pub fn parse_request_line(&mut self, line: &str) -> (r: Result<(), ParseError>)
        ensures
            ({
                let (m2, err) = request_line(old(self)@, line@);
                &&& final(self)@ == m2
                &&& match err {
                    Some(e) => r == Err::<(), ParseError>(e),
                    None => r is Ok,
                }
            }),
    {
        let l = chars_of(line);
        let pieces = split_char_ranges(l.as_slice(), 0, l.len(), ' ');
        proof {
            assert(l@.subrange(0, l@.len() as int) =~= l@);
        }
        let ghost all = split_ranges(l@, ' ', 0, 0);
        let mut parts: Vec<(usize, usize)> = Vec::new();
        let mut k: usize = 0;
        while k < pieces.len()
            invariant
                k <= pieces@.len(),
                ranges_view(pieces@) == all,
                all == split_ranges(l@, ' ', 0, 0),
                ranges_view(parts@) == nonempty_ranges(all.subrange(0, k as int)),
                forall|j: int|
                    0 <= j < pieces@.len() ==> (#[trigger] pieces@[j]).0 <= pieces@[j].1
                        <= l@.len(),
                forall|j: int|
                    0 <= j < parts@.len() ==> (#[trigger] parts@[j]).0 <= parts@[j].1 <= l@.len(),
            decreases pieces.len() - k,
        {
            let (a, b) = pieces[k];
            assert(all.subrange(0, k + 1).drop_last() =~= all.subrange(0, k as int));
            assert(all[k as int] == (a as int, b as int));
            if a < b {
                let ghost old_parts = parts@;
                parts.push((a, b));
                assert(ranges_view(parts@) =~= ranges_view(old_parts).push((a as int, b as int)));
            }
            k += 1;
        }
        assert(all.subrange(0, all.len() as int) =~= all);
        let ghost words = request_line_parts(l@);
        assert(words.len() == parts@.len());
        if parts.len() != 3 {
            return Err(ParseError::BadRequest);
        }
        assert(words[0] == l@.subrange(parts@[0].0 as int, parts@[0].1 as int));
        assert(words[1] == l@.subrange(parts@[1].0 as int, parts@[1].1 as int));
        assert(words[2] == l@.subrange(parts@[2].0 as int, parts@[2].1 as int));
        self.method = string_from_range(l.as_slice(), parts[0].0, parts[0].1);
        self.target = string_from_range(l.as_slice(), parts[1].0, parts[1].1);
        self.version = string_from_range(l.as_slice(), parts[2].0, parts[2].1);
        assert(self@ == ParserModel {
            method: words[0],
            target: words[1],
            version: words[2],
            ..old(self)@
        });
        let t = chars_of(self.target.as_str());
        let slash = chars_of("/");
        if !starts_with(t.as_slice(), slash.as_slice()) {
            return Err(ParseError::BadRequest);
        }
        let v = chars_of(self.version.as_str());
        let v10 = chars_of("HTTP/1.0");
        let v11 = chars_of("HTTP/1.1");
        if !range_eq(v.as_slice(), 0, v.len(), v10.as_slice()) && !range_eq(
            v.as_slice(),
            0,
            v.len(),
            v11.as_slice(),
        ) {
            assert(v@.subrange(0, v@.len() as int) =~= v@);
            return Err(ParseError::VersionNotSupported);
        }
        assert(v@.subrange(0, v@.len() as int) =~= v@);
        let m = chars_of(self.method.as_str());
        if m.len() == 0 || !all_upper(m.as_slice()) {
            return Err(ParseError::BadRequest);
        }
        Ok(())
    }

    /// Parses a `name: value` header line and records it.
    pub fn parse_header_line(&mut self, line: &str) -> (r: Result<(), ParseError>)
        ensures
            match header_line(old(self)@, line@) {
                Ok(m2) => r is Ok && final(self)@ == m2,
                Err(e) => r == Err::<(), ParseError>(e) && final(self)@ == old(self)@,
            },
    {
        let l = chars_of(line);
        let k = find_char_from(l.as_slice(), ':', 0);
        if k >= l.len() {
            return Err(ParseError::BadRequest);
        }
        let (na, nb) = trim_range(l.as_slice(), 0, k);
        let (va, vb) = trim_range(l.as_slice(), k + 1, l.len());
        proof {
            assert(l@.subrange(0, l@.len() as int) =~= l@);
        }
        let space = chars_of(" ");
        let name_chars = copy_range(l.as_slice(), na, nb);
        if na == nb || contains(name_chars.as_slice(), space.as_slice()) {
            return Err(ParseError::BadRequest);
        }
        let name = string_from_range(l.as_slice(), na, nb);
        let value = string_from_range(l.as_slice(), va, vb);
        let ghost old_h = self.headers@;
        self.headers.push((name, value));
        proof {
            assert(headers_view(self.headers@) =~= headers_view(old_h).push((name@, value@)));
        }
        Ok(())
    }

    /// Decides how the body is framed.
    pub fn compute_body_state(&self, max_body: usize) -> (r: Result<State, ParseError>)
        ensures
            r == body_state(self@, max_body as nat),
    {
        match find_header(&self.headers, "transfer-encoding") {
            Some(k) => {
                let lower = to_lowercase(self.headers[k].1.as_str());
                return transfer_encoding_state(lower.as_str());
            },
            None => {},
        }
        match find_header(&self.headers, "content-length") {
            Some(k) => content_length_state(self.headers[k].1.as_str(), max_body),
            None => Ok(State::Done),
        }
    }

    /// One transition: `None` to keep going, `Some(result)` to return.
    fn step_once(&mut self, buf: &mut Vec<u8>, max_header: usize, max_body: usize) -> (r: Option<
        Result<bool, ParseError>,
    >)
        ensures
            match step(old(self)@, old(buf)@, max_header as nat, max_body as nat) {
                Step::Continue(m2, b2) => r is None && final(self)@ == m2 && final(buf)@ == b2,
                Step::Stop(res, m2, b2) => r == Some(res) && final(self)@ == m2 && final(buf)@
                    == b2,
            },
    {
        match self.state {
            State::RequestLine => match find_line_end(buf.as_slice()) {
                Some(pos) => {
                    let line = take_line(buf, pos);
                    if line.as_str().as_bytes().len() > max_header {
                        return Some(Err(ParseError::UriTooLong));
                    }
                    match self.parse_request_line(line.as_str()) {
                        Err(e) => return Some(Err(e)),
                        Ok(()) => {},
                    }
                    self.state = State::Headers;
                    None
                },
                None => {
                    if buf.len() > max_header {
                        return Some(Err(ParseError::UriTooLong));
                    }
                    Some(Ok(false))
                },
            },
            State::Headers => match find_line_end(buf.as_slice()) {
                Some(pos) => {
                    let line = take_line(buf, pos);
                    if line.as_str().is_empty() {
                        match self.compute_body_state(max_body) {
                            Ok(st) => {
                                self.state = st;
                                None
                            },
                            Err(e) => Some(Err(e)),
                        }
                    } else {
                        let len = line.as_str().as_bytes().len();
                        self.header_bytes = self.header_bytes.saturating_add(len).saturating_add(2);
                        if self.header_bytes > max_header {
                            return Some(Err(ParseError::HeaderTooLarge));
                        }
                        match self.parse_header_line(line.as_str()) {
                            Ok(()) => None,
                            Err(e) => Some(Err(e)),
                        }
                    }
                },
                None => {
                    if self.header_bytes.saturating_add(buf.len()) > max_header {
                        return Some(Err(ParseError::HeaderTooLarge));
                    }
                    Some(Ok(false))
                },
            },
            State::BodyContentLength(remaining) => {
                if remaining == 0 {
                    self.state = State::Done;
                    return None;
                }
                if buf.len() == 0 {
                    return Some(Ok(false));
                }
                let take = if remaining < buf.len() {
                    remaining
                } else {
                    buf.len()
                };
                extend_bytes(&mut self.body, buf.as_slice(), 0, take);
                drop_front(buf, take);
                let left = remaining - take;
                if left == 0 {
                    self.state = State::Done;
                    None
                } else {
                    self.state = State::BodyContentLength(left);
                    Some(Ok(false))
                }
            },
            State::BodyChunkedSize => match find_line_end(buf.as_slice()) {
                Some(pos) => {
                    let line = take_line(buf, pos);
                    let l = chars_of(line.as_str());
                    let semi = find_char_from(l.as_slice(), ';', 0);
                    let (a, b) = trim_range(l.as_slice(), 0, semi);
                    assert(l@.subrange(a as int, b as int) == trim(l@.subrange(0, find_from(l@, ';', 0))));
                    if a == b {
                        return Some(Err(ParseError::BadRequest));
                    }
                    match parse_uint_range(l.as_slice(), a, b, 16, usize::MAX) {
                        None => Some(Err(ParseError::BadRequest)),
                        Some(size) => {
                            if size == 0 {
                                self.state = State::BodyChunkedTrailer;
                                None
                            } else if self.body.len().saturating_add(size) > max_body {
                                Some(Err(ParseError::PayloadTooLarge))
                            } else {
                                self.state = State::BodyChunkedData(size);
                                None
                            }
                        },
                    }
                },
                None => {
                    if buf.len() > 64 {
                        return Some(Err(ParseError::BadRequest));
                    }
                    Some(Ok(false))
                },
            },
            State::BodyChunkedData(remaining) => {
                if remaining == 0 {
                    self.state = State::BodyChunkedCRLF;
                    return None;
                }
                if buf.len() == 0 {
                    return Some(Ok(false));
                }
                let take = if remaining < buf.len() {
                    remaining
                } else {
                    buf.len()
                };
                extend_bytes(&mut self.body, buf.as_slice(), 0, take);
                drop_front(buf, take);
                let left = remaining - take;
                self.state = State::BodyChunkedData(left);
                if left != 0 {
                    Some(Ok(false))
                } else {
                    None
                }
            },
            State::BodyChunkedCRLF => {
                if buf.len() < 2 {
                    return Some(Ok(false));
                }
                if buf[0] == 13 && buf[1] == 10 {
                    drop_front(buf, 2);
                    self.state = State::BodyChunkedSize;
                    None
                } else {
                    Some(Err(ParseError::BadRequest))
                }
            },
            State::BodyChunkedTrailer => match find_line_end(buf.as_slice()) {
                Some(pos) => {
                    let line = take_line(buf, pos);
                    if line.as_str().is_empty() {
                        self.state = State::Done;
                    }
                    None
                },
                None => Some(Ok(false)),
            },
            State::Done => Some(Ok(true)),
        }
    }

    /// Feeds bytes from `buf` into the parser, consuming what it can.
    /// Returns `Ok(true)` once the request (including body) is fully parsed.
    pub fn feed(&mut self, buf: &mut Vec<u8>, max_header: usize, max_body: usize) -> (r: Result<
        bool,
        ParseError,
    >)
        ensures
            (r, final(self)@, final(buf)@) == run(
                old(self)@,
                old(buf)@,
                max_header as nat,
                max_body as nat,
            ),
    {
        loop
            invariant
                run(old(self)@, old(buf)@, max_header as nat, max_body as nat) == run(
                    self@,
                    buf@,
                    max_header as nat,
                    max_body as nat,
                ),
            decreases buf@.len(), rank(self@.state),
        {
            let ghost m0 = self@;
            let ghost b0 = buf@;
            proof {
                lemma_step_progresses(m0, b0, max_header as nat, max_body as nat);
            }
            match self.step_once(buf, max_header, max_body) {
                Some(r) => return r,
                None => {},
            }
        }
    }
}


// ---------------------------------------------------------------------
// Percent-decoding
// ---------------------------------------------------------------------

pub open spec fn is_hex_byte(b: u8) -> bool {
    (48 <= b <= 57) || (97 <= b <= 102) || (65 <= b <= 70)
}

pub open spec fn hex_byte_value(b: u8) -> nat {
    if 48 <= b <= 57 {
        (b - 48) as nat
    } else if 97 <= b <= 102 {
        (b - 97 + 10) as nat
    } else {
        (b - 65 + 10) as nat
    }
}

/// The byte that the escape `%xy` stands for: both `x` and `y` are hex
/// digits, of either case.
pub open spec fn escape_value(x: u8, y: u8) -> Option<u8> {
    if is_hex_byte(x) && is_hex_byte(y) {
        Some((hex_byte_value(x) * 16 + hex_byte_value(y)) as u8)
    } else {
        None
    }
}

/// `%XX` decoding of the bytes `b` from index `i` on: an escape that does
/// not decode is kept as it is.
pub open spec fn pct_decode_from(b: Seq<u8>, i: int) -> Seq<u8>
    decreases b.len() - i,
{
    if i < 0 || i >= b.len() {
        seq![]
    } else if b[i] == 37 && i + 2 < b.len() && escape_value(b[i + 1], b[i + 2]) is Some {
        seq![escape_value(b[i + 1], b[i + 2])->0] + pct_decode_from(b, i + 3)
    } else {
        seq![b[i]] + pct_decode_from(b, i + 1)
    }
}

/// `%XX` decoding of all of `b`.
pub open spec fn pct_decode(b: Seq<u8>) -> Seq<u8> {
    pct_decode_from(b, 0)
}

/// The two bytes after some `%` end inside a multi-byte character: taking
/// them as a `str` slice is not allowed there.
pub open spec fn escape_splits_char(b: Seq<u8>) -> bool {
    exists|i: int| 0 <= i && i + 3 < b.len() && b[i] == 37 && 128 <= #[trigger] b[i + 3] < 192
}

/// Decodes `%XX` percent-escapes; `+` is left as-is (path component, not
/// query). Escapes that do not decode are kept.
pub fn percent_decode(input: &str) -> (r: String)
    requires
        !escape_splits_char(encode_utf8(input@)),
    ensures
        r@ == utf8_lossy(pct_decode(encode_utf8(input@))),
        vstd::utf8::valid_utf8(pct_decode(encode_utf8(input@))) ==> r@ == vstd::utf8::decode_utf8(
            pct_decode(encode_utf8(input@)),
        ),
{
    let bytes = input.as_bytes();
    let ghost b = bytes@;
    let mut out: Vec<u8> = Vec::new();
    let mut i: usize = 0;
    while i < bytes.len()
        invariant
            b == bytes@,
            i <= b.len(),
            pct_decode(b) == out@ + pct_decode_from(b, i as int),
        decreases bytes.len() - i,
    {
        if bytes[i] == 37 && bytes.len() - i > 2 {
            let x = bytes[i + 1];
            let y = bytes[i + 2];
            let mut v: Option<u8> = None;
            if let Some(h) = hex_value(x) {
                if let Some(l) = hex_value(y) {
                    v = Some(h * 16 + l);
                }
            }
            if let Some(byte) = v {
                let ghost old_out = out@;
                out.push(byte);
                assert(out@ + pct_decode_from(b, i + 3) =~= old_out + (seq![byte] + pct_decode_from(
                    b,
                    i + 3,
                )));
                i += 3;
                continue ;
            }
        }
        let ghost old_out = out@;
        out.push(bytes[i]);
        assert(out@ + pct_decode_from(b, i + 1) =~= old_out + (seq![b[i as int]] + pct_decode_from(
            b,
            i + 1,
        )));
        i += 1;
    }
    assert(out@ + pct_decode_from(b, i as int) =~= out@);
    lossy_string(out.as_slice())
}

/// Value of a hex digit byte.
fn hex_value(x: u8) -> (r: Option<u8>)
    ensures
        match r {
            Some(v) => is_hex_byte(x) && v == hex_byte_value(x) && v < 16,
            None => !is_hex_byte(x),
        },
{
    if 48 <= x && x <= 57 {
        Some(x - 48)
    } else if 97 <= x && x <= 102 {
        Some(x - 97 + 10)
    } else if 65 <= x && x <= 70 {
        Some(x - 65 + 10)
    } else {
        None
    }
}

/// Whether [`percent_decode`] must refuse `input`: an escape's two bytes
/// end inside a multi-byte character.
pub fn percent_escape_splits_char(input: &str) -> (r: bool)
    ensures
        r == escape_splits_char(encode_utf8(input@)),
{
    let bytes = input.as_bytes();
    let mut i: usize = 0;
    while i < bytes.len()
        invariant
            i <= bytes@.len(),
            bytes@ == encode_utf8(input@),
            forall|k: int|
                0 <= k < i ==> !(k + 3 < bytes@.len() && bytes@[k] == 37 && 128 <= #[trigger] bytes@[k
                    + 3] < 192),
        decreases bytes.len() - i,
    {
        if bytes[i] == 37 && bytes.len() - i > 3 && 128 <= bytes[i + 3] && bytes[i + 3] < 192 {
            let ghost k: int = i as int;
            assert(0 <= k && k + 3 < bytes@.len() && bytes@[k] == 37 && 128 <= bytes@[k + 3] < 192);
            assert(escape_splits_char(bytes@));
            return true;
        }
        i += 1;
    }
    false
}

impl RequestParser {
    /// The path part of the target, before the first `?`.
    pub open spec fn spec_path_part(&self) -> Seq<char> {
        request_of(self@).0
    }

    /// Whether [`RequestParser::into_request`] must refuse this parser:
    /// the path's percent-escapes cannot be decoded as `str` slices.
    pub fn path_escape_splits_char(&self) -> (r: bool)
        ensures
            r == escape_splits_char(encode_utf8(self.spec_path_part())),
    {
        let t = chars_of(self.target.as_str());
        let q = find_char_from(t.as_slice(), '?', 0);
        let path = string_from_range(t.as_slice(), 0, q);
        proof {
            lemma_find_from(t@, '?', 0);
            if q == t@.len() {
                assert(t@.subrange(0, q as int) =~= t@);
            }
        }
        percent_escape_splits_char(path.as_str())
    }

    /// Consumes the parser, producing a [`Request`]. Only meaningful once
    /// [`RequestParser::feed`] has returned `Ok(true)`.
    pub fn into_request(self) -> (r: Request)
        requires
            !escape_splits_char(encode_utf8(self.spec_path_part())),
        ensures
            r.method@ == self@.method,
            r.target@ == self@.target,
            r.version@ == self@.version,
            r.path@ == utf8_lossy(pct_decode(encode_utf8(request_of(self@).0))),
            r.query@ == request_of(self@).1,
            headers_view(r.headers@) == self@.headers,
            r.body@ == self@.body,
    {
        let ghost m = self@;
        let t = chars_of(self.target.as_str());
        let q = find_char_from(t.as_slice(), '?', 0);
        proof {
            lemma_find_from(t@, '?', 0);
        }
        let (path_raw, query) = if q < t.len() {
            (string_from_range(t.as_slice(), 0, q), string_from_range(t.as_slice(), q + 1, t.len()))
        } else {
            assert(t@.subrange(0, q as int) =~= t@);
            (string_from_range(t.as_slice(), 0, q), String::new())
        };
        let path = percent_decode(path_raw.as_str());
        Request {
            method: self.method,
            target: self.target,
            path,
            query,
            version: self.version,
            headers: self.headers,
            body: self.body,
        }
    }
}


// ---------------------------------------------------------------------
// Feeding in pieces
// ---------------------------------------------------------------------

proof fn lemma_find_prefix(a: Seq<u8>, b: Seq<u8>, x: u8, i: int)
    requires
        0 <= i <= a.len(),
        byte_find_from(a, x, i) < a.len(),
    ensures
        byte_find_from(a + b, x, i) == byte_find_from(a, x, i),
    decreases a.len() - i,
{
    assert((a + b)[i] == a[i]);
    if a[i] != x {
        lemma_find_prefix(a, b, x, i + 1);
    }
}

/// A complete line in `a` stays the same line when more bytes follow.
proof fn lemma_line_end_append(a: Seq<u8>, b: Seq<u8>)
    requires
        line_end(a) is Some,
    ensures
        line_end(a + b) == line_end(a),
        line_text(a + b, line_end(a)->0) == line_text(a, line_end(a)->0),
        after_line(a + b, line_end(a)->0) == after_line(a, line_end(a)->0) + b,
{
    lemma_byte_find_from(a, 10, 0);
    lemma_find_prefix(a, b, 10, 0);
    let p = line_end(a)->0;
    if p > 0 {
        assert((a + b)[p - 1] == a[p - 1]);
    }
    assert((a + b).subrange(0, p) =~= a.subrange(0, p));
    if p > 0 {
        assert((a + b).subrange(0, p - 1) =~= a.subrange(0, p - 1));
    }
    assert(after_line(a + b, p) =~= after_line(a, p) + b);
}

/// A transition that goes on does the same when more bytes follow, and
/// leaves them in the buffer.
proof fn lemma_step_append(m: ParserModel, a: Seq<u8>, b: Seq<u8>, max_header: nat, max_body: nat)
    ensures
        step(m, a, max_header, max_body) matches Step::Continue(m2, a2) ==> step(
            m,
            a + b,
            max_header,
            max_body,
        ) == Step::Continue(m2, a2 + b),
{
    if line_end(a) is Some {
        lemma_line_end_append(a, b);
    }
    match step(m, a, max_header, max_body) {
        Step::Continue(m2, a2) => {
            match m.state {
                State::BodyContentLength(remaining) => {
                    if remaining > 0 {
                        let take = remaining as int;
                        assert((a + b).subrange(0, take) =~= a.subrange(0, take));
                        assert((a + b).subrange(take, (a + b).len() as int) =~= a.subrange(
                            take,
                            a.len() as int,
                        ) + b);
                    } else {
                        assert(a + b =~= a + b);
                    }
                },
                State::BodyChunkedData(remaining) => {
                    if remaining > 0 {
                        let take = remaining as int;
                        assert((a + b).subrange(0, take) =~= a.subrange(0, take));
                        assert((a + b).subrange(take, (a + b).len() as int) =~= a.subrange(
                            take,
                            a.len() as int,
                        ) + b);
                    }
                },
                State::BodyChunkedCRLF => {
                    assert((a + b)[0] == a[0] && (a + b)[1] == a[1]);
                    assert((a + b).subrange(2, (a + b).len() as int) =~= a.subrange(2, a.len() as int)
                        + b);
                },
                _ => {},
            }
        },
        _ => {},
    }
}

/// A body whose bytes ran out part way: taking the rest from `b` alone
/// is the same as taking it from `a` and `b` together.
proof fn lemma_partial_body_append(
    m: ParserModel,
    a: Seq<u8>,
    b: Seq<u8>,
    max_header: nat,
    max_body: nat,
)
    requires
        step(m, a, max_header, max_body) matches Step::Stop(Ok(false), m2, a2) && (m.state
            != m2.state || m.body != m2.body),
    ensures
        ({
            let (r, m2, a2) = match step(m, a, max_header, max_body) {
                Step::Stop(r, m2, a2) => (r, m2, a2),
                Step::Continue(m2, a2) => (Ok(true), m2, a2),
            };
            run(m2, a2 + b, max_header, max_body) == run(m, a + b, max_header, max_body)
        }),
{
    let (m2, a2) = match step(m, a, max_header, max_body) {
        Step::Stop(_, m2, a2) => (m2, a2),
        Step::Continue(m2, a2) => (m2, a2),
    };
    if line_end(a) is Some {
        lemma_line_end_append(a, b);
    }
    assert(a2 =~= Seq::<u8>::empty());
    assert(a2 + b =~= b);
    if b.len() == 0 {
        assert(a + b =~= a);
        assert(step(m2, b, max_header, max_body) == Step::Stop(Ok(false), m2, b));
    } else {
        match m.state {
            State::BodyContentLength(remaining) => {
                let left = (remaining - a.len()) as int;
                let t = if left < b.len() {
                    left
                } else {
                    b.len() as int
                };
                assert((a + b).subrange(0, a.len() + t) =~= a + b.subrange(0, t));
                assert((a + b).subrange(a.len() + t, (a + b).len() as int) =~= b.subrange(
                    t,
                    b.len() as int,
                ));
                assert(m.body + (a + b).subrange(0, a.len() + t) =~= (m.body + a.subrange(0, a.len() as int))
                    + b.subrange(0, t));
                assert(step(m, a + b, max_header, max_body) == step(m2, b, max_header, max_body));
            },
            State::BodyChunkedData(remaining) => {
                let left = (remaining - a.len()) as int;
                let t = if left < b.len() {
                    left
                } else {
                    b.len() as int
                };
                assert((a + b).subrange(0, a.len() + t) =~= a + b.subrange(0, t));
                assert((a + b).subrange(a.len() + t, (a + b).len() as int) =~= b.subrange(
                    t,
                    b.len() as int,
                ));
                assert(m.body + (a + b).subrange(0, a.len() + t) =~= (m.body + a.subrange(0, a.len() as int))
                    + b.subrange(0, t));
                assert(step(m, a + b, max_header, max_body) == step(m2, b, max_header, max_body));
            },
            _ => {},
        }
    }
}

/// The parser is incremental: when it has used up what it was given and
/// waits for more, feeding it the rest later gives the same result, the
/// same model and the same leftover bytes as feeding everything at once.
pub proof fn lemma_feed_in_pieces(m: ParserModel, a: Seq<u8>, b: Seq<u8>, max_header: nat, max_body: nat)
    requires
        run(m, a, max_header, max_body).0 == Ok::<bool, ParseError>(false),
    ensures
        run(run(m, a, max_header, max_body).1, run(m, a, max_header, max_body).2 + b, max_header, max_body)
            == run(m, a + b, max_header, max_body),
    decreases a.len(), rank(m.state),
{
    lemma_step_append(m, a, b, max_header, max_body);
    match step(m, a, max_header, max_body) {
        Step::Continue(m2, a2) => {
            lemma_step_progresses(m, a, max_header, max_body);
            lemma_feed_in_pieces(m2, a2, b, max_header, max_body);
        },
        Step::Stop(r, m2, a2) => {
            if m.state != m2.state || m.body != m2.body {
                lemma_partial_body_append(m, a, b, max_header, max_body);
            } else {
                if line_end(a) is Some {
                    lemma_line_end_append(a, b);
                }
                assert(m2 == m);
                assert(a2 == a);
            }
        },
    }
}


/// Decoding changes only `%XX` escapes: bytes without a `%` (a `+` among
/// them) come out as they are.
pub proof fn lemma_decode_without_escapes(b: Seq<u8>, i: int)
    requires
        0 <= i <= b.len(),
        forall|j: int| i <= j < b.len() ==> b[j] != 37,
    ensures
        pct_decode_from(b, i) == b.subrange(i, b.len() as int),
    decreases b.len() - i,
{
    if i < b.len() {
        lemma_decode_without_escapes(b, i + 1);
        assert(b.subrange(i, b.len() as int) =~= seq![b[i]] + b.subrange(i + 1, b.len() as int));
    } else {
        assert(b.subrange(i, b.len() as int) =~= Seq::<u8>::empty());
    }
}


/// Uppercase hexadecimal digit byte of `d < 16` (`{:X}`).
pub open spec fn upper_hex_byte(d: nat) -> u8 {
    if d < 10 {
        (48 + d) as u8
    } else {
        (55 + d) as u8
    }
}

/// Every byte of `b` written as an escape `%XX` with uppercase digits.
pub open spec fn pct_encode(b: Seq<u8>) -> Seq<u8> {
    Seq::new(
        3 * b.len(),
        |i: int|
            if i % 3 == 0 {
                37u8
            } else if i % 3 == 1 {
                upper_hex_byte((b[i / 3] / 16) as nat)
            } else {
                upper_hex_byte((b[i / 3] % 16) as nat)
            },
    )
}

proof fn lemma_decode_encoded_from(b: Seq<u8>, k: int)
    requires
        0 <= k <= b.len(),
    ensures
        pct_decode_from(pct_encode(b), 3 * k) == b.subrange(k, b.len() as int),
    decreases b.len() - k,
{
    let e = pct_encode(b);
    if k < b.len() {
        lemma_decode_encoded_from(b, k + 1);
        let x = b[k];
        assert((3 * k) % 3 == 0 && (3 * k) / 3 == k);
        assert((3 * k + 1) % 3 == 1 && (3 * k + 1) / 3 == k);
        assert((3 * k + 2) % 3 == 2 && (3 * k + 2) / 3 == k);
        assert(e[3 * k] == 37);
        assert(e[3 * k + 1] == upper_hex_byte((x / 16) as nat));
        assert(e[3 * k + 2] == upper_hex_byte((x % 16) as nat));
        assert(x / 16 * 16 + x % 16 == x);
        assert(escape_value(e[3 * k + 1], e[3 * k + 2]) == Some(x));
        assert(3 * k + 3 == 3 * (k + 1));
        assert(b.subrange(k, b.len() as int) =~= seq![x] + b.subrange(k + 1, b.len() as int));
    } else {
        assert(b.subrange(k, b.len() as int) =~= Seq::<u8>::empty());
    }
}

/// Text whose every byte is written as an escape `%XX` decodes back to
/// itself: `percent_decode` of it gives the text it was made from.
pub proof fn lemma_percent_decode_of_escaped(s: Seq<char>, e: Seq<char>)
    requires
        encode_utf8(e) == pct_encode(encode_utf8(s)),
    ensures
        !escape_splits_char(encode_utf8(e)),
        pct_decode(encode_utf8(e)) == encode_utf8(s),
        vstd::utf8::valid_utf8(pct_decode(encode_utf8(e))),
        vstd::utf8::decode_utf8(pct_decode(encode_utf8(e))) == s,
{
    let b = encode_utf8(s);
    let eb = pct_encode(b);
    lemma_decode_encoded_from(b, 0);
    assert(b.subrange(0, b.len() as int) =~= b);
    assert(!escape_splits_char(eb)) by {
        assert forall|i: int| 0 <= i && i + 3 < eb.len() && eb[i] == 37 implies !(128 <= #[trigger] eb[i + 3] < 192) by {
            let j = i + 3;
            if j % 3 == 1 {
                assert(eb[j] == upper_hex_byte((b[j / 3] / 16) as nat));
            } else if j % 3 == 2 {
                assert(eb[j] == upper_hex_byte((b[j / 3] % 16) as nat));
            }
        }
    }
    vstd::utf8::encode_utf8_valid_utf8(s);
    vstd::utf8::encode_utf8_decode_utf8(s);
}


/// What the parser keeps of the body limit `max_body`: the body gathered
/// so far fits in it, and so does what a body state still expects. (A
/// chunk whose size saturates the sum at `usize::MAX` is let through only
/// when the limit is that large itself.)
pub open spec fn body_within(m: ParserModel, max_body: nat) -> bool {
    &&& m.body.len() <= max_body
    &&& (m.state is RequestLine || m.state is Headers) ==> m.body.len() == 0
    &&& m.state matches State::BodyContentLength(r) ==> m.body.len() + r <= max_body
    &&& m.state matches State::BodyChunkedData(r) ==> (m.body.len() + r <= max_body
        || usize::MAX <= max_body)
}

proof fn lemma_step_body_within(m: ParserModel, buf: Seq<u8>, max_header: nat, max_body: nat)
    requires
        body_within(m, max_body),
        m.body.len() + buf.len() <= usize::MAX,
    ensures
        match step(m, buf, max_header, max_body) {
            Step::Continue(m2, b2) => body_within(m2, max_body) && m2.body.len() + b2.len()
                <= m.body.len() + buf.len(),
            Step::Stop(_, m2, b2) => body_within(m2, max_body) && m2.body.len() + b2.len()
                <= m.body.len() + buf.len(),
        },
{
    lemma_byte_find_from(buf, 10, 0);
}

proof fn lemma_run_body_within(m: ParserModel, buf: Seq<u8>, max_header: nat, max_body: nat)
    requires
        body_within(m, max_body),
        m.body.len() + buf.len() <= usize::MAX,
    ensures
        body_within(run(m, buf, max_header, max_body).1, max_body),
        run(m, buf, max_header, max_body).1.body.len() + run(m, buf, max_header, max_body).2.len()
            <= m.body.len() + buf.len(),
    decreases buf.len(), rank(m.state),
{
    lemma_step_body_within(m, buf, max_header, max_body);
    lemma_step_progresses(m, buf, max_header, max_body);
    match step(m, buf, max_header, max_body) {
        Step::Continue(m2, b2) => {
            lemma_run_body_within(m2, b2, max_header, max_body);
        },
        Step::Stop(_, _, _) => {},
    }
}

/// The parser after feeding it `chunks` one after the other, each appended
/// to the bytes left over by the feed before: the last result, the model
/// and the bytes left over.
pub open spec fn feed_all(
    m: ParserModel,
    left: Seq<u8>,
    chunks: Seq<Seq<u8>>,
    max_header: nat,
    max_body: nat,
) -> (Result<bool, ParseError>, ParserModel, Seq<u8>)
    decreases chunks.len(),
{
    if chunks.len() == 0 {
        (Ok(false), m, left)
    } else {
        let before = feed_all(m, left, chunks.drop_last(), max_header, max_body);
        run(before.1, before.2 + chunks.last(), max_header, max_body)
    }
}

/// Total number of bytes in `chunks`.
pub open spec fn total_len(chunks: Seq<Seq<u8>>) -> nat
    decreases chunks.len(),
{
    if chunks.len() == 0 {
        0
    } else {
        total_len(chunks.drop_last()) + chunks.last().len()
    }
}

proof fn lemma_feed_all_body_within(
    m: ParserModel,
    left: Seq<u8>,
    chunks: Seq<Seq<u8>>,
    max_header: nat,
    max_body: nat,
)
    requires
        body_within(m, max_body),
        m.body.len() + left.len() + total_len(chunks) <= usize::MAX,
    ensures
        body_within(feed_all(m, left, chunks, max_header, max_body).1, max_body),
        feed_all(m, left, chunks, max_header, max_body).1.body.len() + feed_all(
            m,
            left,
            chunks,
            max_header,
            max_body,
        ).2.len() <= m.body.len() + left.len() + total_len(chunks),
    decreases chunks.len(),
{
    if chunks.len() > 0 {
        lemma_feed_all_body_within(m, left, chunks.drop_last(), max_header, max_body);
        let before = feed_all(m, left, chunks.drop_last(), max_header, max_body);
        lemma_run_body_within(before.1, before.2 + chunks.last(), max_header, max_body);
    }
}

/// The body never grows past `max_body`: however a request arrives, in
/// whatever pieces, as long as every feed uses the same `max_body`, the
/// body gathered after each feed (the body the request will have) holds at
/// most `max_body` bytes. The bytes received in all must fit in memory.
pub proof fn lemma_body_within_limit(chunks: Seq<Seq<u8>>, max_header: nat, max_body: nat)
    requires
        total_len(chunks) <= usize::MAX,
    ensures
        feed_all(initial_model(), seq![], chunks, max_header, max_body).1.body.len() <= max_body,
{
    lemma_feed_all_body_within(initial_model(), seq![], chunks, max_header, max_body);
}


proof fn lemma_scalar_bytes_not_percent(v: u32)
    by (bit_vector)
    requires
        v != 37,
    ensures
        v <= 0x7f ==> leading_byte_width_1(v) != 37,
        leading_byte_width_2(v) != 37,
        leading_byte_width_3(v) != 37,
        leading_byte_width_4(v) != 37,
        last_continuation_byte(v) != 37,
        second_last_continuation_byte(v) != 37,
        third_last_continuation_byte(v) != 37,
{
}

proof fn lemma_no_percent_byte(t: Seq<char>)
    requires
        !t.contains('%'),
    ensures
        forall|j: int| 0 <= j < encode_utf8(t).len() ==> encode_utf8(t)[j] != 37,
    decreases t.len(),
{
    if t.len() > 0 {
        let rest = t.drop_first();
        assert(!rest.contains('%')) by {
            if rest.contains('%') {
                let k = choose|k: int| 0 <= k < rest.len() && rest[k] == '%';
                assert(t[k + 1] == '%');
            }
        }
        lemma_no_percent_byte(rest);
        let c = t[0];
        assert(c != '%');
        let v = c as u32;
        assert(v != 37) by {
            vstd::utf8::char_u32_cast(c, v);
            vstd::utf8::char_u32_cast('%', '%' as u32);
        }
        lemma_scalar_bytes_not_percent(v);
        let e = encode_scalar(v);
        assert(forall|j: int| 0 <= j < e.len() ==> e[j] != 37);
        let all = encode_utf8(t);
        assert(all == e + encode_utf8(rest));
        assert forall|j: int| 0 <= j < all.len() implies all[j] != 37 by {
            if j >= e.len() {
                assert(all[j] == encode_utf8(rest)[j - e.len()]);
            }
        }
    }
}

/// Text without a `%` decodes as itself: `percent_decode` of it gives it
/// back unchanged.
pub proof fn lemma_percent_decode_without_percent(t: Seq<char>)
    requires
        !t.contains('%'),
    ensures
        !escape_splits_char(encode_utf8(t)),
        pct_decode(encode_utf8(t)) == encode_utf8(t),
        vstd::utf8::valid_utf8(pct_decode(encode_utf8(t))),
        vstd::utf8::decode_utf8(pct_decode(encode_utf8(t))) == t,
{
    let b = encode_utf8(t);
    lemma_no_percent_byte(t);
    lemma_decode_without_escapes(b, 0);
    assert(b.subrange(0, b.len() as int) =~= b);
    if escape_splits_char(b) {
        let i = choose|i: int| 0 <= i && i + 3 < b.len() && b[i] == 37 && 128 <= #[trigger] b[i + 3] < 192;
        assert(b[i] != 37);
    }
    vstd::utf8::encode_utf8_valid_utf8(t);
    vstd::utf8::encode_utf8_decode_utf8(t);
}


/// Lowercase hexadecimal digit of `d < 16`.
pub open spec fn hex_digit_char(d: nat) -> char {
    if d < 10 {
        ((d + 48) as u32) as char
    } else {
        ((d + 87) as u32) as char
    }
}

/// The hexadecimal digits of `n` (as `{:x}` prints it).
pub open spec fn hex_text(n: nat) -> Seq<char>
    decreases n,
{
    if n < 16 {
        seq![hex_digit_char(n)]
    } else {
        hex_text(n / 16).push(hex_digit_char(n % 16))
    }
}

proof fn lemma_hex_text_parses(n: nat)
    ensures
        hex_text(n).len() > 0,
        hex_text(n)[0] != '+',
        all_digits(hex_text(n), 16),
        digits_value(hex_text(n), 16) == n,
        forall|i: int| 0 <= i < hex_text(n).len() ==> !is_ws(#[trigger] hex_text(n)[i]) && hex_text(n)[i] != ';',
    decreases n,
{
    let d = hex_text(n);
    if n < 16 {
        assert(d == seq![hex_digit_char(n)]);
        assert(digit_value(hex_digit_char(n), 16) == Some(n));
        assert(d.drop_last() =~= Seq::<char>::empty());
        assert(digits_value(Seq::<char>::empty(), 16) == 0);
        assert(digits_value(d, 16) == n);
    } else {
        lemma_hex_text_parses(n / 16);
        let p = hex_text(n / 16);
        assert(d == p.push(hex_digit_char(n % 16)));
        assert(d.drop_last() =~= p);
        assert(digit_value(hex_digit_char(n % 16), 16) == Some(n % 16));
        assert(d[0] == p[0]);
        assert forall|i: int| 0 <= i < d.len() implies (#[trigger] digit_value(d[i], 16)) is Some by {
            if i < p.len() {
                assert(d[i] == p[i]);
                assert(digit_value(p[i], 16) is Some);
            }
        }
        assert forall|i: int| 0 <= i < d.len() implies !is_ws(#[trigger] d[i]) && d[i] != ';' by {
            if i < p.len() {
                assert(d[i] == p[i]);
            }
        }
        assert(d.last() == hex_digit_char(n % 16));
        assert(digits_value(d, 16) == digits_value(p, 16) * 16 + n % 16);
        assert((n / 16) * 16 + n % 16 == n) by (nonlinear_arith);
    }
}

proof fn lemma_trim_without_ws(s: Seq<char>)
    requires
        forall|i: int| 0 <= i < s.len() ==> !is_ws(#[trigger] s[i]),
    ensures
        trim(s) == s,
{
    let t = s.subrange(0, s.len() as int);
    assert(t =~= s);
    if s.len() > 0 {
        assert(skip_ws(t, 0) == 0);
        assert(skip_ws_back(s, s.len() as int) == s.len());
        assert(s.subrange(0, s.len() as int) =~= s);
    } else {
        assert(s.subrange(0, 0) =~= s);
    }
}

/// Chunk sizes are hexadecimal: in a chunked body, a size line that reads
/// as the hexadecimal digits of `n` (within the body limit) announces a
/// chunk of `n` bytes, and the next `n` bytes are appended to the body
/// as they are.
pub proof fn lemma_chunk_size_is_hex(
    m: ParserModel,
    buf: Seq<u8>,
    max_header: nat,
    max_body: nat,
    pos: int,
    n: nat,
    data: Seq<u8>,
    rest: Seq<u8>,
)
    requires
        m.state == State::BodyChunkedSize,
        0 < n <= usize::MAX,
        m.body.len() + n <= max_body,
        line_end(buf) == Some(pos),
        line_text(buf, pos) == hex_text(n),
        data.len() == n,
    ensures
        step(m, buf, max_header, max_body) == Step::Continue(
            ParserModel { state: State::BodyChunkedData(n as usize), ..m },
            after_line(buf, pos),
        ),
        step(ParserModel { state: State::BodyChunkedData(n as usize), ..m }, data + rest, max_header, max_body)
            == Step::Continue(
            ParserModel { state: State::BodyChunkedData(0), body: m.body + data, ..m },
            rest,
        ),
{
    let line = hex_text(n);
    lemma_hex_text_parses(n);
    lemma_find_from(line, ';', 0);
    assert(find_from(line, ';', 0) == line.len());
    assert(line.subrange(0, line.len() as int) =~= line);
    lemma_trim_without_ws(line);
    assert(parse_uint(line, 16) == Some(n));
    assert(parse_bounded(line, 16, usize::MAX as nat) == Some(n));
    let m2 = ParserModel { state: State::BodyChunkedData(n as usize), ..m };
    let b2 = data + rest;
    assert(b2.subrange(0, n as int) =~= data);
    assert(b2.subrange(n as int, b2.len() as int) =~= rest);
}

} // verus!
