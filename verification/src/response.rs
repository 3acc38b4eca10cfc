//! HTTP responses and their serialization.
use vstd::prelude::*;
use vstd::utf8::encode_utf8;

use crate::request::{header_from, header_index, header_lookup, headers_view, lemma_header_from, find_header};
use crate::text::{dec, push_dec};

verus! {

/// The standard reason phrase for an HTTP status code.
pub open spec fn spec_reason_phrase(code: u16) -> Seq<char> {
    if code == 200 {
        "OK"@
    } else if code == 201 {
        "Created"@
    } else if code == 204 {
        "No Content"@
    } else if code == 301 {
        "Moved Permanently"@
    } else if code == 302 {
        "Found"@
    } else if code == 303 {
        "See Other"@
    } else if code == 304 {
        "Not Modified"@
    } else if code == 307 {
        "Temporary Redirect"@
    } else if code == 308 {
        "Permanent Redirect"@
    } else if code == 400 {
        "Bad Request"@
    } else if code == 403 {
        "Forbidden"@
    } else if code == 404 {
        "Not Found"@
    } else if code == 405 {
        "Method Not Allowed"@
    } else if code == 408 {
        "Request Timeout"@
    } else if code == 411 {
        "Length Required"@
    } else if code == 413 {
        "Payload Too Large"@
    } else if code == 414 {
        "URI Too Long"@
    } else if code == 431 {
        "Request Header Fields Too Large"@
    } else if code == 500 {
        "Internal Server Error"@
    } else if code == 501 {
        "Not Implemented"@
    } else if code == 502 {
        "Bad Gateway"@
    } else if code == 503 {
        "Service Unavailable"@
    } else if code == 504 {
        "Gateway Timeout"@
    } else if code == 505 {
        "HTTP Version Not Supported"@
    } else {
        "Unknown"@
    }
}

/// Returns the standard reason phrase for an HTTP status code.
pub fn reason_phrase(code: u16) -> (r: &'static str)
    ensures
        r@ == spec_reason_phrase(code),
{
    match code {
        200 => "OK",
        201 => "Created",
        204 => "No Content",
        301 => "Moved Permanently",
        302 => "Found",
        303 => "See Other",
        304 => "Not Modified",
        307 => "Temporary Redirect",
        308 => "Permanent Redirect",
        400 => "Bad Request",
        403 => "Forbidden",
        404 => "Not Found",
        405 => "Method Not Allowed",
        408 => "Request Timeout",
        411 => "Length Required",
        413 => "Payload Too Large",
        414 => "URI Too Long",
        431 => "Request Header Fields Too Large",
        500 => "Internal Server Error",
        501 => "Not Implemented",
        502 => "Bad Gateway",
        503 => "Service Unavailable",
        504 => "Gateway Timeout",
        505 => "HTTP Version Not Supported",
        _ => "Unknown",
    }
}

/// The header list after setting `name` to `value`: the first header with
/// that name (ignoring ASCII case) gets the new value, or a new header is
/// appended.
pub open spec fn set_header_spec(hs: Seq<(Seq<char>, Seq<char>)>, name: Seq<char>, value: Seq<
    char,
>) -> Seq<(Seq<char>, Seq<char>)> {
    match header_index(hs, name) {
        Some(k) => hs.update(k, (hs[k].0, value)),
        None => hs.push((name, value)),
    }
}

/// The headers that serialization sends: those of the response, plus
/// `Content-Length`, `Connection` and `Server` where they are missing.
pub open spec fn with_default_headers(hs: Seq<(Seq<char>, Seq<char>)>, body_len: nat, keep_alive: bool) -> Seq<
    (Seq<char>, Seq<char>),
> {
    let h1 = if header_index(hs, "Content-Length"@) is None {
        set_header_spec(hs, "Content-Length"@, dec(body_len))
    } else {
        hs
    };
    let h2 = if header_index(h1, "Connection"@) is None {
        set_header_spec(
            h1,
            "Connection"@,
            if keep_alive {
                "keep-alive"@
            } else {
                "close"@
            },
        )
    } else {
        h1
    };
    if header_index(h2, "Server"@) is None {
        set_header_spec(h2, "Server"@, "localhost/0.1"@)
    } else {
        h2
    }
}

/// `name: value\r\n` for each header, in order.
pub open spec fn header_lines(hs: Seq<(Seq<char>, Seq<char>)>) -> Seq<char>
    decreases hs.len(),
{
    if hs.len() == 0 {
        seq![]
    } else {
        header_lines(hs.drop_last()) + hs.last().0 + ": "@ + hs.last().1 + "\r\n"@
    }
}

/// The status line and header block of a response.
pub open spec fn head_text(status: u16, hs: Seq<(Seq<char>, Seq<char>)>) -> Seq<char> {
    "HTTP/1.1 "@ + dec(status as nat) + " "@ + spec_reason_phrase(status) + "\r\n"@ + header_lines(hs)
        + "\r\n"@
}

/// The bytes on the wire for a response with these parts.
pub open spec fn wire_bytes(status: u16, hs: Seq<(Seq<char>, Seq<char>)>, body: Seq<u8>) -> Seq<u8> {
    encode_utf8(head_text(status, hs)) + body
}

/// An HTTP/1.1 response being built up before being serialized to the wire.
#[derive(Debug, Clone)]
pub struct Response {
    pub status: u16,
    pub headers: Vec<(String, String)>,
    pub body: Vec<u8>,
}

/// Bytes of a `str` as a vector.
pub fn str_bytes(s: &str) -> (v: Vec<u8>)
    ensures
        v@ == encode_utf8(s@),
{
    let b = s.as_bytes();
    let mut v: Vec<u8> = Vec::new();
    let mut i: usize = 0;
    while i < b.len()
        invariant
            i <= b@.len(),
            v@ == b@.subrange(0, i as int),
        decreases b.len() - i,
    {
        v.push(b[i]);
        i += 1;
    }
    assert(b@.subrange(0, b@.len() as int) =~= b@);
    v
}

impl Response {
    pub open spec fn headers_model(&self) -> Seq<(Seq<char>, Seq<char>)> {
        headers_view(self.headers@)
    }

    pub fn new(status: u16) -> (r: Self)
        ensures
            r.status == status,
            r.headers@ == Seq::<(String, String)>::empty(),
            r.body@ == Seq::<u8>::empty(),
    {
        Response { status, headers: Vec::new(), body: Vec::new() }
    }

    pub fn with_header(self, name: &str, value: &str) -> (r: Self)
        ensures
            r.status == self.status,
            r.body@ == self.body@,
            r.headers_model() == set_header_spec(self.headers_model(), name@, value@),
    {
        let mut r = self;
        r.set_header(name, value);
        r
    }

    /// Sets header `name` to `value`, replacing the value of the first
    /// header with that name (ignoring ASCII case), or appending it.
    pub fn set_header(&mut self, name: &str, value: &str)
        ensures
            final(self).status == old(self).status,
            final(self).body@ == old(self).body@,
            final(self).headers_model() == set_header_spec(old(self).headers_model(), name@, value@),
    {
        let ghost hs = self.headers_model();
        match find_header(&self.headers, name) {
            Some(k) => {
                let key = self.headers[k].0.clone();
                let ghost old_h = self.headers@;
                self.headers.set(k, (key, String::from_str(value)));
                proof {
                    assert(headers_view(self.headers@) =~= hs.update(k as int, (hs[k as int].0, value@)));
                }
            },
            None => {
                let ghost old_h = self.headers@;
                self.headers.push((String::from_str(name), String::from_str(value)));
                proof {
                    assert(headers_view(self.headers@) =~= hs.push((name@, value@)));
                }
            },
        }
    }

    pub fn has_header(&self, name: &str) -> (r: bool)
        ensures
            r == (header_index(self.headers_model(), name@) is Some),
    {
        find_header(&self.headers, name).is_some()
    }

    pub fn with_body(self, body: Vec<u8>) -> (r: Self)
        ensures
            r.status == self.status,
            r.headers@ == self.headers@,
            r.body@ == body@,
    {
        let mut r = self;
        r.body = body;
        r
    }

    /// A response with an HTML content type and the given body.
    pub fn html(status: u16, body: Vec<u8>) -> (r: Self)
        ensures
            r.status == status,
            r.headers_model() == seq![("Content-Type"@, "text/html; charset=utf-8"@)],
            r.body@ == body@,
    {
        let r = Response::new(status).with_header("Content-Type", "text/html; charset=utf-8").with_body(
            body,
        );
        proof {
            assert(headers_view(Seq::<(String, String)>::empty()) =~= seq![]);
        }
        r
    }

    /// A response with a plain-text content type and the given body.
    pub fn text(status: u16, body: &str) -> (r: Self)
        ensures
            r.status == status,
            r.headers_model() == seq![("Content-Type"@, "text/plain; charset=utf-8"@)],
            r.body@ == encode_utf8(body@),
    {
        let r = Response::new(status).with_header("Content-Type", "text/plain; charset=utf-8").with_body(
            str_bytes(body),
        );
        proof {
            assert(headers_view(Seq::<(String, String)>::empty()) =~= seq![]);
        }
        r
    }

    /// Serializes the response into raw HTTP/1.1 bytes ready to be written
    /// to a socket. `keep_alive` decides the `Connection` header when the
    /// response has none.
    pub fn serialize(&mut self, keep_alive: bool) -> (out: Vec<u8>)
        ensures
            final(self).status == old(self).status,
            final(self).body@ == old(self).body@,
            final(self).headers_model() == with_default_headers(
                old(self).headers_model(),
                old(self).body@.len(),
                keep_alive,
            ),
            out@ == wire_bytes(final(self).status, final(self).headers_model(), final(self).body@),
    {
        if !self.has_header("Content-Length") {
            let len = crate::text::dec_string(self.body.len() as u64);
            self.set_header("Content-Length", len.as_str());
        }
        if !self.has_header("Connection") {
            self.set_header(
                "Connection",
                if keep_alive {
                    "keep-alive"
                } else {
                    "close"
                },
            );
        }
        if !self.has_header("Server") {
            self.set_header("Server", "localhost/0.1");
        }
        let mut head = String::from_str("HTTP/1.1 ");
        push_dec(&mut head, self.status as u128);
        head.append(" ");
        head.append(reason_phrase(self.status));
        head.append("\r\n");
        let ghost hs = self.headers_model();
        let mut k: usize = 0;
        while k < self.headers.len()
            invariant
                k <= self.headers@.len(),
                hs == headers_view(self.headers@),
                head@ == "HTTP/1.1 "@ + dec(self.status as nat) + " "@ + spec_reason_phrase(
                    self.status,
                ) + "\r\n"@ + header_lines(hs.subrange(0, k as int)),
            decreases self.headers.len() - k,
        {
            assert(hs.subrange(0, k + 1).drop_last() =~= hs.subrange(0, k as int));
            assert(hs[k as int] == (self.headers@[k as int].0@, self.headers@[k as int].1@));
            head.append(self.headers[k].0.as_str());
            head.append(": ");
            head.append(self.headers[k].1.as_str());
            head.append("\r\n");
            k += 1;
        }
        assert(hs.subrange(0, hs.len() as int) =~= hs);
        head.append("\r\n");
        let mut out = str_bytes(head.as_str());
        let mut i: usize = 0;
        let ghost prefix = out@;
        while i < self.body.len()
            invariant
                i <= self.body@.len(),
                out@ == prefix + self.body@.subrange(0, i as int),
            decreases self.body.len() - i,
        {
            out.push(self.body[i]);
            i += 1;
            assert(self.body@.subrange(0, i as int) =~= self.body@.subrange(0, i - 1).push(
                self.body@[i - 1],
            ));
        }
        assert(self.body@.subrange(0, self.body@.len() as int) =~= self.body@);
        out
    }
}

/// After `set_header(name, value)`, looking `name` up gives `value`.
pub proof fn lemma_set_header_lookup(hs: Seq<(Seq<char>, Seq<char>)>, name: Seq<char>, value: Seq<char>)
    ensures
        header_lookup(set_header_spec(hs, name, value), name) == Some(value),
{
    lemma_header_from(hs, name, 0);
    let h2 = set_header_spec(hs, name, value);
    match header_index(hs, name) {
        Some(k) => {
            lemma_header_from_prefix_same(hs, h2, name, 0, k);
        },
        None => {
            lemma_header_from_prefix_same(hs, h2, name, 0, hs.len() as int);
            assert(crate::text::eq_ignore_case(name, name));
        },
    }
}

/// Two header lists that agree on the names before `j`, where none of the
/// names from `k` to `j` match, search identically up to `j`.
proof fn lemma_header_from_prefix_same(
    hs: Seq<(Seq<char>, Seq<char>)>,
    h2: Seq<(Seq<char>, Seq<char>)>,
    name: Seq<char>,
    k: int,
    j: int,
)
    requires
        0 <= k <= j <= hs.len(),
        j < h2.len(),
        forall|m: int| 0 <= m <= j ==> m < hs.len() ==> (#[trigger] h2[m]).0 == hs[m].0,
        forall|m: int| k <= m < j ==> !crate::text::eq_ignore_case(#[trigger] hs[m].0, name),
        crate::text::eq_ignore_case(h2[j].0, name),
    ensures
        header_from(h2, name, k) == Some(j),
    decreases j - k,
{
    if k < j {
        assert(h2[k].0 == hs[k].0);
        assert(!crate::text::eq_ignore_case(hs[k].0, name));
        lemma_header_from_prefix_same(hs, h2, name, k + 1, j);
    }
}


/// Header lists with the same names in the same places find a name at the
/// same place.
proof fn lemma_same_names_same_index(
    h1: Seq<(Seq<char>, Seq<char>)>,
    h2: Seq<(Seq<char>, Seq<char>)>,
    name: Seq<char>,
    k: int,
)
    requires
        h1.len() == h2.len(),
        forall|m: int| 0 <= m < h1.len() ==> (#[trigger] h1[m]).0 == h2[m].0,
    ensures
        header_from(h1, name, k) == header_from(h2, name, k),
    decreases h1.len() - k,
{
    if 0 <= k < h1.len() {
        assert(h1[k].0 == h2[k].0);
        lemma_same_names_same_index(h1, h2, name, k + 1);
    }
}

/// A header found before the end is still found, at the same place, when
/// one more is appended.
proof fn lemma_push_keeps_index(
    hs: Seq<(Seq<char>, Seq<char>)>,
    p: (Seq<char>, Seq<char>),
    name: Seq<char>,
    k: int,
)
    requires
        0 <= k,
        header_from(hs, name, k) is Some,
    ensures
        header_from(hs.push(p), name, k) == header_from(hs, name, k),
    decreases hs.len() - k,
{
    if k < hs.len() {
        assert(hs.push(p)[k] == hs[k]);
        if !crate::text::eq_ignore_case(hs[k].0, name) {
            lemma_push_keeps_index(hs, p, name, k + 1);
        }
    }
}

/// Setting one header keeps every other header that was there findable,
/// and makes the one set findable.
proof fn lemma_set_header_keeps(
    hs: Seq<(Seq<char>, Seq<char>)>,
    name: Seq<char>,
    value: Seq<char>,
    other: Seq<char>,
)
    ensures
        header_index(hs, other) is Some ==> header_index(set_header_spec(hs, name, value), other) is Some,
        header_index(set_header_spec(hs, name, value), name) is Some,
{
    lemma_set_header_lookup(hs, name, value);
    match header_index(hs, name) {
        Some(k) => {
            lemma_header_from(hs, name, 0);
            let h2 = hs.update(k, (hs[k].0, value));
            assert forall|m: int| 0 <= m < hs.len() implies (#[trigger] hs[m]).0 == h2[m].0 by {
                if m == k {
                } else {
                    assert(h2[m] == hs[m]);
                }
            }
            lemma_same_names_same_index(hs, h2, other, 0);
        },
        None => {
            if header_index(hs, other) is Some {
                lemma_push_keeps_index(hs, (name, value), other, 0);
            }
        },
    }
}

/// Serializing again sends the same headers: the defaults are added only
/// where missing, and once added they are present.
pub proof fn lemma_default_headers_stable(hs: Seq<(Seq<char>, Seq<char>)>, body_len: nat, keep_alive: bool)
    ensures
        with_default_headers(with_default_headers(hs, body_len, keep_alive), body_len, keep_alive)
            == with_default_headers(hs, body_len, keep_alive),
{
    let cl = "Content-Length"@;
    let co = "Connection"@;
    let sv = "Server"@;
    let v2 = if keep_alive {
        "keep-alive"@
    } else {
        "close"@
    };
    let h1 = if header_index(hs, cl) is None {
        set_header_spec(hs, cl, dec(body_len))
    } else {
        hs
    };
    lemma_set_header_keeps(hs, cl, dec(body_len), cl);
    let h2 = if header_index(h1, co) is None {
        set_header_spec(h1, co, v2)
    } else {
        h1
    };
    lemma_set_header_keeps(h1, co, v2, cl);
    lemma_set_header_keeps(h1, co, v2, co);
    let h3 = if header_index(h2, sv) is None {
        set_header_spec(h2, sv, "localhost/0.1"@)
    } else {
        h2
    };
    lemma_set_header_keeps(h2, sv, "localhost/0.1"@, cl);
    lemma_set_header_keeps(h2, sv, "localhost/0.1"@, co);
    lemma_set_header_keeps(h2, sv, "localhost/0.1"@, sv);
    assert(h3 == with_default_headers(hs, body_len, keep_alive));
    assert(header_index(h3, cl) is Some);
    assert(header_index(h3, co) is Some);
    assert(header_index(h3, sv) is Some);
}


/// Appending a header of another name leaves where a name is found.
proof fn lemma_push_other_name(
    hs: Seq<(Seq<char>, Seq<char>)>,
    p: (Seq<char>, Seq<char>),
    other: Seq<char>,
    k: int,
)
    requires
        0 <= k <= hs.len(),
        p.0.len() != other.len(),
    ensures
        header_from(hs.push(p), other, k) == header_from(hs, other, k),
    decreases hs.len() - k,
{
    if k < hs.len() {
        assert(hs.push(p)[k] == hs[k]);
        lemma_push_other_name(hs, p, other, k + 1);
    } else {
        assert(hs.push(p)[k] == p);
        assert(!crate::text::eq_ignore_case(p.0, other));
        assert(header_from(hs.push(p), other, k + 1) is None);
    }
}

/// Setting a header leaves the value found under a name of another length.
proof fn lemma_set_other_lookup(
    hs: Seq<(Seq<char>, Seq<char>)>,
    name: Seq<char>,
    value: Seq<char>,
    other: Seq<char>,
)
    requires
        name.len() != other.len(),
    ensures
        header_lookup(set_header_spec(hs, name, value), other) == header_lookup(hs, other),
{
    lemma_header_from(hs, name, 0);
    lemma_header_from(hs, other, 0);
    match header_index(hs, name) {
        Some(k) => {
            let h2 = hs.update(k, (hs[k].0, value));
            assert forall|m: int| 0 <= m < hs.len() implies (#[trigger] hs[m]).0 == h2[m].0 by {
                if m != k {
                    assert(h2[m] == hs[m]);
                }
            }
            lemma_same_names_same_index(hs, h2, other, 0);
            match header_index(hs, other) {
                Some(j) => {
                    assert(j != k);
                    assert(h2[j] == hs[j]);
                },
                None => {},
            }
        },
        None => {
            lemma_push_other_name(hs, (name, value), other, 0);
            match header_index(hs, other) {
                Some(j) => {
                    assert(hs.push((name, value))[j] == hs[j]);
                },
                None => {},
            }
        },
    }
}

/// A response without a `Connection` header is sent with one that says
/// what the connection will do: `keep-alive` when it is kept open,
/// `close` when it is closed after the response.
pub proof fn lemma_connection_header_follows_keep_alive(
    hs: Seq<(Seq<char>, Seq<char>)>,
    body_len: nat,
    keep_alive: bool,
)
    requires
        header_lookup(hs, "Connection"@) is None,
    ensures
        header_lookup(with_default_headers(hs, body_len, keep_alive), "Connection"@) == Some(
            if keep_alive { "keep-alive"@ } else { "close"@ },
        ),
{
    reveal_strlit("Connection");
    reveal_strlit("Content-Length");
    reveal_strlit("Server");
    let v: Seq<char> = if keep_alive { "keep-alive"@ } else { "close"@ };
    let h1 = if header_index(hs, "Content-Length"@) is None {
        set_header_spec(hs, "Content-Length"@, dec(body_len))
    } else {
        hs
    };
    lemma_set_other_lookup(hs, "Content-Length"@, dec(body_len), "Connection"@);
    assert(header_lookup(h1, "Connection"@) is None);
    let h2 = set_header_spec(h1, "Connection"@, v);
    lemma_set_header_lookup(h1, "Connection"@, v);
    lemma_set_other_lookup(h2, "Server"@, "localhost/0.1"@, "Connection"@);
}

} // verus!
