//! Decisions of the connection loop that do not touch sockets: which
//! virtual server answers a request, how a CGI script's output becomes a
//! response, which listening address a `host` names, and what an idle
//! connection's timeout calls for.
use vstd::prelude::*;

use crate::config::{Config, ServerModel};
use crate::handler::{ResponseModel, response_model};
use crate::request::{header_lookup, Request};
use crate::response::{set_header_spec, Response};
use crate::text::{
    dec,
    chars_of, copy_range, eq_ignore_ascii_case, eq_ignore_case, find_char_from, lemma_find_from,
    lemma_ws_tokens_bounds, lossy_string, parse_bounded, parse_uint_range, range_eq_str,
    ranges_view, split_char, split_char_ranges, split_once_at, split_ranges, split_ws,
    string_from_range, trim, trim_range, utf8_lossy, ws_token_ranges,
};
use crate::upload::{find_bytes, find_subslice, lemma_find_bytes, skip_char_back};

verus! {

// ---------------------------------------------------------------------
// Virtual hosts
// ---------------------------------------------------------------------

/// The host name in a `Host` header value: what precedes the first `:`.
pub open spec fn host_name(h: Seq<char>) -> Seq<char> {
    match split_once_at(h, ':') {
        Some(i) => h.subrange(0, i),
        None => h,
    }
}

/// The first of the candidates `cands[k..]` whose server has `name` among
/// its names.
pub open spec fn first_named(servers: Seq<ServerModel>, cands: Seq<usize>, k: int, name: Seq<char>) -> Option<usize>
    decreases cands.len() - k,
{
    if k < 0 || k >= cands.len() {
        None
    } else if servers[cands[k] as int].server_names.contains(name) {
        Some(cands[k])
    } else {
        first_named(servers, cands, k + 1, name)
    }
}

/// The virtual host that answers `req` among `cands`: the only one, else
/// the first whose names hold the `Host` header's host name, else the
/// first (the default server).
pub open spec fn chosen_server(servers: Seq<ServerModel>, cands: Seq<usize>, req: Request) -> usize {
    if cands.len() == 1 {
        cands[0]
    } else {
        match header_lookup(req.headers_model(), "host"@) {
            Some(h) => match first_named(servers, cands, 0, host_name(h)) {
                Some(i) => i,
                None => cands[0],
            },
            None => cands[0],
        }
    }
}

/// Whether `names` holds `name`.
fn has_name(names: &Vec<String>, name: &String) -> (r: bool)
    ensures
        r == crate::config::strings_view(names@).contains(name@),
{
    let ghost ns = crate::config::strings_view(names@);
    let mut i: usize = 0;
    while i < names.len()
        invariant
            i <= names@.len(),
            ns == crate::config::strings_view(names@),
            forall|j: int| 0 <= j < i ==> ns[j] != name@,
        decreases names.len() - i,
    {
        if names[i] == *name {
            assert(ns[i as int] == name@);
            return true;
        }
        i += 1;
    }
    false
}

/// Picks the virtual host that should handle `req` among `candidates`
/// (indices into `Config::servers` sharing a `(host, port)`), based on the
/// `Host` header. Falls back to the first candidate (the default server).
pub fn select_server(config: &Config, candidates: &[usize], req: &Request) -> (r: usize)
    requires
        candidates@.len() >= 1,
        forall|i: int| 0 <= i < candidates@.len() ==> #[trigger] candidates@[i] < config.servers@.len(),
    ensures
        r == chosen_server(config@, candidates@, *req),
        r < config.servers@.len(),
{
    if candidates.len() == 1 {
        return candidates[0];
    }
    match req.header("host") {
        Some(h) => {
            let hc = chars_of(h);
            let k = find_char_from(hc.as_slice(), ':', 0);
            proof {
                lemma_find_from(hc@, ':', 0);
                if k == hc@.len() {
                    assert(hc@.subrange(0, k as int) =~= hc@);
                }
            }
            let name = string_from_range(hc.as_slice(), 0, k);
            let ghost cs = candidates@;
            let mut j: usize = 0;
            while j < candidates.len()
                invariant
                    j <= cs.len(),
                    cs == candidates@,
                    cs.len() >= 2,
                    header_lookup(req.headers_model(), "host"@) == Some(h@),
                    name@ == host_name(h@),
                    forall|i: int| 0 <= i < cs.len() ==> #[trigger] cs[i] < config.servers@.len(),
                    first_named(config@, cs, 0, name@) == first_named(config@, cs, j as int, name@),
                decreases candidates.len() - j,
            {
                let idx = candidates[j];
                assert(config@[idx as int] == config.servers@[idx as int]@);
                if has_name(&config.servers[idx].server_names, &name) {
                    return idx;
                }
                j += 1;
            }
            candidates[0]
        },
        None => candidates[0],
    }
}


// ---------------------------------------------------------------------
// CGI output
// ---------------------------------------------------------------------

/// Where a CGI script's headers end: the position of the first blank line
/// (`\r\n\r\n`, else `\n\n`) and the length of that separator.
pub open spec fn cgi_separator(out: Seq<u8>) -> Option<(int, int)> {
    match find_bytes(out, seq![13u8, 10u8, 13u8, 10u8], 0) {
        Some(p) => Some((p, 4)),
        None => match find_bytes(out, seq![10u8, 10u8], 0) {
            Some(p) => Some((p, 2)),
            None => None,
        },
    }
}

/// A header line with its trailing `\r`s removed.
pub open spec fn trim_cr(line: Seq<char>) -> Seq<char> {
    line.subrange(0, skip_char_back(line, '\r', line.len() as int))
}

/// The status and headers after one header line of CGI output: `Status:`
/// sets the status from its first word (200 if that is not a number),
/// other `name: value` lines set a header; lines without `:` are
/// ignored.
pub open spec fn cgi_line(line0: Seq<char>, st: (u16, Seq<(Seq<char>, Seq<char>)>)) -> (u16, Seq<
    (Seq<char>, Seq<char>),
>) {
    let line = trim_cr(line0);
    if line.len() == 0 {
        st
    } else {
        match split_once_at(line, ':') {
            None => st,
            Some(i) => {
                let k = trim(line.subrange(0, i));
                let v = trim(line.subrange(i + 1, line.len() as int));
                if eq_ignore_case(k, "status"@) {
                    let words = split_ws(v);
                    if words.len() > 0 {
                        (
                            match parse_bounded(words[0], 10, 65535) {
                                Some(n) => n as u16,
                                None => 200,
                            },
                            st.1,
                        )
                    } else {
                        st
                    }
                } else {
                    (st.0, set_header_spec(st.1, k, v))
                }
            },
        }
    }
}

/// The status and headers after lines `k..`.
pub open spec fn cgi_lines(lines: Seq<Seq<char>>, k: int, st: (u16, Seq<(Seq<char>, Seq<char>)>)) -> (u16, Seq<
    (Seq<char>, Seq<char>),
>)
    decreases lines.len() - k,
{
    if k < 0 || k >= lines.len() {
        st
    } else {
        cgi_lines(lines, k + 1, cgi_line(lines[k], st))
    }
}

/// The response that a CGI script's output makes: its headers (with a
/// `Status:` line setting the status) and the rest as body; output
/// without a blank line is sent as plain text, and no output at all is a
/// failure (`None`).
pub open spec fn cgi_response(out: Seq<u8>) -> Option<ResponseModel> {
    match cgi_separator(out) {
        Some((pos, sep)) => {
            let st = cgi_lines(split_char(utf8_lossy(out.subrange(0, pos)), '\n'), 0, (200, seq![]));
            Some(ResponseModel { status: st.0, headers: st.1, body: out.subrange(pos + sep, out.len() as int) })
        },
        None => if out.len() == 0 {
            None
        } else {
            Some(
                ResponseModel {
                    status: 200,
                    headers: set_header_spec(seq![], "Content-Type"@, "text/plain; charset=utf-8"@),
                    body: out,
                },
            )
        },
    }
}

/// Applies one header line `v[a..b]` of CGI output.
pub fn apply_cgi_line(v: &[char], a: usize, b: usize, status: &mut u16, resp: &mut Response)
    requires
        a <= b <= v@.len(),
    ensures
        (*final(status), final(resp).headers_model()) == cgi_line(
            v@.subrange(a as int, b as int),
            (*old(status), old(resp).headers_model()),
        ),
        final(resp).status == old(resp).status,
        final(resp).body@ == old(resp).body@,
{
    let line0 = copy_range(v, a, b);
    let ghost l0 = line0@;
    let mut j: usize = line0.len();
    while j > 0 && line0[j - 1] == '\r'
        invariant
            j <= l0.len(),
            l0 == line0@,
            skip_char_back(l0, '\r', l0.len() as int) == skip_char_back(l0, '\r', j as int),
        decreases j,
    {
        j -= 1;
    }
    if j == 0 {
        return;
    }
    let line = copy_range(line0.as_slice(), 0, j);
    assert(line@ == trim_cr(l0));
    let k = find_char_from(line.as_slice(), ':', 0);
    proof {
        lemma_find_from(line@, ':', 0);
    }
    if k == line.len() {
        return;
    }
    let (ka, kb) = trim_range(line.as_slice(), 0, k);
    let (va, vb) = trim_range(line.as_slice(), k + 1, line.len());
    let key = copy_range(line.as_slice(), ka, kb);
    let val = copy_range(line.as_slice(), va, vb);
    let st = chars_of("status");
    if eq_ignore_ascii_case(key.as_slice(), st.as_slice()) {
        let words = ws_token_ranges(val.as_slice(), 0, val.len());
        assert(val@.subrange(0, val@.len() as int) =~= val@);
        if words.len() > 0 {
            let (wa, wb) = words[0];
            proof {
                lemma_ws_tokens_bounds(val@, 0, -1);
                assert(ranges_view(words@)[0] == (wa as int, wb as int));
                assert(split_ws(val@)[0] == val@.subrange(wa as int, wb as int));
            }
            *status = match parse_uint_range(val.as_slice(), wa, wb, 10, 65535) {
                Some(n) => n as u16,
                None => 200,
            };
        } else {
            assert(split_ws(val@).len() == 0);
        }
    } else {
        let ks = string_from_range(key.as_slice(), 0, key.len());
        let vs = string_from_range(val.as_slice(), 0, val.len());
        assert(key@.subrange(0, key@.len() as int) =~= key@);
        assert(val@.subrange(0, val@.len() as int) =~= val@);
        resp.set_header(ks.as_str(), vs.as_str());
    }
}

/// The status and headers that the header text of a CGI script's output
/// (decoded as text) sets: its lines are applied in order to status 200
/// and no headers.
pub fn cgi_head(text: &str) -> (r: (u16, Vec<(String, String)>))
    ensures
        (r.0, crate::request::headers_view(r.1@)) == cgi_lines(split_char(text@, '\n'), 0, (200, seq![])),
{
    let v = chars_of(text);
    let lines = split_char_ranges(v.as_slice(), 0, v.len(), '\n');
    assert(v@.subrange(0, v@.len() as int) =~= v@);
    let ghost ls = split_char(v@, '\n');
    let mut status: u16 = 200;
    let mut resp = Response::new(200);
    assert(resp.headers_model() =~= Seq::<(Seq<char>, Seq<char>)>::empty());
    let mut i: usize = 0;
    while i < lines.len()
        invariant
            i <= lines@.len(),
            ranges_view(lines@) == split_ranges(v@, '\n', 0, 0),
            ls == split_char(v@, '\n'),
            ls.len() == lines@.len(),
            forall|j: int| 0 <= j < lines@.len() ==> (#[trigger] lines@[j]).0 <= lines@[j].1 <= v@.len(),
            cgi_lines(ls, 0, (200, seq![])) == cgi_lines(ls, i as int, (status, resp.headers_model())),
        decreases lines.len() - i,
    {
        let (a, b) = lines[i];
        assert(ranges_view(lines@)[i as int] == (a as int, b as int));
        assert(ls[i as int] == v@.subrange(a as int, b as int));
        apply_cgi_line(v.as_slice(), a, b, &mut status, &mut resp);
        i += 1;
    }
    (status, resp.headers)
}

/// The response made of the output's headers before `pos` and its body
/// after the separator of length `sep` there.
fn split_response(output: &[u8], pos: usize, sep: usize) -> (r: Response)
    requires
        pos + sep <= output@.len(),
    ensures
        ({
            let st = cgi_lines(split_char(utf8_lossy(output@.subrange(0, pos as int)), '\n'), 0, (200, seq![]));
            response_model(r) == ResponseModel {
                status: st.0,
                headers: st.1,
                body: output@.subrange(pos + sep, output@.len() as int),
            }
        }),
{
    let n = output.len();
    let body = copy_range(output, pos + sep, n);
    let head = copy_range(output, 0, pos);
    let text = lossy_string(head.as_slice());
    let (status, headers) = cgi_head(text.as_str());
    Response { status, headers, body }
}

/// Parses a CGI script's output (CGI-style headers, blank line, body) into
/// an HTTP [`Response`]. A `Status:` header overrides the default 200.
/// Returns `None` for empty output, which calls for a 502 error page.
pub fn build_cgi_response(output: &[u8]) -> (r: Option<Response>)
    ensures
        match cgi_response(output@) {
            Some(m) => r is Some && response_model(r->0) == m,
            None => r is None,
        },
{
    let crlf2: [u8; 4] = [13u8, 10u8, 13u8, 10u8];
    let lf2: [u8; 2] = [10u8, 10u8];
    assert(crlf2@ =~= seq![13u8, 10u8, 13u8, 10u8]);
    assert(lf2@ =~= seq![10u8, 10u8]);
    proof {
        lemma_find_bytes(output@, seq![13u8, 10u8, 13u8, 10u8], 0);
        lemma_find_bytes(output@, seq![10u8, 10u8], 0);
    }
    match find_subslice(output, crlf2.as_slice(), 0) {
        Some(p) => Some(split_response(output, p, 4)),
        None => match find_subslice(output, lf2.as_slice(), 0) {
            Some(p) => Some(split_response(output, p, 2)),
            None => {
                if output.len() == 0 {
                    return None;
                }
                let body = copy_range(output, 0, output.len());
                assert(output@.subrange(0, output@.len() as int) =~= output@);
                let resp = Response::new(200).with_header("Content-Type", "text/plain; charset=utf-8").with_body(body);
                assert(resp.headers_model() =~= set_header_spec(seq![], "Content-Type"@, "text/plain; charset=utf-8"@));
                Some(resp)
            },
        },
    }
}


// ---------------------------------------------------------------------
// Listening addresses
// ---------------------------------------------------------------------

/// The IPv4 address (as `u32::from_le_bytes` of its octets) that a
/// `host` directive names: `*` and `0.0.0.0` are any address, `localhost`
/// is 127.0.0.1, and otherwise four dot-separated decimal octets.
pub open spec fn ipv4_of(host: Seq<char>) -> Option<u32> {
    if host == "*"@ || host == "0.0.0.0"@ {
        Some(0)
    } else if host == "localhost"@ {
        Some(0x0100_007fu32)
    } else {
        let parts = split_char(host, '.');
        if parts.len() != 4 {
            None
        } else {
            match (
                parse_bounded(parts[0], 10, 255),
                parse_bounded(parts[1], 10, 255),
                parse_bounded(parts[2], 10, 255),
                parse_bounded(parts[3], 10, 255),
            ) {
                (Some(a), Some(b), Some(c), Some(d)) => Some(
                    (a + b * 0x100 + c * 0x1_0000 + d * 0x100_0000) as u32,
                ),
                _ => None,
            }
        }
    }
}

/// Parses the address of a `host` directive (see [`ipv4_of`]).
pub fn parse_ipv4(host: &str) -> (r: Option<u32>)
    ensures
        r == ipv4_of(host@),
{
    let v = chars_of(host);
    assert(v@.subrange(0, v@.len() as int) =~= v@);
    if range_eq_str(v.as_slice(), 0, v.len(), "*") || range_eq_str(v.as_slice(), 0, v.len(), "0.0.0.0") {
        return Some(0);
    }
    if range_eq_str(v.as_slice(), 0, v.len(), "localhost") {
        return Some(0x0100_007fu32);
    }
    let parts = split_char_ranges(v.as_slice(), 0, v.len(), '.');
    let ghost ps = split_char(v@, '.');
    assert(ps.len() == parts@.len());
    if parts.len() != 4 {
        return None;
    }
    let mut octets: [u32; 4] = [0u32; 4];
    let mut i: usize = 0;
    while i < 4
        invariant
            i <= 4,
            parts@.len() == 4,
            v@ == host@,
            host@ != "*"@ && host@ != "0.0.0.0"@ && host@ != "localhost"@,
            ranges_view(parts@) == split_ranges(v@, '.', 0, 0),
            ps == split_char(v@, '.'),
            forall|j: int| 0 <= j < 4 ==> (#[trigger] parts@[j]).0 <= parts@[j].1 <= v@.len(),
            forall|j: int| 0 <= j < i ==> parse_bounded(#[trigger] ps[j], 10, 255) == Some(octets@[j] as nat),
        decreases 4 - i,
    {
        let (a, b) = parts[i];
        assert(ranges_view(parts@)[i as int] == (a as int, b as int));
        assert(ps[i as int] == v@.subrange(a as int, b as int));
        match parse_uint_range(v.as_slice(), a, b, 10, 255) {
            Some(n) => {
                octets[i] = n as u32;
            },
            None => {
                return None;
            },
        }
        i += 1;
    }
    let r = octets[0] + octets[1] * 0x100 + octets[2] * 0x1_0000 + octets[3] * 0x100_0000;
    assert(parse_bounded(ps[0], 10, 255) == Some(octets@[0] as nat));
    assert(parse_bounded(ps[1], 10, 255) == Some(octets@[1] as nat));
    assert(parse_bounded(ps[2], 10, 255) == Some(octets@[2] as nat));
    assert(parse_bounded(ps[3], 10, 255) == Some(octets@[3] as nat));
    Some(r)
}

// ---------------------------------------------------------------------
// Timeouts
// ---------------------------------------------------------------------

/// How long a CGI script may stay silent, in nanoseconds.
pub const CGI_TIMEOUT_NS: u64 = 15_000_000_000;

/// How long a connection may stay idle, in nanoseconds.
pub const CONN_TIMEOUT_NS: u64 = 60_000_000_000;

/// What the periodic sweep does with a connection.
#[derive(Debug, Clone, Copy, PartialEq, Eq, Structural)]
pub enum TimeoutAction {
    /// Leave it.
    Wait,
    /// Kill its CGI script and answer 504.
    GatewayTimeout,
    /// Answer 408 and close.
    RequestTimeout,
    /// Close it.
    Close,
}

/// The sweep's decision for a connection idle for `idle_ns`: a CGI script
/// gets [`CGI_TIMEOUT_NS`]; otherwise after [`CONN_TIMEOUT_NS`] a
/// connection with a partly received request is answered 408, any other
/// (or one still writing) is closed.
pub open spec fn timeout_of(has_cgi: bool, awaiting_write: bool, has_partial_request: bool, idle_ns: u64) -> TimeoutAction {
    if has_cgi {
        if idle_ns > CGI_TIMEOUT_NS {
            TimeoutAction::GatewayTimeout
        } else {
            TimeoutAction::Wait
        }
    } else if idle_ns > CONN_TIMEOUT_NS {
        if awaiting_write {
            TimeoutAction::Close
        } else if has_partial_request {
            TimeoutAction::RequestTimeout
        } else {
            TimeoutAction::Close
        }
    } else {
        TimeoutAction::Wait
    }
}

/// Decides what the periodic sweep does with a connection (see
/// [`timeout_of`]).
pub fn timeout_action(has_cgi: bool, awaiting_write: bool, has_partial_request: bool, idle_ns: u64) -> (r: TimeoutAction)
    ensures
        r == timeout_of(has_cgi, awaiting_write, has_partial_request, idle_ns),
{
    if has_cgi {
        if idle_ns > CGI_TIMEOUT_NS {
            TimeoutAction::GatewayTimeout
        } else {
            TimeoutAction::Wait
        }
    } else if idle_ns > CONN_TIMEOUT_NS {
        if awaiting_write {
            TimeoutAction::Close
        } else if has_partial_request {
            TimeoutAction::RequestTimeout
        } else {
            TimeoutAction::Close
        }
    } else {
        TimeoutAction::Wait
    }
}


/// The dotted text of an IPv4 address held as `u32::from_le_bytes` of its
/// octets (the first octet in the lowest byte).
pub open spec fn ipv4_dotted(addr: u32) -> Seq<char> {
    dec((addr % 0x100) as nat) + "."@ + dec(((addr / 0x100) % 0x100) as nat) + "."@ + dec(
        ((addr / 0x1_0000) % 0x100) as nat,
    ) + "."@ + dec((addr / 0x100_0000) as nat)
}

/// The text of a peer's address (see [`ipv4_dotted`]).
pub fn ipv4_text(addr: u32) -> (r: String)
    ensures
        r@ == ipv4_dotted(addr),
{
    let mut s = String::new();
    crate::text::push_dec(&mut s, (addr % 0x100) as u128);
    s.append(".");
    crate::text::push_dec(&mut s, ((addr / 0x100) % 0x100) as u128);
    s.append(".");
    crate::text::push_dec(&mut s, ((addr / 0x1_0000) % 0x100) as u128);
    s.append(".");
    crate::text::push_dec(&mut s, (addr / 0x100_0000) as u128);
    s
}

// ---------------------------------------------------------------------
// Client socket events
// ---------------------------------------------------------------------

/// What to do with a client socket that reported events.
#[derive(Debug, Clone, Copy, PartialEq, Eq, Structural)]
pub enum EventPlan {
    /// The socket failed or hung up with nothing to read: close it.
    Close,
    /// Read from it first when `read`, then write to it when `write`.
    Serve { read: bool, write: bool },
}

/// The plan for a client socket's events: an error or hang-up with
/// nothing to read closes the connection; otherwise reading comes before
/// writing.
pub fn client_event_plan(error_or_hangup: bool, readable: bool, writable: bool) -> (r: EventPlan)
    ensures
        r == if error_or_hangup && !readable {
            EventPlan::Close
        } else {
            EventPlan::Serve { read: readable, write: writable }
        },
{
    if error_or_hangup && !readable {
        EventPlan::Close
    } else {
        EventPlan::Serve { read: readable, write: writable }
    }
}

} // verus!
