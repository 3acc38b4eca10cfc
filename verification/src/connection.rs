//! The state of one client connection and the decisions the connection
//! loop makes on it. The sockets, and the CGI process that may be running
//! for the connection, are held by the caller; time is in nanoseconds.
use vstd::prelude::*;

use vstd::utf8::encode_utf8;

use crate::request::{
    escape_splits_char, headers_view, initial_model, pct_decode, request_of, run, Request, RequestParser,
};
use crate::text::utf8_lossy;

verus! {

/// A client connection.
pub struct Connection {
    pub peer_addr: String,
    pub local_port: u16,
    /// The virtual servers that listen where the connection came in.
    pub server_indices: Vec<usize>,
    pub read_buf: Vec<u8>,
    pub write_buf: Vec<u8>,
    pub write_pos: usize,
    pub parser: RequestParser,
    /// When the connection was last active.
    pub last_active: u64,
    pub awaiting_write: bool,
    pub should_close_after_write: bool,
    pub has_partial_request: bool,
    /// Whether a CGI process is running for the current request.
    pub cgi_active: bool,
    pub cgi_keep_alive: bool,
    pub cgi_server_idx: usize,
    pub cgi_session: Option<(String, bool)>,
}

/// What the connection loop does once a response has been written out.
#[derive(Debug, Clone, Copy, PartialEq, Eq, Structural)]
pub enum AfterWrite {
    /// Close the connection.
    Close,
    /// Read the next request; `leftover` says whether bytes of one are
    /// already buffered (pipelining).
    Continue { leftover: bool },
}

/// What feeding the buffered bytes to the parser gave.
#[derive(Debug, Clone, Copy, PartialEq, Eq, Structural)]
pub enum ParseStep {
    /// More bytes are needed.
    Incomplete,
    /// A whole request is parsed.
    Complete,
    /// The request is malformed; answer with this status and close.
    Failed(u16),
}

impl Connection {
    /// A fresh connection from `peer_addr` on `local_port`.
    pub fn new(peer_addr: String, local_port: u16, server_indices: Vec<usize>, now: u64) -> (c: Self)
        ensures
            c.peer_addr == peer_addr,
            c.local_port == local_port,
            c.server_indices == server_indices,
            c.read_buf@ == Seq::<u8>::empty(),
            c.write_buf@ == Seq::<u8>::empty(),
            c.write_pos == 0,
            c.parser@ == initial_model(),
            c.last_active == now,
            !c.awaiting_write,
            !c.should_close_after_write,
            !c.has_partial_request,
            !c.cgi_active,
            !c.cgi_keep_alive,
            c.cgi_server_idx == 0,
            c.cgi_session is None,
    {
        Connection {
            peer_addr,
            local_port,
            server_indices,
            read_buf: Vec::new(),
            write_buf: Vec::new(),
            write_pos: 0,
            parser: RequestParser::new(),
            last_active: now,
            awaiting_write: false,
            should_close_after_write: false,
            has_partial_request: false,
            cgi_active: false,
            cgi_keep_alive: false,
            cgi_server_idx: 0,
            cgi_session: None,
        }
    }

    /// Prepares the connection to parse a new request after the previous
    /// one has been answered. Bytes already read are kept.
    pub fn reset_for_next_request(&mut self)
        ensures
            final(self).parser@ == initial_model(),
            final(self).write_buf@ == Seq::<u8>::empty(),
            final(self).write_pos == 0,
            !final(self).awaiting_write,
            !final(self).has_partial_request,
            !final(self).cgi_active,
            final(self).cgi_session is None,
            final(self).read_buf == old(self).read_buf,
            final(self).should_close_after_write == old(self).should_close_after_write,
            final(self).last_active == old(self).last_active,
            final(self).peer_addr == old(self).peer_addr,
            final(self).local_port == old(self).local_port,
            final(self).server_indices == old(self).server_indices,
            *final(self) == (Connection {
                parser: final(self).parser,
                write_buf: final(self).write_buf,
                write_pos: 0,
                awaiting_write: false,
                has_partial_request: false,
                cgi_active: false,
                cgi_session: None,
                ..*old(self)
            }),
    {
        self.parser = RequestParser::new();
        self.write_buf = Vec::new();
        self.write_pos = 0;
        self.awaiting_write = false;
        self.has_partial_request = false;
        self.cgi_active = false;
        self.cgi_session = None;
    }

    /// Queues `bytes` to be written out, replacing any previous response.
    pub fn queue_response(&mut self, bytes: Vec<u8>, close_after: bool)
        ensures
            final(self).write_buf == bytes,
            final(self).write_pos == 0,
            final(self).awaiting_write,
            final(self).should_close_after_write == close_after,
            final(self).read_buf == old(self).read_buf,
            final(self).parser == old(self).parser,
            final(self).has_partial_request == old(self).has_partial_request,
            final(self).cgi_active == old(self).cgi_active,
            final(self).last_active == old(self).last_active,
            *final(self) == (Connection {
                write_buf: bytes,
                write_pos: 0,
                awaiting_write: true,
                should_close_after_write: close_after,
                ..*old(self)
            }),
    {
        self.write_buf = bytes;
        self.write_pos = 0;
        self.awaiting_write = true;
        self.should_close_after_write = close_after;
    }

    /// How many queued bytes are still to be written.
    pub fn write_remaining(&self) -> (n: usize)
        requires
            self.write_pos <= self.write_buf@.len(),
        ensures
            n == self.write_buf@.len() - self.write_pos,
    {
        self.write_buf.len() - self.write_pos
    }

    /// Records bytes read from the client at time `now`.
    pub fn record_read(&mut self, data: &[u8], now: u64)
        ensures
            final(self).read_buf@ == old(self).read_buf@ + data@,
            final(self).has_partial_request,
            final(self).last_active == now,
            final(self).parser == old(self).parser,
            final(self).awaiting_write == old(self).awaiting_write,
            final(self).write_buf == old(self).write_buf,
            final(self).write_pos == old(self).write_pos,
            final(self).cgi_active == old(self).cgi_active,
            *final(self) == (Connection {
                read_buf: final(self).read_buf,
                has_partial_request: true,
                last_active: now,
                ..*old(self)
            }),
    {
        let mut buf = Vec::new();
        std::mem::swap(&mut buf, &mut self.read_buf);
        let mut i: usize = 0;
        let ghost start = buf@;
        while i < data.len()
            invariant
                i <= data@.len(),
                buf@ == start + data@.subrange(0, i as int),
            decreases data.len() - i,
        {
            buf.push(data[i]);
            i += 1;
            assert(buf@ =~= start + data@.subrange(0, i as int));
        }
        assert(data@.subrange(0, data@.len() as int) =~= data@);
        self.read_buf = buf;
        self.has_partial_request = true;
        self.last_active = now;
    }

    /// Records that `n` more bytes of the response were written at time
    /// `now`; returns whether the whole response is out.
    pub fn record_written(&mut self, n: usize, now: u64) -> (done: bool)
        requires
            old(self).write_pos + n <= old(self).write_buf@.len(),
        ensures
            final(self).write_pos == old(self).write_pos + n,
            final(self).last_active == now,
            done == (final(self).write_pos >= final(self).write_buf@.len()),
            final(self).write_buf == old(self).write_buf,
            final(self).read_buf == old(self).read_buf,
            final(self).awaiting_write == old(self).awaiting_write,
            final(self).should_close_after_write == old(self).should_close_after_write,
            *final(self) == (Connection {
                write_pos: (old(self).write_pos + n) as usize,
                last_active: now,
                ..*old(self)
            }),
    {
        let total = self.write_buf.len();
        self.write_pos = self.write_pos + n;
        self.last_active = now;
        self.write_pos >= total
    }

    /// Once the whole response is written: close if that was asked for,
    /// else get ready for the next request.
    pub fn after_response(&mut self) -> (r: AfterWrite)
        ensures
            old(self).should_close_after_write ==> r == AfterWrite::Close && *final(self) == *old(
                self,
            ),
            !old(self).should_close_after_write ==> {
                &&& r == (AfterWrite::Continue { leftover: old(self).read_buf@.len() > 0 })
                &&& final(self).parser@ == initial_model()
                &&& final(self).write_buf@ == Seq::<u8>::empty()
                &&& final(self).write_pos == 0
                &&& !final(self).awaiting_write
                &&& !final(self).has_partial_request
                &&& !final(self).cgi_active
                &&& final(self).read_buf == old(self).read_buf
                &&& *final(self) == (Connection {
                    parser: final(self).parser,
                    write_buf: final(self).write_buf,
                    write_pos: 0,
                    awaiting_write: false,
                    has_partial_request: false,
                    cgi_active: false,
                    cgi_session: None,
                    ..*old(self)
                })
            },
    {
        if self.should_close_after_write {
            return AfterWrite::Close;
        }
        self.reset_for_next_request();
        AfterWrite::Continue { leftover: self.read_buf.len() > 0 }
    }

    /// The peer closed its side: returns whether to close now. A response
    /// still being written is finished first, and the connection closed
    /// after it.
    pub fn peer_closed(&mut self) -> (close_now: bool)
        ensures
            close_now == !old(self).awaiting_write,
            old(self).awaiting_write ==> final(self).should_close_after_write,
            final(self).awaiting_write == old(self).awaiting_write,
            final(self).write_buf == old(self).write_buf,
            final(self).write_pos == old(self).write_pos,
            *final(self) == (Connection {
                should_close_after_write: old(self).should_close_after_write || old(self).awaiting_write,
                ..*old(self)
            }),
    {
        if self.awaiting_write {
            self.should_close_after_write = true;
            false
        } else {
            true
        }
    }

    /// Feeds the buffered bytes to the parser (see
    /// [`RequestParser::feed`]).
    pub fn parse_step(&mut self, max_header: usize, max_body: usize) -> (r: ParseStep)
        ensures
            ({
                let (res, m, rest) = run(
                    old(self).parser@,
                    old(self).read_buf@,
                    max_header as nat,
                    max_body as nat,
                );
                &&& final(self).parser@ == m
                &&& final(self).read_buf@ == rest
                &&& r == match res {
                    Ok(true) => ParseStep::Complete,
                    Ok(false) => ParseStep::Incomplete,
                    Err(e) => ParseStep::Failed(e.spec_status_code()),
                }
            }),
            final(self).awaiting_write == old(self).awaiting_write,
            final(self).write_buf == old(self).write_buf,
            final(self).cgi_active == old(self).cgi_active,
            *final(self) == (Connection {
                parser: final(self).parser,
                read_buf: final(self).read_buf,
                ..*old(self)
            }),
    {
        let mut taken = Vec::new();
        std::mem::swap(&mut taken, &mut self.read_buf);
        let res = self.parser.feed(&mut taken, max_header, max_body);
        self.read_buf = taken;
        match res {
            Ok(true) => ParseStep::Complete,
            Ok(false) => ParseStep::Incomplete,
            Err(e) => ParseStep::Failed(e.status_code()),
        }
    }

    /// Takes the parsed request out, leaving a fresh parser. `None` when
    /// the request's path cannot be decoded (its percent-escapes split a
    /// character); the connection is then dropped.
    pub fn take_request(&mut self) -> (r: Option<Request>)
        ensures
            final(self).parser@ == initial_model(),
            final(self).read_buf == old(self).read_buf,
            final(self).write_buf == old(self).write_buf,
            final(self).awaiting_write == old(self).awaiting_write,
            *final(self) == (Connection { parser: final(self).parser, ..*old(self) }),
            r is None <==> escape_splits_char(
                encode_utf8(old(self).parser.spec_path_part()),
            ),
            r matches Some(req) ==> {
                &&& req.method@ == old(self).parser@.method
                &&& req.target@ == old(self).parser@.target
                &&& req.version@ == old(self).parser@.version
                &&& req.path@ == utf8_lossy(pct_decode(encode_utf8(request_of(old(self).parser@).0)))
                &&& req.query@ == request_of(old(self).parser@).1
                &&& headers_view(req.headers@) == old(self).parser@.headers
                &&& req.body@ == old(self).parser@.body
            },
    {
        let mut parser = RequestParser::new();
        std::mem::swap(&mut parser, &mut self.parser);
        if parser.path_escape_splits_char() {
            return None;
        }
        Some(parser.into_request())
    }
}

} // verus!
