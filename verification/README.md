# localhost

The logic of a single-threaded, non-blocking HTTP/1.1 server, written in
Verus and proved against its contracts.

`src/` is the verified library:

- `config`, `config_parser`: the nginx-like configuration format, virtual
  servers and routes, longest-prefix route matching.
- `request`: the incremental request parser (request line, headers,
  `Content-Length` and chunked bodies), cookies, percent-decoding.
- `response`: responses and their serialization.
- `path_resolve`: mapping a URL path under a route's root, refusing `..`.
- `handler`: routing and dispatch of a request. Filesystem work is asked
  for, not done: `handle_request` and `resume` return the next query and
  the state to resume with.
- `upload`, `dirlisting`, `errors`, `mime`, `session`: multipart uploads,
  directory listings, error pages, content types, in-memory sessions.
- `server`, `connection`: the decisions of the connection loop (virtual
  host selection, CGI output, timeouts, per-connection state).
- `text`: the string operations of std that the above use, stated over
  `Seq<char>`.

`app/` is the program around it: sockets and `epoll` through `libc`, CGI
processes, the filesystem and the clock.

```sh
localhost conf/default.conf
```
