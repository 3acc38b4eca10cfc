//! A single-threaded HTTP/1.1 server's logic, verified: configuration
//! parsing, incremental request parsing, routing and dispatch, uploads,
//! sessions, CGI invocation and responses. Sockets, files, processes and
//! clocks are the caller's: the library says what to do with them.
pub mod text;
pub mod request;
pub mod response;
pub mod config;
pub mod config_parser;
pub mod path_resolve;
pub mod upload;
pub mod session;
pub mod errors;
pub mod dirlisting;
pub mod mime;
pub mod handler;
pub mod server;
pub mod connection;
pub mod cgi;
