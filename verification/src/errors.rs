//! Error pages.
use vstd::prelude::*;
use vstd::utf8::encode_utf8;

use crate::config::ServerConfig;
use crate::response::{spec_reason_phrase, reason_phrase, str_bytes, Response};
use crate::text::{contains_seq, dec, has_prefix, occurs_at, push_dec};

verus! {

broadcast use {
    vstd::std_specs::hash::group_hash_axioms,
    vstd::hash_map::group_hash_map_axioms,
};

/// The built-in error page's declaration of its document type.
pub const PAGE_DOCTYPE: &'static str = "<!DOCTYPE html>";

/// From the document type to the title.
pub const PAGE_HEAD: &'static str = "\n<html lang=\"en\">\n<head>\n<meta charset=\"utf-8\">\n";

/// From the end of the title to the main heading.
pub const PAGE_STYLE: &'static str = "\n<style>\n  body { font-family: -apple-system, Segoe UI, Helvetica, Arial, sans-serif; background:#0f172a; color:#e2e8f0; display:flex; align-items:center; justify-content:center; height:100vh; margin:0; }\n  .card { text-align:center; padding:2.5rem 3rem; border-radius:12px; background:#1e293b; box-shadow:0 10px 30px rgba(0,0,0,.4); }\n  h1 { font-size:4rem; margin:0; color:#38bdf8; }\n  h2 { margin:.25rem 0 1rem; font-weight:500; color:#f1f5f9; }\n  p { color:#94a3b8; max-width:32ch; margin:0 auto; }\n  a { color:#38bdf8; text-decoration:none; }\n</style>\n</head>\n<body>\n  <div class=\"card\">\n    ";

/// Between the main heading and the reason heading.
pub const PAGE_H2: &'static str = "\n    ";

/// Between the reason heading and the description.
pub const PAGE_P: &'static str = "\n    <p>";

/// End of the page.
pub const PAGE_TAIL: &'static str = "</p>\n    <p style=\"margin-top:1.5rem;\"><a href=\"/\">Return home</a></p>\n  </div>\n</body>\n</html>\n";

/// The sentence that the built-in page gives for each status code.
pub open spec fn error_description(code: u16) -> Seq<char> {
    if code == 400 {
        "The server could not understand the request due to invalid syntax."@
    } else if code == 403 {
        "You do not have permission to access this resource."@
    } else if code == 404 {
        "The requested resource could not be found on this server."@
    } else if code == 405 {
        "The HTTP method used is not allowed for this resource."@
    } else if code == 408 {
        "The server timed out waiting for the request."@
    } else if code == 411 {
        "The request did not specify the length of its content."@
    } else if code == 413 {
        "The request body is larger than the server is willing to process."@
    } else if code == 414 {
        "The request-target is longer than the server is willing to interpret."@
    } else if code == 431 {
        "The request's header fields were too large."@
    } else if code == 500 {
        "The server encountered an unexpected error and could not complete the request."@
    } else if code == 501 {
        "The server does not support the functionality required to fulfill the request."@
    } else if code == 502 {
        "The server received an invalid response from an upstream resource (CGI)."@
    } else if code == 503 {
        "The server is temporarily unable to handle the request."@
    } else if code == 504 {
        "An upstream resource (CGI) took too long to respond."@
    } else if code == 505 {
        "The HTTP version used in the request is not supported."@
    } else {
        "An error occurred while processing the request."@
    }
}

/// [`error_description`] as a static string.
pub fn description(code: u16) -> (r: &'static str)
    ensures
        r@ == error_description(code),
{
    if code == 400 {
        "The server could not understand the request due to invalid syntax."
    } else if code == 403 {
        "You do not have permission to access this resource."
    } else if code == 404 {
        "The requested resource could not be found on this server."
    } else if code == 405 {
        "The HTTP method used is not allowed for this resource."
    } else if code == 408 {
        "The server timed out waiting for the request."
    } else if code == 411 {
        "The request did not specify the length of its content."
    } else if code == 413 {
        "The request body is larger than the server is willing to process."
    } else if code == 414 {
        "The request-target is longer than the server is willing to interpret."
    } else if code == 431 {
        "The request's header fields were too large."
    } else if code == 500 {
        "The server encountered an unexpected error and could not complete the request."
    } else if code == 501 {
        "The server does not support the functionality required to fulfill the request."
    } else if code == 502 {
        "The server received an invalid response from an upstream resource (CGI)."
    } else if code == 503 {
        "The server is temporarily unable to handle the request."
    } else if code == 504 {
        "An upstream resource (CGI) took too long to respond."
    } else if code == 505 {
        "The HTTP version used in the request is not supported."
    } else {
        "An error occurred while processing the request."
    }
}

/// The title of the built-in error page: the code and its reason phrase.
pub open spec fn page_title(code: u16) -> Seq<char> {
    "<title>"@ + dec(code as nat) + " "@ + spec_reason_phrase(code) + "</title>"@
}

/// The main heading of the built-in error page: the code.
pub open spec fn page_h1(code: u16) -> Seq<char> {
    "<h1>"@ + dec(code as nat) + "</h1>"@
}

/// The second heading of the built-in error page: the reason phrase.
pub open spec fn page_h2(code: u16) -> Seq<char> {
    "<h2>"@ + spec_reason_phrase(code) + "</h2>"@
}

/// The text of the built-in error page for `code`.
pub open spec fn error_page_text(code: u16) -> Seq<char> {
    PAGE_DOCTYPE@ + PAGE_HEAD@ + page_title(code) + PAGE_STYLE@ + page_h1(code) + PAGE_H2@
        + page_h2(code) + PAGE_P@ + error_description(code) + PAGE_TAIL@
}

/// A minimal, self-contained HTML page describing the error.
pub fn default_error_page(code: u16) -> (r: Vec<u8>)
    ensures
        r@ == encode_utf8(error_page_text(code)),
{
    let reason = reason_phrase(code);
    let mut s = String::new();
    s.append(PAGE_DOCTYPE);
    s.append(PAGE_HEAD);
    s.append("<title>");
    push_dec(&mut s, code as u128);
    s.append(" ");
    s.append(reason);
    s.append("</title>");
    s.append(PAGE_STYLE);
    s.append("<h1>");
    push_dec(&mut s, code as u128);
    s.append("</h1>");
    s.append(PAGE_H2);
    s.append("<h2>");
    s.append(reason);
    s.append("</h2>");
    s.append(PAGE_P);
    s.append(description(code));
    s.append(PAGE_TAIL);
    assert(s@ =~= error_page_text(code));
    str_bytes(s.as_str())
}

/// The built-in error page is an HTML document that names the error: it
/// starts with `<!DOCTYPE html>`, its title is the code and the reason
/// phrase, its main heading the code and its second heading the reason
/// phrase.
pub proof fn lemma_error_page_names_error(code: u16)
    ensures
        has_prefix(error_page_text(code), PAGE_DOCTYPE@),
        contains_seq(error_page_text(code), page_title(code)),
        contains_seq(error_page_text(code), page_h1(code)),
        contains_seq(error_page_text(code), page_h2(code)),
{
    let t = error_page_text(code);
    let a = PAGE_DOCTYPE@ + PAGE_HEAD@;
    let b = a + page_title(code) + PAGE_STYLE@;
    let c = b + page_h1(code) + PAGE_H2@;
    let d = c + page_h2(code);
    assert(t =~= d + PAGE_P@ + error_description(code) + PAGE_TAIL@);
    assert(t.subrange(0, PAGE_DOCTYPE@.len() as int) =~= PAGE_DOCTYPE@);
    assert(t.subrange(a.len() as int, (a.len() + page_title(code).len()) as int) =~= page_title(code));
    assert(occurs_at(t, page_title(code), a.len() as int));
    assert(t.subrange(b.len() as int, (b.len() + page_h1(code).len()) as int) =~= page_h1(code));
    assert(occurs_at(t, page_h1(code), b.len() as int));
    assert(t.subrange(c.len() as int, (c.len() + page_h2(code).len()) as int) =~= page_h2(code));
    assert(occurs_at(t, page_h2(code), c.len() as int));
}

/// The file configured with `error_page` for `code`, if any.
pub fn error_page_path(server: &ServerConfig, code: u16) -> (r: Option<String>)
    ensures
        match r {
            Some(p) => server@.error_pages.contains_key(code) && p@ == server@.error_pages[code],
            None => !server@.error_pages.contains_key(code),
        },
{
    match server.error_pages.get(&code) {
        Some(p) => Some(p.clone()),
        None => None,
    }
}

/// The error response for `code`, given the contents of its custom error
/// page when one is configured and could be read: that page if there is
/// one, else the built-in page.
pub fn error_response(code: u16, custom_page: Option<Vec<u8>>) -> (r: Response)
    ensures
        r.status == code,
        r.headers_model() == seq![("Content-Type"@, "text/html; charset=utf-8"@)],
        r.body@ == match custom_page {
            Some(c) => c@,
            None => encode_utf8(error_page_text(code)),
        },
{
    match custom_page {
        Some(content) => Response::html(code, content),
        None => Response::html(code, default_error_page(code)),
    }
}

} // verus!
