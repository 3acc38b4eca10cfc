//! Content types of served files.
use vstd::prelude::*;

use crate::text::{chars_of, copy_range, eq_ignore_ascii_case, eq_ignore_case, lemma_rfind_before, rfind_before, rfind_char};

verus! {

/// The extension of the last component of `path`: what follows its last
/// `.`, unless that `.` starts the component (empty when there is none).
pub open spec fn file_extension(path: Seq<char>) -> Seq<char> {
    let slash = rfind_before(path, '/', path.len() as int);
    let dot = rfind_before(path, '.', path.len() as int);
    if dot > slash + 1 {
        path.subrange(dot + 1, path.len() as int)
    } else {
        seq![]
    }
}

/// The content type served for files with extension `ext` (case does not
/// matter).
pub open spec fn mime_for_extension(ext: Seq<char>) -> Seq<char> {
    if eq_ignore_case(ext, "html"@) || eq_ignore_case(ext, "htm"@) {
        "text/html; charset=utf-8"@
    } else if eq_ignore_case(ext, "css"@) {
        "text/css; charset=utf-8"@
    } else if eq_ignore_case(ext, "js"@) {
        "application/javascript; charset=utf-8"@
    } else if eq_ignore_case(ext, "json"@) {
        "application/json"@
    } else if eq_ignore_case(ext, "txt"@) {
        "text/plain; charset=utf-8"@
    } else if eq_ignore_case(ext, "xml"@) {
        "application/xml"@
    } else if eq_ignore_case(ext, "png"@) {
        "image/png"@
    } else if eq_ignore_case(ext, "jpg"@) || eq_ignore_case(ext, "jpeg"@) {
        "image/jpeg"@
    } else if eq_ignore_case(ext, "gif"@) {
        "image/gif"@
    } else if eq_ignore_case(ext, "svg"@) {
        "image/svg+xml"@
    } else if eq_ignore_case(ext, "ico"@) {
        "image/x-icon"@
    } else if eq_ignore_case(ext, "webp"@) {
        "image/webp"@
    } else if eq_ignore_case(ext, "pdf"@) {
        "application/pdf"@
    } else if eq_ignore_case(ext, "mp4"@) {
        "video/mp4"@
    } else if eq_ignore_case(ext, "wasm"@) {
        "application/wasm"@
    } else {
        "application/octet-stream"@
    }
}

/// `v[a..b]` equals `lit` up to ASCII case.
fn ext_is(v: &[char], a: usize, b: usize, lit: &str) -> (r: bool)
    requires
        a <= b <= v@.len(),
    ensures
        r == eq_ignore_case(v@.subrange(a as int, b as int), lit@),
{
    let part = copy_range(v, a, b);
    let l = chars_of(lit);
    eq_ignore_ascii_case(part.as_slice(), l.as_slice())
}

/// The content type of the file at `path`, by its extension.
pub fn mime_type(path: &str) -> (r: &'static str)
    ensures
        r@ == mime_for_extension(file_extension(path@)),
{
    let v = chars_of(path);
    proof {
        lemma_rfind_before(v@, '/', v@.len() as int);
        lemma_rfind_before(v@, '.', v@.len() as int);
    }
    let n = v.len();
    let slash: usize = match rfind_char(v.as_slice(), '/') {
        Some(k) => k + 1,
        None => 0,
    };
    let (a, b) = match rfind_char(v.as_slice(), '.') {
        Some(d) => if d > slash {
            (d + 1, n)
        } else {
            (0, 0)
        },
        None => (0, 0),
    };
    assert(v@.subrange(a as int, b as int) =~= file_extension(path@));
    if ext_is(v.as_slice(), a, b, "html") || ext_is(v.as_slice(), a, b, "htm") {
        "text/html; charset=utf-8"
    } else if ext_is(v.as_slice(), a, b, "css") {
        "text/css; charset=utf-8"
    } else if ext_is(v.as_slice(), a, b, "js") {
        "application/javascript; charset=utf-8"
    } else if ext_is(v.as_slice(), a, b, "json") {
        "application/json"
    } else if ext_is(v.as_slice(), a, b, "txt") {
        "text/plain; charset=utf-8"
    } else if ext_is(v.as_slice(), a, b, "xml") {
        "application/xml"
    } else if ext_is(v.as_slice(), a, b, "png") {
        "image/png"
    } else if ext_is(v.as_slice(), a, b, "jpg") || ext_is(v.as_slice(), a, b, "jpeg") {
        "image/jpeg"
    } else if ext_is(v.as_slice(), a, b, "gif") {
        "image/gif"
    } else if ext_is(v.as_slice(), a, b, "svg") {
        "image/svg+xml"
    } else if ext_is(v.as_slice(), a, b, "ico") {
        "image/x-icon"
    } else if ext_is(v.as_slice(), a, b, "webp") {
        "image/webp"
    } else if ext_is(v.as_slice(), a, b, "pdf") {
        "application/pdf"
    } else if ext_is(v.as_slice(), a, b, "mp4") {
        "video/mp4"
    } else if ext_is(v.as_slice(), a, b, "wasm") {
        "application/wasm"
    } else {
        "application/octet-stream"
    }
}

} // verus!
