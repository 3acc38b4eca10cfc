//! `multipart/form-data` uploads.
use vstd::prelude::*;
use vstd::utf8::encode_utf8;

use crate::response::str_bytes;
use crate::text::{
    is_ws, lemma_skip_ws, lemma_skip_ws_back, skip_ws, skip_ws_back,
    chars_of, has_prefix, lemma_rfind_before, line_ranges, line_ranges_of, lines_of, lossy_string,
    lowercase, ranges_view, rfind_before, rfind_char, split_char, split_char_ranges, split_ranges,
    starts_with, string_from_range, to_lowercase, trim, trim_range, utf8_lossy,
};

verus! {

/// A single file extracted from a `multipart/form-data` body.
pub struct UploadedFile {
    pub filename: String,
    pub data: Vec<u8>,
}

// ---------------------------------------------------------------------
// Trimming a given character
// ---------------------------------------------------------------------

/// First index at or after `i` that is not `c`.
pub open spec fn skip_char(s: Seq<char>, c: char, i: int) -> int
    decreases s.len() - i,
{
    if 0 <= i < s.len() && s[i] == c {
        skip_char(s, c, i + 1)
    } else {
        i
    }
}

/// Smallest `j' <= j` such that `s[j'..j]` is all `c`.
pub open spec fn skip_char_back(s: Seq<char>, c: char, j: int) -> int
    decreases j,
{
    if 0 < j <= s.len() && s[j - 1] == c {
        skip_char_back(s, c, j - 1)
    } else {
        j
    }
}

/// `str::trim_matches(c)`.
pub open spec fn trim_char(s: Seq<char>, c: char) -> Seq<char> {
    let a = skip_char(s, c, 0);
    if a >= s.len() {
        seq![]
    } else {
        s.subrange(a, skip_char_back(s, c, s.len() as int))
    }
}

proof fn lemma_skip_char(s: Seq<char>, c: char, i: int)
    requires
        0 <= i <= s.len(),
    ensures
        i <= skip_char(s, c, i) <= s.len(),
        skip_char(s, c, i) < s.len() ==> s[skip_char(s, c, i)] != c,
    decreases s.len() - i,
{
    if i < s.len() && s[i] == c {
        lemma_skip_char(s, c, i + 1);
    }
}

proof fn lemma_skip_char_back(s: Seq<char>, c: char, j: int, floor: int)
    requires
        0 <= floor < j <= s.len(),
        s[floor] != c,
    ensures
        floor < skip_char_back(s, c, j) <= j,
    decreases j,
{
    if s[j - 1] == c {
        lemma_skip_char_back(s, c, j - 1, floor);
    }
}

/// `v[a..b].trim_matches(c)` as a new string.
fn trim_char_string(v: &[char], a: usize, b: usize, c: char) -> (r: String)
    requires
        a <= b <= v@.len(),
    ensures
        r@ == trim_char(v@.subrange(a as int, b as int), c),
{
    let ghost s = v@.subrange(a as int, b as int);
    let mut i = a;
    while i < b && v[i] == c
        invariant
            a <= i <= b <= v@.len(),
            s == v@.subrange(a as int, b as int),
            skip_char(s, c, 0) == skip_char(s, c, i - a),
        decreases b - i,
    {
        i += 1;
    }
    if i >= b {
        return String::new();
    }
    let mut j = b;
    while j > i && v[j - 1] == c
        invariant
            a <= i < j <= b <= v@.len(),
            s == v@.subrange(a as int, b as int),
            v@[i as int] != c,
            skip_char_back(s, c, s.len() as int) == skip_char_back(s, c, j - a),
        decreases j,
    {
        j -= 1;
    }
    proof {
        lemma_skip_char_back(s, c, j - a, i - a);
        assert(s.subrange(i - a, j - a) =~= v@.subrange(i as int, j as int));
    }
    string_from_range(v, i, j)
}

// ---------------------------------------------------------------------
// Boundaries and file names
// ---------------------------------------------------------------------

/// The `boundary=` parameter among the `;`-separated parts `parts[k..]`
/// of `h`.
pub open spec fn boundary_from(h: Seq<char>, parts: Seq<(int, int)>, k: int) -> Option<Seq<char>>
    decreases parts.len() - k,
{
    if k < 0 || k >= parts.len() {
        None
    } else {
        let part = trim(h.subrange(parts[k].0, parts[k].1));
        if has_prefix(part, "boundary="@) {
            Some(trim_char(part.subrange("boundary="@.len() as int, part.len() as int), '"'))
        } else {
            boundary_from(h, parts, k + 1)
        }
    }
}

/// The `boundary=` parameter of a `Content-Type` value, quotes removed.
pub open spec fn spec_boundary(content_type: Seq<char>) -> Option<Seq<char>> {
    boundary_from(content_type, split_ranges(content_type, ';', 0, 0), 0)
}

/// Extracts the `boundary=` parameter from a `Content-Type` header value.
pub fn extract_boundary(content_type: &str) -> (r: Option<String>)
    ensures
        match spec_boundary(content_type@) {
            Some(b) => r is Some && r->0@ == b,
            None => r is None,
        },
{
    let h = chars_of(content_type);
    let parts = split_char_ranges(h.as_slice(), 0, h.len(), ';');
    assert(h@.subrange(0, h@.len() as int) =~= h@);
    let prefix = chars_of("boundary=");
    let mut k: usize = 0;
    while k < parts.len()
        invariant
            k <= parts@.len(),
            ranges_view(parts@) == split_ranges(h@, ';', 0, 0),
            h@ == content_type@,
            prefix@ == "boundary="@,
            forall|j: int| 0 <= j < parts@.len() ==> (#[trigger] parts@[j]).0 <= parts@[j].1 <= h@.len(),
            spec_boundary(content_type@) == boundary_from(h@, ranges_view(parts@), k as int),
        decreases parts.len() - k,
    {
        let (pa, pb) = parts[k];
        assert(ranges_view(parts@)[k as int] == (pa as int, pb as int));
        let (ta, tb) = trim_range(h.as_slice(), pa, pb);
        let part = crate::text::copy_range(h.as_slice(), ta, tb);
        if starts_with(part.as_slice(), prefix.as_slice()) {
            let b = trim_char_string(part.as_slice(), prefix.len(), part.len(), '"');
            return Some(b);
        }
        k += 1;
    }
    None
}

/// The name kept from a client-supplied file name: its last `/` or `\`
/// separated component, trimmed; `upload.bin` when that is empty, `.` or
/// `..`.
pub open spec fn spec_sanitize(name: Seq<char>) -> Seq<char> {
    let n = name.map_values(|c: char| if c == '\\' { '/' } else { c });
    let base = n.subrange(rfind_before(n, '/', n.len() as int) + 1, n.len() as int);
    let b = trim(base);
    if b.len() == 0 || b == "."@ || b == ".."@ {
        "upload.bin"@
    } else {
        b
    }
}

/// Reduces a (possibly attacker-controlled) filename to a safe basename
/// with no directory components, preventing path traversal on upload.
pub fn sanitize_filename(name: &str) -> (r: String)
    ensures
        r@ == spec_sanitize(name@),
{
    let raw = chars_of(name);
    let mut n: Vec<char> = Vec::new();
    let mut i: usize = 0;
    while i < raw.len()
        invariant
            i <= raw@.len(),
            n@ == raw@.subrange(0, i as int).map_values(|c: char| if c == '\\' { '/' } else { c }),
        decreases raw.len() - i,
    {
        let c = raw[i];
        n.push(if c == '\\' { '/' } else { c });
        i += 1;
        assert(n@ =~= raw@.subrange(0, i as int).map_values(|c: char| if c == '\\' { '/' } else { c }));
    }
    assert(raw@.subrange(0, raw@.len() as int) =~= raw@);
    proof {
        lemma_rfind_before(n@, '/', n@.len() as int);
    }
    let start = match rfind_char(n.as_slice(), '/') {
        Some(k) => k + 1,
        None => 0,
    };
    let (a, b) = trim_range(n.as_slice(), start, n.len());
    let base = crate::text::copy_range(n.as_slice(), a, b);
    let dot = chars_of(".");
    let dotdot = chars_of("..");
    if a == b || crate::text::range_eq(base.as_slice(), 0, base.len(), dot.as_slice())
        || crate::text::range_eq(base.as_slice(), 0, base.len(), dotdot.as_slice()) {
        assert(base@.subrange(0, base@.len() as int) =~= base@);
        return String::from_str("upload.bin");
    }
    assert(base@.subrange(0, base@.len() as int) =~= base@);
    string_from_range(n.as_slice(), a, b)
}

/// A sanitized name never leads out of the upload directory: it holds no
/// `/` or `\`, and is neither empty, `.` nor `..`.
pub proof fn lemma_sanitized_name_is_plain(name: Seq<char>)
    ensures
        ({
            let r = spec_sanitize(name);
            &&& r.len() > 0
            &&& r != "."@
            &&& r != ".."@
            &&& forall|i: int| 0 <= i < r.len() ==> #[trigger] r[i] != '/' && r[i] != '\\'
        }),
{
    reveal_strlit("upload.bin");
    reveal_strlit(".");
    reveal_strlit("..");
    let n = name.map_values(|c: char| if c == '\\' { '/' } else { c });
    let k = rfind_before(n, '/', n.len() as int);
    lemma_rfind_before(n, '/', n.len() as int);
    let base = n.subrange(k + 1, n.len() as int);
    let b = trim(base);
    lemma_trim_is_subrange(base);
    if !(b.len() == 0 || b == "."@ || b == ".."@) {
        assert forall|i: int| 0 <= i < b.len() implies #[trigger] b[i] != '/' && b[i] != '\\' by {
            let off = choose|off: int| 0 <= off && off + b.len() <= base.len() && #[trigger] base.subrange(off, off + b.len()) == b;
            assert(b[i] == base[off + i]);
            assert(base[off + i] == n[k + 1 + off + i]);
        }
    } else {
        assert("upload.bin"@.len() == 10);
        assert("upload.bin"@ != "."@);
        assert("upload.bin"@ != ".."@);
    }
}

/// A trimmed text neither starts nor ends with whitespace.
proof fn lemma_trim_ends(s: Seq<char>)
    ensures
        trim(s).len() > 0 ==> !is_ws(trim(s)[0]) && !is_ws(trim(s).last()),
{
    let p = s.subrange(0, s.len() as int);
    assert(p =~= s);
    lemma_skip_ws(p, 0);
    lemma_skip_ws_back(s, s.len() as int);
    let a = skip_ws(p, 0);
    let b = skip_ws_back(s, s.len() as int);
    if a < s.len() {
        assert(!is_ws(s[a]));
        assert(a < b);
        assert(trim(s) == s.subrange(a, b));
        assert(trim(s)[0] == s[a]);
        assert(trim(s).last() == s[b - 1]);
    }
}

/// Trimming a text that neither starts nor ends with whitespace leaves it
/// as it is.
proof fn lemma_trim_of_trimmed(t: Seq<char>)
    requires
        t.len() == 0 || (!is_ws(t[0]) && !is_ws(t.last())),
    ensures
        trim(t) == t,
{
    let p = t.subrange(0, t.len() as int);
    assert(p =~= t);
    if t.len() == 0 {
        assert(t.subrange(0, 0) =~= t);
    } else {
        assert(skip_ws(p, 0) == 0);
        assert(skip_ws_back(t, t.len() as int) == t.len());
        assert(t.subrange(0, t.len() as int) =~= t);
    }
}

/// Sanitizing is stable: a sanitized name sanitizes to itself.
pub proof fn lemma_sanitize_idempotent(name: Seq<char>)
    ensures
        spec_sanitize(spec_sanitize(name)) == spec_sanitize(name),
{
    let r = spec_sanitize(name);
    lemma_sanitized_name_is_plain(name);
    reveal_strlit("upload.bin");
    let n = r.map_values(|c: char| if c == '\\' { '/' } else { c });
    assert(n =~= r);
    lemma_rfind_before(r, '/', r.len() as int);
    assert(rfind_before(r, '/', r.len() as int) == -1);
    assert(r.subrange(0, r.len() as int) =~= r);
    let n0 = name.map_values(|c: char| if c == '\\' { '/' } else { c });
    let base = n0.subrange(rfind_before(n0, '/', n0.len() as int) + 1, n0.len() as int);
    lemma_trim_ends(base);
    if r == "upload.bin"@ {
        assert(r[0] == 'u' && r.last() == 'n');
    }
    lemma_trim_of_trimmed(r);
}

/// `trim(s)` is a slice of `s`.
proof fn lemma_trim_is_subrange(s: Seq<char>)
    ensures
        exists|off: int| 0 <= off && off + trim(s).len() <= s.len() && #[trigger] s.subrange(off, off + trim(s).len()) == trim(s),
{
    crate::text::lemma_trim_shift(s, 0, s.len() as int);
    assert(s.subrange(0, s.len() as int) =~= s);
    let (a, b) = crate::text::trim_bounds(s, 0, s.len() as int);
    assert(s.subrange(a, a + trim(s).len()) == trim(s));
}


// ---------------------------------------------------------------------
// Byte searches
// ---------------------------------------------------------------------

/// `p` occurs in `s` at position `i`.
pub open spec fn bytes_at(s: Seq<u8>, p: Seq<u8>, i: int) -> bool {
    0 <= i && i + p.len() <= s.len() && s.subrange(i, i + p.len()) == p
}

/// The first position at or after `i` where `n` occurs in `h`.
pub open spec fn find_bytes(h: Seq<u8>, n: Seq<u8>, i: int) -> Option<int>
    decreases h.len() + 1 - i,
{
    if i < 0 || i + n.len() > h.len() {
        None
    } else if h.subrange(i, i + n.len()) == n {
        Some(i)
    } else {
        find_bytes(h, n, i + 1)
    }
}

pub proof fn lemma_find_bytes(h: Seq<u8>, n: Seq<u8>, i: int)
    requires
        0 <= i,
    ensures
        match find_bytes(h, n, i) {
            Some(p) => i <= p && bytes_at(h, n, p) && forall|k: int|
                i <= k < p ==> !bytes_at(h, n, k),
            None => forall|k: int| i <= k ==> !bytes_at(h, n, k),
        },
    decreases h.len() + 1 - i,
{
    if i + n.len() <= h.len() && h.subrange(i, i + n.len()) != n {
        lemma_find_bytes(h, n, i + 1);
    }
}

/// `h[i..i + n.len()] == n`.
fn bytes_eq_at(h: &[u8], n: &[u8], i: usize) -> (r: bool)
    requires
        i + n@.len() <= h@.len(),
    ensures
        r == (h@.subrange(i as int, i + n@.len()) == n@),
{
    let hl = h.len();
    let mut j: usize = 0;
    while j < n.len()
        invariant
            hl == h@.len(),
            i + n@.len() <= h@.len(),
            j <= n@.len(),
            forall|k: int| 0 <= k < j ==> h@[i + k] == n@[k],
        decreases n.len() - j,
    {
        if h[i + j] != n[j] {
            assert(h@.subrange(i as int, i + n@.len())[j as int] != n@[j as int]);
            return false;
        }
        j += 1;
    }
    assert(h@.subrange(i as int, i + n@.len()) =~= n@);
    true
}

/// The first position at or after `from` where `needle` occurs in
/// `haystack`.
pub fn find_subslice(haystack: &[u8], needle: &[u8], from: usize) -> (r: Option<usize>)
    ensures
        match r {
            Some(p) => find_bytes(haystack@, needle@, from as int) == Some(p as int),
            None => find_bytes(haystack@, needle@, from as int) is None,
        },
{
    if needle.len() > haystack.len() || from > haystack.len() - needle.len() {
        return None;
    }
    let last = haystack.len() - needle.len();
    let mut i: usize = from;
    loop
        invariant
            last + needle@.len() == haystack@.len(),
            from <= i <= last,
            find_bytes(haystack@, needle@, from as int) == find_bytes(
                haystack@,
                needle@,
                i as int,
            ),
        decreases last - i,
    {
        if bytes_eq_at(haystack, needle, i) {
            return Some(i);
        }
        if i == last {
            assert(find_bytes(haystack@, needle@, i + 1) is None);
            return None;
        }
        i += 1;
    }
}

// ---------------------------------------------------------------------
// Multipart bodies
// ---------------------------------------------------------------------

/// The delimiter that opens each part: `--` followed by the boundary.
pub open spec fn delimiter(boundary: Seq<char>) -> Seq<u8> {
    seq![45u8, 45u8] + encode_utf8(boundary)
}

/// The positions of the delimiters `d` in `b` from `i` on, each search
/// resuming after the previous delimiter.
pub open spec fn delim_positions(b: Seq<u8>, d: Seq<u8>, i: int) -> Seq<int>
    decreases b.len() + 1 - i,
{
    if d.len() == 0 || i < 0 {
        seq![]
    } else {
        match find_bytes(b, d, i) {
            Some(p) => {
                proof {
                    lemma_find_bytes(b, d, i);
                }
                seq![p] + delim_positions(b, d, p + d.len())
            },
            None => seq![],
        }
    }
}

/// The last `filename=` value among the `;`-separated `parts[k..]` of a
/// header line, quotes removed (`cur` if there is none).
pub open spec fn filename_in_parts(parts: Seq<Seq<char>>, k: int, cur: Seq<char>) -> Seq<char>
    decreases parts.len() - k,
{
    if k < 0 || k >= parts.len() {
        cur
    } else {
        let kv = trim(parts[k]);
        let next = if has_prefix(kv, "filename="@) {
            trim_char(kv.subrange("filename="@.len() as int, kv.len() as int), '"')
        } else {
            cur
        };
        filename_in_parts(parts, k + 1, next)
    }
}

/// The file name given by the `Content-Disposition` lines among
/// `lines[k..]` (the last one wins; `cur` if there is none).
pub open spec fn filename_in_lines(lines: Seq<Seq<char>>, k: int, cur: Seq<char>) -> Seq<char>
    decreases lines.len() - k,
{
    if k < 0 || k >= lines.len() {
        cur
    } else {
        let line = lines[k];
        let next = if has_prefix(lowercase(line), "content-disposition"@) {
            filename_in_parts(split_char(line, ';'), 0, cur)
        } else {
            cur
        };
        filename_in_lines(lines, k + 1, next)
    }
}

/// The file name that the headers of a part give (empty if none).
pub open spec fn part_filename(headers: Seq<char>) -> Seq<char> {
    filename_in_lines(lines_of(headers), 0, seq![])
}

/// The file held by the bytes between two delimiters, if it is one: not
/// the closing `--`, a `\r\n` after the delimiter dropped, headers up to
/// the first blank line, content up to a final `\r\n`, and a non-empty
/// file name.
pub open spec fn part_file(chunk0: Seq<u8>) -> Option<(Seq<char>, Seq<u8>)> {
    if chunk0.len() == 0 || bytes_at(chunk0, seq![45u8, 45u8], 0) {
        None
    } else {
        let chunk = if bytes_at(chunk0, seq![13u8, 10u8], 0) {
            chunk0.subrange(2, chunk0.len() as int)
        } else {
            chunk0
        };
        match find_bytes(chunk, seq![13u8, 10u8, 13u8, 10u8], 0) {
            None => None,
            Some(h) => {
                let content0 = chunk.subrange(h + 4, chunk.len() as int);
                let content = if bytes_at(content0, seq![13u8, 10u8], content0.len() - 2) {
                    content0.subrange(0, content0.len() - 2)
                } else {
                    content0
                };
                let name = part_filename(utf8_lossy(chunk.subrange(0, h)));
                if name.len() == 0 {
                    None
                } else {
                    Some((name, content))
                }
            },
        }
    }
}

/// The bytes of part `i`: from the end of its delimiter to the next
/// delimiter or the end of the body.
pub open spec fn part_chunk(body: Seq<u8>, d: Seq<u8>, pos: Seq<int>, i: int) -> Seq<u8> {
    let start = pos[i] + d.len();
    let end = if i + 1 < pos.len() {
        pos[i + 1]
    } else {
        body.len() as int
    };
    if start >= end {
        seq![]
    } else {
        body.subrange(start, end)
    }
}

/// The files of parts `i..` in order.
pub open spec fn files_from(body: Seq<u8>, d: Seq<u8>, pos: Seq<int>, i: int) -> Seq<
    (Seq<char>, Seq<u8>),
>
    decreases pos.len() - i,
{
    if i < 0 || i >= pos.len() {
        seq![]
    } else {
        match part_file(part_chunk(body, d, pos, i)) {
            Some(f) => seq![f] + files_from(body, d, pos, i + 1),
            None => files_from(body, d, pos, i + 1),
        }
    }
}

/// The files of a `multipart/form-data` body: name and content of each
/// part that has a file name, in order.
pub open spec fn spec_parse_multipart(body: Seq<u8>, boundary: Seq<char>) -> Seq<
    (Seq<char>, Seq<u8>),
> {
    let d = delimiter(boundary);
    files_from(body, d, delim_positions(body, d, 0), 0)
}

/// Every file taken from parts `i..` has a non-empty name.
proof fn lemma_files_named(body: Seq<u8>, d: Seq<u8>, pos: Seq<int>, i: int)
    ensures
        forall|k: int|
            0 <= k < files_from(body, d, pos, i).len() ==> (#[trigger] files_from(body, d, pos, i)[k]).0.len() > 0,
    decreases pos.len() - i,
{
    if 0 <= i < pos.len() {
        lemma_files_named(body, d, pos, i + 1);
        let rest = files_from(body, d, pos, i + 1);
        match part_file(part_chunk(body, d, pos, i)) {
            Some(f) => {
                assert forall|k: int| 0 <= k < files_from(body, d, pos, i).len() implies (#[trigger] files_from(body, d, pos, i)[k]).0.len() > 0 by {
                    if k > 0 {
                        assert(files_from(body, d, pos, i)[k] == rest[k - 1]);
                    }
                }
            },
            None => {},
        }
    }
}

/// Name and content of each uploaded file.
pub open spec fn files_view(files: Seq<UploadedFile>) -> Seq<(Seq<char>, Seq<u8>)> {
    files.map_values(|f: UploadedFile| (f.filename@, f.data@))
}


/// `filename_in_parts` over the `;`-separated parts of `line`.
fn filename_in_line(line: &[char], cur: String) -> (r: String)
    ensures
        r@ == filename_in_parts(split_char(line@, ';'), 0, cur@),
{
    let parts = split_char_ranges(line, 0, line.len(), ';');
    assert(line@.subrange(0, line@.len() as int) =~= line@);
    let prefix = chars_of("filename=");
    let ghost pieces = split_char(line@, ';');
    let mut name = cur;
    let mut k: usize = 0;
    while k < parts.len()
        invariant
            k <= parts@.len(),
            ranges_view(parts@) == split_ranges(line@, ';', 0, 0),
            pieces == split_char(line@, ';'),
            pieces.len() == parts@.len(),
            prefix@ == "filename="@,
            forall|j: int| 0 <= j < parts@.len() ==> (#[trigger] parts@[j]).0 <= parts@[j].1 <= line@.len(),
            filename_in_parts(pieces, 0, cur@) == filename_in_parts(pieces, k as int, name@),
        decreases parts.len() - k,
    {
        let (pa, pb) = parts[k];
        assert(ranges_view(parts@)[k as int] == (pa as int, pb as int));
        assert(pieces[k as int] == line@.subrange(pa as int, pb as int));
        let (ta, tb) = trim_range(line, pa, pb);
        let kv = crate::text::copy_range(line, ta, tb);
        if starts_with(kv.as_slice(), prefix.as_slice()) {
            name = trim_char_string(kv.as_slice(), prefix.len(), kv.len(), '"');
        }
        k += 1;
    }
    name
}

/// The file name given by the header text `v` of a part.
fn filename_of_headers(v: &[char]) -> (r: String)
    ensures
        r@ == part_filename(v@),
{
    let lines = line_ranges_of(v);
    let ghost ls = lines_of(v@);
    let prefix = chars_of("content-disposition");
    let mut name = String::new();
    let mut k: usize = 0;
    while k < lines.len()
        invariant
            k <= lines@.len(),
            ranges_view(lines@) == line_ranges(v@, 0, 0),
            ls == lines_of(v@),
            ls.len() == lines@.len(),
            prefix@ == "content-disposition"@,
            forall|j: int| 0 <= j < lines@.len() ==> (#[trigger] lines@[j]).0 <= lines@[j].1 <= v@.len(),
            part_filename(v@) == filename_in_lines(ls, k as int, name@),
        decreases lines.len() - k,
    {
        let (a, b) = lines[k];
        assert(ranges_view(lines@)[k as int] == (a as int, b as int));
        assert(ls[k as int] == v@.subrange(a as int, b as int));
        let line = crate::text::copy_range(v, a, b);
        let text = string_from_range(v, a, b);
        let lower = to_lowercase(text.as_str());
        let lc = chars_of(lower.as_str());
        if starts_with(lc.as_slice(), prefix.as_slice()) {
            name = filename_in_line(line.as_slice(), name);
        }
        k += 1;
    }
    name
}

/// The file name that the header text of a part gives (empty if none):
/// the last `filename=` of its `Content-Disposition` lines.
pub fn header_filename(headers: &str) -> (r: String)
    ensures
        r@ == part_filename(headers@),
{
    let hv = chars_of(headers);
    filename_of_headers(hv.as_slice())
}

/// The file held by `body[start..end]`, the bytes of one part.
fn part_file_at(body: &[u8], start: usize, end: usize) -> (r: Option<UploadedFile>)
    requires
        start <= end <= body@.len(),
    ensures
        match part_file(body@.subrange(start as int, end as int)) {
            Some(f) => r is Some && (r->0.filename@, r->0.data@) == f,
            None => r is None,
        },
{
    let ghost chunk0 = body@.subrange(start as int, end as int);
    if start == end {
        return None;
    }
    let dash: [u8; 2] = [45u8, 45u8];
    let crlf: [u8; 2] = [13u8, 10u8];
    assert(dash@ =~= seq![45u8, 45u8]);
    assert(crlf@ =~= seq![13u8, 10u8]);
    if end - start >= 2 && bytes_eq_at(body, dash.as_slice(), start) {
        assert(chunk0.subrange(0, 2) =~= body@.subrange(start as int, start + 2));
        return None;
    }
    proof {
        if bytes_at(chunk0, seq![45u8, 45u8], 0) {
            assert(chunk0.subrange(0, 2) =~= body@.subrange(start as int, start + 2));
        }
    }
    let cs = if end - start >= 2 && bytes_eq_at(body, crlf.as_slice(), start) {
        start + 2
    } else {
        start
    };
    let chunk = crate::text::copy_range(body, cs, end);
    proof {
        if end - start >= 2 {
            assert(chunk0.subrange(0, 2) =~= body@.subrange(start as int, start + 2));
        }
        if bytes_at(chunk0, seq![13u8, 10u8], 0) {
            assert(chunk0.subrange(2, chunk0.len() as int) =~= chunk@);
        } else {
            assert(chunk0 =~= chunk@);
        }
    }
    let sep: [u8; 4] = [13u8, 10u8, 13u8, 10u8];
    assert(sep@ =~= seq![13u8, 10u8, 13u8, 10u8]);
    let h = match find_subslice(chunk.as_slice(), sep.as_slice(), 0) {
        Some(h) => h,
        None => {
            return None;
        },
    };
    proof {
        lemma_find_bytes(chunk@, sep@, 0);
    }
    let header_bytes = crate::text::copy_range(chunk.as_slice(), 0, h);
    let content_start = h + 4;
    let mut content_end = chunk.len();
    let ghost content0 = chunk@.subrange(content_start as int, chunk@.len() as int);
    if content_end - content_start >= 2 && bytes_eq_at(chunk.as_slice(), crlf.as_slice(), content_end - 2) {
        assert(content0.subrange(content0.len() - 2, content0.len() as int) =~= chunk@.subrange(content_end - 2, content_end as int));
        content_end = content_end - 2;
    } else {
        proof {
            if bytes_at(content0, seq![13u8, 10u8], content0.len() - 2) {
                assert(content0.subrange(content0.len() - 2, content0.len() as int) =~= chunk@.subrange(content_end - 2, content_end as int));
            }
        }
    }
    let data = crate::text::copy_range(chunk.as_slice(), content_start, content_end);
    proof {
        if content_end < chunk@.len() {
            assert(content0.subrange(0, content0.len() - 2) =~= data@);
        } else {
            assert(content0 =~= data@);
        }
    }
    let headers = lossy_string(header_bytes.as_slice());
    let filename = header_filename(headers.as_str());
    if filename.as_str().is_empty() {
        return None;
    }
    Some(UploadedFile { filename, data })
}

/// Parses a `multipart/form-data` body into its constituent file parts.
/// Form fields without a `filename` are ignored.
pub fn parse_multipart(body: &[u8], boundary: &str) -> (r: Vec<UploadedFile>)
    ensures
        files_view(r@) == spec_parse_multipart(body@, boundary@),
        forall|k: int| 0 <= k < r@.len() ==> (#[trigger] r@[k]).filename@.len() > 0,
{
    let ghost d = delimiter(boundary@);
    let bb = str_bytes(boundary);
    let mut delim: Vec<u8> = Vec::new();
    delim.push(45u8);
    delim.push(45u8);
    let mut t: usize = 0;
    while t < bb.len()
        invariant
            t <= bb@.len(),
            delim@ == seq![45u8, 45u8] + bb@.subrange(0, t as int),
        decreases bb.len() - t,
    {
        delim.push(bb[t]);
        t += 1;
        assert(delim@ =~= seq![45u8, 45u8] + bb@.subrange(0, t as int));
    }
    assert(bb@.subrange(0, bb@.len() as int) =~= bb@);
    assert(delim@ == d);
    let dl = delim.len();
    let bl = body.len();
    // Delimiter positions, each search resuming after the previous one.
    let mut positions: Vec<usize> = Vec::new();
    let mut from: usize = 0;
    loop
        invariant
            dl == d.len(),
            dl >= 2,
            bl == body@.len(),
            delim@ == d,
            from <= bl,
            delim_positions(body@, d, 0) == positions@.map_values(|p: usize| p as int) + delim_positions(body@, d, from as int),
            forall|j: int| 0 <= j < positions@.len() ==> #[trigger] positions@[j] + dl <= from,
            forall|j: int, l: int| 0 <= j < l < positions@.len() ==> #[trigger] positions@[j] + dl <= #[trigger] positions@[l],
        ensures
            delim_positions(body@, d, 0) == positions@.map_values(|p: usize| p as int),
            forall|j: int| 0 <= j < positions@.len() ==> #[trigger] positions@[j] + dl <= bl,
            forall|j: int, l: int| 0 <= j < l < positions@.len() ==> #[trigger] positions@[j] + dl <= #[trigger] positions@[l],
        decreases bl - from,
    {
        match find_subslice(body, delim.as_slice(), from) {
            Some(p) => {
                proof {
                    lemma_find_bytes(body@, d, from as int);
                }
                let ghost old_pos = positions@;
                positions.push(p);
                assert(positions@.map_values(|p: usize| p as int) =~= old_pos.map_values(|p: usize| p as int) + seq![p as int]);
                from = p + dl;
            },
            None => {
                assert(delim_positions(body@, d, from as int) =~= Seq::<int>::empty());
                assert(positions@.map_values(|p: usize| p as int) + Seq::<int>::empty() =~= positions@.map_values(|p: usize| p as int));
                break;
            },
        }
    }
    assert(delim_positions(body@, d, 0) == positions@.map_values(|p: usize| p as int));
    let ghost pos = positions@.map_values(|p: usize| p as int);
    let mut result: Vec<UploadedFile> = Vec::new();
    let mut i: usize = 0;
    while i < positions.len()
        invariant
            dl == d.len(),
            bl == body@.len(),
            i <= positions@.len(),
            pos == positions@.map_values(|p: usize| p as int),
            forall|j: int| 0 <= j < positions@.len() ==> #[trigger] positions@[j] + dl <= bl,
            forall|j: int, l: int| 0 <= j < l < positions@.len() ==> #[trigger] positions@[j] + dl <= #[trigger] positions@[l],
            files_from(body@, d, pos, 0) == files_view(result@) + files_from(body@, d, pos, i as int),
        decreases positions.len() - i,
    {
        let start = positions[i] + dl;
        let end = if i + 1 < positions.len() {
            positions[i + 1]
        } else {
            bl
        };
        proof {
            assert(pos[i as int] == positions@[i as int]);
            if i + 1 < positions@.len() {
                assert(pos[i + 1] == positions@[i + 1]);
            }
            if start == end {
                assert(part_chunk(body@, d, pos, i as int) =~= body@.subrange(start as int, end as int));
            }
        }
        let part = part_file_at(body, start, end);
        let ghost old_res = result@;
        match part {
            Some(f) => {
                result.push(f);
                assert(files_view(result@) =~= files_view(old_res) + seq![(f.filename@, f.data@)]);
            },
            None => {},
        }
        i += 1;
    }
    proof {
        lemma_files_named(body@, d, pos, 0);
        assert forall|k: int| 0 <= k < result@.len() implies (#[trigger] result@[k]).filename@.len() > 0 by {
            assert(files_view(result@)[k] == (result@[k].filename@, result@[k].data@));
        }
    }
    result
}

} // verus!
