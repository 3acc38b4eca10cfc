//! HTML directory listings.
use vstd::prelude::*;
use vstd::utf8::encode_utf8;

use crate::response::str_bytes;
use crate::text::{chars_of, lowercase, push_char, range_eq_str, to_lowercase};

verus! {

// ---------------------------------------------------------------------
// Escaping
// ---------------------------------------------------------------------

/// What HTML escaping makes of one character.
pub open spec fn escape_char(c: char) -> Seq<char> {
    if c == '&' {
        "&amp;"@
    } else if c == '<' {
        "&lt;"@
    } else if c == '>' {
        "&gt;"@
    } else if c == '"' {
        "&quot;"@
    } else {
        seq![c]
    }
}

/// `s` with `&`, `<`, `>` and `"` replaced by their HTML entities.
pub open spec fn html_escaped(s: Seq<char>) -> Seq<char>
    decreases s.len(),
{
    if s.len() == 0 {
        seq![]
    } else {
        html_escaped(s.drop_last()) + escape_char(s.last())
    }
}

/// Appends `html_escaped(s)` to `out`.
fn push_escaped(out: &mut String, s: &str)
    ensures
        final(out)@ == old(out)@ + html_escaped(s@),
{
    let v = chars_of(s);
    let mut i: usize = 0;
    while i < v.len()
        invariant
            i <= v@.len(),
            v@ == s@,
            out@ == old(out)@ + html_escaped(v@.subrange(0, i as int)),
        decreases v.len() - i,
    {
        let c = v[i];
        if c == '&' {
            out.append("&amp;");
        } else if c == '<' {
            out.append("&lt;");
        } else if c == '>' {
            out.append("&gt;");
        } else if c == '"' {
            out.append("&quot;");
        } else {
            push_char(out, c);
        }
        proof {
            let p = v@.subrange(0, i + 1);
            assert(p.drop_last() =~= v@.subrange(0, i as int));
            assert(p.last() == c);
        }
        i += 1;
    }
    assert(v@.subrange(0, v@.len() as int) =~= v@);
}

/// Escapes `&`, `<`, `>` and `"` for use in HTML text and attributes.
pub fn escape_html(s: &str) -> (r: String)
    ensures
        r@ == html_escaped(s@),
{
    let mut out = String::new();
    push_escaped(&mut out, s);
    out
}

// ---------------------------------------------------------------------
// Sorting entries
// ---------------------------------------------------------------------

/// `a < b` in the order of `String` (code point by code point, a proper
/// prefix first).
pub open spec fn lex_lt(a: Seq<char>, b: Seq<char>) -> bool
    decreases a.len(),
{
    if a.len() == 0 {
        b.len() > 0
    } else if b.len() == 0 {
        false
    } else if (a[0] as u32) < (b[0] as u32) {
        true
    } else if (a[0] as u32) > (b[0] as u32) {
        false
    } else {
        lex_lt(a.drop_first(), b.drop_first())
    }
}

/// `lex_lt` on two character vectors.
fn chars_lt(a: &[char], b: &[char]) -> (r: bool)
    ensures
        r == lex_lt(a@, b@),
{
    let mut i: usize = 0;
    assert(a@.subrange(0, a@.len() as int) =~= a@);
    assert(b@.subrange(0, b@.len() as int) =~= b@);
    while i < a.len() && i < b.len()
        invariant
            i <= a@.len(),
            i <= b@.len(),
            lex_lt(a@, b@) == lex_lt(a@.subrange(i as int, a@.len() as int), b@.subrange(i as int, b@.len() as int)),
        decreases a.len() - i,
    {
        proof {
            let x = a@.subrange(i as int, a@.len() as int);
            let y = b@.subrange(i as int, b@.len() as int);
            assert(x[0] == a@[i as int] && y[0] == b@[i as int]);
            assert(x.drop_first() =~= a@.subrange(i + 1, a@.len() as int));
            assert(y.drop_first() =~= b@.subrange(i + 1, b@.len() as int));
        }
        if (a[i] as u32) < (b[i] as u32) {
            return true;
        }
        if (a[i] as u32) > (b[i] as u32) {
            return false;
        }
        i += 1;
    }
    i == a.len() && i < b.len()
}

/// A directory entry: its name and whether it is a directory.
pub open spec fn entries_view(v: Seq<(String, bool)>) -> Seq<(Seq<char>, bool)> {
    v.map_values(|e: (String, bool)| (e.0@, e.1))
}

/// The key entries are listed by: the lowercased name.
pub open spec fn entry_key(e: (Seq<char>, bool)) -> Seq<char> {
    lowercase(e.0)
}

/// `e` inserted into `s` after every entry whose key is not greater.
pub open spec fn insert_by_key(s: Seq<(Seq<char>, bool)>, e: (Seq<char>, bool)) -> Seq<(Seq<char>, bool)>
    decreases s.len(),
{
    if s.len() == 0 {
        seq![e]
    } else if lex_lt(entry_key(e), entry_key(s.last())) {
        insert_by_key(s.drop_last(), e).push(s.last())
    } else {
        s.push(e)
    }
}

/// `s` stably sorted by key.
pub open spec fn sort_by_key(s: Seq<(Seq<char>, bool)>) -> Seq<(Seq<char>, bool)>
    decreases s.len(),
{
    if s.len() == 0 {
        seq![]
    } else {
        insert_by_key(sort_by_key(s.drop_last()), s.last())
    }
}

/// Inserting at the position that a backward scan finds.
proof fn lemma_insert_by_key(s: Seq<(Seq<char>, bool)>, e: (Seq<char>, bool), p: int)
    requires
        0 <= p <= s.len(),
        forall|j: int| p <= j < s.len() ==> lex_lt(entry_key(e), entry_key(#[trigger] s[j])),
        p == 0 || !lex_lt(entry_key(e), entry_key(s[p - 1])),
    ensures
        insert_by_key(s, e) == s.subrange(0, p) + seq![e] + s.subrange(p, s.len() as int),
    decreases s.len(),
{
    if s.len() == 0 {
        assert(s.subrange(0, p) + seq![e] + s.subrange(p, s.len() as int) =~= seq![e]);
    } else if p == s.len() {
        assert(s.subrange(0, p) + seq![e] + s.subrange(p, s.len() as int) =~= s.push(e));
    } else {
        let t = s.drop_last();
        assert(lex_lt(entry_key(e), entry_key(s.last())));
        assert forall|j: int| p <= j < t.len() implies lex_lt(entry_key(e), entry_key(#[trigger] t[j])) by {
            assert(t[j] == s[j]);
        }
        if p > 0 {
            assert(t[p - 1] == s[p - 1]);
        }
        lemma_insert_by_key(t, e, p);
        assert(t.subrange(0, p) + seq![e] + t.subrange(p, t.len() as int) + seq![s.last()] =~= s.subrange(0, p) + seq![e] + s.subrange(p, s.len() as int));
    }
}

/// Sorts entries (with their keys alongside) by key, stably.
fn sort_entries(entries: Vec<(String, bool)>) -> (r: Vec<(String, bool)>)
    ensures
        entries_view(r@) == sort_by_key(entries_view(entries@)),
{
    let ghost ev = entries_view(entries@);
    let mut sorted: Vec<(String, bool)> = Vec::new();
    let mut keys: Vec<Vec<char>> = Vec::new();
    let mut i: usize = 0;
    while i < entries.len()
        invariant
            i <= entries@.len(),
            ev == entries_view(entries@),
            keys@.len() == sorted@.len(),
            forall|j: int| 0 <= j < keys@.len() ==> (#[trigger] keys@[j])@ == lowercase(sorted@[j].0@),
            entries_view(sorted@) == sort_by_key(ev.subrange(0, i as int)),
        decreases entries.len() - i,
    {
        let name = entries[i].0.clone();
        let is_dir = entries[i].1;
        let lower = to_lowercase(name.as_str());
        let key = chars_of(lower.as_str());
        let ghost e = (name@, is_dir);
        let ghost sv = entries_view(sorted@);
        let mut p: usize = sorted.len();
        while p > 0 && chars_lt(key.as_slice(), keys[p - 1].as_slice())
            invariant
                p <= sorted@.len(),
                keys@.len() == sorted@.len(),
                forall|j: int| 0 <= j < keys@.len() ==> (#[trigger] keys@[j])@ == lowercase(sorted@[j].0@),
                sv == entries_view(sorted@),
                key@ == entry_key(e),
                forall|j: int| p <= j < sv.len() ==> lex_lt(entry_key(e), entry_key(#[trigger] sv[j])),
            decreases p,
        {
            assert(keys@[p - 1]@ == entry_key(sv[p - 1]));
            p -= 1;
        }
        proof {
            if p > 0 {
                assert(keys@[p - 1]@ == entry_key(sv[p - 1]));
            }
            lemma_insert_by_key(sv, e, p as int);
            let q = ev.subrange(0, i + 1);
            assert(q.drop_last() =~= ev.subrange(0, i as int));
            assert(q.last() == e);
        }
        let ghost old_keys = keys@;
        let ghost old_sorted = sorted@;
        sorted.insert(p, (name, is_dir));
        keys.insert(p, key);
        proof {
            assert(entries_view(sorted@) =~= sv.subrange(0, p as int) + seq![e] + sv.subrange(p as int, sv.len() as int));
            assert forall|j: int| 0 <= j < keys@.len() implies (#[trigger] keys@[j])@ == lowercase(sorted@[j].0@) by {
                if j < p {
                    assert(keys@[j] == old_keys[j] && sorted@[j] == old_sorted[j]);
                } else if j > p {
                    assert(keys@[j] == old_keys[j - 1] && sorted@[j] == old_sorted[j - 1]);
                }
            }
        }
        i += 1;
    }
    assert(ev.subrange(0, entries@.len() as int) =~= ev);
    sorted
}

proof fn lemma_lex_asym(a: Seq<char>, b: Seq<char>)
    ensures
        lex_lt(a, b) ==> !lex_lt(b, a),
    decreases a.len(),
{
    if a.len() > 0 && b.len() > 0 && (a[0] as u32) == (b[0] as u32) {
        lemma_lex_asym(a.drop_first(), b.drop_first());
    }
}

/// Not less than is transitive.
proof fn lemma_lex_not_lt_trans(a: Seq<char>, b: Seq<char>, c: Seq<char>)
    ensures
        !lex_lt(a, b) && !lex_lt(b, c) ==> !lex_lt(a, c),
    decreases a.len(),
{
    if a.len() > 0 && b.len() > 0 && c.len() > 0 && (a[0] as u32) == (b[0] as u32) && (b[0] as u32)
        == (c[0] as u32) {
        lemma_lex_not_lt_trans(a.drop_first(), b.drop_first(), c.drop_first());
    }
}

/// No entry of `t` has a key greater than that of an entry after it.
pub open spec fn sorted_by_key(t: Seq<(Seq<char>, bool)>) -> bool {
    forall|i: int, j: int|
        0 <= i < j < t.len() ==> !lex_lt(entry_key(#[trigger] t[j]), entry_key(#[trigger] t[i]))
}

proof fn lemma_insert_sorted(t: Seq<(Seq<char>, bool)>, e: (Seq<char>, bool))
    requires
        sorted_by_key(t),
    ensures
        sorted_by_key(insert_by_key(t, e)),
        insert_by_key(t, e).to_multiset() == t.to_multiset().insert(e),
    decreases t.len(),
{
    broadcast use vstd::seq_lib::group_to_multiset_ensures;

    if t.len() == 0 {
        assert(seq![e] =~= Seq::<(Seq<char>, bool)>::empty().push(e));
    } else {
        let last = t.last();
        let d = t.drop_last();
        assert(d.push(last) =~= t);
        if lex_lt(entry_key(e), entry_key(last)) {
            assert(sorted_by_key(d)) by {
                assert forall|i: int, j: int| 0 <= i < j < d.len() implies !lex_lt(entry_key(#[trigger] d[j]), entry_key(#[trigger] d[i])) by {
                    assert(d[i] == t[i] && d[j] == t[j]);
                }
            }
            lemma_insert_sorted(d, e);
            let u = insert_by_key(d, e);
            let r = u.push(last);
            assert forall|i: int, j: int| 0 <= i < j < r.len() implies !lex_lt(entry_key(#[trigger] r[j]), entry_key(#[trigger] r[i])) by {
                if j == r.len() - 1 {
                    assert(r[j] == last);
                    assert(u.to_multiset().contains(u[i]));
                    assert(u.to_multiset().count(u[i]) > 0);
                    if u[i] == e {
                        lemma_lex_asym(entry_key(e), entry_key(last));
                    } else {
                        assert(d.to_multiset().count(u[i]) > 0);
                        assert(d.contains(u[i]));
                        let k = choose|k: int| 0 <= k < d.len() && d[k] == u[i];
                        assert(t[k] == d[k]);
                        assert(t[t.len() - 1] == last);
                    }
                } else {
                    assert(r[i] == u[i] && r[j] == u[j]);
                }
            }
            assert(d.to_multiset().insert(e).insert(last) =~= d.push(last).to_multiset().insert(e));
        } else {
            let r = t.push(e);
            assert forall|i: int, j: int| 0 <= i < j < r.len() implies !lex_lt(entry_key(#[trigger] r[j]), entry_key(#[trigger] r[i])) by {
                if j == r.len() - 1 {
                    assert(r[j] == e && r[i] == t[i]);
                    if i < t.len() - 1 {
                        assert(!lex_lt(entry_key(last), entry_key(t[i])));
                    }
                    if i < t.len() - 1 {
                        lemma_lex_not_lt_trans(entry_key(e), entry_key(last), entry_key(t[i]));
                    }
                } else {
                    assert(r[i] == t[i] && r[j] == t[j]);
                }
            }
        }
    }
}

/// A listing shows every entry once, ordered by lowercased name.
pub proof fn lemma_listing_sorted(s: Seq<(Seq<char>, bool)>)
    ensures
        sorted_by_key(sort_by_key(s)),
        sort_by_key(s).to_multiset() == s.to_multiset(),
    decreases s.len(),
{
    broadcast use vstd::seq_lib::group_to_multiset_ensures;

    if s.len() > 0 {
        lemma_listing_sorted(s.drop_last());
        lemma_insert_sorted(sort_by_key(s.drop_last()), s.last());
        assert(s.drop_last().push(s.last()) =~= s);
    }
}

// ---------------------------------------------------------------------
// The page
// ---------------------------------------------------------------------

/// Start of a listing page, up to the path in the title.
pub const LIST_HEAD: &'static str = "<!DOCTYPE html>\n<html lang=\"en\">\n<head>\n<meta charset=\"utf-8\">\n<title>Index of ";

/// From the title to the path in the heading.
pub const LIST_STYLE: &'static str = "</title>\n<style>\n  body { font-family: -apple-system, Segoe UI, Helvetica, Arial, sans-serif; background:#0f172a; color:#e2e8f0; margin:2rem; }\n  h1 { font-size:1.4rem; border-bottom:1px solid #334155; padding-bottom:.5rem; }\n  table { width:100%; border-collapse:collapse; margin-top:1rem; }\n  td { padding:.35rem .5rem; border-bottom:1px solid #1e293b; }\n  a { color:#38bdf8; text-decoration:none; }\n  a:hover { text-decoration:underline; }\n  .kind { color:#64748b; text-align:right; width:6rem; }\n</style>\n</head>\n<body>\n  <h1>Index of ";

/// From the heading to the rows.
pub const LIST_TABLE: &'static str = "</h1>\n  <table>\n";

/// End of the page, after the rows.
pub const LIST_TAIL: &'static str = "  </table>\n</body>\n</html>\n";

/// The row that links to the parent directory.
pub const PARENT_ROW: &'static str = "<tr><td><a href=\"../\">..</a></td><td></td></tr>\n";

/// The name an entry is shown and linked by: a directory's ends in `/`.
pub open spec fn shown_name(e: (Seq<char>, bool)) -> Seq<char> {
    if e.1 {
        e.0 + "/"@
    } else {
        e.0
    }
}

/// The table row of one entry.
pub open spec fn listing_row(e: (Seq<char>, bool)) -> Seq<char> {
    "<tr><td><a href=\""@ + html_escaped(shown_name(e)) + "\">"@ + html_escaped(shown_name(e))
        + "</a></td><td class=\"kind\">"@ + (if e.1 {
        "Directory"@
    } else {
        "File"@
    }) + "</td></tr>\n"@
}

/// The rows of `s`, in order.
pub open spec fn listing_rows(s: Seq<(Seq<char>, bool)>) -> Seq<char>
    decreases s.len(),
{
    if s.len() == 0 {
        seq![]
    } else {
        listing_rows(s.drop_last()) + listing_row(s.last())
    }
}

/// The text of the listing of `entries` for URL path `url_path`: entries
/// ordered by lowercased name, and a link to the parent unless the path
/// is `/`.
pub open spec fn listing_text(entries: Seq<(Seq<char>, bool)>, url_path: Seq<char>) -> Seq<char> {
    LIST_HEAD@ + html_escaped(url_path) + LIST_STYLE@ + html_escaped(url_path) + LIST_TABLE@ + (if url_path
        != "/"@ {
        PARENT_ROW@
    } else {
        seq![]
    }) + listing_rows(sort_by_key(entries)) + LIST_TAIL@
}

/// Builds an HTML directory listing of `entries` (name and whether it is
/// a directory, as read from the directory), with links resolved
/// relative to `url_path` (which should end with `/`).
pub fn render(entries: Vec<(String, bool)>, url_path: &str) -> (r: Vec<u8>)
    ensures
        r@ == encode_utf8(listing_text(entries_view(entries@), url_path@)),
{
    let ghost ev = entries_view(entries@);
    let sorted = sort_entries(entries);
    let mut rows = String::new();
    let up = chars_of(url_path);
    if !range_eq_str(up.as_slice(), 0, up.len(), "/") {
        assert(up@.subrange(0, up@.len() as int) =~= up@);
        rows.append(PARENT_ROW);
    } else {
        assert(up@.subrange(0, up@.len() as int) =~= up@);
        assert(rows@ + Seq::<char>::empty() =~= rows@);
    }
    let ghost start = rows@;
    let ghost sv = entries_view(sorted@);
    let mut i: usize = 0;
    while i < sorted.len()
        invariant
            i <= sorted@.len(),
            sv == entries_view(sorted@),
            rows@ == start + listing_rows(sv.subrange(0, i as int)),
        decreases sorted.len() - i,
    {
        let name = &sorted[i].0;
        let is_dir = sorted[i].1;
        let mut shown = name.clone();
        if is_dir {
            shown.append("/");
        }
        assert(shown@ == shown_name(sv[i as int]));
        rows.append("<tr><td><a href=\"");
        push_escaped(&mut rows, shown.as_str());
        rows.append("\">");
        push_escaped(&mut rows, shown.as_str());
        rows.append("</a></td><td class=\"kind\">");
        if is_dir {
            rows.append("Directory");
        } else {
            rows.append("File");
        }
        rows.append("</td></tr>\n");
        proof {
            let q = sv.subrange(0, i + 1);
            assert(q.drop_last() =~= sv.subrange(0, i as int));
            assert(q.last() == sv[i as int]);
        }
        i += 1;
    }
    assert(sv.subrange(0, sorted@.len() as int) =~= sv);
    let mut html = String::new();
    html.append(LIST_HEAD);
    push_escaped(&mut html, url_path);
    html.append(LIST_STYLE);
    push_escaped(&mut html, url_path);
    html.append(LIST_TABLE);
    html.append(rows.as_str());
    html.append(LIST_TAIL);
    assert(start == (if url_path@ != "/"@ {
        PARENT_ROW@
    } else {
        Seq::<char>::empty()
    }));
    assert(html@ =~= listing_text(ev, url_path@));
    str_bytes(html.as_str())
}

} // verus!
