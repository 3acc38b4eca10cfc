//! Parser for the nginx-like configuration format.
//!
//! The spec functions below state the format: the text is cut into clean
//! lines ([`clean_lines`]), the lines into `server` blocks
//! ([`top_level`], [`server_block`]) holding `location` blocks
//! ([`location_block`]); then defaults are filled in and listener
//! conflicts between blocks are rejected ([`listener_conflict`]).
use std::collections::HashMap;

use vstd::prelude::*;

use crate::config::{
    default_server, new_route, pairs_view, routes_view, strings_view, Config, Method, Route,
    RouteModel, ServerConfig, ServerModel, method_of,
};
use crate::text::{
    append_range, chars_of, copy_range, dec, find_char_from, find_from, lemma_ws_tokens_bounds,
    line_ranges, line_ranges_of, parse_bounded, parse_uint_range, push_dec, range_eq_str,
    ranges_view, rfind_before, rfind_char, lemma_rfind_before, split_ws, string_from_range, trim,
    trim_range, ws_token_ranges, ws_tokens,
};
use crate::request::lemma_find_in_window;

verus! {

broadcast use {
    vstd::std_specs::hash::group_hash_axioms,
    vstd::hash_map::group_hash_map_axioms,
};

/// What parsing (part of) a configuration yields.
pub enum ConfigOutcome<T> {
    /// The value, parsed.
    Parsed(T),
    /// The text is rejected with this message.
    Failed(Seq<char>),
    /// A size does not fit in `usize` (where plain `usize` multiplication
    /// overflows).
    Overflow,
}

/// Why a configuration was not parsed.
#[derive(Debug)]
pub enum ConfigFailure {
    /// The text is rejected with this message.
    Message(String),
    /// A `client_max_body_size` value does not fit in `usize`.
    SizeOverflow,
}

pub open spec fn failure_outcome<T>(f: ConfigFailure) -> ConfigOutcome<T> {
    match f {
        ConfigFailure::Message(m) => ConfigOutcome::Failed(m@),
        ConfigFailure::SizeOverflow => ConfigOutcome::Overflow,
    }
}

// ---------------------------------------------------------------------
// Lines
// ---------------------------------------------------------------------

/// A line with its `#` comment cut off and surrounding whitespace trimmed.
pub open spec fn clean_line(l: Seq<char>) -> Seq<char> {
    trim(l.subrange(0, find_from(l, '#', 0)))
}

/// The clean, non-empty lines among the line ranges `rs[k..]` of `s`.
pub open spec fn clean_from(s: Seq<char>, rs: Seq<(int, int)>, k: int) -> Seq<Seq<char>>
    decreases rs.len() - k,
{
    if k < 0 || k >= rs.len() {
        seq![]
    } else {
        let c = clean_line(s.subrange(rs[k].0, rs[k].1));
        if c.len() > 0 {
            seq![c] + clean_from(s, rs, k + 1)
        } else {
            clean_from(s, rs, k + 1)
        }
    }
}

/// The lines of `s` without `#` comments, trimmed, and without blank ones.
pub open spec fn clean_lines(s: Seq<char>) -> Seq<Seq<char>> {
    clean_from(s, line_ranges(s, 0, 0), 0)
}

pub open spec fn lines_view(v: Seq<Vec<char>>) -> Seq<Seq<char>> {
    v.map_values(|l: Vec<char>| l@)
}

/// Strips `#` comments and blank lines, trimming surrounding whitespace.
fn clean_lines_exec(content: &[char]) -> (r: Vec<Vec<char>>)
    ensures
        lines_view(r@) == clean_lines(content@),
{
    let rs = line_ranges_of(content);
    let ghost s = content@;
    let ghost rv = ranges_view(rs@);
    let mut out: Vec<Vec<char>> = Vec::new();
    let mut k: usize = 0;
    while k < rs.len()
        invariant
            k <= rs@.len(),
            s == content@,
            rv == ranges_view(rs@),
            rv == line_ranges(s, 0, 0),
            forall|j: int| 0 <= j < rs@.len() ==> (#[trigger] rs@[j]).0 <= rs@[j].1 <= s.len(),
            clean_lines(s) == lines_view(out@) + clean_from(s, rv, k as int),
        decreases rs.len() - k,
    {
        let (a, b) = rs[k];
        assert(rv[k as int] == (a as int, b as int));
        let ghost l = s.subrange(a as int, b as int);
        let h = find_char_from(content, '#', a);
        proof {
            lemma_find_in_window(s, '#', a as int, b as int);
        }
        let e = if h < b {
            h
        } else {
            b
        };
        let (ta, tb) = trim_range(content, a, e);
        assert(l.subrange(0, find_from(l, '#', 0)) =~= s.subrange(a as int, e as int));
        let ghost old_out = out@;
        if ta < tb {
            let line = copy_range(content, ta, tb);
            out.push(line);
            assert(lines_view(out@) =~= lines_view(old_out).push(s.subrange(ta as int, tb as int)));
            assert(lines_view(old_out) + (seq![s.subrange(ta as int, tb as int)] + clean_from(
                s,
                rv,
                k + 1,
            )) =~= lines_view(out@) + clean_from(s, rv, k + 1));
        }
        k += 1;
    }
    assert(lines_view(out@) + seq![] =~= lines_view(out@));
    out
}

// ---------------------------------------------------------------------
// Sizes
// ---------------------------------------------------------------------

/// A size such as `10`, `10K`, `10M`, `10G` (case-insensitive, base 1024).
pub open spec fn spec_parse_size(value: Seq<char>) -> ConfigOutcome<usize> {
    let v = trim(value);
    if v.len() == 0 {
        ConfigOutcome::Failed("empty size value"@)
    } else {
        let last = v.last();
        let (num, mult) = if last == 'k' || last == 'K' {
            (v.drop_last(), 1024nat)
        } else if last == 'm' || last == 'M' {
            (v.drop_last(), 1048576nat)
        } else if last == 'g' || last == 'G' {
            (v.drop_last(), 1073741824nat)
        } else {
            (v, 1nat)
        };
        match parse_bounded(trim(num), 10, usize::MAX as nat) {
            None => ConfigOutcome::Failed("invalid size value '"@ + v + "'"@),
            Some(n) => if n * mult > usize::MAX {
                ConfigOutcome::Overflow
            } else {
                ConfigOutcome::Parsed((n * mult) as usize)
            },
        }
    }
}

/// Parses sizes such as `10`, `10K`, `10M`, `10G` (case-insensitive, base
/// 1024), for `l[a..b]`.
fn parse_size(l: &[char], a: usize, b: usize) -> (r: Result<usize, ConfigFailure>)
    requires
        a <= b <= l@.len(),
    ensures
        match r {
            Ok(n) => spec_parse_size(l@.subrange(a as int, b as int)) == ConfigOutcome::Parsed(n),
            Err(f) => spec_parse_size(l@.subrange(a as int, b as int)) == failure_outcome::<usize>(
                f,
            ),
        },
{
    let ghost value = l@.subrange(a as int, b as int);
    let (va, vb) = trim_range(l, a, b);
    let ghost v = l@.subrange(va as int, vb as int);
    if va == vb {
        return Err(ConfigFailure::Message(String::from_str("empty size value")));
    }
    let last = l[vb - 1];
    assert(v.last() == last);
    let (na, nb, mult): (usize, usize, usize) = if last == 'k' || last == 'K' {
        (va, vb - 1, 1024)
    } else if last == 'm' || last == 'M' {
        (va, vb - 1, 1048576)
    } else if last == 'g' || last == 'G' {
        (va, vb - 1, 1073741824)
    } else {
        (va, vb, 1)
    };
    assert(v.drop_last() =~= l@.subrange(va as int, vb - 1));
    let (ta, tb) = trim_range(l, na, nb);
    match parse_uint_range(l, ta, tb, 10, usize::MAX) {
        None => {
            let mut msg = String::from_str("invalid size value '");
            append_range(&mut msg, l, va, vb);
            msg.append("'");
            Err(ConfigFailure::Message(msg))
        },
        Some(n) => {
            match n.checked_mul(mult) {
                Some(x) => Ok(x),
                None => Err(ConfigFailure::SizeOverflow),
            }
        },
    }
}

// ---------------------------------------------------------------------
// Location blocks
// ---------------------------------------------------------------------

/// The methods named by `t[k..]`, appended to `acc`.
pub open spec fn methods_list(t: Seq<Seq<char>>, k: int, acc: Seq<Method>) -> ConfigOutcome<Seq<Method>>
    decreases t.len() - k,
{
    if k < 0 || k >= t.len() {
        ConfigOutcome::Parsed(acc)
    } else {
        match method_of(t[k]) {
            Some(m) => methods_list(t, k + 1, acc.push(m)),
            None => ConfigOutcome::Failed("unsupported HTTP method '"@ + t[k] + "'"@),
        }
    }
}

/// Index of the first pair with key `key`.
pub open spec fn pair_index(v: Seq<(Seq<char>, Seq<char>)>, key: Seq<char>, k: int) -> Option<int>
    decreases v.len() - k,
{
    if k < 0 || k >= v.len() {
        None
    } else if v[k].0 == key {
        Some(k)
    } else {
        pair_index(v, key, k + 1)
    }
}

/// `HashMap::insert` on a list of pairs: replace the value of `key`, or
/// append the pair.
pub open spec fn pairs_insert(v: Seq<(Seq<char>, Seq<char>)>, key: Seq<char>, value: Seq<char>) -> Seq<
    (Seq<char>, Seq<char>),
> {
    match pair_index(v, key, 0) {
        Some(k) => v.update(k, (key, value)),
        None => v.push((key, value)),
    }
}

/// The lines `lines[i..]` of a `location` block, into route `r`;
/// `explicit` tells whether a `methods` directive was seen. Yields the
/// route and the index of the line after the closing `}`.
pub open spec fn location_block(lines: Seq<Seq<char>>, i: int, r: RouteModel, explicit: bool) -> ConfigOutcome<
    (RouteModel, int),
>
    decreases lines.len() - i,
{
    if i < 0 || i >= lines.len() {
        ConfigOutcome::Failed("unexpected end of file: missing '}' to close 'location' block"@)
    } else {
        let line = lines[i];
        if line == "}"@ {
            let r2 = if !explicit && r.redirect is None {
                RouteModel { methods: seq![Method::Get], ..r }
            } else {
                r
            };
            ConfigOutcome::Parsed((r2, i + 1))
        } else {
            let t = split_ws(line);
            let t0 = if t.len() > 0 {
                t[0]
            } else {
                seq![]
            };
            let missing = ConfigOutcome::Failed(
                "missing argument(s) for directive: '"@ + line + "'"@,
            );
            if t0 == "root"@ {
                if t.len() < 2 {
                    missing
                } else {
                    location_block(lines, i + 1, RouteModel { root: Some(t[1]), ..r }, explicit)
                }
            } else if t0 == "index"@ {
                if t.len() < 2 {
                    missing
                } else {
                    location_block(lines, i + 1, RouteModel { index: Some(t[1]), ..r }, explicit)
                }
            } else if t0 == "autoindex"@ {
                if t.len() < 2 {
                    missing
                } else {
                    location_block(
                        lines,
                        i + 1,
                        RouteModel { autoindex: t[1] == "on"@ || t[1] == "true"@, ..r },
                        explicit,
                    )
                }
            } else if t0 == "methods"@ {
                if t.len() < 2 {
                    ConfigOutcome::Failed(
                        "'methods' requires at least one method: '"@ + line + "'"@,
                    )
                } else {
                    match methods_list(t, 1, seq![]) {
                        ConfigOutcome::Parsed(ms) => location_block(
                            lines,
                            i + 1,
                            RouteModel { methods: ms, ..r },
                            true,
                        ),
                        ConfigOutcome::Failed(e) => ConfigOutcome::Failed(e),
                        ConfigOutcome::Overflow => ConfigOutcome::Overflow,
                    }
                }
            } else if t0 == "return"@ || t0 == "redirect"@ {
                if t.len() < 3 {
                    ConfigOutcome::Failed("invalid '"@ + t0 + "' directive: '"@ + line + "'"@)
                } else {
                    match parse_bounded(t[1], 10, 65535) {
                        None => ConfigOutcome::Failed(
                            "invalid redirect status code '"@ + t[1] + "'"@,
                        ),
                        Some(code) => location_block(
                            lines,
                            i + 1,
                            RouteModel { redirect: Some((code as u16, t[2])), ..r },
                            explicit,
                        ),
                    }
                }
            } else if t0 == "cgi"@ {
                if t.len() < 3 {
                    ConfigOutcome::Failed("invalid 'cgi' directive: '"@ + line + "'"@)
                } else {
                    location_block(
                        lines,
                        i + 1,
                        RouteModel { cgi: pairs_insert(r.cgi, t[1], t[2]), ..r },
                        explicit,
                    )
                }
            } else if t0 == "upload_store"@ {
                if t.len() < 2 {
                    missing
                } else {
                    location_block(
                        lines,
                        i + 1,
                        RouteModel { upload_store: Some(t[1]), ..r },
                        explicit,
                    )
                }
            } else {
                ConfigOutcome::Failed("unknown directive '"@ + t0 + "' in location block"@)
            }
        }
    }
}

pub proof fn lemma_location_block_advances(lines: Seq<Seq<char>>, i: int, r: RouteModel, explicit: bool)
    ensures
        location_block(lines, i, r, explicit) matches ConfigOutcome::Parsed((_, j)) ==> i < j
            <= lines.len(),
    decreases lines.len() - i,
{
    if 0 <= i < lines.len() && lines[i] != "}"@ {
        let line = lines[i];
        let t = split_ws(line);
        let t0 = if t.len() > 0 {
            t[0]
        } else {
            seq![]
        };
        if t0 == "root"@ {
            lemma_location_block_advances(lines, i + 1, RouteModel { root: Some(t[1]), ..r }, explicit);
        } else if t0 == "index"@ {
            lemma_location_block_advances(lines, i + 1, RouteModel { index: Some(t[1]), ..r }, explicit);
        } else if t0 == "autoindex"@ {
            lemma_location_block_advances(
                lines,
                i + 1,
                RouteModel { autoindex: t[1] == "on"@ || t[1] == "true"@, ..r },
                explicit,
            );
        } else if t0 == "methods"@ {
            match methods_list(t, 1, seq![]) {
                ConfigOutcome::Parsed(ms) => lemma_location_block_advances(
                    lines,
                    i + 1,
                    RouteModel { methods: ms, ..r },
                    true,
                ),
                _ => {},
            }
        } else if t0 == "return"@ || t0 == "redirect"@ {
            match parse_bounded(t[1], 10, 65535) {
                Some(code) => lemma_location_block_advances(
                    lines,
                    i + 1,
                    RouteModel { redirect: Some((code as u16, t[2])), ..r },
                    explicit,
                ),
                None => {},
            }
        } else if t0 == "cgi"@ {
            lemma_location_block_advances(
                lines,
                i + 1,
                RouteModel { cgi: pairs_insert(r.cgi, t[1], t[2]), ..r },
                explicit,
            );
        } else if t0 == "upload_store"@ {
            lemma_location_block_advances(
                lines,
                i + 1,
                RouteModel { upload_store: Some(t[1]), ..r },
                explicit,
            );
        }
    }
}


/// A `methods` directive: a line other than `}` whose first word is
/// `methods`.
pub open spec fn is_methods_line(l: Seq<char>) -> bool {
    l != "}"@ && split_ws(l).len() > 0 && split_ws(l)[0] == "methods"@
}

/// The methods that a `methods` line names.
pub open spec fn line_methods(l: Seq<char>) -> Seq<Method> {
    match methods_list(split_ws(l), 1, seq![]) {
        ConfigOutcome::Parsed(ms) => ms,
        _ => seq![],
    }
}

/// One line of a location block that parses: the block continues at the
/// next line with the route and flag that the line leaves.
proof fn lemma_location_step(lines: Seq<Seq<char>>, i: int, r: RouteModel, explicit: bool) -> (next: (
    RouteModel,
    bool,
))
    requires
        0 <= i < lines.len(),
        lines[i] != "}"@,
        location_block(lines, i, r, explicit) is Parsed,
    ensures
        location_block(lines, i, r, explicit) == location_block(lines, i + 1, next.0, next.1),
        is_methods_line(lines[i]) ==> next.1 && next.0.methods == line_methods(lines[i]),
        !is_methods_line(lines[i]) ==> next.1 == explicit && next.0.methods == r.methods,
        r.redirect is Some ==> next.0.redirect is Some,
{
    reveal_strlit("methods");
    reveal_strlit("root");
    reveal_strlit("index");
    reveal_strlit("autoindex");
    reveal_strlit("return");
    reveal_strlit("redirect");
    reveal_strlit("cgi");
    reveal_strlit("upload_store");
    assert("methods"@.len() == 7 && "root"@.len() == 4 && "index"@.len() == 5);
    let line = lines[i];
    let t = split_ws(line);
    let t0 = if t.len() > 0 {
        t[0]
    } else {
        seq![]
    };
    assert(is_methods_line(line) <==> t0 == "methods"@);
    if t0 == "root"@ {
        (RouteModel { root: Some(t[1]), ..r }, explicit)
    } else if t0 == "index"@ {
        (RouteModel { index: Some(t[1]), ..r }, explicit)
    } else if t0 == "autoindex"@ {
        (RouteModel { autoindex: t[1] == "on"@ || t[1] == "true"@, ..r }, explicit)
    } else if t0 == "methods"@ {
        (RouteModel { methods: line_methods(line), ..r }, true)
    } else if t0 == "return"@ || t0 == "redirect"@ {
        let code = parse_bounded(t[1], 10, 65535)->0;
        (RouteModel { redirect: Some((code as u16, t[2])), ..r }, explicit)
    } else if t0 == "cgi"@ {
        (RouteModel { cgi: pairs_insert(r.cgi, t[1], t[2]), ..r }, explicit)
    } else {
        (RouteModel { upload_store: Some(t[1]), ..r }, explicit)
    }
}

/// After a `methods` directive, a block with no further one keeps the
/// methods it named.
proof fn lemma_location_keeps_methods(lines: Seq<Seq<char>>, i: int, r: RouteModel, r2: RouteModel, j: int)
    requires
        location_block(lines, i, r, true) == ConfigOutcome::Parsed((r2, j)),
        forall|m: int| i <= m < j ==> !is_methods_line(#[trigger] lines[m]),
    ensures
        r2.methods == r.methods,
    decreases lines.len() - i,
{
    lemma_location_block_advances(lines, i, r, true);
    if lines[i] != "}"@ {
        let next = lemma_location_step(lines, i, r, true);
        assert(!is_methods_line(lines[i]));
        lemma_location_keeps_methods(lines, i + 1, next.0, r2, j);
    }
}

/// A location block's `methods` directive decides the route's methods:
/// the route has exactly the methods that the last `methods` line of the
/// block names.
pub proof fn lemma_location_methods_directive(
    lines: Seq<Seq<char>>,
    i: int,
    r: RouteModel,
    explicit: bool,
    r2: RouteModel,
    j: int,
    k: int,
)
    requires
        location_block(lines, i, r, explicit) == ConfigOutcome::Parsed((r2, j)),
        i <= k < j,
        is_methods_line(lines[k]),
        forall|m: int| k < m < j ==> !is_methods_line(#[trigger] lines[m]),
    ensures
        r2.methods == line_methods(lines[k]),
    decreases lines.len() - i,
{
    lemma_location_block_advances(lines, i, r, explicit);
    if lines[i] == "}"@ {
        assert(j == i + 1);
        assert(k == i);
    } else {
        let next = lemma_location_step(lines, i, r, explicit);
        if k == i {
            lemma_location_keeps_methods(lines, i + 1, next.0, r2, j);
        } else {
            lemma_location_methods_directive(lines, i + 1, next.0, next.1, r2, j, k);
        }
    }
}

/// Without a `methods` directive a route allows GET alone, unless it
/// redirects; then its methods are left as they were.
pub proof fn lemma_location_default_methods(lines: Seq<Seq<char>>, i: int, r: RouteModel, r2: RouteModel, j: int)
    requires
        location_block(lines, i, r, false) == ConfigOutcome::Parsed((r2, j)),
        forall|m: int| i <= m < j ==> !is_methods_line(#[trigger] lines[m]),
    ensures
        r2.redirect is None ==> r2.methods == seq![Method::Get],
        r2.redirect is Some ==> r2.methods == r.methods,
    decreases lines.len() - i,
{
    lemma_location_block_advances(lines, i, r, false);
    if lines[i] != "}"@ {
        let next = lemma_location_step(lines, i, r, false);
        assert(!is_methods_line(lines[i]));
        lemma_location_default_methods(lines, i + 1, next.0, r2, j);
    }
}


// ---------------------------------------------------------------------
// Tokens of a line
// ---------------------------------------------------------------------

/// The whitespace-separated tokens of line `l`, as ranges.
pub open spec fn tokens_ok(l: Seq<char>, t: Seq<(usize, usize)>) -> bool {
    &&& ranges_view(t) == ws_tokens(l, 0, -1)
    &&& forall|k: int| 0 <= k < t.len() ==> (#[trigger] t[k]).0 < t[k].1 <= l.len()
}

fn tokens_of(l: &Vec<char>) -> (t: Vec<(usize, usize)>)
    ensures
        tokens_ok(l@, t@),
        split_ws(l@).len() == t@.len(),
{
    let t = ws_token_ranges(l.as_slice(), 0, l.len());
    proof {
        assert(l@.subrange(0, l@.len() as int) =~= l@);
        lemma_ws_tokens_bounds(l@, 0, -1);
        assert forall|k: int| 0 <= k < t@.len() implies (#[trigger] t@[k]).0 < t@[k].1 <= l@.len() by {
            assert(ranges_view(t@)[k] == ws_tokens(l@, 0, -1)[k]);
        }
    }
    t
}

/// Token `k` of `l` as a `String`.
fn tok_string(l: &Vec<char>, t: &Vec<(usize, usize)>, k: usize) -> (r: String)
    requires
        tokens_ok(l@, t@),
        k < t@.len(),
    ensures
        r@ == split_ws(l@)[k as int],
{
    assert(ranges_view(t@)[k as int] == ws_tokens(l@, 0, -1)[k as int]);
    string_from_range(l.as_slice(), t[k].0, t[k].1)
}

/// Token `k` of `l` equals `lit`.
fn tok_eq(l: &Vec<char>, t: &Vec<(usize, usize)>, k: usize, lit: &str) -> (r: bool)
    requires
        tokens_ok(l@, t@),
        k < t@.len(),
    ensures
        r == (split_ws(l@)[k as int] == lit@),
{
    assert(ranges_view(t@)[k as int] == ws_tokens(l@, 0, -1)[k as int]);
    range_eq_str(l.as_slice(), t[k].0, t[k].1, lit)
}

/// The first token of `l` (empty when there is none) equals `lit`.
pub open spec fn first_token(l: Seq<char>) -> Seq<char> {
    if split_ws(l).len() > 0 {
        split_ws(l)[0]
    } else {
        seq![]
    }
}

fn first_eq(l: &Vec<char>, t: &Vec<(usize, usize)>, lit: &str) -> (r: bool)
    requires
        tokens_ok(l@, t@),
        split_ws(l@).len() == t@.len(),
    ensures
        r == (first_token(l@) == lit@),
{
    if t.len() == 0 {
        let e: Vec<char> = Vec::new();
        assert(e@.subrange(0, 0) =~= Seq::<char>::empty());
        return range_eq_str(e.as_slice(), 0, 0, lit);
    }
    tok_eq(l, t, 0, lit)
}

/// `prefix + first token + suffix` as a message.
fn first_message(prefix: &str, l: &Vec<char>, t: &Vec<(usize, usize)>, suffix: &str) -> (m: String)
    requires
        tokens_ok(l@, t@),
        split_ws(l@).len() == t@.len(),
    ensures
        m@ == prefix@ + first_token(l@) + suffix@,
{
    if t.len() == 0 {
        let m = message(prefix, l, 0, 0, suffix);
        assert(l@.subrange(0, 0) =~= Seq::<char>::empty());
        return m;
    }
    tok_message(prefix, l, t, 0, suffix)
}

/// `prefix + l + suffix` as a message.
fn message(prefix: &str, l: &Vec<char>, a: usize, b: usize, suffix: &str) -> (m: String)
    requires
        a <= b <= l@.len(),
    ensures
        m@ == prefix@ + l@.subrange(a as int, b as int) + suffix@,
{
    let mut m = String::from_str(prefix);
    append_range(&mut m, l.as_slice(), a, b);
    m.append(suffix);
    m
}

/// `prefix + line + suffix` as a message.
fn line_message(prefix: &str, l: &Vec<char>, suffix: &str) -> (m: String)
    ensures
        m@ == prefix@ + l@ + suffix@,
{
    let m = message(prefix, l, 0, l.len(), suffix);
    assert(l@.subrange(0, l@.len() as int) =~= l@);
    m
}

/// `prefix + token k + suffix` as a message.
fn tok_message(prefix: &str, l: &Vec<char>, t: &Vec<(usize, usize)>, k: usize, suffix: &str) -> (m:
    String)
    requires
        tokens_ok(l@, t@),
        k < t@.len(),
    ensures
        m@ == prefix@ + split_ws(l@)[k as int] + suffix@,
{
    assert(ranges_view(t@)[k as int] == ws_tokens(l@, 0, -1)[k as int]);
    message(prefix, l, t[k].0, t[k].1, suffix)
}

/// The whole line `l` equals `lit`.
fn line_is(l: &Vec<char>, lit: &str) -> (r: bool)
    ensures
        r == (l@ == lit@),
{
    assert(l@.subrange(0, l@.len() as int) =~= l@);
    range_eq_str(l.as_slice(), 0, l.len(), lit)
}

/// `HashMap::insert` on a list of pairs.
fn pairs_insert_exec(v: &mut Vec<(String, String)>, key: String, value: String)
    ensures
        pairs_view(final(v)@) == pairs_insert(pairs_view(old(v)@), key@, value@),
{
    let ghost pv = pairs_view(v@);
    let mut k: usize = 0;
    while k < v.len()
        invariant
            k <= v@.len(),
            pv == pairs_view(v@),
            v@ == old(v)@,
            pair_index(pv, key@, 0) == pair_index(pv, key@, k as int),
        decreases v.len() - k,
    {
        assert(pv[k as int].0 == v@[k as int].0@);
        if v[k].0 == key {
            assert(pair_index(pv, key@, k as int) == Some(k as int));
            v.set(k, (key, value));
            assert(pairs_view(v@) =~= pv.update(k as int, (key@, value@)));
            return ;
        }
        k += 1;
    }
    v.push((key, value));
    assert(pairs_view(v@) =~= pv.push((key@, value@)));
}

/// The methods named by the tokens of `l` after the first.
fn parse_methods(l: &Vec<char>, t: &Vec<(usize, usize)>) -> (r: Result<Vec<Method>, ConfigFailure>)
    requires
        tokens_ok(l@, t@),
        split_ws(l@).len() == t@.len(),
    ensures
        match r {
            Ok(ms) => methods_list(split_ws(l@), 1, seq![]) == ConfigOutcome::Parsed(ms@),
            Err(f) => methods_list(split_ws(l@), 1, seq![]) == failure_outcome::<Seq<Method>>(f),
        },
{
    let ghost tw = split_ws(l@);
    let mut methods: Vec<Method> = Vec::new();
    let mut k: usize = 1;
    if t.len() < 1 {
        return Ok(methods);
    }
    while k < t.len()
        invariant
            1 <= k <= t@.len(),
            tokens_ok(l@, t@),
            tw == split_ws(l@),
            tw.len() == t@.len(),
            methods_list(tw, 1, seq![]) == methods_list(tw, k as int, methods@),
        decreases t.len() - k,
    {
        let name = tok_string(l, t, k);
        match Method::from_str(name.as_str()) {
            Some(m) => methods.push(m),
            None => {
                return Err(ConfigFailure::Message(tok_message("unsupported HTTP method '", l, t, k, "'")));
            },
        }
        k += 1;
    }
    Ok(methods)
}

/// Parses the lines of a `location` block starting at line `i0`.
fn parse_location_block(lines: &Vec<Vec<char>>, i0: usize, path: String) -> (r: Result<
    (Route, usize),
    ConfigFailure,
>)
    requires
        i0 <= lines@.len(),
    ensures
        match r {
            Ok((route, j)) => location_block(lines_view(lines@), i0 as int, new_route(path@), false)
                == ConfigOutcome::Parsed((route@, j as int)),
            Err(f) => location_block(lines_view(lines@), i0 as int, new_route(path@), false)
                == failure_outcome::<(RouteModel, int)>(f),
        },
{
    let ghost ls = lines_view(lines@);
    let ghost start = location_block(ls, i0 as int, new_route(path@), false);
    let mut route = Route::new(path);
    let mut explicit = false;
    let mut i = i0;
    while i < lines.len()
        invariant
            i0 <= i <= lines@.len(),
            ls == lines_view(lines@),
            start == location_block(ls, i0 as int, new_route(path@), false),
            start == location_block(ls, i as int, route@, explicit),
            !explicit ==> route.methods@ == seq![Method::Get],
        decreases lines.len() - i,
    {
        let l = &lines[i];
        assert(ls[i as int] == l@);
        if line_is(l, "}") {
            let ghost r0 = route@;
            assert(start == ConfigOutcome::Parsed((
                if !explicit && r0.redirect is None {
                    RouteModel { methods: seq![Method::Get], ..r0 }
                } else {
                    r0
                },
                i + 1,
            )));
            if !explicit && route.redirect.is_none() {
                route.methods = vec![Method::Get];
                assert(route.methods@ =~= seq![Method::Get]);
                assert(route@ == RouteModel { methods: seq![Method::Get], ..r0 });
            }
            assert(start == ConfigOutcome::Parsed((route@, (i + 1) as int)));
            return Ok((route, i + 1));
        }
        let t = tokens_of(l);
        if first_eq(l, &t, "root") {
            if t.len() < 2 {
                return Err(ConfigFailure::Message(line_message("missing argument(s) for directive: '", l, "'")));
            }
            route.root = Some(tok_string(l, &t, 1));
        } else if first_eq(l, &t, "index") {
            if t.len() < 2 {
                return Err(ConfigFailure::Message(line_message("missing argument(s) for directive: '", l, "'")));
            }
            route.index = Some(tok_string(l, &t, 1));
        } else if first_eq(l, &t, "autoindex") {
            if t.len() < 2 {
                return Err(ConfigFailure::Message(line_message("missing argument(s) for directive: '", l, "'")));
            }
            route.autoindex = tok_eq(l, &t, 1, "on") || tok_eq(l, &t, 1, "true");
        } else if first_eq(l, &t, "methods") {
            if t.len() < 2 {
                return Err(ConfigFailure::Message(line_message("'methods' requires at least one method: '", l, "'")));
            }
            let methods = match parse_methods(l, &t) {
                Ok(ms) => ms,
                Err(f) => return Err(f),
            };
            route.methods = methods;
            explicit = true;
        } else if first_eq(l, &t, "return") || first_eq(l, &t, "redirect") {
            if t.len() < 3 {
                let mut m = first_message("invalid '", l, &t, "' directive: '");
                append_range(&mut m, l.as_slice(), 0, l.len());
                m.append("'");
                assert(l@.subrange(0, l@.len() as int) =~= l@);
                return Err(ConfigFailure::Message(m));
            }
            assert(ranges_view(t@)[1] == ws_tokens(l@, 0, -1)[1]);
            match parse_uint_range(l.as_slice(), t[1].0, t[1].1, 10, 65535) {
                None => {
                    return Err(ConfigFailure::Message(tok_message("invalid redirect status code '", l, &t, 1, "'")));
                },
                Some(code) => {
                    route.redirect = Some((code as u16, tok_string(l, &t, 2)));
                },
            }
        } else if first_eq(l, &t, "cgi") {
            if t.len() < 3 {
                return Err(ConfigFailure::Message(line_message("invalid 'cgi' directive: '", l, "'")));
            }
            let key = tok_string(l, &t, 1);
            let value = tok_string(l, &t, 2);
            pairs_insert_exec(&mut route.cgi, key, value);
        } else if first_eq(l, &t, "upload_store") {
            if t.len() < 2 {
                return Err(ConfigFailure::Message(line_message("missing argument(s) for directive: '", l, "'")));
            }
            route.upload_store = Some(tok_string(l, &t, 1));
        } else {
            return Err(ConfigFailure::Message(first_message("unknown directive '", l, &t, "' in location block")));
        }
        i += 1;
    }
    Err(ConfigFailure::Message(String::from_str("unexpected end of file: missing '}' to close 'location' block")))
}

// ---------------------------------------------------------------------
// Server blocks
// ---------------------------------------------------------------------

/// The error pages of `t[k..t.len() - 1]`, each mapped to `path`, added to
/// `pages`.
pub open spec fn error_codes(t: Seq<Seq<char>>, k: int, path: Seq<char>, pages: Map<u16, Seq<char>>) -> ConfigOutcome<
    Map<u16, Seq<char>>,
>
    decreases t.len() - k,
{
    if k < 0 || k >= t.len() - 1 {
        ConfigOutcome::Parsed(pages)
    } else {
        match parse_bounded(t[k], 10, 65535) {
            None => ConfigOutcome::Failed("invalid status code '"@ + t[k] + "' in error_page"@),
            Some(c) => error_codes(t, k + 1, path, pages.insert(c as u16, path)),
        }
    }
}

/// The `(host, port)` pairs of the `listen` directives seen so far.
pub open spec fn seen_view(v: Seq<(String, u16)>) -> Seq<(Seq<char>, u16)> {
    v.map_values(|p: (String, u16)| (p.0@, p.1))
}

/// The lines `lines[i..]` of a `server` block, into server `srv`; `seen`
/// holds the listen endpoints of the block so far. Yields the server and
/// the index of the line after the closing `}`.
pub open spec fn server_block(lines: Seq<Seq<char>>, i: int, srv: ServerModel, seen: Seq<(Seq<char>, u16)>) -> ConfigOutcome<
    (ServerModel, int),
>
    decreases lines.len() - i,
{
    if i < 0 || i >= lines.len() {
        ConfigOutcome::Failed("unexpected end of file: missing '}' to close 'server' block"@)
    } else {
        let line = lines[i];
        if line == "}"@ {
            ConfigOutcome::Parsed((srv, i + 1))
        } else {
            let t = split_ws(line);
            let t0 = first_token(line);
            let missing = ConfigOutcome::Failed(
                "missing argument(s) for directive: '"@ + line + "'"@,
            );
            if t0 == "location"@ {
                if t.len() < 3 || t[t.len() - 1] != "{"@ {
                    ConfigOutcome::Failed("invalid 'location' directive: '"@ + line + "'"@)
                } else {
                    match location_block(lines, i + 1, new_route(t[1]), false) {
                        ConfigOutcome::Parsed((r, j)) => if i < j <= lines.len() {
                            server_block(lines, j, ServerModel { routes: srv.routes.push(r), ..srv }, seen)
                        } else {
                            ConfigOutcome::Overflow
                        },
                        ConfigOutcome::Failed(e) => ConfigOutcome::Failed(e),
                        ConfigOutcome::Overflow => ConfigOutcome::Overflow,
                    }
                }
            } else if t0 == "listen"@ {
                if t.len() < 2 {
                    missing
                } else {
                    let value = t[1];
                    let c = rfind_before(value, ':', value.len() as int);
                    let host = if c >= 0 {
                        value.subrange(0, c)
                    } else {
                        srv.host
                    };
                    let port_str = if c >= 0 {
                        value.subrange(c + 1, value.len() as int)
                    } else {
                        value
                    };
                    match parse_bounded(port_str, 10, 65535) {
                        None => ConfigOutcome::Failed("invalid port in 'listen "@ + value + "'"@),
                        Some(p) => if seen.contains((host, p as u16)) {
                            ConfigOutcome::Failed(
                                "duplicate listen directive '"@ + host + ":"@ + dec(p) + "'"@,
                            )
                        } else {
                            server_block(
                                lines,
                                i + 1,
                                ServerModel { host: host, ports: srv.ports.push(p as u16), ..srv },
                                seen.push((host, p as u16)),
                            )
                        },
                    }
                }
            } else if t0 == "host"@ || t0 == "server_address"@ {
                if t.len() < 2 {
                    missing
                } else {
                    server_block(lines, i + 1, ServerModel { host: t[1], ..srv }, seen)
                }
            } else if t0 == "server_name"@ {
                if t.len() < 2 {
                    missing
                } else {
                    server_block(
                        lines,
                        i + 1,
                        ServerModel { server_names: t.subrange(1, t.len() as int), ..srv },
                        seen,
                    )
                }
            } else if t0 == "client_max_body_size"@ {
                if t.len() < 2 {
                    missing
                } else {
                    match spec_parse_size(t[1]) {
                        ConfigOutcome::Parsed(n) => server_block(
                            lines,
                            i + 1,
                            ServerModel { client_max_body_size: n, ..srv },
                            seen,
                        ),
                        ConfigOutcome::Failed(e) => ConfigOutcome::Failed(e),
                        ConfigOutcome::Overflow => ConfigOutcome::Overflow,
                    }
                }
            } else if t0 == "error_page"@ {
                if t.len() < 3 {
                    ConfigOutcome::Failed("invalid 'error_page' directive: '"@ + line + "'"@)
                } else {
                    match error_codes(t, 1, t[t.len() - 1], srv.error_pages) {
                        ConfigOutcome::Parsed(pages) => server_block(
                            lines,
                            i + 1,
                            ServerModel { error_pages: pages, ..srv },
                            seen,
                        ),
                        ConfigOutcome::Failed(e) => ConfigOutcome::Failed(e),
                        ConfigOutcome::Overflow => ConfigOutcome::Overflow,
                    }
                }
            } else {
                ConfigOutcome::Failed("unknown directive '"@ + t0 + "' in server block"@)
            }
        }
    }
}

pub proof fn lemma_server_block_advances(lines: Seq<Seq<char>>, i: int, srv: ServerModel, seen: Seq<(Seq<char>, u16)>)
    ensures
        server_block(lines, i, srv, seen) matches ConfigOutcome::Parsed((_, j)) ==> i < j
            <= lines.len(),
    decreases lines.len() - i,
{
    if 0 <= i < lines.len() && lines[i] != "}"@ {
        let line = lines[i];
        let t = split_ws(line);
        let t0 = first_token(line);
        if t0 == "location"@ {
            if !(t.len() < 3 || t[t.len() - 1] != "{"@) {
                match location_block(lines, i + 1, new_route(t[1]), false) {
                    ConfigOutcome::Parsed((r, j)) => if i < j <= lines.len() {
                        lemma_server_block_advances(lines, j, ServerModel { routes: srv.routes.push(r), ..srv }, seen);
                    },
                    _ => {},
                }
            }
        } else if t0 == "listen"@ {
            if t.len() >= 2 {
                let value = t[1];
                let c = rfind_before(value, ':', value.len() as int);
                let host = if c >= 0 {
                    value.subrange(0, c)
                } else {
                    srv.host
                };
                let port_str = if c >= 0 {
                    value.subrange(c + 1, value.len() as int)
                } else {
                    value
                };
                match parse_bounded(port_str, 10, 65535) {
                    Some(p) => if !seen.contains((host, p as u16)) {
                        lemma_server_block_advances(
                            lines,
                            i + 1,
                            ServerModel { host: host, ports: srv.ports.push(p as u16), ..srv },
                            seen.push((host, p as u16)),
                        );
                    },
                    None => {},
                }
            }
        } else if t0 == "host"@ || t0 == "server_address"@ {
            if t.len() >= 2 {
                lemma_server_block_advances(lines, i + 1, ServerModel { host: t[1], ..srv }, seen);
            }
        } else if t0 == "server_name"@ {
            if t.len() >= 2 {
                lemma_server_block_advances(
                    lines,
                    i + 1,
                    ServerModel { server_names: t.subrange(1, t.len() as int), ..srv },
                    seen,
                );
            }
        } else if t0 == "client_max_body_size"@ {
            if t.len() >= 2 {
                match spec_parse_size(t[1]) {
                    ConfigOutcome::Parsed(n) => lemma_server_block_advances(
                        lines,
                        i + 1,
                        ServerModel { client_max_body_size: n, ..srv },
                        seen,
                    ),
                    _ => {},
                }
            }
        } else if t0 == "error_page"@ {
            if t.len() >= 3 {
                match error_codes(t, 1, t[t.len() - 1], srv.error_pages) {
                    ConfigOutcome::Parsed(pages) => lemma_server_block_advances(
                        lines,
                        i + 1,
                        ServerModel { error_pages: pages, ..srv },
                        seen,
                    ),
                    _ => {},
                }
            }
        }
    }
}

/// Whether `(host, port)` is among the listen endpoints `seen`.
fn seen_contains(seen: &Vec<(String, u16)>, host: &String, port: u16) -> (r: bool)
    ensures
        r == seen_view(seen@).contains((host@, port)),
{
    let ghost sv = seen_view(seen@);
    let mut k: usize = 0;
    while k < seen.len()
        invariant
            k <= seen@.len(),
            sv == seen_view(seen@),
            forall|j: int| 0 <= j < k ==> sv[j] != (host@, port),
        decreases seen.len() - k,
    {
        assert(sv[k as int] == (seen@[k as int].0@, seen@[k as int].1));
        if seen[k].1 == port && seen[k].0 == *host {
            assert(sv[k as int] == (host@, port));
            return true;
        }
        k += 1;
    }
    false
}

/// Adds the error pages of an `error_page` line to `pages`.
fn parse_error_codes(l: &Vec<char>, t: &Vec<(usize, usize)>, pages: &mut HashMap<u16, String>) -> (r: Result<
    (),
    ConfigFailure,
>)
    requires
        tokens_ok(l@, t@),
        split_ws(l@).len() == t@.len(),
        t@.len() >= 3,
    ensures
        match r {
            Ok(()) => error_codes(
                split_ws(l@),
                1,
                split_ws(l@)[t@.len() - 1],
                old(pages)@.map_values(|s: String| s@),
            ) == ConfigOutcome::Parsed(final(pages)@.map_values(|s: String| s@)),
            Err(f) => error_codes(
                split_ws(l@),
                1,
                split_ws(l@)[t@.len() - 1],
                old(pages)@.map_values(|s: String| s@),
            ) == failure_outcome::<Map<u16, Seq<char>>>(f),
        },
{
    let ghost tw = split_ws(l@);
    let path = tok_string(l, t, t.len() - 1);
    let ghost start = error_codes(tw, 1, path@, old(pages)@.map_values(|s: String| s@));
    let mut k: usize = 1;
    while k < t.len() - 1
        invariant
            1 <= k <= t@.len() - 1,
            tokens_ok(l@, t@),
            tw == split_ws(l@),
            tw.len() == t@.len(),
            path@ == tw[t@.len() - 1],
            start == error_codes(tw, 1, path@, old(pages)@.map_values(|s: String| s@)),
            start == error_codes(tw, k as int, path@, pages@.map_values(|s: String| s@)),
        decreases t.len() - 1 - k,
    {
        assert(ranges_view(t@)[k as int] == ws_tokens(l@, 0, -1)[k as int]);
        match parse_uint_range(l.as_slice(), t[k].0, t[k].1, 10, 65535) {
            None => {
                return Err(ConfigFailure::Message(tok_message("invalid status code '", l, t, k, "' in error_page")));
            },
            Some(c) => {
                let ghost before = pages@;
                pages.insert(c as u16, path.clone());
                assert(pages@.map_values(|s: String| s@) =~= before.map_values(|s: String| s@).insert(
                    c as u16,
                    path@,
                ));
            },
        }
        k += 1;
    }
    Ok(())
}

/// Parses the lines of a `server` block starting at line `i0`.
fn parse_server_block(lines: &Vec<Vec<char>>, i0: usize) -> (r: Result<(ServerConfig, usize), ConfigFailure>)
    requires
        i0 <= lines@.len(),
    ensures
        match r {
            Ok((srv, j)) => server_block(lines_view(lines@), i0 as int, default_server(), seq![])
                == ConfigOutcome::Parsed((srv@, j as int)),
            Err(f) => server_block(lines_view(lines@), i0 as int, default_server(), seq![])
                == failure_outcome::<(ServerModel, int)>(f),
        },
{
    let ghost ls = lines_view(lines@);
    let ghost start = server_block(ls, i0 as int, default_server(), seq![]);
    let mut server = ServerConfig::default();
    let mut seen: Vec<(String, u16)> = Vec::new();
    let mut i = i0;
    assert(seen_view(seen@) =~= seq![]);
    while i < lines.len()
        invariant
            i0 <= i <= lines@.len(),
            ls == lines_view(lines@),
            start == server_block(ls, i0 as int, default_server(), seq![]),
            start == server_block(ls, i as int, server@, seen_view(seen@)),
        decreases lines.len() - i,
    {
        let l = &lines[i];
        assert(ls[i as int] == l@);
        if line_is(l, "}") {
            return Ok((server, i + 1));
        }
        let t = tokens_of(l);
        let ghost tw = split_ws(l@);
        if first_eq(l, &t, "location") {
            if t.len() < 3 || !tok_eq(l, &t, t.len() - 1, "{") {
                return Err(ConfigFailure::Message(line_message("invalid 'location' directive: '", l, "'")));
            }
            let path = tok_string(l, &t, 1);
            match parse_location_block(lines, i + 1, path) {
                Ok((route, j)) => {
                    proof {
                        lemma_location_block_advances(ls, i + 1, new_route(path@), false);
                    }
                    let ghost before = server@;
                    server.routes.push(route);
                    assert(routes_view(server.routes@) =~= before.routes.push(route@));
                    assert(server@ == ServerModel { routes: before.routes.push(route@), ..before });
                    i = j;
                    continue;
                },
                Err(f) => return Err(f),
            }
        } else if first_eq(l, &t, "listen") {
            if t.len() < 2 {
                return Err(ConfigFailure::Message(line_message("missing argument(s) for directive: '", l, "'")));
            }
            assert(ranges_view(t@)[1] == ws_tokens(l@, 0, -1)[1]);
            let (va, vb) = t[1];
            let value = copy_range(l.as_slice(), va, vb);
            proof {
                lemma_rfind_before(value@, ':', value@.len() as int);
            }
            let (host, port_chars_start) = match rfind_char(value.as_slice(), ':') {
                Some(c) => (string_from_range(value.as_slice(), 0, c), c + 1),
                None => (server.host.clone(), 0),
            };
            assert(value@.subrange(0, value@.len() as int) =~= value@);
            match parse_uint_range(value.as_slice(), port_chars_start, value.len(), 10, 65535) {
                None => {
                    return Err(ConfigFailure::Message(message("invalid port in 'listen ", &value, 0, value.len(), "'")));
                },
                Some(p) => {
                    let port = p as u16;
                    if seen_contains(&seen, &host, port) {
                        let mut m = String::from_str("duplicate listen directive '");
                        m.append(host.as_str());
                        m.append(":");
                        push_dec(&mut m, port as u128);
                        m.append("'");
                        return Err(ConfigFailure::Message(m));
                    }
                    let ghost before = server@;
                    let ghost sb = seen_view(seen@);
                    seen.push((host.clone(), port));
                    assert(seen_view(seen@) =~= sb.push((host@, port)));
                    server.host = host;
                    server.ports.push(port);
                    assert(server@ == ServerModel { host: host@, ports: before.ports.push(port), ..before });
                }
            }
            assert(value@.subrange(0, value@.len() as int) =~= value@);
        } else if first_eq(l, &t, "host") || first_eq(l, &t, "server_address") {
            if t.len() < 2 {
                return Err(ConfigFailure::Message(line_message("missing argument(s) for directive: '", l, "'")));
            }
            server.host = tok_string(l, &t, 1);
        } else if first_eq(l, &t, "server_name") {
            if t.len() < 2 {
                return Err(ConfigFailure::Message(line_message("missing argument(s) for directive: '", l, "'")));
            }
            let mut names: Vec<String> = Vec::new();
            let mut k: usize = 1;
            while k < t.len()
                invariant
                    1 <= k <= t@.len(),
                    tokens_ok(l@, t@),
                    tw == split_ws(l@),
                    tw.len() == t@.len(),
                    strings_view(names@) == tw.subrange(1, k as int),
                decreases t.len() - k,
            {
                let ghost nb = names@;
                let name = tok_string(l, &t, k);
                names.push(name);
                assert(strings_view(names@) =~= strings_view(nb).push(tw[k as int]));
                assert(tw.subrange(1, k + 1) =~= tw.subrange(1, k as int).push(tw[k as int]));
                k += 1;
            }
            server.server_names = names;
        } else if first_eq(l, &t, "client_max_body_size") {
            if t.len() < 2 {
                return Err(ConfigFailure::Message(line_message("missing argument(s) for directive: '", l, "'")));
            }
            assert(ranges_view(t@)[1] == ws_tokens(l@, 0, -1)[1]);
            match parse_size(l.as_slice(), t[1].0, t[1].1) {
                Ok(n) => {
                    server.client_max_body_size = n;
                },
                Err(f) => return Err(f),
            }
        } else if first_eq(l, &t, "error_page") {
            if t.len() < 3 {
                return Err(ConfigFailure::Message(line_message("invalid 'error_page' directive: '", l, "'")));
            }
            match parse_error_codes(l, &t, &mut server.error_pages) {
                Ok(()) => {},
                Err(f) => return Err(f),
            }
        } else {
            return Err(ConfigFailure::Message(first_message("unknown directive '", l, &t, "' in server block")));
        }
        i += 1;
    }
    Err(ConfigFailure::Message(String::from_str("unexpected end of file: missing '}' to close 'server' block")))
}

// ---------------------------------------------------------------------
// Whole configurations
// ---------------------------------------------------------------------

/// The `server` blocks of `lines[i..]`, appended to `servers`.
pub open spec fn top_level(lines: Seq<Seq<char>>, i: int, servers: Seq<ServerModel>) -> ConfigOutcome<
    Seq<ServerModel>,
>
    decreases lines.len() - i,
{
    if i < 0 || i >= lines.len() {
        ConfigOutcome::Parsed(servers)
    } else {
        let t = split_ws(lines[i]);
        if t.len() == 2 && t[0] == "server"@ && t[1] == "{"@ {
            match server_block(lines, i + 1, default_server(), seq![]) {
                ConfigOutcome::Parsed((s, j)) => if i < j <= lines.len() {
                    top_level(lines, j, servers.push(s))
                } else {
                    ConfigOutcome::Overflow
                },
                ConfigOutcome::Failed(e) => ConfigOutcome::Failed(e),
                ConfigOutcome::Overflow => ConfigOutcome::Overflow,
            }
        } else {
            ConfigOutcome::Failed(
                "unexpected directive '"@ + lines[i] + "' at top level (expected 'server {')"@,
            )
        }
    }
}

/// The route a server gets when it declares none.
pub open spec fn default_root_route() -> RouteModel {
    RouteModel { root: Some("./www/html"@), index: Some("index.html"@), ..new_route("/"@) }
}

/// A server with the defaults filled in: port 8080 when it listens on
/// nothing, and a root route when it has no route.
pub open spec fn with_defaults(s: ServerModel) -> ServerModel {
    let s1 = if s.ports.len() == 0 {
        ServerModel { ports: seq![8080u16], ..s }
    } else {
        s
    };
    if s1.routes.len() == 0 {
        ServerModel { routes: seq![default_root_route()], ..s1 }
    } else {
        s1
    }
}

/// Listener groups: each `(host, port)` with the indices of the servers
/// that listen on it (a server once per `listen`), in order of first
/// appearance.
pub type Groups = Seq<((Seq<char>, u16), Seq<int>)>;

/// Index of the group of `key`.
pub open spec fn group_index(groups: Groups, key: (Seq<char>, u16), g: int) -> Option<int>
    decreases groups.len() - g,
{
    if g < 0 || g >= groups.len() {
        None
    } else if groups[g].0 == key {
        Some(g)
    } else {
        group_index(groups, key, g + 1)
    }
}

/// Records that server `idx` listens on `key`.
pub open spec fn add_endpoint(groups: Groups, key: (Seq<char>, u16), idx: int) -> Groups {
    match group_index(groups, key, 0) {
        Some(g) => groups.update(g, (key, groups[g].1.push(idx))),
        None => groups.push((key, seq![idx])),
    }
}

/// The listener groups of servers `ss`, from port `p` of server `idx` on.
pub open spec fn groups_from(ss: Seq<ServerModel>, idx: int, p: int, groups: Groups) -> Groups
    decreases ss.len() - idx, if 0 <= idx < ss.len() {
        ss[idx].ports.len() - p
    } else {
        0
    },
{
    if idx < 0 || idx >= ss.len() || p < 0 {
        groups
    } else if p < ss[idx].ports.len() {
        groups_from(ss, idx, p + 1, add_endpoint(groups, (ss[idx].host, ss[idx].ports[p]), idx))
    } else {
        groups_from(ss, idx + 1, 0, groups)
    }
}

pub open spec fn endpoint_text(key: (Seq<char>, u16)) -> Seq<char> {
    key.0 + ":"@ + dec(key.1 as nat)
}

/// The first name of `names[j..]` already in `seen` (as `Err`), or all of
/// them added to `seen`.
pub open spec fn names_check(names: Seq<Seq<char>>, j: int, seen: Seq<Seq<char>>) -> Result<
    Seq<Seq<char>>,
    Seq<char>,
>
    decreases names.len() - j,
{
    if j < 0 || j >= names.len() {
        Ok(seen)
    } else if seen.contains(names[j]) {
        Err(names[j])
    } else {
        names_check(names, j + 1, seen.push(names[j]))
    }
}

/// Why servers `ids[k..]` cannot share the endpoint `key`, if they cannot:
/// a server without a name, or a name used twice.
pub open spec fn group_check(ss: Seq<ServerModel>, key: (Seq<char>, u16), ids: Seq<int>, k: int, seen: Seq<
    Seq<char>,
>) -> Option<Seq<char>>
    decreases ids.len() - k,
{
    if k < 0 || k >= ids.len() {
        None
    } else {
        let s = ss[ids[k]];
        if s.server_names.len() == 0 {
            Some(
                "duplicate listen endpoint '"@ + endpoint_text(key) + "' shared by server block "@
                    + dec((ids[k] + 1) as nat) + " without a unique server_name"@,
            )
        } else {
            match names_check(s.server_names, 0, seen) {
                Ok(seen2) => group_check(ss, key, ids, k + 1, seen2),
                Err(name) => Some(
                    "duplicate listen endpoint '"@ + endpoint_text(key)
                        + "' shared by multiple server blocks using server_name '"@ + name + "'"@,
                ),
            }
        }
    }
}

/// The first conflict among the groups `groups[g..]`.
pub open spec fn conflicts_from(ss: Seq<ServerModel>, groups: Groups, g: int) -> Option<Seq<char>>
    decreases groups.len() - g,
{
    if g < 0 || g >= groups.len() {
        None
    } else if groups[g].1.len() < 2 {
        conflicts_from(ss, groups, g + 1)
    } else {
        match group_check(ss, groups[g].0, groups[g].1, 0, seq![]) {
            Some(m) => Some(m),
            None => conflicts_from(ss, groups, g + 1),
        }
    }
}

/// Why the servers cannot listen together, if they cannot: an endpoint
/// shared by several blocks (or twice by one) needs distinct names in all
/// of them.
pub open spec fn listener_conflict(ss: Seq<ServerModel>) -> Option<Seq<char>> {
    conflicts_from(ss, groups_from(ss, 0, 0, seq![]), 0)
}

/// The configuration that the text `text` describes.
pub open spec fn spec_parse_config(text: Seq<char>) -> ConfigOutcome<Seq<ServerModel>> {
    match top_level(clean_lines(text), 0, seq![]) {
        ConfigOutcome::Parsed(ss) => if ss.len() == 0 {
            ConfigOutcome::Failed("configuration must declare at least one 'server' block"@)
        } else {
            let ss2 = ss.map_values(|s: ServerModel| with_defaults(s));
            match listener_conflict(ss2) {
                Some(m) => ConfigOutcome::Failed(m),
                None => ConfigOutcome::Parsed(ss2),
            }
        },
        ConfigOutcome::Failed(e) => ConfigOutcome::Failed(e),
        ConfigOutcome::Overflow => ConfigOutcome::Overflow,
    }
}

/// Fills in the defaults of a parsed server.
fn fill_defaults(s: ServerConfig) -> (r: ServerConfig)
    ensures
        r@ == with_defaults(s@),
{
    let mut s = s;
    let ghost s0 = s@;
    if s.ports.len() == 0 {
        s.ports.push(8080);
        assert(s.ports@ =~= seq![8080u16]);
    }
    let ghost s1 = s@;
    if s.routes.len() == 0 {
        let mut root = Route::new(String::from_str("/"));
        root.root = Some(String::from_str("./www/html"));
        root.index = Some(String::from_str("index.html"));
        s.routes.push(root);
        assert(routes_view(s.routes@) =~= seq![default_root_route()]);
    }
    s
}

pub open spec fn groups_view(v: Seq<(String, u16, Vec<usize>)>) -> Groups {
    v.map_values(|g: (String, u16, Vec<usize>)| ((g.0@, g.1), g.2@.map_values(|x: usize| x as int)))
}

/// All server indices in the groups are in `0..n`.
pub open spec fn ids_below(gs: Groups, n: int) -> bool {
    forall|g: int, m: int|
        0 <= g < gs.len() && 0 <= m < gs[g].1.len() ==> 0 <= #[trigger] gs[g].1[m] < n
}

pub proof fn lemma_group_index(gs: Groups, key: (Seq<char>, u16), g: int)
    requires
        0 <= g,
    ensures
        group_index(gs, key, g) matches Some(h) ==> g <= h < gs.len() && gs[h].0 == key,
    decreases gs.len() - g,
{
    if g < gs.len() && gs[g].0 != key {
        lemma_group_index(gs, key, g + 1);
    }
}

proof fn lemma_add_endpoint_below(gs: Groups, key: (Seq<char>, u16), idx: int, n: int)
    requires
        ids_below(gs, n),
        0 <= idx < n,
    ensures
        ids_below(add_endpoint(gs, key, idx), n),
{
    lemma_group_index(gs, key, 0);
    let a = add_endpoint(gs, key, idx);
    match group_index(gs, key, 0) {
        Some(h) => {
            assert forall|g: int, m: int| 0 <= g < a.len() && 0 <= m < a[g].1.len() implies 0
                <= #[trigger] a[g].1[m] < n by {
                if g == h {
                    if m < gs[h].1.len() {
                        assert(a[g].1[m] == gs[h].1[m]);
                    }
                } else {
                    assert(a[g] == gs[g]);
                }
            }
        },
        None => {
            assert forall|g: int, m: int| 0 <= g < a.len() && 0 <= m < a[g].1.len() implies 0
                <= #[trigger] a[g].1[m] < n by {
                if g < gs.len() {
                    assert(a[g] == gs[g]);
                }
            }
        },
    }
}

/// Records that server `idx` listens on `(host, port)`.
fn add_endpoint_exec(groups: &mut Vec<(String, u16, Vec<usize>)>, host: &String, port: u16, idx: usize)
    ensures
        groups_view(final(groups)@) == add_endpoint(groups_view(old(groups)@), (host@, port), idx as int),
{
    let ghost gv = groups_view(groups@);
    let ghost key = (host@, port);
    let mut g: usize = 0;
    while g < groups.len()
        invariant
            g <= groups@.len(),
            gv == groups_view(groups@),
            groups@ == old(groups)@,
            key == (host@, port),
            group_index(gv, key, 0) == group_index(gv, key, g as int),
        decreases groups.len() - g,
    {
        assert(gv[g as int].0 == (groups@[g as int].0@, groups@[g as int].1));
        if groups[g].1 == port && groups[g].0 == *host {
            assert(group_index(gv, key, g as int) == Some(g as int));
            let mut entry = (String::new(), 0u16, Vec::new());
            groups.set_and_swap(g, &mut entry);
            let ghost ids = entry.2@;
            entry.2.push(idx);
            assert(entry.2@.map_values(|x: usize| x as int) =~= ids.map_values(|x: usize| x as int).push(idx as int));
            groups.set_and_swap(g, &mut entry);
            assert(groups_view(groups@) =~= gv.update(g as int, (key, gv[g as int].1.push(idx as int))));
            return ;
        }
        g += 1;
    }
    let mut ids: Vec<usize> = Vec::new();
    ids.push(idx);
    assert(ids@.map_values(|x: usize| x as int) =~= seq![idx as int]);
    groups.push((host.clone(), port, ids));
    assert(groups_view(groups@) =~= gv.push((key, seq![idx as int])));
}

/// Whether a name of `names[..]` repeats one in `seen` or an earlier one;
/// `seen` gets the names added otherwise.
fn names_check_exec(names: &Vec<String>, seen: &mut Vec<String>) -> (r: Option<usize>)
    ensures
        match r {
            Some(j) => j < names@.len() && names_check(strings_view(names@), 0, strings_view(old(seen)@))
                == Err::<Seq<Seq<char>>, Seq<char>>(names@[j as int]@),
            None => names_check(strings_view(names@), 0, strings_view(old(seen)@)) == Ok::<
                Seq<Seq<char>>,
                Seq<char>,
            >(strings_view(final(seen)@)),
        },
{
    let ghost nv = strings_view(names@);
    let ghost start = names_check(nv, 0, strings_view(seen@));
    let mut j: usize = 0;
    while j < names.len()
        invariant
            j <= names@.len(),
            nv == strings_view(names@),
            start == names_check(nv, 0, strings_view(old(seen)@)),
            start == names_check(nv, j as int, strings_view(seen@)),
        decreases names.len() - j,
    {
        let ghost sv = strings_view(seen@);
        assert(nv[j as int] == names@[j as int]@);
        let mut k: usize = 0;
        while k < seen.len()
            invariant
                k <= seen@.len(),
                sv == strings_view(seen@),
                j < names@.len(),
                nv == strings_view(names@),
                nv[j as int] == names@[j as int]@,
                start == names_check(nv, 0, strings_view(old(seen)@)),
                start == names_check(nv, j as int, sv),
                forall|m: int| 0 <= m < k ==> sv[m] != names@[j as int]@,
            decreases seen.len() - k,
        {
            assert(sv[k as int] == seen@[k as int]@);
            if seen[k] == names[j] {
                assert(sv[k as int] == names@[j as int]@);
                assert(sv.contains(nv[j as int]));
                return Some(j);
            }
            k += 1;
        }
        assert(!sv.contains(nv[j as int]));
        seen.push(names[j].clone());
        assert(strings_view(seen@) =~= sv.push(nv[j as int]));
        j += 1;
    }
    None
}

/// Checks that servers sharing a `(host, port)` endpoint all have distinct
/// server names.
/// The `(host, port)` endpoints of the servers, in order of first
/// appearance, each with the indices of the servers that listen there.
pub fn listener_groups(servers: &Vec<ServerConfig>) -> (groups: Vec<(String, u16, Vec<usize>)>)
    ensures
        groups_view(groups@) == groups_from(crate::config::servers_view(servers@), 0, 0, seq![]),
        ids_below(groups_view(groups@), servers@.len() as int),
{
    let ghost ss = crate::config::servers_view(servers@);
    let mut groups: Vec<(String, u16, Vec<usize>)> = Vec::new();
    let ghost full = groups_from(ss, 0, 0, seq![]);
    assert(groups_view(groups@) =~= seq![]);
    assert(ids_below(groups_view(groups@), servers@.len() as int));
    let mut idx: usize = 0;
    while idx < servers.len()
        invariant
            idx <= servers@.len(),
            ss == crate::config::servers_view(servers@),
            full == groups_from(ss, 0, 0, seq![]),
            full == groups_from(ss, idx as int, 0, groups_view(groups@)),
            ids_below(groups_view(groups@), servers@.len() as int),
        decreases servers.len() - idx,
    {
        let server = &servers[idx];
        assert(ss[idx as int] == server@);
        let mut p: usize = 0;
        while p < server.ports.len()
            invariant
                idx < servers@.len(),
                p <= server.ports@.len(),
                ss == crate::config::servers_view(servers@),
                ss[idx as int] == server@,
                full == groups_from(ss, idx as int, p as int, groups_view(groups@)),
                ids_below(groups_view(groups@), servers@.len() as int),
            decreases server.ports.len() - p,
        {
            let ghost before = groups@;
            add_endpoint_exec(&mut groups, &server.host, server.ports[p], idx);
            proof {
                lemma_add_endpoint_below(groups_view(before), (server.host@, server.ports@[p as int]), idx as int, servers@.len() as int);
            }
            p += 1;
        }
        idx += 1;
    }
    groups
}

fn validate_listener_conflicts(servers: &Vec<ServerConfig>) -> (r: Result<(), String>)
    ensures
        match r {
            Ok(()) => listener_conflict(crate::config::servers_view(servers@)) is None,
            Err(m) => listener_conflict(crate::config::servers_view(servers@)) == Some(m@),
        },
{
    let ghost ss = crate::config::servers_view(servers@);
    let ghost full = groups_from(ss, 0, 0, seq![]);
    let groups = listener_groups(servers);
    assert(groups_view(groups@) == full);
    let mut g: usize = 0;
    while g < groups.len()
        invariant
            g <= groups@.len(),
            ss == crate::config::servers_view(servers@),
            groups_view(groups@) == full,
            ids_below(full, servers@.len() as int),
            listener_conflict(ss) == conflicts_from(ss, full, g as int),
        decreases groups.len() - g,
    {
        let entry = &groups[g];
        assert(full[g as int] == ((entry.0@, entry.1), entry.2@.map_values(|x: usize| x as int)));
        if entry.2.len() >= 2 {
            assert forall|m: int| 0 <= m < entry.2@.len() implies #[trigger] entry.2@[m] < servers@.len() by {
                assert(full[g as int].1[m] == entry.2@[m] as int);
            }
            match check_group(servers, &entry.0, entry.1, &entry.2) {
                Some(m) => {
                    return Err(m);
                },
                None => {},
            }
        }
        g += 1;
    }
    Ok(())
}

/// Why the servers `ids` cannot share `(host, port)`, if they cannot.
fn check_group(servers: &Vec<ServerConfig>, host: &String, port: u16, ids: &Vec<usize>) -> (r: Option<
    String,
>)
    requires
        forall|m: int| 0 <= m < ids@.len() ==> #[trigger] ids@[m] < servers@.len(),
    ensures
        match r {
            Some(m) => group_check(
                crate::config::servers_view(servers@),
                (host@, port),
                ids@.map_values(|x: usize| x as int),
                0,
                seq![],
            ) == Some(m@),
            None => group_check(
                crate::config::servers_view(servers@),
                (host@, port),
                ids@.map_values(|x: usize| x as int),
                0,
                seq![],
            ) is None,
        },
{
    let ghost ss = crate::config::servers_view(servers@);
    let ghost iv = ids@.map_values(|x: usize| x as int);
    let ghost key = (host@, port);
    let ghost start = group_check(ss, key, iv, 0, seq![]);
    let mut seen: Vec<String> = Vec::new();
    assert(strings_view(seen@) =~= seq![]);
    let n_servers = servers.len();
    let mut k: usize = 0;
    while k < ids.len()
        invariant
            k <= ids@.len(),
            ss == crate::config::servers_view(servers@),
            iv == ids@.map_values(|x: usize| x as int),
            key == (host@, port),
            forall|m: int| 0 <= m < ids@.len() ==> #[trigger] ids@[m] < servers@.len(),
            n_servers == servers@.len(),
            start == group_check(ss, key, iv, 0, seq![]),
            start == group_check(ss, key, iv, k as int, strings_view(seen@)),
        decreases ids.len() - k,
    {
        let idx = ids[k];
        let server = &servers[idx];
        assert(iv[k as int] == idx as int);
        assert(ss[idx as int] == server@);
        if server.server_names.len() == 0 {
            let mut m = String::from_str("duplicate listen endpoint '");
            m.append(host.as_str());
            m.append(":");
            push_dec(&mut m, port as u128);
            m.append("' shared by server block ");
            push_dec(&mut m, idx as u128 + 1);
            m.append(" without a unique server_name");
            return Some(m);
        }
        match names_check_exec(&server.server_names, &mut seen) {
            Some(j) => {
                let mut m = String::from_str("duplicate listen endpoint '");
                m.append(host.as_str());
                m.append(":");
                push_dec(&mut m, port as u128);
                m.append("' shared by multiple server blocks using server_name '");
                m.append(server.server_names[j].as_str());
                m.append("'");
                return Some(m);
            },
            None => {},
        }
        k += 1;
    }
    None
}

/// Parses configuration source text into a [`Config`], telling apart the
/// sizes that overflow `usize`.
pub fn parse_config(content: &str) -> (r: Result<Config, ConfigFailure>)
    ensures
        match r {
            Ok(c) => spec_parse_config(content@) == ConfigOutcome::Parsed(c@),
            Err(f) => spec_parse_config(content@) == failure_outcome::<Seq<ServerModel>>(f),
        },
{
    let chars = chars_of(content);
    let lines = clean_lines_exec(chars.as_slice());
    let ghost ls = lines_view(lines@);
    let ghost start = top_level(ls, 0, seq![]);
    let ghost mut raw: Seq<ServerModel> = seq![];
    let mut servers: Vec<ServerConfig> = Vec::new();
    assert(crate::config::servers_view(servers@) =~= raw.map_values(|s: ServerModel| with_defaults(s)));
    let mut i: usize = 0;
    while i < lines.len()
        invariant
            i <= lines@.len(),
            ls == lines_view(lines@),
            ls == clean_lines(content@),
            start == top_level(ls, 0, seq![]),
            start == top_level(ls, i as int, raw),
            crate::config::servers_view(servers@) == raw.map_values(|s: ServerModel| with_defaults(s)),
        decreases lines.len() - i,
    {
        let l = &lines[i];
        assert(ls[i as int] == l@);
        let t = tokens_of(l);
        if t.len() == 2 && tok_eq(l, &t, 0, "server") && tok_eq(l, &t, 1, "{") {
            match parse_server_block(&lines, i + 1) {
                Ok((srv, j)) => {
                    proof {
                        lemma_server_block_advances(ls, i + 1, default_server(), seq![]);
                    }
                    let ghost before = servers@;
                    let ghost raw0 = raw;
                    let ghost sm = srv@;
                    proof {
                        raw = raw.push(sm);
                    }
                    let filled = fill_defaults(srv);
                    servers.push(filled);
                    assert(crate::config::servers_view(servers@) =~= crate::config::servers_view(
                        before,
                    ).push(filled@));
                    assert(raw.map_values(|s: ServerModel| with_defaults(s)) =~= raw0.map_values(
                        |s: ServerModel| with_defaults(s),
                    ).push(with_defaults(sm)));
                    i = j;
                },
                Err(f) => {
                    return Err(f);
                },
            }
        } else {
            return Err(
                ConfigFailure::Message(
                    line_message("unexpected directive '", l, "' at top level (expected 'server {')"),
                ),
            );
        }
    }
    if servers.len() == 0 {
        return Err(
            ConfigFailure::Message(
                String::from_str("configuration must declare at least one 'server' block"),
            ),
        );
    }
    match validate_listener_conflicts(&servers) {
        Ok(()) => Ok(Config { servers }),
        Err(m) => Err(ConfigFailure::Message(m)),
    }
}

/// Parses configuration source text into a [`Config`].
pub fn parse_str(content: &str) -> (r: Result<Config, String>)
    requires
        !(spec_parse_config(content@) is Overflow),
    ensures
        match r {
            Ok(c) => spec_parse_config(content@) == ConfigOutcome::Parsed(c@),
            Err(m) => spec_parse_config(content@) == ConfigOutcome::<Seq<ServerModel>>::Failed(m@),
        },
{
    match parse_config(content) {
        Ok(c) => Ok(c),
        Err(ConfigFailure::Message(m)) => Err(m),
        Err(ConfigFailure::SizeOverflow) => Err(String::new()),
    }
}

/// Every parsed configuration has a server, every server listens on a
/// port and has a route, and servers that share an endpoint have distinct
/// names.
pub proof fn lemma_parsed_config_complete(text: Seq<char>)
    ensures
        spec_parse_config(text) matches ConfigOutcome::Parsed(ss) ==> {
            &&& ss.len() >= 1
            &&& forall|k: int| 0 <= k < ss.len() ==> (#[trigger] ss[k]).ports.len() >= 1
                && ss[k].routes.len() >= 1
            &&& listener_conflict(ss) is None
        },
{
    match top_level(clean_lines(text), 0, seq![]) {
        ConfigOutcome::Parsed(raw) => {
            let ss = raw.map_values(|s: ServerModel| with_defaults(s));
            assert forall|k: int| 0 <= k < ss.len() implies (#[trigger] ss[k]).ports.len() >= 1
                && ss[k].routes.len() >= 1 by {
                assert(ss[k] == with_defaults(raw[k]));
            }
        },
        _ => {},
    }
}

} // verus!

