//! Mapping URL paths onto the file system below a route's root.
use vstd::prelude::*;

use crate::config::Route;
use crate::text::{
    chars_of, has_prefix, range_eq, range_eq_str, ranges_view, split_char_ranges, split_ranges,
    string_from_chars,
};

verus! {

/// `PathBuf::push` of a relative component: a `/` goes between when the
/// buffer is not empty and does not end with one.
pub open spec fn path_push(buf: Seq<char>, part: Seq<char>) -> Seq<char> {
    if buf.len() > 0 && buf.last() != '/' {
        buf.push('/') + part
    } else {
        buf + part
    }
}

/// `PathBuf::push` of any path: an absolute one replaces the buffer.
pub open spec fn path_join(buf: Seq<char>, part: Seq<char>) -> Seq<char> {
    if part.len() > 0 && part[0] == '/' {
        part
    } else {
        path_push(buf, part)
    }
}

/// First index at or after `i` that is not `/` (or `s.len()`).
pub open spec fn skip_slashes(s: Seq<char>, i: int) -> int
    decreases s.len() - i,
{
    if i >= 0 && i < s.len() && s[i] == '/' {
        skip_slashes(s, i + 1)
    } else {
        i
    }
}

/// Where the part of the request path below the route begins: after the
/// route's path when it is a prefix, then after any `/`.
pub open spec fn rel_start(route_path: Seq<char>, req: Seq<char>) -> int {
    let a = if has_prefix(req, route_path) {
        route_path.len() as int
    } else {
        0
    };
    skip_slashes(req, a)
}

/// The components of `rel` in turn (`Path::components`): empty ones and
/// `.` are skipped, `..` refuses the whole path, others are pushed.
pub open spec fn push_components(buf: Seq<char>, rel: Seq<char>, segs: Seq<(int, int)>, k: int) -> Option<
    Seq<char>,
>
    decreases segs.len() - k,
{
    if k < 0 || k >= segs.len() {
        Some(buf)
    } else {
        let seg = rel.subrange(segs[k].0, segs[k].1);
        if seg.len() == 0 || seg == "."@ {
            push_components(buf, rel, segs, k + 1)
        } else if seg == ".."@ {
            None
        } else {
            push_components(path_push(buf, seg), rel, segs, k + 1)
        }
    }
}

/// The file system path for `req` under a route with path `route_path`
/// and root `root`.
pub open spec fn spec_resolve(root: Option<Seq<char>>, route_path: Seq<char>, req: Seq<char>) -> Option<
    Seq<char>,
> {
    match root {
        None => None,
        Some(r) => {
            let rel = req.subrange(rel_start(route_path, req), req.len() as int);
            push_components(r, rel, split_ranges(rel, '/', 0, 0), 0)
        },
    }
}

proof fn lemma_skip_slashes(s: Seq<char>, i: int)
    requires
        0 <= i <= s.len(),
    ensures
        i <= skip_slashes(s, i) <= s.len(),
    decreases s.len() - i,
{
    if i < s.len() && s[i] == '/' {
        lemma_skip_slashes(s, i + 1);
    }
}

/// Appends `part` to `buf` as `PathBuf::push` does for a relative part.
fn push_path(buf: &mut Vec<char>, part: &[char], a: usize, b: usize)
    requires
        a <= b <= part@.len(),
    ensures
        final(buf)@ == path_push(old(buf)@, part@.subrange(a as int, b as int)),
{
    if buf.len() > 0 && buf[buf.len() - 1] != '/' {
        buf.push('/');
    }
    let ghost mid = buf@;
    let mut i = a;
    while i < b
        invariant
            a <= i <= b <= part@.len(),
            buf@ == mid + part@.subrange(a as int, i as int),
        decreases b - i,
    {
        buf.push(part[i]);
        i += 1;
        assert(part@.subrange(a as int, i as int) =~= part@.subrange(a as int, i - 1).push(
            part@[i - 1],
        ));
    }
}

/// Resolves a URL path against a route's `root`, producing a file system
/// path. Returns `None` if the route has no root configured, or if the
/// path holds a `..` component (path traversal).
pub fn resolve(route: &Route, req_path: &str) -> (r: Option<String>)
    ensures
        match spec_resolve(route@.root, route@.path, req_path@) {
            Some(p) => r is Some && r->0@ == p,
            None => r is None,
        },
{
    let root = match &route.root {
        Some(r) => r,
        None => return None,
    };
    let req = chars_of(req_path);
    let rp = chars_of(route.path.as_str());
    let prefix = rp.len() <= req.len() && range_eq(req.as_slice(), 0, rp.len(), rp.as_slice());
    let mut a: usize = if prefix {
        rp.len()
    } else {
        0
    };
    while a < req.len() && req[a] == '/'
        invariant
            a <= req@.len(),
            rel_start(rp@, req@) == skip_slashes(req@, a as int),
        decreases req.len() - a,
    {
        a += 1;
    }
    let rel = crate::text::copy_range(req.as_slice(), a, req.len());
    let segs = split_char_ranges(rel.as_slice(), 0, rel.len(), '/');
    proof {
        assert(rel@.subrange(0, rel@.len() as int) =~= rel@);
    }
    let mut buf = chars_of(root.as_str());
    let ghost start = push_components(buf@, rel@, ranges_view(segs@), 0);
    assert(start == spec_resolve(route@.root, route@.path, req_path@));
    let mut k: usize = 0;
    while k < segs.len()
        invariant
            k <= segs@.len(),
            forall|j: int| 0 <= j < segs@.len() ==> (#[trigger] segs@[j]).0 <= segs@[j].1 <= rel@.len(),
            start == spec_resolve(route@.root, route@.path, req_path@),
            start == push_components(buf@, rel@, ranges_view(segs@), k as int),
        decreases segs.len() - k,
    {
        let (sa, sb) = segs[k];
        assert(ranges_view(segs@)[k as int] == (sa as int, sb as int));
        if sa == sb || range_eq_str(rel.as_slice(), sa, sb, ".") {
        } else if range_eq_str(rel.as_slice(), sa, sb, "..") {
            return None;
        } else {
            push_path(&mut buf, rel.as_slice(), sa, sb);
        }
        k += 1;
    }
    Some(string_from_chars(buf.as_slice()))
}

/// Whether some component of `rel` (between `/`s) is `..`.
pub open spec fn has_parent_component(rel: Seq<char>, segs: Seq<(int, int)>) -> bool {
    exists|k: int| 0 <= k < segs.len() && rel.subrange((#[trigger] segs[k]).0, segs[k].1) == ".."@
}

proof fn lemma_push_components(buf: Seq<char>, rel: Seq<char>, segs: Seq<(int, int)>, k: int)
    requires
        0 <= k <= segs.len(),
    ensures
        (exists|j: int| k <= j < segs.len() && rel.subrange((#[trigger] segs[j]).0, segs[j].1)
            == ".."@) ==> push_components(buf, rel, segs, k) is None,
        push_components(buf, rel, segs, k) matches Some(p) ==> has_prefix(p, buf),
    decreases segs.len() - k,
{
    if k < segs.len() {
        let seg = rel.subrange(segs[k].0, segs[k].1);
        reveal_strlit("..");
        reveal_strlit(".");
        if seg.len() == 0 || seg == "."@ {
            lemma_push_components(buf, rel, segs, k + 1);
            if exists|j: int| k <= j < segs.len() && rel.subrange((#[trigger] segs[j]).0, segs[j].1)
                == ".."@ {
                let j = choose|j: int| k <= j < segs.len() && rel.subrange(
                    (#[trigger] segs[j]).0,
                    segs[j].1,
                ) == ".."@;
                assert(j != k);
            }
        } else if seg == ".."@ {
        } else {
            let b2 = path_push(buf, seg);
            lemma_push_components(b2, rel, segs, k + 1);
            if exists|j: int| k <= j < segs.len() && rel.subrange((#[trigger] segs[j]).0, segs[j].1)
                == ".."@ {
                let j = choose|j: int| k <= j < segs.len() && rel.subrange(
                    (#[trigger] segs[j]).0,
                    segs[j].1,
                ) == ".."@;
                assert(j != k);
            }
            if push_components(b2, rel, segs, k + 1) is Some {
                let p = push_components(b2, rel, segs, k + 1)->0;
                assert(b2.subrange(0, buf.len() as int) =~= buf);
                assert(p.subrange(0, buf.len() as int) =~= b2.subrange(0, buf.len() as int));
            }
        }
    } else {
        assert(buf.subrange(0, buf.len() as int) =~= buf);
    }
}

/// Paths with `..` components are refused, and a resolved path always
/// lies under the route's root (it starts with the root).
pub proof fn lemma_resolve_stays_under_root(root: Seq<char>, route_path: Seq<char>, req: Seq<char>)
    ensures
        ({
            let rel = req.subrange(rel_start(route_path, req), req.len() as int);
            has_parent_component(rel, split_ranges(rel, '/', 0, 0)) ==> spec_resolve(
                Some(root),
                route_path,
                req,
            ) is None
        }),
        spec_resolve(Some(root), route_path, req) matches Some(p) ==> has_prefix(p, root),
{
    let rel = req.subrange(rel_start(route_path, req), req.len() as int);
    lemma_push_components(root, rel, split_ranges(rel, '/', 0, 0), 0);
}

} // verus!
