//! Character-level text utilities.
//!
//! Text is modelled as `Seq<char>` (the view of `String` and `&str`).
//! Executable code scans `&[char]` slices; the spec functions here state
//! what the corresponding `str` operations of std compute.
use vstd::prelude::*;

verus! {

// ---------------------------------------------------------------------
// Conversions between `str`/`String` and character vectors
// ---------------------------------------------------------------------

/// The characters of `s`, in order.
pub fn chars_of(s: &str) -> (v: Vec<char>)
    ensures
        v@ == s@,
{
    let mut v: Vec<char> = Vec::new();
    for c in it: s.chars()
        invariant
            v@ == it.seq().take(it.index() as int),
    {
        v.push(c);
    }
    v
}

/// Appends one character to a `String` (`String::push`).
#[verifier::external_body]
pub(crate) fn push_char(s: &mut String, c: char)
    ensures
        final(s)@ == old(s)@.push(c),
{
    s.push(c);
}

/// Builds a `String` holding `v[a..b]`.
pub fn string_from_range(v: &[char], a: usize, b: usize) -> (s: String)
    requires
        a <= b <= v@.len(),
    ensures
        s@ == v@.subrange(a as int, b as int),
{
    let mut s = String::new();
    let mut i: usize = a;
    while i < b
        invariant
            a <= i <= b <= v@.len(),
            s@ == v@.subrange(a as int, i as int),
        decreases b - i,
    {
        push_char(&mut s, v[i]);
        i += 1;
    }
    s
}

/// Builds a `String` holding all of `v`.
pub fn string_from_chars(v: &[char]) -> (s: String)
    ensures
        s@ == v@,
{
    string_from_range(v, 0, v.len())
}

/// Appends `v[a..b]` to `s`.
pub fn append_range(s: &mut String, v: &[char], a: usize, b: usize)
    requires
        a <= b <= v@.len(),
    ensures
        final(s)@ == old(s)@ + v@.subrange(a as int, b as int),
{
    let mut i: usize = a;
    while i < b
        invariant
            a <= i <= b <= v@.len(),
            s@ == old(s)@ + v@.subrange(a as int, i as int),
        decreases b - i,
    {
        push_char(s, v[i]);
        i += 1;
        proof {
            assert(v@.subrange(a as int, i as int) == v@.subrange(a as int, i - 1).push(v@[i - 1]));
        }
    }
}

/// Copies `v[a..b]` into a new vector.
pub fn copy_range<T: Copy>(v: &[T], a: usize, b: usize) -> (r: Vec<T>)
    requires
        a <= b <= v@.len(),
    ensures
        r@ == v@.subrange(a as int, b as int),
{
    let mut r: Vec<T> = Vec::new();
    let mut i: usize = a;
    while i < b
        invariant
            a <= i <= b <= v@.len(),
            r@ == v@.subrange(a as int, i as int),
        decreases b - i,
    {
        r.push(v[i]);
        i += 1;
    }
    r
}

// ---------------------------------------------------------------------
// Character classes
// ---------------------------------------------------------------------

/// Unicode `White_Space`, the class that `char::is_whitespace`,
/// `str::trim` and `str::split_whitespace` use.
pub open spec fn is_ws(c: char) -> bool {
    let u = c as u32;
    ||| 0x09 <= u <= 0x0D
    ||| u == 0x20
    ||| u == 0x85
    ||| u == 0xA0
    ||| u == 0x1680
    ||| 0x2000 <= u <= 0x200A
    ||| u == 0x2028
    ||| u == 0x2029
    ||| u == 0x202F
    ||| u == 0x205F
    ||| u == 0x3000
}

/// `char::is_whitespace`.
pub fn is_whitespace(c: char) -> (b: bool)
    ensures
        b == is_ws(c),
{
    let u = c as u32;
    (0x09 <= u && u <= 0x0D) || u == 0x20 || u == 0x85 || u == 0xA0 || u == 0x1680 || (0x2000
        <= u && u <= 0x200A) || u == 0x2028 || u == 0x2029 || u == 0x202F || u == 0x205F || u
        == 0x3000
}

/// ASCII lowercase mapping of one character (`char::to_ascii_lowercase`).
pub open spec fn ascii_lower(c: char) -> char {
    if 'A' <= c <= 'Z' {
        ((c as u32) + 32) as char
    } else {
        c
    }
}

pub fn to_ascii_lower(c: char) -> (r: char)
    ensures
        r == ascii_lower(c),
{
    if 'A' <= c && c <= 'Z' {
        ((c as u8) + 32) as char
    } else {
        c
    }
}

/// `str::eq_ignore_ascii_case`.
pub open spec fn eq_ignore_case(a: Seq<char>, b: Seq<char>) -> bool {
    a.len() == b.len() && forall|i: int| 0 <= i < a.len() ==> ascii_lower(#[trigger] a[i])
        == ascii_lower(b[i])
}

pub fn eq_ignore_ascii_case(a: &[char], b: &[char]) -> (r: bool)
    ensures
        r == eq_ignore_case(a@, b@),
{
    if a.len() != b.len() {
        return false;
    }
    let mut i: usize = 0;
    while i < a.len()
        invariant
            a@.len() == b@.len(),
            0 <= i <= a@.len(),
            forall|k: int| 0 <= k < i ==> ascii_lower(#[trigger] a@[k]) == ascii_lower(b@[k]),
        decreases a.len() - i,
    {
        if to_ascii_lower(a[i]) != to_ascii_lower(b[i]) {
            return false;
        }
        i += 1;
    }
    true
}

// ---------------------------------------------------------------------
// Comparisons and searches
// ---------------------------------------------------------------------

/// `v[a..b] == t`.
pub fn range_eq(v: &[char], a: usize, b: usize, t: &[char]) -> (r: bool)
    requires
        a <= b <= v@.len(),
    ensures
        r == (v@.subrange(a as int, b as int) == t@),
{
    if b - a != t.len() {
        return false;
    }
    let mut i: usize = 0;
    while i < t.len()
        invariant
            a <= b <= v@.len(),
            b - a == t@.len(),
            0 <= i <= t@.len(),
            forall|k: int| 0 <= k < i ==> v@[a + k] == t@[k],
        decreases t.len() - i,
    {
        if v[a + i] != t[i] {
            assert(v@.subrange(a as int, b as int)[i as int] != t@[i as int]);
            return false;
        }
        i += 1;
    }
    assert(v@.subrange(a as int, b as int) =~= t@);
    true
}

/// `v[a..b] == lit`.
pub fn range_eq_str(v: &[char], a: usize, b: usize, lit: &str) -> (r: bool)
    requires
        a <= b <= v@.len(),
    ensures
        r == (v@.subrange(a as int, b as int) == lit@),
{
    let t = chars_of(lit);
    range_eq(v, a, b, t.as_slice())
}

/// `s` starts with `p`.
pub open spec fn has_prefix(s: Seq<char>, p: Seq<char>) -> bool {
    p.len() <= s.len() && s.subrange(0, p.len() as int) == p
}

/// `s` ends with `p`.
pub open spec fn has_suffix(s: Seq<char>, p: Seq<char>) -> bool {
    p.len() <= s.len() && s.subrange(s.len() - p.len(), s.len() as int) == p
}

/// `p` occurs in `s` at position `i`.
pub open spec fn occurs_at(s: Seq<char>, p: Seq<char>, i: int) -> bool {
    0 <= i && i + p.len() <= s.len() && s.subrange(i, i + p.len()) == p
}

/// `str::contains` with a string pattern.
pub open spec fn contains_seq(s: Seq<char>, p: Seq<char>) -> bool {
    exists|i: int| occurs_at(s, p, i)
}

pub fn starts_with(s: &[char], p: &[char]) -> (r: bool)
    ensures
        r == has_prefix(s@, p@),
{
    if p.len() > s.len() {
        return false;
    }
    range_eq(s, 0, p.len(), p)
}

pub fn ends_with(s: &[char], p: &[char]) -> (r: bool)
    ensures
        r == has_suffix(s@, p@),
{
    if p.len() > s.len() {
        return false;
    }
    range_eq(s, s.len() - p.len(), s.len(), p)
}

/// `str::contains`.
pub fn contains(s: &[char], p: &[char]) -> (r: bool)
    ensures
        r == contains_seq(s@, p@),
{
    if p.len() > s.len() {
        assert(forall|i: int| !occurs_at(s@, p@, i));
        return false;
    }
    let mut i: usize = 0;
    while i <= s.len() - p.len()
        invariant
            p@.len() <= s@.len(),
            0 <= i <= s@.len() - p@.len() + 1,
            forall|k: int| 0 <= k < i ==> !occurs_at(s@, p@, k),
        decreases s.len() - p.len() + 1 - i,
    {
        if range_eq(s, i, i + p.len(), p) {
            assert(occurs_at(s@, p@, i as int));
            return true;
        }
        if i == s.len() - p.len() {
            assert forall|k: int| !occurs_at(s@, p@, k) by {
                if 0 <= k && k + p@.len() <= s@.len() {
                    assert(k <= i);
                }
            }
            return false;
        }
        i += 1;
    }
    assert forall|k: int| !occurs_at(s@, p@, k) by {
        if 0 <= k && k + p@.len() <= s@.len() {
            assert(k < i);
        }
    }
    false
}

/// Index of the first `c` in `s[i..]`, or `s.len()` when there is none.
pub open spec fn find_from(s: Seq<char>, c: char, i: int) -> int
    decreases s.len() - i,
{
    if i >= s.len() {
        s.len() as int
    } else if s[i] == c {
        i
    } else {
        find_from(s, c, i + 1)
    }
}

pub proof fn lemma_find_from(s: Seq<char>, c: char, i: int)
    requires
        0 <= i <= s.len(),
    ensures
        i <= find_from(s, c, i) <= s.len(),
        forall|k: int| i <= k < find_from(s, c, i) ==> s[k] != c,
        find_from(s, c, i) < s.len() ==> s[find_from(s, c, i)] == c,
    decreases s.len() - i,
{
    if i < s.len() && s[i] != c {
        lemma_find_from(s, c, i + 1);
    }
}

/// Index of the first `c` at or after `i` (or `v.len()`).
pub fn find_char_from(v: &[char], c: char, i: usize) -> (r: usize)
    requires
        i <= v@.len(),
    ensures
        r == find_from(v@, c, i as int),
        i <= r <= v@.len(),
{
    let mut j: usize = i;
    while j < v.len() && v[j] != c
        invariant
            i <= j <= v@.len(),
            find_from(v@, c, i as int) == find_from(v@, c, j as int),
        decreases v.len() - j,
    {
        j += 1;
    }
    j
}

/// Index of the last `c` in `s[..j]`, or -1 when there is none.
pub open spec fn rfind_before(s: Seq<char>, c: char, j: int) -> int
    decreases j,
{
    if j <= 0 {
        -1
    } else if s[j - 1] == c {
        j - 1
    } else {
        rfind_before(s, c, j - 1)
    }
}

pub proof fn lemma_rfind_before(s: Seq<char>, c: char, j: int)
    requires
        0 <= j <= s.len(),
    ensures
        -1 <= rfind_before(s, c, j) < j,
        forall|k: int| rfind_before(s, c, j) < k < j ==> s[k] != c,
        rfind_before(s, c, j) >= 0 ==> s[rfind_before(s, c, j)] == c,
    decreases j,
{
    if j > 0 && s[j - 1] != c {
        lemma_rfind_before(s, c, j - 1);
    }
}

/// Position of the last `c` in `v`, if any (`str::rfind`).
pub fn rfind_char(v: &[char], c: char) -> (r: Option<usize>)
    ensures
        match r {
            Some(k) => k == rfind_before(v@, c, v@.len() as int),
            None => rfind_before(v@, c, v@.len() as int) == -1,
        },
{
    let mut j: usize = v.len();
    while j > 0 && v[j - 1] != c
        invariant
            j <= v@.len(),
            rfind_before(v@, c, v@.len() as int) == rfind_before(v@, c, j as int),
        decreases j,
    {
        j -= 1;
    }
    if j == 0 {
        None
    } else {
        Some(j - 1)
    }
}

// ---------------------------------------------------------------------
// Trimming
// ---------------------------------------------------------------------

/// First index at or after `i` that is not whitespace (or `s.len()`).
pub open spec fn skip_ws(s: Seq<char>, i: int) -> int
    decreases s.len() - i,
{
    if i < s.len() && is_ws(s[i]) {
        skip_ws(s, i + 1)
    } else {
        i
    }
}

/// Smallest `j' <= j` such that `s[j'..j]` is all whitespace.
pub open spec fn skip_ws_back(s: Seq<char>, j: int) -> int
    decreases j,
{
    if j > 0 && is_ws(s[j - 1]) {
        skip_ws_back(s, j - 1)
    } else {
        j
    }
}

pub proof fn lemma_skip_ws(s: Seq<char>, i: int)
    requires
        0 <= i <= s.len(),
    ensures
        i <= skip_ws(s, i) <= s.len(),
        forall|k: int| i <= k < skip_ws(s, i) ==> is_ws(#[trigger] s[k]),
        skip_ws(s, i) < s.len() ==> !is_ws(s[skip_ws(s, i)]),
    decreases s.len() - i,
{
    if i < s.len() && is_ws(s[i]) {
        lemma_skip_ws(s, i + 1);
    }
}

pub proof fn lemma_skip_ws_back(s: Seq<char>, j: int)
    requires
        0 <= j <= s.len(),
    ensures
        0 <= skip_ws_back(s, j) <= j,
        forall|k: int| skip_ws_back(s, j) <= k < j ==> is_ws(#[trigger] s[k]),
        skip_ws_back(s, j) > 0 ==> !is_ws(s[skip_ws_back(s, j) - 1]),
    decreases j,
{
    if j > 0 && is_ws(s[j - 1]) {
        lemma_skip_ws_back(s, j - 1);
    }
}

/// The bounds `(a, b)` of `str::trim` applied to `s[i..j]`.
pub open spec fn trim_bounds(s: Seq<char>, i: int, j: int) -> (int, int) {
    let a = skip_ws(s.subrange(0, j), i);
    let b = skip_ws_back(s, j);
    if a >= j {
        (j, j)
    } else {
        (a, b)
    }
}

/// `str::trim`.
pub open spec fn trim(s: Seq<char>) -> Seq<char> {
    let (a, b) = trim_bounds(s, 0, s.len() as int);
    s.subrange(a, b)
}

/// Bounds of `v[i..j].trim()` inside `v`.
pub fn trim_range(v: &[char], i: usize, j: usize) -> (r: (usize, usize))
    requires
        i <= j <= v@.len(),
    ensures
        r.0 as int == trim_bounds(v@, i as int, j as int).0,
        r.1 as int == trim_bounds(v@, i as int, j as int).1,
        i <= r.0 <= r.1 <= j,
        v@.subrange(r.0 as int, r.1 as int) == trim(v@.subrange(i as int, j as int)),
{
    let ghost s = v@;
    let ghost p = s.subrange(0, j as int);
    let mut a: usize = i;
    while a < j && is_whitespace(v[a])
        invariant
            i <= a <= j <= s.len(),
            s == v@,
            p == s.subrange(0, j as int),
            skip_ws(p, i as int) == skip_ws(p, a as int),
        decreases j - a,
    {
        a += 1;
    }
    proof {
        lemma_skip_ws(p, i as int);
    }
    if a >= j {
        proof {
            lemma_trim_shift(s, i as int, j as int);
        }
        return (j, j);
    }
    let mut b: usize = j;
    while b > 0 && is_whitespace(v[b - 1])
        invariant
            b <= j <= s.len(),
            s == v@,
            skip_ws_back(s, j as int) == skip_ws_back(s, b as int),
        decreases b,
    {
        b -= 1;
    }
    proof {
        lemma_skip_ws_back(s, j as int);
        lemma_trim_shift(s, i as int, j as int);
    }
    (a, b)
}

/// `trim` of a slice `s[i..j]`, expressed on the bounds of the whole.
pub proof fn lemma_trim_shift(s: Seq<char>, i: int, j: int)
    requires
        0 <= i <= j <= s.len(),
    ensures
        ({
            let (a, b) = trim_bounds(s, i, j);
            &&& i <= a <= b <= j
            &&& s.subrange(a, b) == trim(s.subrange(i, j))
        }),
{
    let t = s.subrange(i, j);
    let p = s.subrange(0, j);
    lemma_skip_ws(p, i);
    lemma_skip_ws_back(s, j);
    lemma_skip_ws(t, 0);
    lemma_skip_ws_back(t, t.len() as int);
    let a = skip_ws(p, i);
    let ta = skip_ws(t.subrange(0, t.len() as int), 0);
    assert(t.subrange(0, t.len() as int) == t);
    lemma_skip_ws_same(p, t, i, 0);
    lemma_skip_ws_back_same(s, t, i, j, j);
    if a < j {
        lemma_skip_ws_back(s, j);
        assert(!is_ws(s[a]));
        assert(skip_ws_back(s, j) > a);
        assert(s.subrange(a, skip_ws_back(s, j)) =~= t.subrange(
            skip_ws(t, 0),
            skip_ws_back(t, t.len() as int),
        ));
    } else {
        assert(s.subrange(j, j) =~= t.subrange(t.len() as int, t.len() as int));
    }
}

/// Skipping whitespace agrees on two sequences that agree (shifted) on the
/// region scanned.
proof fn lemma_skip_ws_same(p: Seq<char>, t: Seq<char>, i: int, k: int)
    requires
        0 <= i <= p.len(),
        0 <= k <= t.len(),
        p.len() - i == t.len() - k,
        forall|m: int| k <= m < t.len() ==> #[trigger] t[m] == p[m - k + i],
    ensures
        skip_ws(p, i) - i == skip_ws(t, k) - k,
    decreases p.len() - i,
{
    if i < p.len() {
        assert(t[k] == p[i]);
        if is_ws(p[i]) {
            lemma_skip_ws_same(p, t, i + 1, k + 1);
        }
    }
}

proof fn lemma_skip_ws_back_same(s: Seq<char>, t: Seq<char>, i: int, j: int, j0: int)
    requires
        0 <= i <= j <= j0 <= s.len(),
        t == s.subrange(i, j0),
    ensures
        skip_ws_back(t, j - i) + i == if skip_ws_back(s, j) >= i {
            skip_ws_back(s, j)
        } else {
            i
        },
    decreases j,
{
    lemma_skip_ws_back(s, j);
    if j > i {
        assert(t[j - i - 1] == s[j - 1]);
        if is_ws(s[j - 1]) {
            lemma_skip_ws_back_same(s, t, i, j - 1, j0);
        }
    }
}


// ---------------------------------------------------------------------
// Splitting
// ---------------------------------------------------------------------

/// Integer view of a list of index ranges.
pub open spec fn ranges_view(r: Seq<(usize, usize)>) -> Seq<(int, int)> {
    r.map_values(|p: (usize, usize)| (p.0 as int, p.1 as int))
}

/// The pieces of `s` under `str::split_whitespace`, as index ranges, for the
/// scan that has reached `i` with the current token starting at `start`
/// (`start < 0`: not inside a token).
pub open spec fn ws_tokens(s: Seq<char>, i: int, start: int) -> Seq<(int, int)>
    decreases s.len() - i,
{
    if i >= s.len() {
        if start >= 0 {
            seq![(start, s.len() as int)]
        } else {
            seq![]
        }
    } else if is_ws(s[i]) {
        if start >= 0 {
            seq![(start, i)] + ws_tokens(s, i + 1, -1)
        } else {
            ws_tokens(s, i + 1, -1)
        }
    } else if start >= 0 {
        ws_tokens(s, i + 1, start)
    } else {
        ws_tokens(s, i + 1, i)
    }
}

/// `str::split_whitespace`.
pub open spec fn split_ws(s: Seq<char>) -> Seq<Seq<char>> {
    ws_tokens(s, 0, -1).map_values(|r: (int, int)| s.subrange(r.0, r.1))
}

pub proof fn lemma_ws_tokens_bounds(s: Seq<char>, i: int, start: int)
    requires
        0 <= i <= s.len(),
        start < i,
    ensures
        forall|k: int|
            0 <= k < ws_tokens(s, i, start).len() ==> {
                let r = #[trigger] ws_tokens(s, i, start)[k];
                &&& 0 <= r.0 < r.1 <= s.len()
                &&& (start >= 0 ==> start <= r.0)
                &&& (start < 0 ==> i <= r.0)
            },
        start >= 0 ==> ws_tokens(s, i, start).len() >= 1,
    decreases s.len() - i,
{
    if i < s.len() {
        if is_ws(s[i]) {
            lemma_ws_tokens_bounds(s, i + 1, -1);
            if start >= 0 {
                let t = ws_tokens(s, i + 1, -1);
                assert forall|k: int| 0 <= k < ws_tokens(s, i, start).len() implies {
                    let r = #[trigger] ws_tokens(s, i, start)[k];
                    &&& 0 <= r.0 < r.1 <= s.len()
                    &&& (start >= 0 ==> start <= r.0)
                } by {
                    if k > 0 {
                        assert(ws_tokens(s, i, start)[k] == t[k - 1]);
                    }
                }
            }
        } else if start >= 0 {
            lemma_ws_tokens_bounds(s, i + 1, start);
        } else {
            lemma_ws_tokens_bounds(s, i + 1, i);
        }
    }
}

/// Index ranges of the whitespace-separated tokens of `v[a..b]`.
pub fn ws_token_ranges(v: &[char], a: usize, b: usize) -> (r: Vec<(usize, usize)>)
    requires
        a <= b <= v@.len(),
    ensures
        ranges_view(r@) == ws_tokens(v@.subrange(0, b as int), a as int, -1),
        forall|k: int|
            0 <= k < r@.len() ==> a <= (#[trigger] r@[k]).0 < r@[k].1 <= b,
{
    let ghost s = v@.subrange(0, b as int);
    let mut r: Vec<(usize, usize)> = Vec::new();
    let mut i: usize = a;
    let mut start: Option<usize> = None;
    while i < b
        invariant
            a <= i <= b <= v@.len(),
            s == v@.subrange(0, b as int),
            match start {
                Some(st) => a <= st < i,
                None => true,
            },
            ws_tokens(s, a as int, -1) == ranges_view(r@) + ws_tokens(
                s,
                i as int,
                match start {
                    Some(st) => st as int,
                    None => -1,
                },
            ),
            forall|k: int| 0 <= k < r@.len() ==> a <= (#[trigger] r@[k]).0 < r@[k].1 <= i,
        decreases b - i,
    {
        let ghost st_int: int = match start {
            Some(st) => st as int,
            None => -1,
        };
        let ghost old_r = r@;
        if is_whitespace(v[i]) {
            match start {
                Some(st) => {
                    r.push((st, i));
                    assert(ranges_view(r@) =~= ranges_view(old_r) + seq![(st as int, i as int)]);
                    assert(ws_tokens(s, i as int, st_int) == seq![(st as int, i as int)]
                        + ws_tokens(s, i + 1, -1));
                    assert(ranges_view(old_r) + (seq![(st as int, i as int)] + ws_tokens(
                        s,
                        i + 1,
                        -1,
                    )) =~= ranges_view(r@) + ws_tokens(s, i + 1, -1));
                },
                None => {},
            }
            start = None;
        } else {
            match start {
                Some(_) => {},
                None => {
                    start = Some(i);
                },
            }
        }
        i += 1;
    }
    match start {
        Some(st) => {
            let ghost old_r = r@;
            r.push((st, b));
            assert(ranges_view(r@) =~= ranges_view(old_r) + seq![(st as int, b as int)]);
        },
        None => {
            assert(ranges_view(r@) + seq![] =~= ranges_view(r@));
        },
    }
    r
}

/// The pieces of `s` under `str::split(c)` as index ranges, for the scan
/// that has reached `i` with the current piece starting at `start`.
pub open spec fn split_ranges(s: Seq<char>, c: char, i: int, start: int) -> Seq<(int, int)>
    decreases s.len() - i,
{
    if i >= s.len() {
        seq![(start, s.len() as int)]
    } else if s[i] == c {
        seq![(start, i)] + split_ranges(s, c, i + 1, i + 1)
    } else {
        split_ranges(s, c, i + 1, start)
    }
}

/// `str::split(c)`.
pub open spec fn split_char(s: Seq<char>, c: char) -> Seq<Seq<char>> {
    split_ranges(s, c, 0, 0).map_values(|r: (int, int)| s.subrange(r.0, r.1))
}

pub proof fn lemma_split_ranges_bounds(s: Seq<char>, c: char, i: int, start: int)
    requires
        0 <= start <= i <= s.len(),
    ensures
        split_ranges(s, c, i, start).len() >= 1,
        split_ranges(s, c, i, start)[0].0 == start,
        forall|k: int|
            0 <= k < split_ranges(s, c, i, start).len() ==> {
                let r = #[trigger] split_ranges(s, c, i, start)[k];
                start <= r.0 <= r.1 <= s.len()
            },
    decreases s.len() - i,
{
    if i < s.len() {
        if s[i] == c {
            lemma_split_ranges_bounds(s, c, i + 1, i + 1);
            let t = split_ranges(s, c, i + 1, i + 1);
            assert forall|k: int| 0 <= k < split_ranges(s, c, i, start).len() implies {
                let r = #[trigger] split_ranges(s, c, i, start)[k];
                start <= r.0 <= r.1 <= s.len()
            } by {
                if k > 0 {
                    assert(split_ranges(s, c, i, start)[k] == t[k - 1]);
                }
            }
        } else {
            lemma_split_ranges_bounds(s, c, i + 1, start);
        }
    }
}

/// Index ranges of the pieces of `v[a..b]` split at `c`.
pub fn split_char_ranges(v: &[char], a: usize, b: usize, c: char) -> (r: Vec<(usize, usize)>)
    requires
        a <= b <= v@.len(),
    ensures
        ranges_view(r@) == split_ranges(v@.subrange(0, b as int), c, a as int, a as int),
        r@.len() >= 1,
        forall|k: int|
            0 <= k < r@.len() ==> a <= (#[trigger] r@[k]).0 <= r@[k].1 <= b,
{
    let ghost s = v@.subrange(0, b as int);
    let mut r: Vec<(usize, usize)> = Vec::new();
    let mut i: usize = a;
    let mut start: usize = a;
    while i < b
        invariant
            a <= start <= i <= b <= v@.len(),
            s == v@.subrange(0, b as int),
            split_ranges(s, c, a as int, a as int) == ranges_view(r@) + split_ranges(
                s,
                c,
                i as int,
                start as int,
            ),
            forall|k: int| 0 <= k < r@.len() ==> a <= (#[trigger] r@[k]).0 <= r@[k].1 <= start,
        decreases b - i,
    {
        if v[i] == c {
            let ghost old_r = r@;
            r.push((start, i));
            assert(ranges_view(r@) =~= ranges_view(old_r) + seq![(start as int, i as int)]);
            assert(ranges_view(old_r) + (seq![(start as int, i as int)] + split_ranges(
                s,
                c,
                i + 1,
                i + 1,
            )) =~= ranges_view(r@) + split_ranges(s, c, i + 1, i + 1));
            start = i + 1;
        }
        i += 1;
    }
    let ghost old_r = r@;
    r.push((start, b));
    assert(ranges_view(r@) =~= ranges_view(old_r) + seq![(start as int, b as int)]);
    r
}

/// `str::split_once(c)` on `s`: the index of the first `c`, if any.
pub open spec fn split_once_at(s: Seq<char>, c: char) -> Option<int> {
    let k = find_from(s, c, 0);
    if k < s.len() {
        Some(k)
    } else {
        None
    }
}


/// The lines of `s` under `str::lines`, as index ranges, for the scan that
/// has reached `i` with the current line starting at `start`: lines end at
/// `\n`, a `\r` right before it is dropped, and there is no empty last
/// line after a final `\n`.
pub open spec fn line_ranges(s: Seq<char>, i: int, start: int) -> Seq<(int, int)>
    decreases s.len() - i,
{
    if i >= s.len() {
        if start < s.len() {
            seq![(start, s.len() as int)]
        } else {
            seq![]
        }
    } else if s[i] == '\n' {
        let e = if i > start && s[i - 1] == '\r' {
            i - 1
        } else {
            i
        };
        seq![(start, e)] + line_ranges(s, i + 1, i + 1)
    } else {
        line_ranges(s, i + 1, start)
    }
}

/// `str::lines`.
pub open spec fn lines_of(s: Seq<char>) -> Seq<Seq<char>> {
    line_ranges(s, 0, 0).map_values(|r: (int, int)| s.subrange(r.0, r.1))
}

pub proof fn lemma_line_ranges_bounds(s: Seq<char>, i: int, start: int)
    requires
        0 <= start <= i <= s.len(),
    ensures
        forall|k: int|
            0 <= k < line_ranges(s, i, start).len() ==> {
                let r = #[trigger] line_ranges(s, i, start)[k];
                start <= r.0 <= r.1 <= s.len()
            },
    decreases s.len() - i,
{
    if i < s.len() {
        if s[i] == '\n' {
            lemma_line_ranges_bounds(s, i + 1, i + 1);
            let t = line_ranges(s, i + 1, i + 1);
            assert forall|k: int| 0 <= k < line_ranges(s, i, start).len() implies {
                let r = #[trigger] line_ranges(s, i, start)[k];
                start <= r.0 <= r.1 <= s.len()
            } by {
                let e = if i > start && s[i - 1] == '\r' {
                    i - 1
                } else {
                    i
                };
                assert(line_ranges(s, i, start) == seq![(start, e)] + t);
                if k > 0 {
                    assert(line_ranges(s, i, start)[k] == t[k - 1]);
                } else {
                    assert(line_ranges(s, i, start)[k] == (start, e));
                }
            }
        } else {
            lemma_line_ranges_bounds(s, i + 1, start);
            assert(line_ranges(s, i, start) == line_ranges(s, i + 1, start));
        }
    } else {
        assert forall|k: int| 0 <= k < line_ranges(s, i, start).len() implies {
            let r = #[trigger] line_ranges(s, i, start)[k];
            start <= r.0 <= r.1 <= s.len()
        } by {
            assert(line_ranges(s, i, start) == seq![(start, s.len() as int)]);
        }
    }
}

/// Index ranges of the lines of `v` (see [`line_ranges`]).
pub fn line_ranges_of(v: &[char]) -> (r: Vec<(usize, usize)>)
    ensures
        ranges_view(r@) == line_ranges(v@, 0, 0),
        forall|k: int| 0 <= k < r@.len() ==> (#[trigger] r@[k]).0 <= r@[k].1 <= v@.len(),
{
    let mut r: Vec<(usize, usize)> = Vec::new();
    let mut i: usize = 0;
    let mut start: usize = 0;
    while i < v.len()
        invariant
            start <= i <= v@.len(),
            line_ranges(v@, 0, 0) == ranges_view(r@) + line_ranges(v@, i as int, start as int),
            forall|k: int| 0 <= k < r@.len() ==> (#[trigger] r@[k]).0 <= r@[k].1 <= start,
        decreases v.len() - i,
    {
        if v[i] == '\n' {
            let e = if i > start && v[i - 1] == '\r' {
                i - 1
            } else {
                i
            };
            let ghost old_r = r@;
            r.push((start, e));
            assert(ranges_view(r@) =~= ranges_view(old_r) + seq![(start as int, e as int)]);
            assert(ranges_view(old_r) + (seq![(start as int, e as int)] + line_ranges(
                v@,
                i + 1,
                i + 1,
            )) =~= ranges_view(r@) + line_ranges(v@, i + 1, i + 1));
            start = i + 1;
        }
        i += 1;
    }
    if start < v.len() {
        let ghost old_r = r@;
        r.push((start, v.len()));
        assert(ranges_view(r@) =~= ranges_view(old_r) + seq![(start as int, v@.len() as int)]);
    } else {
        assert(ranges_view(r@) + seq![] =~= ranges_view(r@));
    }
    r
}

// ---------------------------------------------------------------------
// Numbers
// ---------------------------------------------------------------------

/// Value of one digit in base `radix` (10 or 16), as `char::to_digit`.
pub open spec fn digit_value(c: char, radix: nat) -> Option<nat> {
    if '0' <= c <= '9' && (c as u32 - '0' as u32) < radix {
        Some((c as u32 - '0' as u32) as nat)
    } else if radix == 16 && 'a' <= c <= 'f' {
        Some((c as u32 - 'a' as u32 + 10) as nat)
    } else if radix == 16 && 'A' <= c <= 'F' {
        Some((c as u32 - 'A' as u32 + 10) as nat)
    } else {
        None
    }
}

pub fn to_digit(c: char, radix: u32) -> (r: Option<u32>)
    requires
        radix == 10 || radix == 16,
    ensures
        match digit_value(c, radix as nat) {
            Some(d) => r == Some(d as u32),
            None => r is None,
        },
{
    if '0' <= c && c <= '9' && (c as u32 - '0' as u32) < radix {
        Some(c as u32 - '0' as u32)
    } else if radix == 16 && 'a' <= c && c <= 'f' {
        Some(c as u32 - 'a' as u32 + 10)
    } else if radix == 16 && 'A' <= c && c <= 'F' {
        Some(c as u32 - 'A' as u32 + 10)
    } else {
        None
    }
}

/// All characters of `d` are digits in base `radix`.
pub open spec fn all_digits(d: Seq<char>, radix: nat) -> bool {
    forall|i: int| 0 <= i < d.len() ==> (#[trigger] digit_value(d[i], radix)) is Some
}

/// The number that the digits `d` spell in base `radix`.
pub open spec fn digits_value(d: Seq<char>, radix: nat) -> nat
    decreases d.len(),
{
    if d.len() == 0 {
        0
    } else {
        digits_value(d.drop_last(), radix) * radix + match digit_value(d.last(), radix) {
            Some(v) => v,
            None => 0,
        }
    }
}

/// The value of `s` as an unsigned integer in base `radix`, as
/// `u*::from_str_radix` reads it before its range check: an optional `+`,
/// then one or more digits.
pub open spec fn parse_uint(s: Seq<char>, radix: nat) -> Option<nat> {
    if s.len() == 0 {
        None
    } else {
        let d = if s[0] == '+' {
            s.drop_first()
        } else {
            s
        };
        if d.len() == 0 || !all_digits(d, radix) {
            None
        } else {
            Some(digits_value(d, radix))
        }
    }
}

/// `u*::from_str_radix(s, radix)` for an unsigned type whose largest
/// value is `max`.
pub open spec fn parse_bounded(s: Seq<char>, radix: nat, max: nat) -> Option<nat> {
    match parse_uint(s, radix) {
        Some(n) => if n <= max {
            Some(n)
        } else {
            None
        },
        None => None,
    }
}

proof fn lemma_digits_value_monotone(d: Seq<char>, radix: nat, k: int)
    requires
        1 <= radix,
        0 <= k <= d.len(),
    ensures
        digits_value(d.subrange(0, k), radix) <= digits_value(d, radix),
    decreases d.len() - k,
{
    if k < d.len() {
        lemma_digits_value_monotone(d, radix, k + 1);
        let p = d.subrange(0, k + 1);
        assert(p.drop_last() =~= d.subrange(0, k));
        let a = digits_value(d.subrange(0, k), radix);
        assert(a * radix >= a) by (nonlinear_arith)
            requires
                radix >= 1,
        ;
    } else {
        assert(d.subrange(0, k) =~= d);
    }
}

/// Parses `v[a..b]` as an unsigned integer in base `radix` that must not
/// exceed `max`.
pub fn parse_uint_range(v: &[char], a: usize, b: usize, radix: u32, max: usize) -> (r: Option<
    usize,
>)
    requires
        a <= b <= v@.len(),
        radix == 10 || radix == 16,
    ensures
        match parse_bounded(v@.subrange(a as int, b as int), radix as nat, max as nat) {
            Some(n) => r == Some(n as usize),
            None => r is None,
        },
{
    let ghost s = v@.subrange(a as int, b as int);
    if a == b {
        return None;
    }
    let mut i = a;
    if v[a] == '+' {
        i = a + 1;
    }
    let ghost d = v@.subrange(i as int, b as int);
    proof {
        if v@[a as int] == '+' {
            assert(d =~= s.drop_first());
        } else {
            assert(d =~= s);
        }
    }
    assert(parse_uint(s, radix as nat) == (if d.len() == 0 || !all_digits(d, radix as nat) {
        None
    } else {
        Some(digits_value(d, radix as nat))
    }));
    if i == b {
        return None;
    }
    let start = i;
    let mut j = start;
    while j < b
        invariant
            a <= start <= j <= b <= v@.len(),
            radix == 10 || radix == 16,
            d == v@.subrange(start as int, b as int),
            s == v@.subrange(a as int, b as int),
            parse_uint(s, radix as nat) == (if d.len() == 0 || !all_digits(d, radix as nat) {
                None
            } else {
                Some(digits_value(d, radix as nat))
            }),
            forall|k: int| 0 <= k < j - start ==> (#[trigger] digit_value(d[k], radix as nat)) is Some,
        decreases b - j,
    {
        if to_digit(v[j], radix).is_none() {
            assert(digit_value(d[j - start], radix as nat) is None);
            return None;
        }
        j += 1;
    }
    assert(all_digits(d, radix as nat));
    let mut acc: usize = 0;
    let mut j = start;
    while j < b
        invariant
            a <= start <= j <= b <= v@.len(),
            radix == 10 || radix == 16,
            d == v@.subrange(start as int, b as int),
            s == v@.subrange(a as int, b as int),
            parse_uint(s, radix as nat) == (if d.len() == 0 || !all_digits(d, radix as nat) {
                None
            } else {
                Some(digits_value(d, radix as nat))
            }),
            d.len() > 0,
            all_digits(d, radix as nat),
            acc as nat == digits_value(d.subrange(0, j - start), radix as nat),
            acc <= max,
        decreases b - j,
    {
        let dv = to_digit(v[j], radix).unwrap();
        assert(digit_value(d[j - start], radix as nat) is Some);
        let ghost p = d.subrange(0, j - start + 1);
        assert(p.drop_last() =~= d.subrange(0, j - start));
        assert(p.last() == d[j - start]);
        assert(digits_value(p, radix as nat) == acc * radix + dv);
        if dv as usize > max || acc > (max - dv as usize) / radix as usize {
            proof {
                assert(acc * radix + dv > max) by (nonlinear_arith)
                    requires
                        dv > max || acc > (max - dv) / (radix as int),
                        radix >= 1,
                        acc >= 0,
                        dv >= 0,
                ;
                lemma_digits_value_monotone(d, radix as nat, j - start + 1);
            }
            return None;
        }
        proof {
            assert(acc * radix + dv <= max) by (nonlinear_arith)
                requires
                    dv <= max,
                    acc <= (max - dv) / (radix as int),
                    radix >= 1,
                    acc >= 0,
                    dv >= 0,
            ;
        }
        acc = acc * radix as usize + dv as usize;
        j += 1;
    }
    assert(d.subrange(0, d.len() as int) =~= d);
    Some(acc)
}

/// Decimal digit character.
pub open spec fn digit_char(d: nat) -> char {
    ((d + 48) as u32) as char
}

/// Decimal representation of `n` (as `Display` prints unsigned integers).
pub open spec fn dec(n: nat) -> Seq<char>
    decreases n,
{
    if n < 10 {
        seq![digit_char(n)]
    } else {
        dec(n / 10).push(digit_char(n % 10))
    }
}

/// Appends the decimal representation of `n` to `out`.
pub fn push_dec(out: &mut String, n: u128)
    ensures
        final(out)@ == old(out)@ + dec(n as nat),
    decreases n,
{
    if n >= 10 {
        push_dec(out, n / 10);
    }
    let d = (n % 10) as u8;
    push_char(out, (d + 48) as char);
    proof {
        if n >= 10 {
            assert(dec(n as nat) == dec((n / 10) as nat).push(digit_char((n % 10) as nat)));
        }
    }
}

/// Decimal representation of `n` as a `String`.
pub fn dec_string(n: u64) -> (s: String)
    ensures
        s@ == dec(n as nat),
{
    let mut s = String::new();
    push_dec(&mut s, n as u128);
    assert(s@ =~= dec(n as nat));
    s
}

// ---------------------------------------------------------------------
// UTF-8 and case mappings of std
// ---------------------------------------------------------------------

/// What `String::from_utf8_lossy` makes of the bytes `b`.
pub uninterp spec fn utf8_lossy(b: Seq<u8>) -> Seq<char>;

/// `String::from_utf8_lossy(b).into_owned()`. Claims that the result is the
/// lossy decoding of `b`, and that bytes that are valid UTF-8 are decoded
/// as they are (the documented borrowed case).
#[verifier::external_body]
pub(crate) fn lossy_string(b: &[u8]) -> (s: String)
    ensures
        s@ == utf8_lossy(b@),
        vstd::utf8::valid_utf8(b@) ==> s@ == vstd::utf8::decode_utf8(b@),
{
    String::from_utf8_lossy(b).into_owned()
}

/// What `str::to_lowercase` makes of `s` (full Unicode lowercase mapping).
pub uninterp spec fn lowercase(s: Seq<char>) -> Seq<char>;

/// `str::to_lowercase`. Claims only that the result is the lowercase
/// mapping of the argument; the mapping itself (Unicode tables) is not
/// stated.
#[verifier::external_body]
pub(crate) fn to_lowercase(s: &str) -> (r: String)
    ensures
        r@ == lowercase(s@),
{
    s.to_lowercase()
}

/// What `str::to_uppercase` makes of `s` (full Unicode uppercase mapping).
pub uninterp spec fn uppercase(s: Seq<char>) -> Seq<char>;

/// `str::to_uppercase`. Claims only that the result is the uppercase
/// mapping of the argument; the mapping itself is not stated.
#[verifier::external_body]
pub(crate) fn to_uppercase(s: &str) -> (r: String)
    ensures
        r@ == uppercase(s@),
{
    s.to_uppercase()
}

} // verus!
