//! In-memory sessions keyed by an opaque id handed to clients in a
//! `session_id` cookie.
//!
//! Time is a number of milliseconds on a clock of the caller's choosing
//! (the server uses the time since it started); a new id is made of random
//! bytes that the caller draws.
use vstd::prelude::*;

use crate::text::{chars_of, dec, dec_string, digit_char, digit_value, digits_value, parse_bounded, parse_uint, parse_uint_range, all_digits};

verus! {

/// Server-side data associated with a single browser session.
pub struct Session {
    /// Key/value data; a key occurs at most once.
    pub data: Vec<(String, String)>,
    /// When the session was last used, in milliseconds.
    pub last_access: u64,
}

/// A simple in-memory session store keyed by an opaque session id that is
/// handed to clients via a `Set-Cookie: session_id=...` header.
pub struct SessionStore {
    sessions: Vec<(String, Session)>,
}

// ---------------------------------------------------------------------
// Association lists keyed by strings
// ---------------------------------------------------------------------

/// No key occurs twice in `s`.
pub open spec fn unique_keys<V>(s: Seq<(String, V)>) -> bool {
    forall|i: int, j: int| 0 <= i < j < s.len() ==> (#[trigger] s[i]).0@ != (#[trigger] s[j]).0@
}

/// Key `k` occurs in `s`.
pub open spec fn has_key<V>(s: Seq<(String, V)>, k: Seq<char>) -> bool {
    exists|i: int| 0 <= i < s.len() && (#[trigger] s[i]).0@ == k
}

/// A position of key `k` in `s` (the only one when keys are unique).
pub open spec fn key_pos<V>(s: Seq<(String, V)>, k: Seq<char>) -> int {
    choose|i: int| 0 <= i < s.len() && (#[trigger] s[i]).0@ == k
}

/// The map that a list of string pairs with unique keys stands for.
pub open spec fn data_map(d: Seq<(String, String)>) -> Map<Seq<char>, Seq<char>> {
    Map::new(|k: Seq<char>| has_key(d, k), |k: Seq<char>| d[key_pos(d, k)].1@)
}

/// Model of a session: its data and its last access time.
pub open spec fn session_view(s: Session) -> (Map<Seq<char>, Seq<char>>, u64) {
    (data_map(s.data@), s.last_access)
}

/// The map that the store's list of sessions stands for.
pub open spec fn store_map(s: Seq<(String, Session)>) -> Map<
    Seq<char>,
    (Map<Seq<char>, Seq<char>>, u64),
> {
    Map::new(|k: Seq<char>| has_key(s, k), |k: Seq<char>| session_view(s[key_pos(s, k)].1))
}

/// In a list with unique keys, `key_pos` finds the one position of a key.
proof fn lemma_key_pos<V>(s: Seq<(String, V)>, i: int)
    requires
        unique_keys(s),
        0 <= i < s.len(),
    ensures
        has_key(s, s[i].0@),
        key_pos(s, s[i].0@) == i,
{
    assert(has_key(s, s[i].0@));
    let j = key_pos(s, s[i].0@);
    if j != i {
        if j < i {
            assert(s[j].0@ != s[i].0@);
        } else {
            assert(s[i].0@ != s[j].0@);
        }
    }
}

impl View for SessionStore {
    type V = Map<Seq<char>, (Map<Seq<char>, Seq<char>>, u64)>;

    closed spec fn view(&self) -> Self::V {
        store_map(self.sessions@)
    }
}

/// The visit counter of a session's data: the number stored under
/// `visits`, 0 when it is missing or is not a `u32`.
pub open spec fn visits_in(data: Map<Seq<char>, Seq<char>>) -> nat {
    if data.contains_key("visits"@) {
        match parse_bounded(data["visits"@], 10, u32::MAX as nat) {
            Some(n) => n,
            None => 0,
        }
    } else {
        0
    }
}

/// The visit counter of session `id` in a store (0 for an unknown id).
pub open spec fn visits_of(m: Map<Seq<char>, (Map<Seq<char>, Seq<char>>, u64)>, id: Seq<char>) -> nat {
    if m.contains_key(id) {
        visits_in(m[id].0)
    } else {
        0
    }
}

/// The counter that follows `n` in a `u32`.
pub open spec fn next_count(n: nat) -> u32 {
    if n < u32::MAX {
        (n + 1) as u32
    } else {
        0
    }
}

/// What `record_visit` makes of session `id` in store `m` at time `now`.
pub open spec fn after_visit(
    m: Map<Seq<char>, (Map<Seq<char>, Seq<char>>, u64)>,
    id: Seq<char>,
    now: u64,
) -> Map<Seq<char>, (Map<Seq<char>, Seq<char>>, u64)> {
    let data = if m.contains_key(id) {
        m[id].0
    } else {
        Map::empty()
    };
    m.insert(id, (data.insert("visits"@, dec(next_count(visits_of(m, id)) as nat)), now))
}

/// How long ago, at time `now`, a session last used at `last` was used
/// (0 if `last` lies after `now`).
pub open spec fn age(now: u64, last: u64) -> nat {
    if now >= last {
        (now - last) as nat
    } else {
        0
    }
}

/// The sessions of `m` that have been used within `max_age` of `now`.
pub open spec fn recent_sessions(
    m: Map<Seq<char>, (Map<Seq<char>, Seq<char>>, u64)>,
    now: u64,
    max_age: u64,
) -> Map<Seq<char>, (Map<Seq<char>, Seq<char>>, u64)> {
    Map::new(|k: Seq<char>| m.contains_key(k) && age(now, m[k].1) < max_age, |k: Seq<char>| m[k])
}

impl SessionStore {
    /// Keys are unique, in the store and in each session's data.
    #[verifier::type_invariant]
    spec fn well_formed(self) -> bool {
        &&& unique_keys(self.sessions@)
        &&& forall|i: int| 0 <= i < self.sessions@.len() ==> unique_keys((#[trigger] self.sessions@[i]).1.data@)
    }

    pub fn new() -> (r: Self)
        ensures
            r@ == Map::<Seq<char>, (Map<Seq<char>, Seq<char>>, u64)>::empty(),
    {
        let r = SessionStore { sessions: Vec::new() };
        assert(r@ =~= Map::<Seq<char>, (Map<Seq<char>, Seq<char>>, u64)>::empty());
        r
    }

    /// Position of session `id`.
    fn find(&self, id: &str) -> (r: Option<usize>)
        ensures
            match r {
                Some(i) => i < self.sessions@.len() && self.sessions@[i as int].0@ == id@,
                None => !has_key(self.sessions@, id@),
            },
    {
        let key = id.to_owned();
        let mut i: usize = 0;
        while i < self.sessions.len()
            invariant
                i <= self.sessions@.len(),
                key@ == id@,
                forall|j: int| 0 <= j < i ==> (#[trigger] self.sessions@[j]).0@ != id@,
            decreases self.sessions.len() - i,
        {
            if self.sessions[i].0 == key {
                return Some(i);
            }
            i += 1;
        }
        None
    }

    /// Looks up `existing` (the session id sent by the client, if any).
    /// Returns the session id to use and whether it is new (so the caller
    /// can send `Set-Cookie`): `existing` when the store knows it, else a
    /// fresh id made of the random bytes `fresh` (32 lowercase hex
    /// digits), under which a new empty session is stored. The session's
    /// last access becomes `now`.
    pub fn resolve(&mut self, existing: Option<&str>, fresh: &[u8; 16], now: u64) -> (r: (
        String,
        bool,
    ))
        ensures
            match existing {
                Some(id) if old(self)@.contains_key(id@) => {
                    &&& r.0@ == id@
                    &&& !r.1
                    &&& final(self)@ == old(self)@.insert(id@, (old(self)@[id@].0, now))
                },
                _ => {
                    &&& r.0@ == hex_of(fresh@)
                    &&& r.1
                    &&& final(self)@ == old(self)@.insert(hex_of(fresh@), (Map::empty(), now))
                },
            },
            r.1 ==> is_session_id(r.0@),
            final(self)@.contains_key(r.0@),
    {
        proof {
            use_type_invariant(&*self);
        }
        match existing {
            Some(id) => {
                match self.find(id) {
                    Some(i) => {
                        self.touch(i, now);
                        return (id.to_owned(), false);
                    },
                    None => {},
                }
            },
            None => {},
        }
        let fresh_id = session_id_from_bytes(fresh.as_slice());
        proof {
            lemma_hex_of(fresh@);
        }
        let key = fresh_id.clone();
        self.insert_new(key, now);
        (fresh_id, true)
    }

    /// Sets the last access of the session at `i` to `now`.
    fn touch(&mut self, i: usize, now: u64)
        requires
            i < old(self).sessions@.len(),
        ensures
            final(self).sessions@.len() == old(self).sessions@.len(),
            final(self)@ == old(self)@.insert(
                old(self).sessions@[i as int].0@,
                (old(self)@[old(self).sessions@[i as int].0@].0, now),
            ),
    {
        proof {
            use_type_invariant(&*self);
            lemma_key_pos(self.sessions@, i as int);
        }
        let ghost old_s = self.sessions@;
        let mut sessions = Vec::new();
        std::mem::swap(&mut sessions, &mut self.sessions);
        let (k, mut s) = sessions.remove(i);
        s.last_access = now;
        sessions.insert(i, (k, s));
        proof {
            assert(sessions@ =~= old_s.update(i as int, (old_s[i as int].0, s)));
            lemma_update_store(old_s, i as int, old_s[i as int].0, s);
        }
        self.sessions = sessions;
    }

    /// Stores a new empty session under `key`, replacing one stored under
    /// the same key.
    fn insert_new(&mut self, key: String, now: u64)
        ensures
            final(self)@ == old(self)@.insert(key@, (Map::empty(), now)),
    {
        proof {
            use_type_invariant(&*self);
        }
        let fresh = Session { data: Vec::new(), last_access: now };
        assert(data_map(fresh.data@) =~= Map::empty());
        match self.find(key.as_str()) {
            Some(i) => {
                let ghost old_s = self.sessions@;
                proof {
                    lemma_key_pos(old_s, i as int);
                }
                let mut sessions = Vec::new();
                std::mem::swap(&mut sessions, &mut self.sessions);
                sessions.set(i, (key, fresh));
                proof {
                    lemma_update_store(old_s, i as int, sessions@[i as int].0, fresh);
                }
                self.sessions = sessions;
            },
            None => {
                let ghost old_s = self.sessions@;
                let mut sessions = Vec::new();
                std::mem::swap(&mut sessions, &mut self.sessions);
                sessions.push((key, fresh));
                proof {
                    lemma_push_store(old_s, sessions@.last().0, fresh);
                }
                self.sessions = sessions;
            },
        }
    }
}

/// Replacing the session at `i` of a list with unique keys replaces its
/// entry in the map.
proof fn lemma_update_store(s: Seq<(String, Session)>, i: int, k: String, v: Session)
    requires
        unique_keys(s),
        0 <= i < s.len(),
        k@ == s[i].0@,
    ensures
        unique_keys(s.update(i, (k, v))),
        store_map(s.update(i, (k, v))) == store_map(s).insert(s[i].0@, session_view(v)),
{
    let t = s.update(i, (k, v));
    assert forall|a: int, b: int| 0 <= a < b < t.len() implies (#[trigger] t[a]).0@ != (#[trigger] t[b]).0@ by {
        assert(s[a].0@ != s[b].0@);
    }
    lemma_key_pos(t, i);
    assert forall|k: Seq<char>| #[trigger] has_key(t, k) == has_key(s, k) by {
        if has_key(s, k) {
            let j = key_pos(s, k);
            assert(t[j].0@ == k);
        }
        if has_key(t, k) {
            let j = key_pos(t, k);
            assert(s[j].0@ == k);
        }
    }
    assert forall|k: Seq<char>| has_key(t, k) && k != s[i].0@ implies key_pos(t, k) == key_pos(s, k) by {
        let j = key_pos(t, k);
        lemma_key_pos(t, j);
        lemma_key_pos(s, j);
    }
    assert(store_map(t) =~= store_map(s).insert(s[i].0@, session_view(v)));
}

/// Appending a session under a new key adds it to the map.
proof fn lemma_push_store(s: Seq<(String, Session)>, k: String, v: Session)
    requires
        unique_keys(s),
        !has_key(s, k@),
    ensures
        unique_keys(s.push((k, v))),
        store_map(s.push((k, v))) == store_map(s).insert(k@, session_view(v)),
{
    let t = s.push((k, v));
    assert forall|a: int, b: int| 0 <= a < b < t.len() implies (#[trigger] t[a]).0@ != (#[trigger] t[b]).0@ by {
        if b == s.len() {
            assert(t[a] == s[a]);
        } else {
            assert(t[a] == s[a] && t[b] == s[b]);
        }
    }
    lemma_key_pos(t, s.len() as int);
    assert forall|key: Seq<char>| #[trigger] has_key(t, key) == (has_key(s, key) || key == k@) by {
        if has_key(s, key) {
            let j = key_pos(s, key);
            assert(t[j] == s[j]);
        }
        if has_key(t, key) && key != k@ {
            let j = key_pos(t, key);
            assert(t[j] == s[j]);
        }
    }
    assert forall|key: Seq<char>| has_key(s, key) implies key_pos(t, key) == key_pos(s, key) by {
        let j = key_pos(s, key);
        lemma_key_pos(s, j);
        assert(t[j] == s[j]);
        lemma_key_pos(t, j);
    }
    assert(store_map(t) =~= store_map(s).insert(k@, session_view(v)));
}


/// Replacing the value at `i` of a data list with unique keys replaces its
/// entry in the map.
proof fn lemma_update_data(s: Seq<(String, String)>, i: int, k: String, v: String)
    requires
        unique_keys(s),
        0 <= i < s.len(),
        k@ == s[i].0@,
    ensures
        unique_keys(s.update(i, (k, v))),
        data_map(s.update(i, (k, v))) == data_map(s).insert(s[i].0@, v@),
{
    let t = s.update(i, (k, v));
    assert forall|a: int, b: int| 0 <= a < b < t.len() implies (#[trigger] t[a]).0@ != (#[trigger] t[b]).0@ by {
        assert(s[a].0@ != s[b].0@);
    }
    lemma_key_pos(t, i);
    assert forall|key: Seq<char>| #[trigger] has_key(t, key) == has_key(s, key) by {
        if has_key(s, key) {
            let j = key_pos(s, key);
            assert(t[j].0@ == key);
        }
        if has_key(t, key) {
            let j = key_pos(t, key);
            assert(s[j].0@ == key);
        }
    }
    assert forall|key: Seq<char>| has_key(t, key) && key != s[i].0@ implies key_pos(t, key) == key_pos(s, key) by {
        let j = key_pos(t, key);
        lemma_key_pos(t, j);
        lemma_key_pos(s, j);
    }
    assert(data_map(t) =~= data_map(s).insert(s[i].0@, v@));
}

/// Appending a value under a new key adds it to the map.
proof fn lemma_push_data(s: Seq<(String, String)>, k: String, v: String)
    requires
        unique_keys(s),
        !has_key(s, k@),
    ensures
        unique_keys(s.push((k, v))),
        data_map(s.push((k, v))) == data_map(s).insert(k@, v@),
{
    let t = s.push((k, v));
    assert forall|a: int, b: int| 0 <= a < b < t.len() implies (#[trigger] t[a]).0@ != (#[trigger] t[b]).0@ by {
        if b == s.len() {
            assert(t[a] == s[a]);
        } else {
            assert(t[a] == s[a] && t[b] == s[b]);
        }
    }
    lemma_key_pos(t, s.len() as int);
    assert forall|key: Seq<char>| #[trigger] has_key(t, key) == (has_key(s, key) || key == k@) by {
        if has_key(s, key) {
            let j = key_pos(s, key);
            assert(t[j] == s[j]);
        }
        if has_key(t, key) && key != k@ {
            let j = key_pos(t, key);
            assert(t[j] == s[j]);
        }
    }
    assert forall|key: Seq<char>| has_key(s, key) implies key_pos(t, key) == key_pos(s, key) by {
        let j = key_pos(s, key);
        lemma_key_pos(s, j);
        assert(t[j] == s[j]);
        lemma_key_pos(t, j);
    }
    assert(data_map(t) =~= data_map(s).insert(k@, v@));
}

/// The decimal digits of `n` read back as `n`.
pub proof fn lemma_dec_parses(n: nat)
    ensures
        dec(n).len() > 0,
        dec(n)[0] != '+',
        all_digits(dec(n), 10),
        digits_value(dec(n), 10) == n,
        parse_uint(dec(n), 10) == Some(n),
    decreases n,
{
    let d = dec(n);
    if n < 10 {
        assert(d == seq![digit_char(n)]);
        assert(digit_value(digit_char(n), 10) == Some(n));
        assert(d.drop_last() =~= Seq::<char>::empty());
        assert(d.last() == digit_char(n));
        assert(digits_value(Seq::<char>::empty(), 10) == 0);
        assert(digits_value(d, 10) == n);
    } else {
        lemma_dec_parses(n / 10);
        let p = dec(n / 10);
        assert(d == p.push(digit_char(n % 10)));
        assert(d.drop_last() =~= p);
        assert(digit_value(digit_char(n % 10), 10) == Some(n % 10));
        assert(d[0] == p[0]);
        assert forall|i: int| 0 <= i < d.len() implies (#[trigger] digit_value(d[i], 10)) is Some by {
            if i < p.len() {
                assert(d[i] == p[i]);
                assert(digit_value(p[i], 10) is Some);
            }
        }
        assert(d.last() == digit_char(n % 10));
        assert(digits_value(d, 10) == digits_value(p, 10) * 10 + n % 10);
        assert((n / 10) * 10 + n % 10 == n) by (nonlinear_arith);
        assert(digits_value(d, 10) == n);
    }
}

impl SessionStore {
    /// The visit counter of the session at `i`.
    fn visits_at(&self, i: usize) -> (r: u32)
        requires
            i < self.sessions@.len(),
        ensures
            r as nat == visits_of(self@, self.sessions@[i as int].0@),
    {
        proof {
            use_type_invariant(self);
            lemma_key_pos(self.sessions@, i as int);
        }
        visits_in_data(&self.sessions[i].1.data)
    }

    /// Increments and returns the visit counter for a session, creating
    /// the session if the store does not know `id`; its last access
    /// becomes `now`. The counter wraps to 0 after `u32::MAX`.
    pub fn record_visit(&mut self, id: &str, now: u64) -> (r: u32)
        ensures
            r == next_count(visits_of(old(self)@, id@)),
            final(self)@ == after_visit(old(self)@, id@, now),
    {
        proof {
            use_type_invariant(&*self);
        }
        match self.find(id) {
            Some(i) => {
                let n = self.visits_at(i);
                let next = if n < u32::MAX {
                    n + 1
                } else {
                    0
                };
                self.set_visits(i, next, now);
                next
            },
            None => {
                let ghost old_s = self.sessions@;
                let mut data: Vec<(String, String)> = Vec::new();
                let one = dec_string(1);
                data.push(("visits".to_owned(), one));
                let fresh = Session { data, last_access: now };
                proof {
                    lemma_push_data(Seq::empty(), fresh.data@[0].0, fresh.data@[0].1);
                    assert(Seq::<(String, String)>::empty().push(fresh.data@[0]) =~= fresh.data@);
                    assert(data_map(fresh.data@) =~= Map::<Seq<char>, Seq<char>>::empty().insert("visits"@, dec(1)));
                }
                let mut sessions = Vec::new();
                std::mem::swap(&mut sessions, &mut self.sessions);
                sessions.push((id.to_owned(), fresh));
                proof {
                    lemma_push_store(old_s, sessions@.last().0, fresh);
                    assert(sessions@ =~= old_s.push(sessions@.last()));
                }
                self.sessions = sessions;
                1
            },
        }
    }

    /// Stores `count` as the visit counter of the session at `i` and sets
    /// its last access to `now`.
    fn set_visits(&mut self, i: usize, count: u32, now: u64)
        requires
            i < old(self).sessions@.len(),
        ensures
            final(self)@ == old(self)@.insert(
                old(self).sessions@[i as int].0@,
                (old(self)@[old(self).sessions@[i as int].0@].0.insert("visits"@, dec(count as nat)), now),
            ),
    {
        proof {
            use_type_invariant(&*self);
            lemma_key_pos(self.sessions@, i as int);
        }
        let ghost old_s = self.sessions@;
        let mut sessions = Vec::new();
        std::mem::swap(&mut sessions, &mut self.sessions);
        let (k, mut s) = sessions.remove(i);
        assert(unique_keys(s.data@));
        s.last_access = now;
        let key = "visits".to_owned();
        let value = dec_string(count as u64);
        let ghost old_d = s.data@;
        let mut j: usize = 0;
        let mut found: Option<usize> = None;
        while j < s.data.len()
            invariant_except_break
                found is None,
            invariant
                j <= s.data@.len(),
                s.data@ == old_d,
                key@ == "visits"@,
                forall|t: int| 0 <= t < j ==> (#[trigger] old_d[t]).0@ != "visits"@,
            ensures
                match found {
                    Some(f) => f < old_d.len() && old_d[f as int].0@ == "visits"@,
                    None => !has_key(old_d, "visits"@),
                },
            decreases s.data.len() - j,
        {
            if s.data[j].0 == key {
                found = Some(j);
                break;
            }
            j += 1;
        }
        match found {
            Some(f) => {
                s.data.set(f, (key, value));
                proof {
                    lemma_update_data(old_d, f as int, s.data@[f as int].0, s.data@[f as int].1);
                }
            },
            None => {
                s.data.push((key, value));
                proof {
                    lemma_push_data(old_d, s.data@.last().0, s.data@.last().1);
                    assert(s.data@ =~= old_d.push(s.data@.last()));
                }
            },
        }
        let ghost news = s;
        sessions.insert(i, (k, s));
        proof {
            assert(sessions@ =~= old_s.update(i as int, (old_s[i as int].0, news)));
            lemma_update_store(old_s, i as int, old_s[i as int].0, news);
        }
        self.sessions = sessions;
    }

    /// Drops sessions that have not been accessed for `max_age` or longer
    /// at time `now`.
    pub fn cleanup(&mut self, now: u64, max_age: u64)
        ensures
            final(self)@ == recent_sessions(old(self)@, now, max_age),
    {
        proof {
            use_type_invariant(&*self);
        }
        let ghost old_s = self.sessions@;
        let mut sessions = Vec::new();
        std::mem::swap(&mut sessions, &mut self.sessions);
        let mut kept: Vec<(String, Session)> = Vec::new();
        let mut i: usize = 0;
        while i < sessions.len()
            invariant
                i <= sessions@.len(),
                sessions@ == old_s,
                unique_keys(old_s),
                forall|t: int| 0 <= t < old_s.len() ==> unique_keys((#[trigger] old_s[t]).1.data@),
                forall|t: int| 0 <= t < kept@.len() ==> unique_keys((#[trigger] kept@[t]).1.data@),
                unique_keys(kept@),
                forall|k: Seq<char>| #[trigger] has_key(kept@, k) ==> has_key(old_s.subrange(0, i as int), k),
                store_map(kept@) == recent_sessions(store_map(old_s.subrange(0, i as int)), now, max_age),
            decreases sessions.len() - i,
        {
            let last = sessions[i].1.last_access;
            let a = if now >= last {
                now - last
            } else {
                0
            };
            proof {
                lemma_prefix_store(old_s, i as int);
            }
            if a < max_age {
                let ghost old_kept = kept@;
                let k = sessions[i].0.clone();
                let s = Session { data: clone_pairs(&sessions[i].1.data), last_access: last };
                proof {
                    assert(!has_key(old_kept, k@)) by {
                        if has_key(old_kept, k@) {
                            let j = key_pos(old_s.subrange(0, i as int), k@);
                            assert(old_s[j].0@ == old_s[i as int].0@);
                        }
                    }
                    lemma_push_store(old_kept, k, s);
                }
                kept.push((k, s));
                proof {
                    assert(kept@ =~= old_kept.push((k, s)));
                    assert forall|key: Seq<char>| #[trigger] has_key(kept@, key) implies has_key(old_s.subrange(0, i + 1), key) by {
                        if key != k@ {
                            assert(has_key(old_kept, key)) by {
                                let j = key_pos(kept@, key);
                                assert(kept@[j] == old_kept[j]);
                            }
                            let j = key_pos(old_s.subrange(0, i as int), key);
                            assert(old_s.subrange(0, i + 1)[j] == old_s[j]);
                        } else {
                            assert(old_s.subrange(0, i + 1)[i as int] == old_s[i as int]);
                        }
                    }
                    assert(store_map(kept@) =~= recent_sessions(store_map(old_s.subrange(0, i + 1)), now, max_age));
                }
            } else {
                proof {
                    assert forall|key: Seq<char>| #[trigger] has_key(kept@, key) implies has_key(old_s.subrange(0, i + 1), key) by {
                        let j = key_pos(old_s.subrange(0, i as int), key);
                        assert(old_s.subrange(0, i + 1)[j] == old_s[j]);
                    }
                    assert(store_map(kept@) =~= recent_sessions(store_map(old_s.subrange(0, i + 1)), now, max_age));
                }
            }
            i += 1;
        }
        assert(old_s.subrange(0, old_s.len() as int) =~= old_s);
        self.sessions = kept;
    }
}

/// The visit counter stored in session data.
fn visits_in_data(data: &Vec<(String, String)>) -> (r: u32)
    requires
        unique_keys(data@),
    ensures
        r as nat == visits_in(data_map(data@)),
{
    let key = "visits".to_owned();
    let mut j: usize = 0;
    while j < data.len()
        invariant
            j <= data@.len(),
            unique_keys(data@),
            key@ == "visits"@,
            forall|t: int| 0 <= t < j ==> (#[trigger] data@[t]).0@ != "visits"@,
        decreases data.len() - j,
    {
        if data[j].0 == key {
            proof {
                lemma_key_pos(data@, j as int);
            }
            let v = chars_of(data[j].1.as_str());
            assert(v@.subrange(0, v@.len() as int) =~= v@);
            return match parse_uint_range(v.as_slice(), 0, v.len(), 10, 0xffff_ffffusize) {
                Some(n) => n as u32,
                None => 0,
            };
        }
        j += 1;
    }
    0
}

/// A copy of a list of string pairs.
fn clone_pairs(v: &Vec<(String, String)>) -> (r: Vec<(String, String)>)
    ensures
        r@ == v@,
{
    let mut r: Vec<(String, String)> = Vec::new();
    let mut i: usize = 0;
    while i < v.len()
        invariant
            i <= v@.len(),
            r@ == v@.subrange(0, i as int),
        decreases v.len() - i,
    {
        r.push((v[i].0.clone(), v[i].1.clone()));
        i += 1;
        assert(r@ =~= v@.subrange(0, i as int));
    }
    assert(v@.subrange(0, v@.len() as int) =~= v@);
    r
}

/// How the map of the first `i + 1` sessions grows from that of the first
/// `i`.
proof fn lemma_prefix_store(s: Seq<(String, Session)>, i: int)
    requires
        unique_keys(s),
        0 <= i < s.len(),
    ensures
        !has_key(s.subrange(0, i), s[i].0@),
        unique_keys(s.subrange(0, i)),
        store_map(s.subrange(0, i + 1)) == store_map(s.subrange(0, i)).insert(s[i].0@, session_view(s[i].1)),
{
    let p = s.subrange(0, i);
    assert(s.subrange(0, i + 1) =~= p.push(s[i]));
    if has_key(p, s[i].0@) {
        let j = key_pos(p, s[i].0@);
        assert(p[j] == s[j]);
    }
    assert forall|a: int, b: int| 0 <= a < b < p.len() implies (#[trigger] p[a]).0@ != (#[trigger] p[b]).0@ by {
        assert(p[a] == s[a] && p[b] == s[b]);
    }
    lemma_push_store(p, s[i].0, s[i].1);
}

/// A visit leaves in the store the count it returned, so the next visit
/// of the same session returns one more (wrapping after `u32::MAX`).
pub proof fn lemma_visit_counts_up(
    m: Map<Seq<char>, (Map<Seq<char>, Seq<char>>, u64)>,
    id: Seq<char>,
    now: u64,
)
    ensures
        visits_of(after_visit(m, id, now), id) == next_count(visits_of(m, id)) as nat,
        after_visit(m, id, now).contains_key(id),
        after_visit(m, id, now)[id].1 == now,
{
    let n = next_count(visits_of(m, id));
    lemma_dec_parses(n as nat);
    let m2 = after_visit(m, id, now);
    assert(m2[id].0.contains_key("visits"@));
    assert(m2[id].0["visits"@] == dec(n as nat));
}


/// The store after the visits `visits`, in order: each is a session id and
/// the time of the visit.
pub open spec fn after_visits(
    m: Map<Seq<char>, (Map<Seq<char>, Seq<char>>, u64)>,
    visits: Seq<(Seq<char>, u64)>,
) -> Map<Seq<char>, (Map<Seq<char>, Seq<char>>, u64)>
    decreases visits.len(),
{
    if visits.len() == 0 {
        m
    } else {
        after_visit(after_visits(m, visits.drop_last()), visits.last().0, visits.last().1)
    }
}

/// How many of `visits` are visits of session `id`.
pub open spec fn visits_by(visits: Seq<(Seq<char>, u64)>, id: Seq<char>) -> nat
    decreases visits.len(),
{
    if visits.len() == 0 {
        0
    } else {
        visits_by(visits.drop_last(), id) + if visits.last().0 == id {
            1nat
        } else {
            0nat
        }
    }
}

/// The visit counter counts the visits of its session, whatever visits of
/// other sessions come between: after `k` visits of `id` (`k` less than
/// `u32::MAX`, counted from the count `id` had), the next visit returns
/// one more than that.
pub proof fn lemma_visits_accumulate(
    m: Map<Seq<char>, (Map<Seq<char>, Seq<char>>, u64)>,
    visits: Seq<(Seq<char>, u64)>,
    id: Seq<char>,
)
    requires
        visits_of(m, id) + visits_by(visits, id) < u32::MAX,
    ensures
        visits_of(after_visits(m, visits), id) == visits_of(m, id) + visits_by(visits, id),
        next_count(visits_of(after_visits(m, visits), id)) == visits_of(m, id) + visits_by(
            visits,
            id,
        ) + 1,
    decreases visits.len(),
{
    if visits.len() > 0 {
        let rest = visits.drop_last();
        lemma_visits_accumulate(m, rest, id);
        let before = after_visits(m, rest);
        let (who, now) = visits.last();
        lemma_visit_counts_up(before, who, now);
        if who != id {
            let after = after_visit(before, who, now);
            assert(after.contains_key(id) == before.contains_key(id));
            if before.contains_key(id) {
                assert(after[id] == before[id]);
            }
        }
    }
}

// ---------------------------------------------------------------------
// Session ids
// ---------------------------------------------------------------------

/// Lowercase hexadecimal digit of `d < 16`.
pub open spec fn hex_digit(d: nat) -> char {
    if d < 10 {
        (48 + d) as char
    } else {
        (87 + d) as char
    }
}

/// Two lowercase hexadecimal digits per byte (`{:02x}`), in order.
pub open spec fn hex_of(bytes: Seq<u8>) -> Seq<char>
    decreases bytes.len(),
{
    if bytes.len() == 0 {
        seq![]
    } else {
        hex_of(bytes.drop_last()) + seq![
            hex_digit((bytes.last() / 16) as nat),
            hex_digit((bytes.last() % 16) as nat),
        ]
    }
}

/// A lowercase hexadecimal digit.
pub open spec fn is_lower_hex(c: char) -> bool {
    ('0' <= c <= '9') || ('a' <= c <= 'f')
}

/// The form of the session ids that the store makes: 32 lowercase
/// hexadecimal digits.
pub open spec fn is_session_id(s: Seq<char>) -> bool {
    s.len() == 32 && forall|i: int| 0 <= i < s.len() ==> is_lower_hex(#[trigger] s[i])
}

/// [`hex_of`] gives two lowercase hexadecimal digits per byte.
pub proof fn lemma_hex_of(bytes: Seq<u8>)
    ensures
        hex_of(bytes).len() == 2 * bytes.len(),
        forall|i: int| 0 <= i < hex_of(bytes).len() ==> is_lower_hex(#[trigger] hex_of(bytes)[i]),
    decreases bytes.len(),
{
    if bytes.len() > 0 {
        let rest = bytes.drop_last();
        lemma_hex_of(rest);
        let h = hex_of(bytes);
        let p = hex_of(rest);
        let hi = hex_digit((bytes.last() / 16) as nat);
        let lo = hex_digit((bytes.last() % 16) as nat);
        assert(is_lower_hex(hi) && is_lower_hex(lo));
        assert forall|i: int| 0 <= i < h.len() implies is_lower_hex(#[trigger] h[i]) by {
            if i < p.len() {
                assert(h[i] == p[i]);
            } else if i == p.len() {
                assert(h[i] == hi);
            } else {
                assert(h[i] == lo);
            }
        }
    }
}

fn hex_char(d: u8) -> (c: char)
    requires
        d < 16,
    ensures
        c == hex_digit(d as nat),
{
    if d < 10 {
        (48 + d) as char
    } else {
        (87 + d) as char
    }
}

/// The session id made of random `bytes`: their hexadecimal digits.
pub fn session_id_from_bytes(bytes: &[u8]) -> (r: String)
    ensures
        r@ == hex_of(bytes@),
{
    let mut s = String::new();
    let mut i: usize = 0;
    while i < bytes.len()
        invariant
            i <= bytes@.len(),
            s@ == hex_of(bytes@.subrange(0, i as int)),
        decreases bytes.len() - i,
    {
        let b = bytes[i];
        crate::text::push_char(&mut s, hex_char(b / 16));
        crate::text::push_char(&mut s, hex_char(b % 16));
        proof {
            let q = bytes@.subrange(0, i + 1);
            assert(q.drop_last() =~= bytes@.subrange(0, i as int));
            assert(q.last() == b);
        }
        i += 1;
    }
    assert(bytes@.subrange(0, bytes@.len() as int) =~= bytes@);
    s
}

/// The `k` lowest bytes of `n`, least significant first.
pub open spec fn le_bytes(n: nat, k: nat) -> Seq<u8>
    decreases k,
{
    if k == 0 {
        seq![]
    } else {
        seq![(n % 256) as u8] + le_bytes(n / 256, (k - 1) as nat)
    }
}

/// The bytes a session id is made of when no random bytes can be had:
/// the 16 lowest bytes of the time in nanoseconds, least significant
/// first.
pub fn id_bytes_from_time(nanos: u128) -> (r: Vec<u8>)
    ensures
        r@ == le_bytes(nanos as nat, 16),
{
    let mut v: Vec<u8> = Vec::new();
    let mut n = nanos;
    let mut i: usize = 0;
    while i < 16
        invariant
            i <= 16,
            v@ + le_bytes(n as nat, (16 - i) as nat) == le_bytes(nanos as nat, 16),
        decreases 16 - i,
    {
        let ghost before = v@;
        let ghost n0 = n;
        v.push((n % 256) as u8);
        n = n / 256;
        proof {
            assert(le_bytes(n0 as nat, (16 - i) as nat) == seq![(n0 % 256) as u8] + le_bytes(
                (n0 / 256) as nat,
                (16 - i - 1) as nat,
            ));
            assert(v@ + le_bytes(n as nat, (16 - i - 1) as nat) =~= before + le_bytes(
                n0 as nat,
                (16 - i) as nat,
            ));
        }
        i += 1;
    }
    assert(v@ + le_bytes(n as nat, 0) =~= v@);
    v
}

} // verus!
