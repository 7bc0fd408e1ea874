//! Sessions keyed by a cookie value, and the cookie helpers around them.
use vstd::prelude::*;
use std::hash::BuildHasher;
use crate::bytes::{
    append_bytes, copy, dec, dec_bytes, find_byte, find_first, hex, hex_bytes, slice_of, trim,
    trim_bytes,
};
use crate::fields::{bytes_eq, insert, lookup, unique_names, FieldMap, FieldsView};
use crate::http_parser::HttpRequest;
use crate::http_response::{b, framed, serialize, text, with_body, with_header, HttpResponse, ResponseView};

verus! {

pub struct SessionData {
    pub id: Vec<u8>,
    pub data: FieldMap,
    pub created_at: u64,
    pub last_accessed: u64,
}

pub struct SessionView {
    pub id: Seq<u8>,
    pub data: FieldsView,
    pub created_at: u64,
    pub last_accessed: u64,
}

impl View for SessionData {
    type V = SessionView;

    open spec fn view(&self) -> SessionView {
        SessionView {
            id: self.id@,
            data: self.data@,
            created_at: self.created_at,
            last_accessed: self.last_accessed,
        }
    }
}

pub struct SessionManager {
    sessions: Vec<SessionData>,
}

impl View for SessionManager {
    type V = Seq<SessionView>;

    closed spec fn view(&self) -> Seq<SessionView> {
        Seq::new(self.sessions@.len(), |i: int| self.sessions@[i]@)
    }
}

/// Session `i` has id `id`.
pub open spec fn id_at(s: Seq<SessionView>, id: Seq<u8>, i: int) -> bool {
    0 <= i < s.len() && s[i].id == id
}

/// No two sessions share an id.
pub open spec fn unique_ids(s: Seq<SessionView>) -> bool {
    forall|i: int, j: int| 0 <= i < s.len() && 0 <= j < s.len() && s[i].id == s[j].id ==> i == j
}

pub open spec fn has_session(s: Seq<SessionView>, id: Seq<u8>) -> bool {
    exists|i: int| id_at(s, id, i)
}

/// A session that starts at `now`, with no data.
pub open spec fn new_session(id: Seq<u8>, now: u64) -> SessionView {
    SessionView { id, data: Seq::empty(), created_at: now, last_accessed: now }
}

/// The table with a fresh session `id`: it replaces a session of that id,
/// else it is added at the end.
pub open spec fn with_session(s: Seq<SessionView>, id: Seq<u8>, now: u64) -> Seq<SessionView> {
    if has_session(s, id) {
        s.update(choose|i: int| id_at(s, id, i), new_session(id, now))
    } else {
        s.push(new_session(id, now))
    }
}

/// The table after session `i` was used at `now`.
pub open spec fn touched(s: Seq<SessionView>, i: int, now: u64) -> Seq<SessionView> {
    s.update(i, SessionView { last_accessed: now, ..s[i] })
}

/// Seconds since `last`, as unsigned 64-bit arithmetic computes them.
pub open spec fn idle_secs(now: u64, last: u64) -> int {
    if now >= last {
        now - last
    } else {
        now + 0x1_0000_0000_0000_0000 - last
    }
}

/// The table without the sessions idle for `max_age` seconds or more.
pub open spec fn unexpired(s: Seq<SessionView>, now: u64, max_age: u64) -> Seq<SessionView> {
    s.filter(keeps(now, max_age))
}

/// Whether a session is kept at `now`: it has been idle under `max_age` seconds.
pub open spec fn keeps(now: u64, max_age: u64) -> spec_fn(SessionView) -> bool {
    |x: SessionView| idle_secs(now, x.last_accessed) < max_age
}

/// Relies on `SystemTime::now`: the current Unix time in seconds (0 for a
/// clock set before 1970).
#[verifier::external_body]
fn current_timestamp() -> u64 {
    std::time::SystemTime::now().duration_since(std::time::UNIX_EPOCH).map(|d| d.as_secs()).unwrap_or(0)
}

/// Relies on `RandomState`: a hash of the arguments under a key drawn at
/// random for this process.
#[verifier::external_body]
fn random_token(now: u64, count: u64) -> u64 {
    std::collections::hash_map::RandomState::new().hash_one((now, count))
}

impl SessionManager {
    pub closed spec fn wf(&self) -> bool {
        unique_ids(self@)
    }

    pub fn new() -> (r: SessionManager)
        ensures
            r@ == Seq::<SessionView>::empty(),
            r.wf(),
    {
        let r = SessionManager { sessions: Vec::new() };
        assert(r@ =~= Seq::<SessionView>::empty());
        r
    }

    /// Index of the session with id `id`.
    fn find(&self, id: &[u8]) -> (r: Option<usize>)
        requires
            self.wf(),
        ensures
            r matches Some(i) ==> id_at(self@, id@, i as int),
            r is None ==> !has_session(self@, id@),
    {
        let mut i: usize = 0;
        while i < self.sessions.len()
            invariant
                i <= self@.len(),
                forall|j: int| 0 <= j < i ==> !id_at(self@, id@, j),
            decreases self@.len() - i,
        {
            if bytes_eq(self.sessions[i].id.as_slice(), id) {
                return Some(i);
            }
            i = i + 1;
        }
        None
    }

    /// Adds the session `id` starting at `now`, replacing one of that id.
    pub fn insert_session(&mut self, id: Vec<u8>, now: u64)
        requires
            old(self).wf(),
        ensures
            final(self).wf(),
            final(self)@ == with_session(old(self)@, id@, now),
    {
        let ghost idv = id@;
        let s = SessionData { id: copy(id.as_slice()), data: FieldMap::new(), created_at: now, last_accessed: now };
        match self.find(id.as_slice()) {
            Some(i) => {
                self.sessions.set(i, s);
                assert(self@ =~= with_session(old(self)@, idv, now));
                assert(forall|a: int| 0 <= a < self@.len() ==> self@[a].id == old(self)@[a].id);
            },
            None => {
                self.sessions.push(s);
                assert(self@ =~= with_session(old(self)@, idv, now));
                assert forall|a: int, c: int|
                    0 <= a < self@.len() && 0 <= c < self@.len() && self@[a].id == self@[c].id implies a == c by {
                    if a < old(self)@.len() && c == old(self)@.len() {
                        assert(id_at(old(self)@, idv, a));
                    } else if c < old(self)@.len() && a == old(self)@.len() {
                        assert(id_at(old(self)@, idv, c));
                    } else if a < old(self)@.len() && c < old(self)@.len() {
                        assert(old(self)@[a].id == self@[a].id && old(self)@[c].id == self@[c].id);
                    }
                }
            },
        }
    }

    /// Starts a session under a new random id and returns the id, the
    /// lower-case hexadecimal form of a 64-bit token.
    pub fn create_session(&mut self) -> (r: Vec<u8>)
        requires
            old(self).wf(),
        ensures
            final(self).wf(),
            exists|n: u64| r@ == hex(n as nat),
            exists|now: u64| final(self)@ == with_session(old(self)@, r@, now),
    {
        let now = current_timestamp();
        let token = random_token(now, self.sessions.len() as u64);
        let id = hex_bytes(token);
        self.insert_session(copy(id.as_slice()), now);
        id
    }

    /// Marks session `id` as used at `now`; false when there is none.
    pub fn touch_session(&mut self, id: &[u8], now: u64) -> (r: bool)
        requires
            old(self).wf(),
        ensures
            final(self).wf(),
            r == has_session(old(self)@, id@),
            r ==> exists|i: int|
                id_at(old(self)@, id@, i) && final(self)@ == #[trigger] touched(old(self)@, i, now),
            !r ==> final(self)@ == old(self)@,
    {
        match self.find(id) {
            Some(i) => {
                let mut s = self.sessions.remove(i);
                s.last_accessed = now;
                self.sessions.insert(i, s);
                assert(self@ =~= touched(old(self)@, i as int, now));
                true
            },
            None => false,
        }
    }

    /// Looks up session `id` and marks it as used now; false when there is none.
    pub fn get_session(&mut self, session_id: &[u8]) -> (r: bool)
        requires
            old(self).wf(),
        ensures
            final(self).wf(),
            r == has_session(old(self)@, session_id@),
            r ==> exists|i: int, now: u64|
                id_at(old(self)@, session_id@, i) && final(self)@ == #[trigger] touched(
                    old(self)@,
                    i,
                    now,
                ),
            !r ==> final(self)@ == old(self)@,
    {
        let now = current_timestamp();
        self.touch_session(session_id, now)
    }

    /// Ends session `id`, if there is one.
    pub fn destroy_session(&mut self, session_id: &[u8])
        requires
            old(self).wf(),
        ensures
            final(self).wf(),
            !has_session(final(self)@, session_id@),
            forall|k: Seq<u8>| k != session_id@ ==> (has_session(final(self)@, k) <==> has_session(old(self)@, k)),
    {
        match self.find(session_id) {
            Some(i) => {
                self.sessions.remove(i);
                assert(self@ =~= old(self)@.remove(i as int));
                assert forall|k: Seq<u8>| has_session(self@, k) implies k != session_id@ by {
                    let j = choose|j: int| id_at(self@, k, j);
                    if j < i {
                        assert(old(self)@[j] == self@[j]);
                    } else {
                        assert(old(self)@[j + 1] == self@[j]);
                    }
                }
                assert forall|k: Seq<u8>| k != session_id@ implies (has_session(self@, k) <==> has_session(old(self)@, k)) by {
                    if has_session(old(self)@, k) {
                        let j = choose|j: int| id_at(old(self)@, k, j);
                        if j < i {
                            assert(id_at(self@, k, j));
                        } else {
                            assert(j != i);
                            assert(id_at(self@, k, j - 1));
                        }
                    }
                    if has_session(self@, k) {
                        let j = choose|j: int| id_at(self@, k, j);
                        if j < i {
                            assert(id_at(old(self)@, k, j));
                        } else {
                            assert(id_at(old(self)@, k, j + 1));
                        }
                    }
                }
            },
            None => {},
        }
    }

    /// Drops the sessions idle for `max_age_seconds` or more at time `now`.
    pub fn cleanup_expired_at(&mut self, now: u64, max_age_seconds: u64)
        requires
            old(self).wf(),
        ensures
            final(self).wf(),
            final(self)@ == unexpired(old(self)@, now, max_age_seconds),
    {
        let ghost pred = keeps(now, max_age_seconds);
        let mut kept: Vec<SessionData> = Vec::new();
        let old_sessions = &self.sessions;
        let ghost all = Seq::new(old_sessions@.len(), |i: int| old_sessions@[i]@);
        let mut i: usize = 0;
        while i < old_sessions.len()
            invariant
                i <= old_sessions@.len(),
                all == Seq::new(old_sessions@.len(), |i: int| old_sessions@[i]@),
                pred == keeps(now, max_age_seconds),
                Seq::new(kept@.len(), |k: int| kept@[k]@) == all.subrange(0, i as int).filter(pred),
            decreases old_sessions@.len() - i,
        {
            let s = &old_sessions[i];
            let last = s.last_accessed;
            let idle: u64 = if now >= last {
                now - last
            } else {
                (u64::MAX - last) + now + 1
            };
            assert(all[i as int].last_accessed == last);
            assert(idle as int == idle_secs(now, last));
            assert(pred(all[i as int]) == (idle < max_age_seconds));
            proof {
                all.subrange(0, i as int).lemma_filter_push(all[i as int], pred);
                assert(all.subrange(0, i + 1) =~= all.subrange(0, i as int).push(all[i as int]));
            }
            if idle < max_age_seconds {
                let ghost before = kept@;
                let item = SessionData {
                    id: copy(s.id.as_slice()),
                    data: s.data.duplicate(),
                    created_at: s.created_at,
                    last_accessed: s.last_accessed,
                };
                assert(item@ == all[i as int]);
                kept.push(item);
                assert(Seq::new(kept@.len(), |k: int| kept@[k]@) =~= Seq::new(
                    before.len(),
                    |k: int| before[k]@,
                ).push(all[i as int]));
            }
            i = i + 1;
        }
        assert(all.subrange(0, i as int) =~= all);
        self.sessions = kept;
        proof {
            let v = self@;
            assert(v == all.filter(pred));
            assert forall|a: int, c: int|
                0 <= a < v.len() && 0 <= c < v.len() && v[a].id == v[c].id implies a == c by {
                lemma_filter_unique(all, pred);
            }
        }
    }

    /// Drops the sessions idle for `max_age_seconds` or more now.
    pub fn cleanup_expired(&mut self, max_age_seconds: u64)
        requires
            old(self).wf(),
        ensures
            final(self).wf(),
            exists|now: u64| final(self)@ == unexpired(old(self)@, now, max_age_seconds),
    {
        let now = current_timestamp();
        self.cleanup_expired_at(now, max_age_seconds);
    }

    pub fn len(&self) -> (r: usize)
        ensures
            r == self@.len(),
    {
        self.sessions.len()
    }

    pub fn contains(&self, id: &[u8]) -> (r: bool)
        requires
            self.wf(),
        ensures
            r == has_session(self@, id@),
    {
        match self.find(id) {
            Some(_) => true,
            None => false,
        }
    }
}

/// Keeping some sessions of a table with unique ids keeps the ids unique.
proof fn lemma_filter_unique(s: Seq<SessionView>, pred: spec_fn(SessionView) -> bool)
    requires
        unique_ids(s),
    ensures
        unique_ids(s.filter(pred)),
    decreases s.len(),
{
    reveal(Seq::filter);
    if s.len() > 0 {
        let init = s.drop_last();
        assert(unique_ids(init)) by {
            assert forall|i: int, j: int|
                0 <= i < init.len() && 0 <= j < init.len() && init[i].id == init[j].id implies i
                == j by {
                assert(s[i] == init[i] && s[j] == init[j]);
            }
        }
        lemma_filter_unique(init, pred);
        assert(s =~= init.push(s.last()));
        init.lemma_filter_push(s.last(), pred);
        let f = init.filter(pred);
        if pred(s.last()) {
            assert forall|i: int| 0 <= i < f.len() implies f[i].id != s.last().id by {
                init.lemma_filter_contains_rev(pred, f[i]);
                let k = choose|k: int| 0 <= k < init.len() && init[k] == f[i];
                assert(s[k] == init[k]);
                assert(k != s.len() - 1);
            }
        }
    }
}

/// One `name=value` pair of a cookie header added to `h`; a piece without
/// `=` is ignored.
pub open spec fn add_cookie(h: FieldsView, piece: Seq<u8>) -> FieldsView {
    let t = trim(piece);
    match find_first(t, 61) {
        Some(e) => insert(h, trim(t.subrange(0, e)), trim(t.subrange(e + 1, t.len() as int))),
        None => h,
    }
}

/// The `;`-separated pieces of `s` added to `h` in order.
pub open spec fn add_cookies(h: FieldsView, s: Seq<u8>) -> FieldsView
    decreases s.len(),
{
    match find_first(s, 59) {
        Some(i) => if 0 <= i < s.len() {
            add_cookies(add_cookie(h, s.subrange(0, i)), s.subrange(i + 1, s.len() as int))
        } else {
            h
        },
        None => add_cookie(h, s),
    }
}

/// The cookies of a `Cookie` header value.
pub open spec fn cookies_of(header: Seq<u8>) -> FieldsView {
    add_cookies(Seq::empty(), header)
}

fn add_cookie_piece(h: &mut FieldMap, piece: &[u8])
    ensures
        final(h)@ == add_cookie(old(h)@, piece@),
{
    let t = trim_bytes(piece);
    match find_byte(t.as_slice(), 61) {
        Some(e) => {
            let n = t.len();
            let k = trim_bytes(slice_of(t.as_slice(), 0, e).as_slice());
            let v = trim_bytes(slice_of(t.as_slice(), e + 1, n).as_slice());
            h.insert(k, v);
        },
        None => {},
    }
}

/// Splits a `Cookie` header value into its `name=value` pairs; the last
/// value of a repeated name wins.
pub fn parse_cookies(cookie_header: &[u8]) -> (r: FieldMap)
    ensures
        r@ == cookies_of(cookie_header@),
{
    let mut h = FieldMap::new();
    let s = cookie_header;
    let n = s.len();
    let mut i: usize = 0;
    assert(s@.subrange(0, n as int) =~= s@);
    while i < n
        invariant
            i <= n == s@.len(),
            cookies_of(s@) == add_cookies(h@, s@.subrange(i as int, n as int)),
        decreases n - i,
    {
        let rest = slice_of(s, i, n);
        match find_byte(rest.as_slice(), 59) {
            Some(k) => {
                let piece = slice_of(rest.as_slice(), 0, k);
                assert(add_cookies(h@, rest@) == add_cookies(
                    add_cookie(h@, piece@),
                    rest@.subrange(k + 1, rest@.len() as int),
                ));
                add_cookie_piece(&mut h, piece.as_slice());
                assert(rest@.subrange(k + 1, rest@.len() as int) =~= s@.subrange(
                    i + k + 1,
                    n as int,
                ));
                i = i + k + 1;
            },
            None => {
                add_cookie_piece(&mut h, rest.as_slice());
                proof {
                    crate::bytes::lemma_find_first(Seq::<u8>::empty(), 59);
                    crate::bytes::lemma_find_first(trim(Seq::<u8>::empty()), 61);
                }
                assert(s@.subrange(n as int, n as int) =~= Seq::<u8>::empty());
                i = n;
            },
        }
    }
    proof {
        crate::bytes::lemma_find_first(Seq::<u8>::empty(), 59);
        crate::bytes::lemma_find_first(trim(Seq::<u8>::empty()), 61);
        assert(s@.subrange(n as int, n as int) =~= Seq::<u8>::empty());
    }
    h
}

/// A `Set-Cookie` value.
pub open spec fn set_cookie(name: Seq<u8>, value: Seq<u8>, max_age: Option<u64>) -> Seq<u8> {
    name + b("=") + value + b("; Path=/; HttpOnly") + match max_age {
        Some(a) => b("; Max-Age=") + dec(a as nat),
        None => Seq::empty(),
    }
}

pub fn create_set_cookie(name: &[u8], value: &[u8], max_age: Option<u64>) -> (r: Vec<u8>)
    ensures
        r@ == set_cookie(name@, value@, max_age),
{
    let mut c = copy(name);
    append_bytes(&mut c, text("=").as_slice());
    append_bytes(&mut c, value);
    append_bytes(&mut c, text("; Path=/; HttpOnly").as_slice());
    match max_age {
        Some(a) => {
            append_bytes(&mut c, text("; Max-Age=").as_slice());
            append_bytes(&mut c, dec_bytes(a).as_slice());
        },
        None => {},
    }
    c
}

/// The session id a request's `Cookie` header names, if any.
pub open spec fn cookie_session(headers: FieldsView) -> Option<Seq<u8>> {
    match lookup(headers, b("cookie")) {
        Some(ch) => lookup(cookies_of(ch), b("sessionid")),
        None => None,
    }
}

/// The request names a session that the table holds.
pub open spec fn names_live_session(sessions: Seq<SessionView>, headers: FieldsView) -> bool {
    match cookie_session(headers) {
        Some(sid) => has_session(sessions, sid),
        None => false,
    }
}

/// Serializes a response for `request`. Its `Content-Length` is set to the
/// length of its body. When the request names a live session, that session
/// is marked as used; otherwise a new one is started and announced with
/// `Set-Cookie`.
pub fn finish_response(
    sessions: &mut SessionManager,
    request: &HttpRequest,
    response: HttpResponse,
) -> (r: Vec<u8>)
    requires
        old(sessions).wf(),
    ensures
        final(sessions).wf(),
        names_live_session(old(sessions)@, request.headers@) ==> r@ == serialize(
            with_body(response@, response@.body),
        ) && exists|i: int, now: u64|
            id_at(old(sessions)@, cookie_session(request.headers@)->Some_0, i)
                && final(sessions)@ == #[trigger] touched(old(sessions)@, i, now),
        !names_live_session(old(sessions)@, request.headers@) ==> exists|id: Seq<u8>, now: u64|
            r@ == serialize(
                with_body(
                    with_header(
                        response@,
                        b("Set-Cookie"),
                        set_cookie(b("sessionid"), id, Some(3600)),
                    ),
                    response@.body,
                ),
            ) && final(sessions)@ == with_session(old(sessions)@, id, now),
        exists|v: ResponseView|
            r@ == serialize(v) && framed(v) && v.body == response@.body && (unique_names(
                response@.headers,
            ) ==> unique_names(v.headers)),
{
    let mut response = response;
    let live = match request.headers.get(text("cookie").as_slice()) {
        Some(ch) => {
            let cookies = parse_cookies(ch.as_slice());
            match cookies.get(text("sessionid").as_slice()) {
                Some(sid) => sessions.get_session(sid.as_slice()),
                None => false,
            }
        },
        None => false,
    };
    if !live {
        let id = sessions.create_session();
        let cookie = create_set_cookie(text("sessionid").as_slice(), id.as_slice(), Some(3600));
        response.add_header(text("Set-Cookie"), cookie);
    }
    let body = copy(response.body.as_slice());
    response.set_body(body);
    response.to_bytes()
}

} // verus!
