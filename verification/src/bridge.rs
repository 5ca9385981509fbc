//! The loopback bridge: one listener on 127.0.0.1, one session per opened
//! file, each bound to one origin by a 256-bit token. This module holds the
//! sessions and every decision a request gets; the listener, the files and
//! the clock are the caller's.

use vstd::prelude::*;
use crate::text::{chars_of, eq_chars, push_all, push_str, slice_chars, split_once, split_once_chars, to_string,
    has_char, first_index, lemma_first_index};
use crate::launcher::{decimal, decimal_chars};

verus! {

/// A session with no request for this long is over (the page heartbeats
/// every 30 s), in milliseconds.
pub const SESSION_IDLE_MS: u64 = 600000;

/// One opened file: the page of `origin` holding `token` may read and write it.
#[derive(Debug)]
pub struct Session {
    pub token: String,
    pub path: String,
    pub origin: String,
    /// When a request last named it (milliseconds of a monotonic clock).
    pub last_seen: u64,
}

/// A session, as a value.
pub struct SessionModel {
    pub token: Seq<char>,
    pub path: Seq<char>,
    pub origin: Seq<char>,
    pub last_seen: u64,
}

impl View for Session {
    type V = SessionModel;

    open spec fn view(&self) -> SessionModel {
        SessionModel { token: self.token@, path: self.path@, origin: self.origin@, last_seen: self.last_seen }
    }
}

/// The bridge: the port it listens on and its sessions.
#[derive(Debug)]
pub struct Bridge {
    pub port: u16,
    pub sessions: Vec<Session>,
}

/// The sessions of a bridge, as values.
pub open spec fn sessions_of(b: Bridge) -> Seq<SessionModel> {
    b.sessions@.map_values(|s: Session| s@)
}

/* ------------------------------------------------------------------ tokens */

/// The lower-case hexadecimal digit of `d < 16`.
pub open spec fn hex_digit(d: nat) -> char {
    if d < 10 {
        crate::launcher::digit(d)
    } else if d == 10 {
        'a'
    } else if d == 11 {
        'b'
    } else if d == 12 {
        'c'
    } else if d == 13 {
        'd'
    } else if d == 14 {
        'e'
    } else {
        'f'
    }
}

fn hex_digit_exec(d: u8) -> (c: char)
    requires
        d < 16,
    ensures
        c == hex_digit(d as nat),
{
    if d == 0 {
        '0'
    } else if d == 1 {
        '1'
    } else if d == 2 {
        '2'
    } else if d == 3 {
        '3'
    } else if d == 4 {
        '4'
    } else if d == 5 {
        '5'
    } else if d == 6 {
        '6'
    } else if d == 7 {
        '7'
    } else if d == 8 {
        '8'
    } else if d == 9 {
        '9'
    } else if d == 10 {
        'a'
    } else if d == 11 {
        'b'
    } else if d == 12 {
        'c'
    } else if d == 13 {
        'd'
    } else if d == 14 {
        'e'
    } else {
        'f'
    }
}

/// Each byte as two lower-case hexadecimal digits (`{:02x}`).
pub open spec fn hex_bytes(bytes: Seq<u8>) -> Seq<char>
    decreases bytes.len(),
{
    if bytes.len() == 0 {
        seq![]
    } else {
        hex_bytes(bytes.drop_last()).push(hex_digit((bytes.last() / 16) as nat)).push(
            hex_digit((bytes.last() % 16) as nat),
        )
    }
}

/// Each byte as two lower-case hexadecimal digits.
pub fn hex_of_bytes(bytes: &[u8]) -> (r: String)
    ensures
        r@ == hex_bytes(bytes@),
{
    let mut out: Vec<char> = Vec::new();
    let mut i: usize = 0;
    assert(bytes@.take(0) =~= Seq::<u8>::empty());
    while i < bytes.len()
        invariant
            i <= bytes@.len(),
            out@ == hex_bytes(bytes@.take(i as int)),
        decreases bytes@.len() - i,
    {
        assert(bytes@.take(i + 1).drop_last() =~= bytes@.take(i as int));
        let b = bytes[i];
        out.push(hex_digit_exec(b / 16));
        out.push(hex_digit_exec(b % 16));
        i = i + 1;
    }
    assert(bytes@.take(i as int) =~= bytes@);
    to_string(&out)
}

/// 32 bytes from the operating system's random source (`getrandom`), or
/// `None` when it fails. Nothing is claimed of the bytes.
#[verifier::external_body]
pub(crate) fn os_random() -> (r: Option<[u8; 32]>) {
    let mut bytes = [0u8; 32];
    match getrandom::getrandom(&mut bytes) {
        Ok(()) => Some(bytes),
        Err(_) => None,
    }
}

/// A session token: 256 random bits as 64 lower-case hexadecimal digits
/// (`None` when the system has no randomness to give).
pub fn random_token() -> (r: Option<String>)
    ensures
        r matches Some(t) ==> exists|b: Seq<u8>| b.len() == 32 && t@ == hex_bytes(b),
{
    match os_random() {
        Some(bytes) => {
            let t = hex_of_bytes(&bytes);
            assert(bytes@.len() == 32);
            Some(t)
        },
        None => None,
    }
}

/// Two strings equal: their bytes compared in constant time, so the token
/// cannot leak through the response timing.
pub fn same(a: &str, b: &str) -> (r: bool)
    ensures
        r == (a@ == b@),
{
    let x = a.as_bytes();
    let y = b.as_bytes();
    proof {
        vstd::utf8::encode_utf8_decode_utf8(a@);
        vstd::utf8::encode_utf8_decode_utf8(b@);
    }
    if x.len() != y.len() {
        return false;
    }
    let mut acc: u8 = 0;
    let mut i: usize = 0;
    while i < x.len()
        invariant
            i <= x@.len() == y@.len(),
            (acc == 0) == (forall|j: int| 0 <= j < i ==> x@[j] == y@[j]),
        decreases x@.len() - i,
    {
        let p = x[i];
        let q = y[i];
        let next = acc | (p ^ q);
        assert((next == 0) == (acc == 0 && p == q)) by (bit_vector)
            requires
                next == acc | (p ^ q),
        ;
        acc = next;
        i = i + 1;
    }
    if acc == 0 {
        assert(x@ =~= y@);
    }
    acc == 0
}

/* ---------------------------------------------------------------- sessions */

/// The index of the first session of `token`.
pub open spec fn session_index(s: Seq<SessionModel>, token: Seq<char>) -> Option<int>
    decreases s.len(),
{
    if s.len() == 0 {
        None
    } else if s[0].token == token {
        Some(0)
    } else {
        match session_index(s.drop_first(), token) {
            Some(i) => Some(i + 1),
            None => None,
        }
    }
}

/// The sessions once `n` is opened: it replaces the session of the same
/// token, or comes last.
pub open spec fn with_session(s: Seq<SessionModel>, n: SessionModel) -> Seq<SessionModel> {
    match session_index(s, n.token) {
        Some(i) => s.update(i, n),
        None => s.push(n),
    }
}

/// A session seen less than `SESSION_IDLE_MS` before `now` (a clock that
/// went back counts as no time).
pub open spec fn fresh(s: SessionModel, now: u64) -> bool {
    (if now >= s.last_seen {
        now - s.last_seen
    } else {
        0
    }) < SESSION_IDLE_MS
}

/// The sessions still alive at `now`, in order.
pub open spec fn fresh_sessions(s: Seq<SessionModel>, now: u64) -> Seq<SessionModel>
    decreases s.len(),
{
    if s.len() == 0 {
        seq![]
    } else if fresh(s.last(), now) {
        fresh_sessions(s.drop_last(), now).push(s.last())
    } else {
        fresh_sessions(s.drop_last(), now)
    }
}

/// The sessions without those of `token`.
pub open spec fn without_token(s: Seq<SessionModel>, token: Seq<char>) -> Seq<SessionModel>
    decreases s.len(),
{
    if s.len() == 0 {
        seq![]
    } else if s.last().token == token {
        without_token(s.drop_last(), token)
    } else {
        without_token(s.drop_last(), token).push(s.last())
    }
}

impl Bridge {
    /// A bridge listening on `port`, with no session.
    pub fn new(port: u16) -> (r: Bridge)
        ensures
            r.port == port,
            sessions_of(r).len() == 0,
    {
        Bridge { port, sessions: Vec::new() }
    }

    /// The index of the session of `token`, compared in constant time.
    pub fn find(&self, token: &str) -> (r: Option<usize>)
        ensures
            match r {
                Some(i) => session_index(sessions_of(*self), token@) == Some(i as int) && i < self.sessions@.len(),
                None => session_index(sessions_of(*self), token@) is None,
            },
    {
        let ghost sv = sessions_of(*self);
        let mut i: usize = 0;
        assert(sv.skip(0) =~= sv);
        while i < self.sessions.len()
            invariant
                i <= self.sessions@.len(),
                sv == sessions_of(*self),
                session_index(sv, token@) == match session_index(sv.skip(i as int), token@) {
                    Some(k) => Some(k + i),
                    None => None::<int>,
                },
            decreases self.sessions@.len() - i,
        {
            let ghost rest = sv.skip(i as int);
            assert(rest[0] == self.sessions@[i as int]@);
            assert(rest.drop_first() =~= sv.skip(i + 1));
            if same(self.sessions[i].token.as_str(), token) {
                return Some(i);
            }
            i = i + 1;
        }
        None
    }

    /// Adds the session `s` (replacing one of the same token).
    pub fn insert(&mut self, s: Session)
        ensures
            final(self).port == old(self).port,
            sessions_of(*final(self)) == with_session(sessions_of(*old(self)), s@),
    {
        let ghost sv = sessions_of(*self);
        let ghost n = s@;
        match self.find(s.token.as_str()) {
            Some(i) => {
                self.sessions.set(i, s);
                assert(sessions_of(*self) =~= sv.update(i as int, n));
            },
            None => {
                self.sessions.push(s);
                assert(sessions_of(*self) =~= sv.push(n));
            },
        }
    }

    /// Opens a session on `path` for pages of `origin`, at `now`; returns
    /// its new token (`None`, and nothing opened, when the system has no
    /// randomness to give).
    pub fn open(&mut self, path: String, origin: String, now: u64) -> (r: Option<String>)
        ensures
            final(self).port == old(self).port,
            match r {
                Some(t) => {
                    &&& exists|b: Seq<u8>| b.len() == 32 && t@ == hex_bytes(b)
                    &&& sessions_of(*final(self)) == with_session(
                        sessions_of(*old(self)),
                        SessionModel { token: t@, path: path@, origin: origin@, last_seen: now },
                    )
                },
                None => sessions_of(*final(self)) == sessions_of(*old(self)),
            },
    {
        match random_token() {
            Some(token) => {
                let t = token.clone();
                self.insert(Session { token, path, origin, last_seen: now });
                Some(t)
            },
            None => None,
        }
    }

    /// Drops the sessions not seen for `SESSION_IDLE_MS` before `now`;
    /// returns how many remain.
    pub fn live(&mut self, now: u64) -> (r: usize)
        ensures
            final(self).port == old(self).port,
            sessions_of(*final(self)) == fresh_sessions(sessions_of(*old(self)), now),
            r == sessions_of(*final(self)).len(),
    {
        let ghost all = sessions_of(*self);
        let mut rest: Vec<Session> = Vec::new();
        std::mem::swap(&mut rest, &mut self.sessions);
        let n = rest.len();
        let mut kept: Vec<Session> = Vec::new();
        let mut i: usize = 0;
        assert(all.take(0) =~= Seq::<SessionModel>::empty());
        assert(rest@.map_values(|s: Session| s@) =~= all);
        while rest.len() > 0
            invariant
                i <= n == all.len(),
                i + rest@.len() == n,
                rest@.map_values(|s: Session| s@) == all.skip(i as int),
                kept@.map_values(|s: Session| s@) == fresh_sessions(all.take(i as int), now),
            decreases rest@.len(),
        {
            let ghost rv = rest@;
            let s = rest.remove(0);
            assert(rv.map_values(|s: Session| s@)[0] == s@);
            assert(all.take(i + 1).drop_last() =~= all.take(i as int));
            assert(all.take(i + 1).last() == s@);
            let ghost kv = kept@.map_values(|s: Session| s@);
            let age = if now >= s.last_seen {
                now - s.last_seen
            } else {
                0
            };
            if age < SESSION_IDLE_MS {
                let ghost sm = s@;
                kept.push(s);
                assert(kept@.map_values(|s: Session| s@) =~= kv.push(sm));
            }
            assert(rest@ =~= rv.drop_first());
            assert(all.skip(i + 1) =~= all.skip(i as int).drop_first());
            assert(rest@.map_values(|s: Session| s@) =~= rv.map_values(|s: Session| s@).drop_first());
            i = i + 1;
        }
        assert(all.take(i as int) =~= all);
        self.sessions = kept;
        self.sessions.len()
    }

    /// Closes every session of `token`.
    pub fn close(&mut self, token: &str)
        ensures
            final(self).port == old(self).port,
            sessions_of(*final(self)) == without_token(sessions_of(*old(self)), token@),
    {
        let ghost all = sessions_of(*self);
        let mut rest: Vec<Session> = Vec::new();
        std::mem::swap(&mut rest, &mut self.sessions);
        let n = rest.len();
        let mut kept: Vec<Session> = Vec::new();
        let mut i: usize = 0;
        assert(all.take(0) =~= Seq::<SessionModel>::empty());
        assert(rest@.map_values(|s: Session| s@) =~= all);
        while rest.len() > 0
            invariant
                i <= n == all.len(),
                i + rest@.len() == n,
                rest@.map_values(|s: Session| s@) == all.skip(i as int),
                kept@.map_values(|s: Session| s@) == without_token(all.take(i as int), token@),
            decreases rest@.len(),
        {
            let ghost rv = rest@;
            let s = rest.remove(0);
            assert(rv.map_values(|s: Session| s@)[0] == s@);
            assert(all.take(i + 1).drop_last() =~= all.take(i as int));
            assert(all.take(i + 1).last() == s@);
            let ghost kv = kept@.map_values(|s: Session| s@);
            if !same(s.token.as_str(), token) {
                let ghost sm = s@;
                kept.push(s);
                assert(kept@.map_values(|s: Session| s@) =~= kv.push(sm));
            }
            assert(rest@ =~= rv.drop_first());
            assert(all.skip(i + 1) =~= all.skip(i as int).drop_first());
            assert(rest@.map_values(|s: Session| s@) =~= rv.map_values(|s: Session| s@).drop_first());
            i = i + 1;
        }
        assert(all.take(i as int) =~= all);
        self.sessions = kept;
    }
}

/* ---------------------------------------------------------------- requests */

/// The method of a request.
#[derive(Clone, Copy, Debug, PartialEq, Eq, Structural)]
pub enum Method {
    Get,
    Put,
    Post,
    Delete,
    Options,
    Other,
}

/// What the bridge reads of a request.
#[derive(Debug)]
pub struct Request {
    pub method: Method,
    /// The request target (`/s/<token>/content`).
    pub url: String,
    /// The `Host` header, if any.
    pub host: Option<String>,
    /// The `Origin` header, if any.
    pub origin: Option<String>,
    /// The preflight asks for `Access-Control-Allow-Private-Network`.
    pub private_network: bool,
}

/// A request, as a value.
pub struct RequestModel {
    pub method: Method,
    pub url: Seq<char>,
    pub host: Option<Seq<char>>,
    pub origin: Option<Seq<char>>,
    pub private_network: bool,
}

impl View for Request {
    type V = RequestModel;

    open spec fn view(&self) -> RequestModel {
        RequestModel {
            method: self.method,
            url: self.url@,
            host: crate::settings::opt_view(self.host),
            origin: crate::settings::opt_view(self.origin),
            private_network: self.private_network,
        }
    }
}

/// What a request is answered with.
#[derive(Clone, Copy, Debug, PartialEq, Eq, Structural)]
pub enum Route {
    /// `421`, no CORS: the Host is not the bridge's (DNS rebinding).
    Misdirected,
    /// `404`, no CORS: no such session (nothing to say).
    NotFound,
    /// `403`, no CORS: the Origin is not the session's own.
    Forbidden,
    /// `204`: the CORS preflight.
    Preflight,
    /// The file's name, size and ETag (`200`, or `410` when it is gone).
    Meta,
    /// The file's bytes (`200`, or `410` when it is gone).
    Content,
    /// Write the file back (`200`; `412` when it changed; `409` when it cannot be written).
    Write,
    /// `204`: the session is kept alive.
    Heartbeat,
    /// `204`: the session is closed.
    Closed,
    /// `405`.
    NotAllowed,
}

/// `s` without its leading `/`s.
pub open spec fn trim_leading_slashes(s: Seq<char>) -> Seq<char>
    decreases s.len(),
{
    if s.len() > 0 && s[0] == '/' {
        trim_leading_slashes(s.drop_first())
    } else {
        s
    }
}

/// A request target cut in three at its first two `/` (leading `/`s
/// ignored): the scope, the token if any, and the rest (empty if none).
pub open spec fn url_parts(url: Seq<char>) -> (Seq<char>, Option<Seq<char>>, Seq<char>) {
    let u = trim_leading_slashes(url);
    match split_once(u, '/') {
        None => (u, None, seq![]),
        Some((a, b)) => match split_once(b, '/') {
            None => (a, Some(b), seq![]),
            Some((c, d)) => (a, Some(c), d),
        },
    }
}

/// The only Host a request may name: `127.0.0.1:<port>`.
pub open spec fn expected_host(port: u16) -> Seq<char> {
    "127.0.0.1:"@ + decimal(port as nat)
}

/// The answer a request gets, once it names an existing session in the
/// `s` scope with the right origin.
pub open spec fn action_of(method: Method, rest: Seq<char>) -> Route {
    if method == Method::Options {
        Route::Preflight
    } else if method == Method::Get && rest == "meta"@ {
        Route::Meta
    } else if method == Method::Get && rest == "content"@ {
        Route::Content
    } else if method == Method::Put && rest == "content"@ {
        Route::Write
    } else if method == Method::Post && rest == "heartbeat"@ {
        Route::Heartbeat
    } else if method == Method::Delete && rest.len() == 0 {
        Route::Closed
    } else {
        Route::NotAllowed
    }
}

/// How the bridge answers `req` at `now`, given its sessions and port: the
/// Host is checked first, then the session (unknown token, not in the `s`
/// scope, or over: no request for `SESSION_IDLE_MS`), then the Origin
/// against the session's own, then the action.
pub open spec fn route_of(sessions: Seq<SessionModel>, port: u16, req: RequestModel, now: u64) -> Route {
    if req.host != Some(expected_host(port)) {
        Route::Misdirected
    } else {
        let (scope, tok, rest) = url_parts(req.url);
        let token = match tok {
            Some(t) => t,
            None => seq![],
        };
        match session_index(sessions, token) {
            None => Route::NotFound,
            Some(i) => if scope != "s"@ || !fresh(sessions[i], now) {
                Route::NotFound
            } else if req.origin != Some(sessions[i].origin) {
                Route::Forbidden
            } else {
                action_of(req.method, rest)
            },
        }
    }
}

/// The session a request reached, once past every guard.
pub open spec fn reached(sessions: Seq<SessionModel>, req: RequestModel) -> int {
    let (scope, tok, rest) = url_parts(req.url);
    session_index(
        sessions,
        match tok {
            Some(t) => t,
            None => seq![],
        },
    ).unwrap()
}

/// The guards passed: a session was reached.
pub open spec fn passed(r: Route) -> bool {
    r != Route::Misdirected && r != Route::NotFound && r != Route::Forbidden
}

/// The sessions after a request: the one it reached is seen at `now`, and
/// closed when the request closes it.
pub open spec fn sessions_after(sessions: Seq<SessionModel>, port: u16, req: RequestModel, now: u64) -> Seq<
    SessionModel,
> {
    let r = route_of(sessions, port, req, now);
    if !passed(r) {
        sessions
    } else {
        let i = reached(sessions, req);
        let s = sessions[i];
        let touched = sessions.update(i, SessionModel { last_seen: now, ..s });
        if r == Route::Closed {
            without_token(touched, s.token)
        } else {
            touched
        }
    }
}

/// What a request was decided to get, with the reached session's file and
/// origin (for every route past the guards).
#[derive(Debug)]
pub struct Decision {
    pub route: Route,
    pub session: Option<(String, String)>,
}

fn trim_leading_slashes_chars(s: &Vec<char>) -> (r: Vec<char>)
    ensures
        r@ == trim_leading_slashes(s@),
{
    let n = s.len();
    let mut i: usize = 0;
    assert(s@.skip(0) =~= s@);
    while i < n && s[i] == '/'
        invariant
            i <= n == s@.len(),
            trim_leading_slashes(s@) == trim_leading_slashes(s@.skip(i as int)),
        decreases n - i,
    {
        assert(s@.skip(i as int).drop_first() =~= s@.skip(i + 1));
        i = i + 1;
    }
    slice_chars(s, i, n)
}

/// The three parts of a request target.
pub fn url_parts_exec(url: &str) -> (r: (String, Option<String>, String))
    ensures
        (r.0@, crate::settings::opt_view(r.1), r.2@) == url_parts(url@),
{
    let u = trim_leading_slashes_chars(&chars_of(url));
    match split_once_chars(&u, '/') {
        None => (to_string(&u), None, String::new()),
        Some((a, b)) => match split_once_chars(&b, '/') {
            None => (to_string(&a), Some(to_string(&b)), String::new()),
            Some((c, d)) => (to_string(&a), Some(to_string(&c)), to_string(&d)),
        },
    }
}

/// The Host a request must name.
pub fn expected_host_exec(port: u16) -> (r: String)
    ensures
        r@ == expected_host(port),
{
    let mut out = chars_of("127.0.0.1:");
    push_all(&mut out, &decimal_chars(port as u64));
    to_string(&out)
}

fn action_exec(method: Method, rest: &String) -> (r: Route)
    ensures
        r == action_of(method, rest@),
{
    let rc = chars_of(rest.as_str());
    if method == Method::Options {
        Route::Preflight
    } else if method == Method::Get && eq_chars(&rc, &chars_of("meta")) {
        Route::Meta
    } else if method == Method::Get && eq_chars(&rc, &chars_of("content")) {
        Route::Content
    } else if method == Method::Put && eq_chars(&rc, &chars_of("content")) {
        Route::Write
    } else if method == Method::Post && eq_chars(&rc, &chars_of("heartbeat")) {
        Route::Heartbeat
    } else if method == Method::Delete && rc.len() == 0 {
        Route::Closed
    } else {
        Route::NotAllowed
    }
}

impl Bridge {
    /// Decides how to answer `req` at `now`, and records what it does to
    /// the sessions: every guard (Host, token, Origin) holds before a
    /// session is touched.
    pub fn route(&mut self, req: &Request, now: u64) -> (d: Decision)
        ensures
            final(self).port == old(self).port,
            d.route == route_of(sessions_of(*old(self)), old(self).port, req@, now),
            sessions_of(*final(self)) == sessions_after(sessions_of(*old(self)), old(self).port, req@, now),
            match d.session {
                Some((path, origin)) => passed(d.route) && path@ == sessions_of(*old(self))[reached(
                    sessions_of(*old(self)),
                    req@,
                )].path && origin@ == sessions_of(*old(self))[reached(sessions_of(*old(self)), req@)].origin,
                None => !passed(d.route),
            },
    {
        let ghost sv = sessions_of(*self);
        let host = expected_host_exec(self.port);
        let host_ok = match &req.host {
            Some(h) => *h == host,
            None => false,
        };
        if !host_ok {
            return Decision { route: Route::Misdirected, session: None };
        }
        let (scope, tok, rest) = url_parts_exec(req.url.as_str());
        let token = match tok {
            Some(t) => t,
            None => String::new(),
        };
        let i = match self.find(token.as_str()) {
            Some(i) => i,
            None => return Decision { route: Route::NotFound, session: None },
        };
        let sc = chars_of(scope.as_str());
        if !eq_chars(&sc, &chars_of("s")) {
            return Decision { route: Route::NotFound, session: None };
        }
        assert(sv[i as int] == self.sessions@[i as int]@);
        let seen = self.sessions[i].last_seen;
        let age = if now >= seen {
            now - seen
        } else {
            0
        };
        if age >= SESSION_IDLE_MS {
            return Decision { route: Route::NotFound, session: None };
        }
        let origin_ok = match &req.origin {
            Some(o) => *o == self.sessions[i].origin,
            None => false,
        };
        if !origin_ok {
            return Decision { route: Route::Forbidden, session: None };
        }
        let route = action_exec(req.method, &rest);
        let path = self.sessions[i].path.clone();
        let origin = self.sessions[i].origin.clone();
        let session_token = self.sessions[i].token.clone();
        let ghost s = sv[i as int];
        let touched = Session { token: self.sessions[i].token.clone(), path: path.clone(), origin: origin.clone(), last_seen: now };
        self.sessions.set(i, touched);
        assert(sessions_of(*self) =~= sv.update(i as int, SessionModel { last_seen: now, ..s }));
        if route == Route::Closed {
            self.close(session_token.as_str());
        }
        Decision { route, session: Some((path, origin)) }
    }
}

/* -------------------------------------------------------------------- laws */

proof fn lemma_session_index(s: Seq<SessionModel>, t: Seq<char>)
    ensures
        match session_index(s, t) {
            Some(i) => 0 <= i < s.len() && s[i].token == t && forall|j: int| 0 <= j < i ==> s[j].token != t,
            None => forall|j: int| 0 <= j < s.len() ==> s[j].token != t,
        },
    decreases s.len(),
{
    if s.len() > 0 && s[0].token != t {
        lemma_session_index(s.drop_first(), t);
        assert forall|j: int| 1 <= j < s.len() implies s[j] == s.drop_first()[j - 1] by {}
    }
}

proof fn lemma_session_index_at(s: Seq<SessionModel>, t: Seq<char>, i: int)
    requires
        0 <= i < s.len(),
        s[i].token == t,
        forall|j: int| 0 <= j < i ==> s[j].token != t,
    ensures
        session_index(s, t) == Some(i),
    decreases s.len(),
{
    if i > 0 {
        assert forall|j: int| 0 <= j < i - 1 implies s.drop_first()[j].token != t by {
            assert(s.drop_first()[j] == s[j + 1]);
        }
        lemma_session_index_at(s.drop_first(), t, i - 1);
    }
}

proof fn lemma_with_session(s: Seq<SessionModel>, n: SessionModel)
    ensures
        ({
            let w = with_session(s, n);
            exists|j: int| session_index(w, n.token) == Some(j) && 0 <= j < w.len() && w[j] == n
        }),
{
    lemma_session_index(s, n.token);
    let w = with_session(s, n);
    match session_index(s, n.token) {
        Some(i) => {
            assert forall|j: int| 0 <= j < i implies w[j].token != n.token by {
                assert(w[j] == s[j]);
            }
            lemma_session_index_at(w, n.token, i);
        },
        None => {
            assert forall|j: int| 0 <= j < s.len() implies w[j].token != n.token by {
                assert(w[j] == s[j]);
            }
            lemma_session_index_at(w, n.token, s.len() as int);
        },
    }
}

proof fn lemma_without_token(s: Seq<SessionModel>, t: Seq<char>)
    ensures
        forall|j: int| 0 <= j < without_token(s, t).len() ==> without_token(s, t)[j].token != t,
    decreases s.len(),
{
    if s.len() > 0 {
        lemma_without_token(s.drop_last(), t);
        let w = without_token(s.drop_last(), t);
        if s.last().token != t {
            assert forall|j: int| 0 <= j < w.push(s.last()).len() implies w.push(s.last())[j].token != t by {
                if j < w.len() {
                    assert(w.push(s.last())[j] == w[j]);
                }
            }
        }
    }
}

/// The request target of a session's resource: `/s/<token>/<rest>`.
pub open spec fn session_url(token: Seq<char>, rest: Seq<char>) -> Seq<char> {
    "/s/"@ + token + seq!['/'] + rest
}

/// A file is only ever reached through its session: a request past the
/// guards names the bridge's own host, the `s` scope and the token of an
/// open session still alive, and comes from that session's own origin.
pub proof fn law_guards(sessions: Seq<SessionModel>, port: u16, req: RequestModel, now: u64)
    requires
        passed(route_of(sessions, port, req, now)),
    ensures
        req.host == Some(expected_host(port)),
        url_parts(req.url).0 == "s"@,
        ({
            let token = match url_parts(req.url).1 {
                Some(t) => t,
                None => seq![],
            };
            exists|i: int|
                session_index(sessions, token) == Some(i) && 0 <= i < sessions.len() && fresh(sessions[i], now)
                    && req.origin == Some(sessions[i].origin)
        }),
{
    let token = match url_parts(req.url).1 {
        Some(t) => t,
        None => seq![],
    };
    lemma_session_index(sessions, token);
}

proof fn lemma_session_url(token: Seq<char>, rest: Seq<char>)
    requires
        !has_char(token, '/'),
    ensures
        url_parts(session_url(token, rest)) == ("s"@, Some(token), rest),
{
    reveal_strlit("/s/");
    reveal_strlit("s");
    let u = session_url(token, rest);
    assert(u[0] == '/');
    assert(u.drop_first() =~= seq!['s', '/'] + token + seq!['/'] + rest);
    let v = u.drop_first();
    assert(v[0] == 's');
    assert(trim_leading_slashes(v) == v);
    assert(trim_leading_slashes(u) == v);
    lemma_first_index(v, '/');
    crate::text::lemma_first_index_is(v, '/', 1);
    assert(v.take(1) =~= seq!['s']);
    let b = v.skip(2);
    assert(b =~= token + seq!['/'] + rest);
    assert forall|j: int| 0 <= j < token.len() implies b[j] != '/' by {
        assert(b[j] == token[j]);
        if token[j] == '/' {
            assert(has_char(token, '/'));
        }
    }
    crate::text::lemma_first_index_is(b, '/', token.len() as int);
    assert(b.take(token.len() as int) =~= token);
    assert(b.skip(token.len() + 1int) =~= rest);
}

/// A session answers its own page: once a file is opened for `n`'s origin
/// (its token holding no `/`, as tokens are hexadecimal), every request of
/// that origin to the bridge's host naming the token, while the session is
/// alive, gets the action it asks for.
pub proof fn law_opened_session_answers(
    sessions: Seq<SessionModel>,
    port: u16,
    n: SessionModel,
    method: Method,
    rest: Seq<char>,
    private_network: bool,
    now: u64,
)
    requires
        !has_char(n.token, '/'),
        fresh(n, now),
    ensures
        route_of(
            with_session(sessions, n),
            port,
            RequestModel {
                method,
                url: session_url(n.token, rest),
                host: Some(expected_host(port)),
                origin: Some(n.origin),
                private_network,
            },
            now,
        ) == action_of(method, rest),
{
    lemma_with_session(sessions, n);
    lemma_session_url(n.token, rest);
}

/// A session answers no other origin: once a file is opened for `n`'s
/// origin, a request naming its token from another origin is forbidden
/// while the session is alive.
pub proof fn law_other_origin_forbidden(
    sessions: Seq<SessionModel>,
    port: u16,
    n: SessionModel,
    method: Method,
    rest: Seq<char>,
    origin: Option<Seq<char>>,
    private_network: bool,
    now: u64,
)
    requires
        !has_char(n.token, '/'),
        origin != Some(n.origin),
        fresh(n, now),
    ensures
        route_of(
            with_session(sessions, n),
            port,
            RequestModel {
                method,
                url: session_url(n.token, rest),
                host: Some(expected_host(port)),
                origin,
                private_network,
            },
            now,
        ) == Route::Forbidden,
{
    lemma_with_session(sessions, n);
    lemma_session_url(n.token, rest);
}

/// A session is over after `SESSION_IDLE_MS` without a request: once a file
/// is opened for `n`, a request naming its token at a time `now` that long
/// after `n` was last seen is not found, even from its own origin, and
/// leaves the sessions as they were.
pub proof fn law_idle_session_over(
    sessions: Seq<SessionModel>,
    port: u16,
    n: SessionModel,
    method: Method,
    rest: Seq<char>,
    private_network: bool,
    now: u64,
)
    requires
        !has_char(n.token, '/'),
        now >= n.last_seen + SESSION_IDLE_MS,
    ensures
        ({
            let req = RequestModel {
                method,
                url: session_url(n.token, rest),
                host: Some(expected_host(port)),
                origin: Some(n.origin),
                private_network,
            };
            &&& route_of(with_session(sessions, n), port, req, now) == Route::NotFound
            &&& sessions_after(with_session(sessions, n), port, req, now) == with_session(sessions, n)
        }),
{
    lemma_with_session(sessions, n);
    lemma_session_url(n.token, rest);
}

/// The tokens `open` hands out, hexadecimal digits, hold no `/`: the
/// premise on the token of the laws above holds of every session opened.
pub proof fn law_token_has_no_slash(bytes: Seq<u8>)
    ensures
        !has_char(hex_bytes(bytes), '/'),
    decreases bytes.len(),
{
    if bytes.len() > 0 {
        law_token_has_no_slash(bytes.drop_last());
        let h = hex_bytes(bytes.drop_last());
        let a = hex_digit((bytes.last() / 16) as nat);
        let b = hex_digit((bytes.last() % 16) as nat);
        let all = h.push(a).push(b);
        assert(a != '/' && b != '/');
        if has_char(all, '/') {
            let i = choose|i: int| 0 <= i < all.len() && all[i] == '/';
            if i < h.len() {
                assert(h[i] == '/');
            }
        }
    }
}

/// A closed session is gone: once its token is closed, no session answers it.
pub proof fn law_closed_session(sessions: Seq<SessionModel>, token: Seq<char>)
    ensures
        session_index(without_token(sessions, token), token) is None,
{
    lemma_without_token(sessions, token);
    lemma_session_index(without_token(sessions, token), token);
}

/* ----------------------------------------------------------------- answers */

/// The status and body of the answers that need no file: the three
/// refusals, the preflight, the heartbeat, the close, and `405`.
pub open spec fn answer_of(r: Route) -> Option<(u16, Seq<char>)> {
    match r {
        Route::Misdirected => Some((421u16, "misdirected host"@)),
        Route::NotFound => Some((404u16, "not found"@)),
        Route::Forbidden => Some((403u16, "forbidden origin"@)),
        Route::Preflight => Some((204u16, seq![])),
        Route::Heartbeat => Some((204u16, seq![])),
        Route::Closed => Some((204u16, seq![])),
        Route::NotAllowed => Some((405u16, "method not allowed"@)),
        _ => None,
    }
}

/// Whether the answer carries CORS headers: a refusal carries none, so the
/// page cannot read it.
pub fn with_cors(r: Route) -> (b: bool)
    ensures
        b == passed(r),
{
    match r {
        Route::Misdirected | Route::NotFound | Route::Forbidden => false,
        _ => true,
    }
}

/// The status and body of an answer that needs no file.
pub fn answer(r: Route) -> (a: Option<(u16, &'static str)>)
    ensures
        match a {
            Some((status, body)) => answer_of(r) == Some((status, body@)),
            None => answer_of(r) is None,
        },
{
    proof {
        reveal_strlit("");
    }
    match r {
        Route::Misdirected => Some((421, "misdirected host")),
        Route::NotFound => Some((404, "not found")),
        Route::Forbidden => Some((403, "forbidden origin")),
        Route::Preflight => Some((204, "")),
        Route::Heartbeat => Some((204, "")),
        Route::Closed => Some((204, "")),
        Route::NotAllowed => Some((405, "method not allowed")),
        _ => None,
    }
}

/// The headers of every answer a session's page may read: its origin,
/// the ETag exposed, no caching, then `extra`.
pub open spec fn cors_of(origin: Seq<char>, extra: Seq<(Seq<char>, Seq<char>)>) -> Seq<(Seq<char>, Seq<char>)> {
    seq![
        ("Access-Control-Allow-Origin"@, origin),
        ("Access-Control-Expose-Headers"@, "ETag"@),
        ("Vary"@, "Origin"@),
        ("Cache-Control"@, "no-store"@),
    ] + extra
}

/// The headers of every answer a session's page may read.
pub fn cors(origin: &str, extra: Vec<(String, String)>) -> (r: Vec<(String, String)>)
    ensures
        r.deep_view() == cors_of(origin@, extra.deep_view()),
{
    let mut out: Vec<(String, String)> = Vec::new();
    out.push(("Access-Control-Allow-Origin".to_owned(), origin.to_owned()));
    out.push(("Access-Control-Expose-Headers".to_owned(), "ETag".to_owned()));
    out.push(("Vary".to_owned(), "Origin".to_owned()));
    out.push(("Cache-Control".to_owned(), "no-store".to_owned()));
    let ghost head = out.deep_view();
    let mut i: usize = 0;
    while i < extra.len()
        invariant
            i <= extra@.len(),
            out.deep_view() == head + extra.deep_view().take(i as int),
        decreases extra@.len() - i,
    {
        let ghost ov = out.deep_view();
        out.push((extra[i].0.clone(), extra[i].1.clone()));
        assert(out.deep_view() =~= ov.push(extra.deep_view()[i as int]));
        assert(extra.deep_view().take(i + 1) =~= extra.deep_view().take(i as int).push(extra.deep_view()[i as int]));
        i = i + 1;
    }
    assert(extra.deep_view().take(i as int) =~= extra.deep_view());
    assert(head =~= seq![
        ("Access-Control-Allow-Origin"@, origin@),
        ("Access-Control-Expose-Headers"@, "ETag"@),
        ("Vary"@, "Origin"@),
        ("Cache-Control"@, "no-store"@),
    ]);
    out
}

/// The headers of the CORS preflight answer.
pub open spec fn preflight_of(private_network: bool) -> Seq<(Seq<char>, Seq<char>)> {
    let base = seq![
        ("Access-Control-Allow-Methods"@, "GET, PUT, POST, DELETE"@),
        ("Access-Control-Allow-Headers"@, "If-Match, Content-Type"@),
        ("Access-Control-Max-Age"@, "600"@),
    ];
    if private_network {
        base.push(("Access-Control-Allow-Private-Network"@, "true"@))
    } else {
        base
    }
}

/// The headers of the CORS preflight answer (the private network one when asked).
pub fn preflight_headers(private_network: bool) -> (r: Vec<(String, String)>)
    ensures
        r.deep_view() == preflight_of(private_network),
{
    let mut out: Vec<(String, String)> = Vec::new();
    out.push(("Access-Control-Allow-Methods".to_owned(), "GET, PUT, POST, DELETE".to_owned()));
    out.push(("Access-Control-Allow-Headers".to_owned(), "If-Match, Content-Type".to_owned()));
    out.push(("Access-Control-Max-Age".to_owned(), "600".to_owned()));
    if private_network {
        out.push(("Access-Control-Allow-Private-Network".to_owned(), "true".to_owned()));
    }
    assert(out.deep_view() =~= preflight_of(private_network));
    out
}

/// A write is allowed only when `If-Match` names the file's current ETag:
/// else the page read an older file, and the answer is `412`.
pub fn write_allowed(if_match: Option<&str>, current: &str) -> (r: bool)
    ensures
        r == (if_match matches Some(m) && m@ == current@),
{
    match if_match {
        Some(m) => same(m, current),
        None => false,
    }
}

/// The lower-case hexadecimal digits of `n` (`{:x}`).
pub open spec fn hex(n: nat) -> Seq<char>
    decreases n,
{
    if n < 16 {
        seq![hex_digit(n)]
    } else {
        hex(n / 16).push(hex_digit(n % 16))
    }
}

fn hex_chars(n: u128) -> (r: Vec<char>)
    ensures
        r@ == hex(n as nat),
    decreases n,
{
    if n < 16 {
        let mut r = Vec::new();
        r.push(hex_digit_exec(n as u8));
        r
    } else {
        let mut r = hex_chars(n / 16);
        r.push(hex_digit_exec((n % 16) as u8));
        r
    }
}

/// A file's ETag: `"<mtime ns hex>-<size hex>"`, quotes included.
pub open spec fn etag_of(mtime_ns: u128, size: u64) -> Seq<char> {
    seq!['"'] + hex(mtime_ns as nat) + seq!['-'] + hex(size as nat) + seq!['"']
}

/// A file's ETag, from its modification time (nanoseconds since the Unix
/// epoch) and its size.
pub fn etag(mtime_ns: u128, size: u64) -> (r: String)
    ensures
        r@ == etag_of(mtime_ns, size),
{
    let mut out: Vec<char> = Vec::new();
    out.push('"');
    push_all(&mut out, &hex_chars(mtime_ns));
    out.push('-');
    push_all(&mut out, &hex_chars(size as u128));
    out.push('"');
    to_string(&out)
}

/* ------------------------------------------------------ single-file bridge */

/// The bridge of the first prototype: one process serves one file to one
/// origin behind one token, and ends when the page closes the session or
/// stays silent too long.
#[derive(Debug)]
pub struct SpikeSession {
    pub path: String,
    pub token: String,
    pub origin: String,
    /// The only Host requests may name (`127.0.0.1:<port>`).
    pub host: String,
    /// When a request last named the session (milliseconds of a monotonic clock).
    pub last_seen: u64,
    pub closed: bool,
}

/// How the single-file bridge answers `req`: Host first, then Origin, then
/// the preflight, then the token, then the action.
pub open spec fn spike_route_of(s: SpikeSession, req: RequestModel) -> Route {
    if req.host != Some(s.host@) {
        Route::Misdirected
    } else if req.origin != Some(s.origin@) {
        Route::Forbidden
    } else if req.method == Method::Options {
        Route::Preflight
    } else {
        let (scope, tok, rest) = url_parts(req.url);
        if scope != "s"@ || !(tok matches Some(t) && t == s.token@) {
            Route::NotFound
        } else {
            action_of(req.method, rest)
        }
    }
}

/// Decides how the single-file bridge answers `req` at `now`: a request
/// that names the session is a sign of life, and a `DELETE` closes it.
pub fn spike_route(s: &mut SpikeSession, req: &Request, now: u64) -> (r: Route)
    ensures
        r == spike_route_of(*old(s), req@),
        final(s).path == old(s).path,
        final(s).token == old(s).token,
        final(s).origin == old(s).origin,
        final(s).host == old(s).host,
        final(s).last_seen == if r == Route::Misdirected || r == Route::Forbidden || r == Route::Preflight
            || r == Route::NotFound {
            old(s).last_seen
        } else {
            now
        },
        final(s).closed == (old(s).closed || r == Route::Closed),
{
    let host_ok = match &req.host {
        Some(h) => *h == s.host,
        None => false,
    };
    if !host_ok {
        return Route::Misdirected;
    }
    let origin_ok = match &req.origin {
        Some(o) => *o == s.origin,
        None => false,
    };
    if !origin_ok {
        return Route::Forbidden;
    }
    if req.method == Method::Options {
        return Route::Preflight;
    }
    let (scope, tok, rest) = url_parts_exec(req.url.as_str());
    let sc = chars_of(scope.as_str());
    let token_ok = match &tok {
        Some(t) => same(t.as_str(), s.token.as_str()),
        None => false,
    };
    if !eq_chars(&sc, &chars_of("s")) || !token_ok {
        return Route::NotFound;
    }
    s.last_seen = now;
    let r = action_exec(req.method, &rest);
    if r == Route::Closed {
        s.closed = true;
    }
    r
}

/// The single-file bridge keeps serving while its session is open and was
/// seen less than `idle` milliseconds before `now`.
pub fn spike_running(s: &SpikeSession, now: u64, idle: u64) -> (r: bool)
    ensures
        r == (!s.closed && (if now >= s.last_seen {
            now - s.last_seen
        } else {
            0
        }) < idle),
{
    let age = if now >= s.last_seen {
        now - s.last_seen
    } else {
        0
    };
    !s.closed && age < idle
}

/// The value following `name` among the arguments, if any.
pub open spec fn arg_value_of(args: Seq<Seq<char>>, name: Seq<char>) -> Option<Seq<char>>
    decreases args.len(),
{
    if args.len() == 0 {
        None
    } else if args[0] == name {
        if args.len() > 1 {
            Some(args[1])
        } else {
            None
        }
    } else {
        arg_value_of(args.drop_first(), name)
    }
}

/// The value following `name` among the arguments (`--file <path>`).
pub fn arg_value(args: &[String], name: &str) -> (r: Option<String>)
    ensures
        crate::settings::opt_view(r) == arg_value_of(args.deep_view(), name@),
{
    let ghost av = args.deep_view();
    let n = name.to_owned();
    let mut i: usize = 0;
    assert(av.skip(0) =~= av);
    while i < args.len()
        invariant
            i <= args@.len(),
            av == args.deep_view(),
            n@ == name@,
            arg_value_of(av, name@) == arg_value_of(av.skip(i as int), name@),
        decreases args@.len() - i,
    {
        let ghost rest = av.skip(i as int);
        assert(rest[0] == args@[i as int]@);
        assert(rest.drop_first() =~= av.skip(i + 1));
        if args[i] == n {
            if i + 1 < args.len() {
                assert(rest[1] == args@[i + 1]@);
                return Some(args[i + 1].clone());
            }
            return None;
        }
        i = i + 1;
    }
    None
}

} // verus!
