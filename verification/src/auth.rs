//! Who is let in: sessions, the login flow with the identity provider, and the
//! paths that need no login.

use vstd::prelude::*;
use vstd::string::StringExecFns;
use vstd::utf8::encode_utf8;

use crate::base64::{
    base64_url_decode, base64_url_encode, url_decode_inverts_url_encode, url_decode_of,
    url_encode_of, url_encoding_is_url_safe,
};
use crate::config::{Config, ConfigView};
use crate::json::{text_of, Document, DocumentView};
use crate::outside::{
    hex_encode, hex_of, json_from_slice, json_of_bytes, random_bytes, sha256, sha256_of, unix_now,
};
use crate::store::{younger, TimedMap, TimedStore};
use crate::text::{
    borrowed_view, chars_of, cut_at_the_first, is_blank, is_space, owned_view, pieces, same,
    same_chars, split, split_keeps_unmarked, split_of, split_of_joined, split_once, split_once_of,
    starts_with, string_of, trim, trim_keeps, trim_of, trim_start_of, trim_undoes_padding,
};
use crate::url::{
    byte_is_written_or_escaped, bytes_are_written_in_order, percent_of, urlenc, urlenc_of,
};

verus! {

/// Seconds for which a session lasts.
pub const SESSION_MAX_AGE: i64 = 86400;

/// Seconds after which a login that was begun and not finished is forgotten.
pub const PENDING_FLOW_TTL: i64 = 600;

/// Who is logged in, and which logins are under way.
pub struct AuthState {
    /// Session id to e-mail address.
    pub sessions: TimedStore,
    /// State parameter to code verifier.
    pub flows: TimedStore,
}

impl AuthState {
    /// Whether the two tables are in order.
    pub open spec fn well_formed(&self) -> bool {
        self.sessions.well_formed() && self.flows.well_formed()
    }

    /// Nobody is logged in and no login is under way.
    pub fn new() -> (auth: AuthState)
        ensures
            auth.well_formed(),
            auth.sessions@ == TimedMap::empty(),
            auth.flows@ == TimedMap::empty(),
    {
        AuthState { sessions: TimedStore::new(), flows: TimedStore::new() }
    }
}

/// The session id that 32 random bytes make.
pub fn session_id_from(bytes: &[u8; 32]) -> (id: String)
    ensures
        id@ == hex_of(bytes@),
{
    hex_encode(bytes)
}

/// A fresh session id.
pub fn generate_session_id() -> (id: String)
    ensures
        exists|bytes: [u8; 32]| id@ == #[trigger] hex_of(bytes@),
{
    let bytes = random_bytes::<32>();
    session_id_from(&bytes)
}

/// The state parameter that 16 random bytes make.
pub fn state_from(bytes: &[u8; 16]) -> (state: String)
    ensures
        state@ == hex_of(bytes@),
{
    hex_encode(bytes)
}

/// A fresh state parameter.
pub fn generate_state() -> (state: String)
    ensures
        exists|bytes: [u8; 16]| state@ == #[trigger] hex_of(bytes@),
{
    let bytes = random_bytes::<16>();
    state_from(&bytes)
}

/// The code challenge of a code verifier: the URL-safe form of its SHA-256 digest.
pub open spec fn challenge_of(verifier: Seq<char>) -> Seq<char> {
    url_encode_of(sha256_of(encode_utf8(verifier)))
}

/// The code verifier that 32 random bytes make, and its challenge.
pub fn pkce_from(bytes: &[u8; 32]) -> (pair: (String, String))
    ensures
        pair.0@ == hex_of(bytes@),
        pair.1@ == challenge_of(hex_of(bytes@)),
{
    let verifier = hex_encode(bytes);
    let hash = sha256(verifier.as_str().as_bytes());
    let challenge = base64_url_encode(&hash);
    (verifier, challenge)
}

/// A fresh code verifier and its challenge.
pub fn generate_pkce() -> (pair: (String, String))
    ensures
        exists|bytes: [u8; 32]| pair.0@ == #[trigger] hex_of(bytes@),
        pair.1@ == challenge_of(pair.0@),
{
    let bytes = random_bytes::<32>();
    pkce_from(&bytes)
}

/// The session id that one `name=value` pair of a cookie header gives.
pub open spec fn session_in_pair(pair: Seq<char>) -> Option<Seq<char>> {
    match split_once_of(trim_of(pair), '=') {
        Some((name, value)) if trim_of(name) == "monitor_session"@ => Some(trim_of(value)),
        _ => None,
    }
}

/// The session id that the first fitting pair gives.
pub open spec fn session_in_pairs(pairs: Seq<Seq<char>>) -> Option<Seq<char>>
    decreases pairs.len(),
{
    if pairs.len() == 0 {
        None
    } else {
        match session_in_pair(pairs.first()) {
            Some(id) => Some(id),
            None => session_in_pairs(pairs.drop_first()),
        }
    }
}

/// The session id that a cookie header gives.
pub open spec fn session_id_of(cookie: Seq<char>) -> Option<Seq<char>> {
    session_in_pairs(split_of(cookie, ';'))
}

/// Finds the session id in a cookie header.
pub fn session_id(cookie: &str) -> (id: Option<String>)
    ensures
        match session_id_of(cookie@) {
            Some(v) => id matches Some(found) && found@ == v,
            None => id is None,
        },
{
    let text = chars_of(cookie);
    let name = chars_of("monitor_session");
    let pairs = split(text.as_slice(), ';');
    let ghost all = split_of(cookie@, ';');
    let mut i: usize = 0;
    assert(all.skip(0) =~= all);
    while i < pairs.len()
        invariant
            i <= pairs.len(),
            all == split_of(cookie@, ';'),
            pieces(pairs@) == all,
            name@ == "monitor_session"@,
            session_in_pairs(all) == session_in_pairs(all.skip(i as int)),
        decreases pairs.len() - i,
    {
        assert(all[i as int] == pairs@[i as int]@);
        assert(all.skip(i as int).first() == all[i as int]);
        assert(all.skip(i as int).drop_first() =~= all.skip(i + 1));
        if let Some((key, value)) = split_once(trim(pairs[i]), '=') {
            if same_chars(trim(key), name.as_slice()) {
                return Some(string_of(trim(value)));
            }
        }
        i += 1;
    }
    None
}

/// The session id that a request gives.
pub open spec fn request_session(cookie: Option<Seq<char>>) -> Option<Seq<char>> {
    match cookie {
        Some(header) => session_id_of(header),
        None => None,
    }
}

/// Whether a session that was opened at `created` still lasts.
pub open spec fn session_lasts(created: int, now: int) -> bool {
    now - created < SESSION_MAX_AGE
}

/// The e-mail address of who sent a request.
pub open spec fn email_of(
    sessions: TimedMap,
    cookie: Option<Seq<char>>,
    now: int,
) -> Option<Seq<char>> {
    match request_session(cookie) {
        Some(id) if sessions.contains_key(id) && session_lasts(sessions[id].1 as int, now) => Some(
            sessions[id].0,
        ),
        _ => None,
    }
}

/// The sessions after a request: one that has expired is dropped when it is used.
pub open spec fn sessions_after(
    sessions: TimedMap,
    cookie: Option<Seq<char>>,
    now: int,
) -> TimedMap {
    match request_session(cookie) {
        Some(id) if sessions.contains_key(id) && !session_lasts(
            sessions[id].1 as int,
            now,
        ) => sessions.remove(id),
        _ => sessions,
    }
}

/// Finds out who sent a request, and drops the session if it has expired.
pub fn get_session_email(sessions: &mut TimedStore, cookie: Option<&str>, now: i64) -> (email:
    Option<String>)
    requires
        old(sessions).well_formed(),
    ensures
        final(sessions).well_formed(),
        final(sessions)@ == sessions_after(old(sessions)@, borrowed_view(cookie), now as int),
        match email_of(old(sessions)@, borrowed_view(cookie), now as int) {
            Some(e) => email matches Some(found) && found@ == e,
            None => email is None,
        },
{
    let header: &str = match cookie {
        Some(s) => s,
        None => {
            return None;
        },
    };
    let id: String = match session_id(header) {
        Some(id) => id,
        None => {
            return None;
        },
    };
    let lasting: Option<String> = match sessions.get(id.as_str()) {
        Some((email, created)) => {
            if (now as i128) - (created as i128) < SESSION_MAX_AGE as i128 {
                Some(email.clone())
            } else {
                None
            }
        },
        None => {
            return None;
        },
    };
    if lasting.is_none() {
        sessions.remove(id.as_str());
    }
    lasting
}

/// Whether a path needs no session: the health check, log ingestion, which has
/// a token of its own, and the login itself.
pub open spec fn is_open_path(path: Seq<char>) -> bool {
    path == "/api/health"@ || path == "/api/ingest"@ || "/auth/"@.is_prefix_of(path)
}

/// Whether a request is let through.
pub open spec fn admitted(
    sessions: TimedMap,
    path: Seq<char>,
    cookie: Option<Seq<char>>,
    now: int,
) -> bool {
    is_open_path(path) || email_of(sessions, cookie, now) is Some
}

/// The sessions after a request for a path.
pub open spec fn sessions_after_request(
    sessions: TimedMap,
    path: Seq<char>,
    cookie: Option<Seq<char>>,
    now: int,
) -> TimedMap {
    if is_open_path(path) {
        sessions
    } else {
        sessions_after(sessions, cookie, now)
    }
}

fn open_path(path: &str) -> (yes: bool)
    ensures
        yes == is_open_path(path@),
{
    same(path, "/api/health") || same(path, "/api/ingest") || starts_with(
        chars_of(path).as_slice(),
        "/auth/",
    )
}

/// Decides whether a request is let through.
pub fn lets_through(auth: &mut AuthState, path: &str, cookie: Option<&str>, now: i64) -> (pass:
    bool)
    requires
        old(auth).well_formed(),
    ensures
        final(auth).well_formed(),
        final(auth).flows == old(auth).flows,
        final(auth).sessions@ == sessions_after_request(
            old(auth).sessions@,
            path@,
            borrowed_view(cookie),
            now as int,
        ),
        pass == admitted(old(auth).sessions@, path@, borrowed_view(cookie), now as int),
{
    open_path(path) || get_session_email(&mut auth.sessions, cookie, now).is_some()
}

/// Where a browser is sent to log in.
pub open spec fn authorize_url_of(
    cfg: ConfigView,
    state: Seq<char>,
    challenge: Seq<char>,
) -> Seq<char> {
    cfg.oidc_issuer + "/authorize?client_id="@ + cfg.oidc_client_id + "&redirect_uri="@ + urlenc_of(
        cfg.oidc_redirect_uri,
    ) + "&response_type=code&scope=openid+email&state="@ + state + "&code_challenge="@ + challenge
        + "&code_challenge_method=S256"@
}

/// The logins under way after one more was begun: the ones that were given up are forgotten.
pub open spec fn flows_after(
    flows: TimedMap,
    state: Seq<char>,
    verifier: Seq<char>,
    now: i64,
) -> TimedMap {
    younger(flows, now as int, PENDING_FLOW_TTL as int).insert(state, (verifier, now))
}

/// Begins a login and says where the browser is to be sent.
pub fn begin_login(
    auth: &mut AuthState,
    cfg: &Config,
    state: String,
    verifier: String,
    challenge: &str,
    now: i64,
) -> (url: String)
    requires
        old(auth).well_formed(),
    ensures
        final(auth).well_formed(),
        final(auth).sessions == old(auth).sessions,
        final(auth).flows@ == flows_after(old(auth).flows@, state@, verifier@, now),
        url@ == authorize_url_of(cfg@, state@, challenge@),
{
    let mut url: String = cfg.oidc_issuer.clone();
    url.append("/authorize?client_id=");
    url.append(cfg.oidc_client_id.as_str());
    url.append("&redirect_uri=");
    url.append(urlenc(cfg.oidc_redirect_uri.as_str()).as_str());
    url.append("&response_type=code&scope=openid+email&state=");
    url.append(state.as_str());
    url.append("&code_challenge=");
    url.append(challenge);
    url.append("&code_challenge_method=S256");
    auth.flows.keep_younger(now, PENDING_FLOW_TTL);
    auth.flows.insert(state, verifier, now);
    url
}

/// What becomes of a request.
pub enum Admission {
    /// It is let through.
    Pass,
    /// The browser is sent to this address to log in.
    Login(String),
}

/// Whether a login was begun at `now` with the given random bytes: where the
/// browser is sent, and which logins are then under way.
pub open spec fn login_begun(
    url: Seq<char>,
    before: TimedMap,
    after: TimedMap,
    cfg: ConfigView,
    now: i64,
    state_bytes: Seq<u8>,
    verifier_bytes: Seq<u8>,
) -> bool {
    &&& url == authorize_url_of(cfg, hex_of(state_bytes), challenge_of(hex_of(verifier_bytes)))
    &&& after == flows_after(before, hex_of(state_bytes), hex_of(verifier_bytes), now)
}

/// Whether a login was begun at some moment with some random bytes.
pub open spec fn fresh_login(
    url: Seq<char>,
    before: TimedMap,
    after: TimedMap,
    cfg: ConfigView,
) -> bool {
    exists|now: i64, state_bytes: [u8; 16], verifier_bytes: [u8; 32]|
        0 <= now && #[trigger] login_begun(
            url,
            before,
            after,
            cfg,
            now,
            state_bytes@,
            verifier_bytes@,
        )
}

fn start_login(auth: &mut AuthState, cfg: &Config) -> (url: String)
    requires
        old(auth).well_formed(),
    ensures
        final(auth).well_formed(),
        final(auth).sessions == old(auth).sessions,
        fresh_login(url@, old(auth).flows@, final(auth).flows@, cfg@),
{
    let state = generate_state();
    let (verifier, challenge) = generate_pkce();
    let now: i64 = unix_now();
    let ghost state_bytes = choose|bytes: [u8; 16]| state@ == #[trigger] hex_of(bytes@);
    let ghost verifier_bytes = choose|bytes: [u8; 32]| verifier@ == #[trigger] hex_of(bytes@);
    let url = begin_login(auth, cfg, state, verifier, challenge.as_str(), now);
    assert(login_begun(
        url@,
        old(auth).flows@,
        auth.flows@,
        cfg@,
        now,
        state_bytes@,
        verifier_bytes@,
    ));
    url
}

/// Whether a request that is looked at when the clock shows `now` may be
/// answered so. A login that it begins has a moment and random values of its own.
pub open spec fn admission_holds(
    admission: Admission,
    before: AuthState,
    after: AuthState,
    cfg: ConfigView,
    path: Seq<char>,
    cookie: Option<Seq<char>>,
    now: i64,
) -> bool {
    &&& after.sessions@ == sessions_after_request(before.sessions@, path, cookie, now as int)
    &&& if admitted(before.sessions@, path, cookie, now as int) {
        admission is Pass && after.flows@ == before.flows@
    } else {
        &&& admission matches Admission::Login(url)
        &&& fresh_login(url@, before.flows@, after.flows@, cfg)
    }
}

/// Lets a request through or sends the browser to log in, by the clock at the
/// moment of the call and with fresh random values. For an open path the clock
/// is not looked at.
pub fn auth_middleware(auth: &mut AuthState, cfg: &Config, path: &str, cookie: Option<&str>) -> (
    admission: Admission)
    requires
        old(auth).well_formed(),
    ensures
        final(auth).well_formed(),
        is_open_path(path@) ==> admission is Pass && final(auth).sessions@ == old(auth).sessions@
            && final(auth).flows@ == old(auth).flows@,
        request_session(borrowed_view(cookie)) is None && !is_open_path(path@)
            ==> admission is Login,
        exists|now: i64|
            0 <= now && #[trigger] admission_holds(
                admission,
                *old(auth),
                *final(auth),
                cfg@,
                path@,
                borrowed_view(cookie),
                now,
            ),
{
    let now: i64 = if open_path(path) {
        0
    } else {
        unix_now()
    };
    let admission = if lets_through(auth, path, cookie, now) {
        Admission::Pass
    } else {
        Admission::Login(start_login(auth, cfg))
    };
    assert(admission_holds(
        admission,
        *old(auth),
        *auth,
        cfg@,
        path@,
        borrowed_view(cookie),
        now,
    ));
    admission
}

/// What the identity provider sends back through the browser.
pub struct CallbackQuery {
    pub code: Option<String>,
    pub state: Option<String>,
    pub error: Option<String>,
    pub error_description: Option<String>,
}

/// An answer to a browser.
pub struct Reply {
    pub status: u16,
    pub body: String,
    pub set_cookie: Option<String>,
    pub location: Option<String>,
}

/// The mathematical form of [`Reply`].
pub struct ReplyView {
    pub status: u16,
    pub body: Seq<char>,
    pub set_cookie: Option<Seq<char>>,
    pub location: Option<Seq<char>>,
}

impl View for Reply {
    type V = ReplyView;

    open spec fn view(&self) -> ReplyView {
        ReplyView {
            status: self.status,
            body: self.body@,
            set_cookie: owned_view(self.set_cookie),
            location: owned_view(self.location),
        }
    }
}

/// An answer of a status and a text.
pub open spec fn plain_reply(status: u16, body: Seq<char>) -> ReplyView {
    ReplyView { status, body, set_cookie: None, location: None }
}

fn plain(status: u16, body: &str) -> (reply: Reply)
    ensures
        reply@ == plain_reply(status, body@),
{
    Reply { status, body: body.to_string(), set_cookie: None, location: None }
}

/// An answer that sends the browser to the front page with a cookie to keep.
pub open spec fn home_reply(cookie: Seq<char>) -> ReplyView {
    ReplyView {
        status: 303,
        body: Seq::empty(),
        set_cookie: Some(cookie),
        location: Some("/"@),
    }
}

fn home(cookie: String) -> (reply: Reply)
    ensures
        reply@ == home_reply(cookie@),
{
    Reply {
        status: 303,
        body: String::new(),
        set_cookie: Some(cookie),
        location: Some("/".to_string()),
    }
}

/// One field of a form.
pub struct FormField {
    pub name: String,
    pub value: String,
}

/// The fields of a form as pairs of texts.
pub open spec fn form_view(form: Seq<FormField>) -> Seq<(Seq<char>, Seq<char>)> {
    form.map_values(|f: FormField| (f.name@, f.value@))
}

/// What is asked of the identity provider: a form to post to an address.
pub struct TokenRequest {
    pub url: String,
    pub form: Vec<FormField>,
}

/// The next step of a login.
pub enum CallbackStep {
    /// The browser is answered.
    Answer(Reply),
    /// The code is to be exchanged for tokens first.
    Exchange(TokenRequest),
}

/// Where codes are exchanged for tokens.
pub open spec fn token_url_of(cfg: ConfigView) -> Seq<char> {
    cfg.oidc_issuer + "/token"@
}

/// The form with which a code is exchanged for tokens.
pub open spec fn token_form_of(cfg: ConfigView, code: Seq<char>, verifier: Seq<char>) -> Seq<
    (Seq<char>, Seq<char>),
> {
    seq![
        ("grant_type"@, "authorization_code"@),
        ("code"@, code),
        ("redirect_uri"@, cfg.oidc_redirect_uri),
        ("client_id"@, cfg.oidc_client_id),
        ("client_secret"@, cfg.oidc_client_secret),
        ("code_verifier"@, verifier),
    ]
}

/// Why a callback goes no further, whatever logins are under way.
pub open spec fn callback_refusal(q: CallbackQuery) -> Option<ReplyView> {
    if q.error is Some {
        let description = match q.error_description {
            Some(text) => text@,
            None => "Unknown error"@,
        };
        Some(plain_reply(401, "Login failed: "@ + description))
    } else if q.code is None {
        Some(plain_reply(400, "Missing authorization code"@))
    } else if q.state is None {
        Some(plain_reply(400, "Missing state parameter"@))
    } else {
        None
    }
}

/// Whether `step` is what a callback leads to with the given logins under way.
pub open spec fn callback_leads_to(
    step: CallbackStep,
    flows: TimedMap,
    cfg: ConfigView,
    q: CallbackQuery,
) -> bool {
    match callback_refusal(q) {
        Some(answer) => step matches CallbackStep::Answer(reply) && reply@ == answer,
        None => {
            let state = q.state->0@;
            if flows.contains_key(state) {
                &&& step matches CallbackStep::Exchange(request)
                &&& request.url@ == token_url_of(cfg)
                &&& form_view(request.form@) == token_form_of(cfg, q.code->0@, flows[state].0)
            } else {
                step matches CallbackStep::Answer(reply) && reply@ == plain_reply(
                    400,
                    "Invalid state parameter"@,
                )
            }
        },
    }
}

/// The logins under way after a callback: the one that it names is taken.
pub open spec fn flows_after_callback(flows: TimedMap, q: CallbackQuery) -> TimedMap {
    if callback_refusal(q) is None {
        flows.remove(q.state->0@)
    } else {
        flows
    }
}

fn form_field(name: &str, value: &str) -> (field: FormField)
    ensures
        field.name@ == name@,
        field.value@ == value@,
{
    FormField { name: name.to_string(), value: value.to_string() }
}

fn refusal(q: &CallbackQuery) -> (reply: Option<Reply>)
    ensures
        match callback_refusal(*q) {
            Some(answer) => reply matches Some(r) && r@ == answer,
            None => reply is None,
        },
{
    if q.error.is_some() {
        let mut body: String = "Login failed: ".to_string();
        match &q.error_description {
            Some(text) => {
                body.append(text.as_str());
            },
            None => {
                body.append("Unknown error");
            },
        }
        Some(plain(401, body.as_str()))
    } else if q.code.is_none() {
        Some(plain(400, "Missing authorization code"))
    } else if q.state.is_none() {
        Some(plain(400, "Missing state parameter"))
    } else {
        None
    }
}

fn token_request(cfg: &Config, code: &str, verifier: &str) -> (request: TokenRequest)
    ensures
        request.url@ == token_url_of(cfg@),
        form_view(request.form@) == token_form_of(cfg@, code@, verifier@),
{
    let form: Vec<FormField> = vec![
        form_field("grant_type", "authorization_code"),
        form_field("code", code),
        form_field("redirect_uri", cfg.oidc_redirect_uri.as_str()),
        form_field("client_id", cfg.oidc_client_id.as_str()),
        form_field("client_secret", cfg.oidc_client_secret.as_str()),
        form_field("code_verifier", verifier),
    ];
    assert(form_view(form@) =~= token_form_of(cfg@, code@, verifier@));
    let mut url: String = cfg.oidc_issuer.clone();
    url.append("/token");
    TokenRequest { url, form }
}

fn unknown_state() -> (step: CallbackStep)
    ensures
        step matches CallbackStep::Answer(reply) && reply@ == plain_reply(
            400,
            "Invalid state parameter"@,
        ),
{
    CallbackStep::Answer(plain(400, "Invalid state parameter"))
}

/// The next step of a login that was begun at `created` and comes back at `now`.
fn resume_login(cfg: &Config, code: &str, verifier: &str, created: i64, now: i64) -> (step:
    CallbackStep)
    ensures
        if now - created < PENDING_FLOW_TTL {
            &&& step matches CallbackStep::Exchange(request)
            &&& request.url@ == token_url_of(cfg@)
            &&& form_view(request.form@) == token_form_of(cfg@, code@, verifier@)
        } else {
            step matches CallbackStep::Answer(reply) && reply@ == plain_reply(
                400,
                "Invalid state parameter"@,
            )
        },
{
    if (now as i128) - (created as i128) < PENDING_FLOW_TTL as i128 {
        CallbackStep::Exchange(token_request(cfg, code, verifier))
    } else {
        unknown_state()
    }
}

/// Takes up a login that the browser brings back from the identity provider at
/// `now`. One that was begun too long ago is no longer known.
pub fn auth_callback_at(
    auth: &mut AuthState,
    cfg: &Config,
    q: &CallbackQuery,
    now: i64,
) -> (step: CallbackStep)
    requires
        old(auth).well_formed(),
    ensures
        final(auth).well_formed(),
        final(auth).sessions == old(auth).sessions,
        final(auth).flows@ == flows_after_callback(old(auth).flows@, *q),
        callback_leads_to(
            step,
            younger(old(auth).flows@, now as int, PENDING_FLOW_TTL as int),
            cfg@,
            *q,
        ),
{
    if let Some(reply) = refusal(q) {
        return CallbackStep::Answer(reply);
    }
    match (&q.code, &q.state) {
        (Some(code), Some(state)) => match auth.flows.remove(state.as_str()) {
            Some((verifier, created)) => resume_login(
                cfg,
                code.as_str(),
                verifier.as_str(),
                created,
                now,
            ),
            None => unknown_state(),
        },
        _ => unknown_state(),
    }
}

/// Takes up a login that the browser brings back from the identity provider, by
/// the clock at the moment of the call. Where no login is found the clock is not
/// looked at.
pub fn auth_callback(auth: &mut AuthState, cfg: &Config, q: &CallbackQuery) -> (step:
    CallbackStep)
    requires
        old(auth).well_formed(),
    ensures
        final(auth).well_formed(),
        final(auth).sessions == old(auth).sessions,
        final(auth).flows@ == flows_after_callback(old(auth).flows@, *q),
        exists|now: i64|
            0 <= now && #[trigger] callback_leads_to(
                step,
                younger(old(auth).flows@, now as int, PENDING_FLOW_TTL as int),
                cfg@,
                *q,
            ),
{
    let known: bool = match &q.state {
        Some(state) => auth.flows.get(state.as_str()).is_some(),
        None => false,
    };
    let now: i64 = if known && refusal(q).is_none() {
        unix_now()
    } else {
        0
    };
    let step = auth_callback_at(auth, cfg, q, now);
    assert(callback_leads_to(
        step,
        younger(old(auth).flows@, now as int, PENDING_FLOW_TTL as int),
        cfg@,
        *q,
    ));
    step
}

/// What came back for a [`TokenRequest`].
pub enum TokenReply {
    /// Nothing: the identity provider could not be reached.
    Unreachable,
    /// A response, and its body where that could be read.
    Response { status: u16, body: Option<Vec<u8>> },
}

/// How the exchange of a code ended.
pub enum TokenOutcome {
    /// The identity provider could not be reached.
    Unreachable,
    /// It did not exchange the code.
    Refused,
    /// What it sent is not JSON.
    Unreadable,
    /// It sent tokens, with this e-mail address in them, if any.
    Granted(Option<String>),
}

/// The mathematical form of [`TokenOutcome`].
pub enum OutcomeView {
    Unreachable,
    Refused,
    Unreadable,
    Granted(Option<Seq<char>>),
}

impl View for TokenOutcome {
    type V = OutcomeView;

    open spec fn view(&self) -> OutcomeView {
        match self {
            TokenOutcome::Unreachable => OutcomeView::Unreachable,
            TokenOutcome::Refused => OutcomeView::Refused,
            TokenOutcome::Unreadable => OutcomeView::Unreadable,
            TokenOutcome::Granted(email) => OutcomeView::Granted(owned_view(*email)),
        }
    }
}

/// The payload of the identity token in a token response: the second of its
/// three parts, decoded.
pub open spec fn payload_of(response: DocumentView) -> Option<Seq<u8>> {
    match text_of(response, "id_token"@) {
        Some(token) => {
            let parts = split_of(token, '.');
            if parts.len() == 3 {
                url_decode_of(parts[1])
            } else {
                None
            }
        },
        None => None,
    }
}

/// The e-mail address in a token response.
pub open spec fn email_in_response(response: DocumentView) -> Option<Seq<char>> {
    match payload_of(response) {
        Some(payload) => match json_of_bytes(payload) {
            Some(claims) => text_of(claims, "email"@),
            None => None,
        },
        None => None,
    }
}

/// Decodes the payload of the identity token in a token response.
pub fn id_token_payload(response: &Document) -> (payload: Option<Vec<u8>>)
    ensures
        match payload_of(response@) {
            Some(v) => payload matches Some(found) && found@ == v,
            None => payload is None,
        },
{
    let token: &String = match response.text("id_token") {
        Some(token) => token,
        None => {
            return None;
        },
    };
    let chars = chars_of(token.as_str());
    let parts = split(chars.as_slice(), '.');
    assert(pieces(parts@).len() == parts@.len());
    if parts.len() != 3 {
        return None;
    }
    assert(pieces(parts@)[1] == parts@[1]@);
    base64_url_decode(string_of(parts[1]).as_str())
}

/// The e-mail address that the claims of an identity token give.
pub fn claimed_email(claims: &Document) -> (email: Option<String>)
    ensures
        owned_view(email) == text_of(claims@, "email"@),
{
    match claims.text("email") {
        Some(email) => Some(email.clone()),
        None => None,
    }
}

/// Finds the e-mail address in a token response. The provider is trusted: the
/// token's signature is not looked at.
pub fn extract_email_from_id_token(response: &Document) -> (email: Option<String>)
    ensures
        owned_view(email) == email_in_response(response@),
{
    let payload: Vec<u8> = match id_token_payload(response) {
        Some(payload) => payload,
        None => {
            return None;
        },
    };
    match json_from_slice(payload.as_slice()) {
        Some(claims) => claimed_email(&claims),
        None => None,
    }
}

/// How an exchange ended, by what came back.
pub open spec fn outcome_of(reply: TokenReply) -> OutcomeView {
    match reply {
        TokenReply::Unreachable => OutcomeView::Unreachable,
        TokenReply::Response { status, body } => if !(200 <= status < 300) {
            OutcomeView::Refused
        } else {
            match body {
                Some(bytes) => match json_of_bytes(bytes@) {
                    Some(response) => OutcomeView::Granted(email_in_response(response)),
                    None => OutcomeView::Unreadable,
                },
                None => OutcomeView::Unreadable,
            }
        },
    }
}

/// Judges what came back for a [`TokenRequest`].
pub fn token_outcome(reply: &TokenReply) -> (outcome: TokenOutcome)
    ensures
        outcome@ == outcome_of(*reply),
{
    match reply {
        TokenReply::Unreachable => TokenOutcome::Unreachable,
        TokenReply::Response { status, body } => {
            if *status < 200 || *status >= 300 {
                return TokenOutcome::Refused;
            }
            match body {
                Some(bytes) => match json_from_slice(bytes.as_slice()) {
                    Some(response) => TokenOutcome::Granted(
                        extract_email_from_id_token(&response),
                    ),
                    None => TokenOutcome::Unreadable,
                },
                None => TokenOutcome::Unreadable,
            }
        },
    }
}

/// The cookie that carries a session.
pub open spec fn session_cookie_of(id: Seq<char>) -> Seq<char> {
    "monitor_session="@ + id + "; Path=/; HttpOnly; SameSite=Lax; Max-Age=86400"@
}

/// The name under which a session is opened.
pub open spec fn email_or_unknown(email: Option<Seq<char>>) -> Seq<char> {
    match email {
        Some(e) => e,
        None => "unknown"@,
    }
}

/// The answer to the browser when an exchange has ended.
pub open spec fn outcome_reply(outcome: OutcomeView, id: Seq<char>) -> ReplyView {
    match outcome {
        OutcomeView::Unreachable => plain_reply(502, "Failed to contact IDP"@),
        OutcomeView::Refused => plain_reply(401, "Token exchange failed"@),
        OutcomeView::Unreadable => plain_reply(502, "Invalid token response"@),
        OutcomeView::Granted(_) => home_reply(session_cookie_of(id)),
    }
}

/// The sessions when an exchange has ended: only granted tokens open one.
pub open spec fn sessions_after_outcome(
    sessions: TimedMap,
    outcome: OutcomeView,
    id: Seq<char>,
    now: i64,
) -> TimedMap {
    match outcome {
        OutcomeView::Granted(email) => sessions.insert(id, (email_or_unknown(email), now)),
        _ => sessions,
    }
}

/// Ends a login: opens a session with the given id where tokens were granted, and
/// answers the browser.
pub fn conclude_login(
    auth: &mut AuthState,
    outcome: TokenOutcome,
    id: String,
    now: i64,
) -> (reply: Reply)
    requires
        old(auth).well_formed(),
    ensures
        final(auth).well_formed(),
        final(auth).flows == old(auth).flows,
        final(auth).sessions@ == sessions_after_outcome(
            old(auth).sessions@,
            outcome@,
            id@,
            now,
        ),
        reply@ == outcome_reply(outcome@, id@),
{
    match outcome {
        TokenOutcome::Unreachable => plain(502, "Failed to contact IDP"),
        TokenOutcome::Refused => plain(401, "Token exchange failed"),
        TokenOutcome::Unreadable => plain(502, "Invalid token response"),
        TokenOutcome::Granted(email) => {
            let email: String = match email {
                Some(email) => email,
                None => "unknown".to_string(),
            };
            let mut cookie: String = "monitor_session=".to_string();
            cookie.append(id.as_str());
            cookie.append("; Path=/; HttpOnly; SameSite=Lax; Max-Age=86400");
            auth.sessions.insert(id, email, now);
            home(cookie)
        },
    }
}

/// Whether a login was ended at `now` with the given random bytes.
pub open spec fn login_concluded(
    reply: ReplyView,
    before: TimedMap,
    after: TimedMap,
    outcome: OutcomeView,
    session_bytes: Seq<u8>,
    now: i64,
) -> bool {
    &&& reply == outcome_reply(outcome, hex_of(session_bytes))
    &&& after == sessions_after_outcome(before, outcome, hex_of(session_bytes), now)
}

/// Ends a login by what came back for its [`TokenRequest`]. A session that is
/// opened has a fresh id and the moment of the call; otherwise neither is asked for.
pub fn finish_login(auth: &mut AuthState, token_reply: &TokenReply) -> (reply: Reply)
    requires
        old(auth).well_formed(),
    ensures
        final(auth).well_formed(),
        final(auth).flows == old(auth).flows,
        exists|session_bytes: [u8; 32], now: i64|
            0 <= now && #[trigger] login_concluded(
                reply@,
                old(auth).sessions@,
                final(auth).sessions@,
                outcome_of(*token_reply),
                session_bytes@,
                now,
            ),
{
    let outcome = token_outcome(token_reply);
    let granted: bool = match &outcome {
        TokenOutcome::Granted(_) => true,
        _ => false,
    };
    let (id, now): (String, i64) = if granted {
        (generate_session_id(), unix_now())
    } else {
        (String::new(), 0)
    };
    let ghost session_bytes = choose|bytes: [u8; 32]| id@ == #[trigger] hex_of(bytes@);
    let reply = conclude_login(auth, outcome, id, now);
    assert(login_concluded(
        reply@,
        old(auth).sessions@,
        auth.sessions@,
        outcome_of(*token_reply),
        session_bytes@,
        now,
    ));
    reply
}

/// Has the browser forget its session.
pub fn auth_logout() -> (reply: Reply)
    ensures
        reply@ == home_reply(
            "monitor_session=; Path=/; HttpOnly; SameSite=Lax; Max-Age=0"@,
        ),
        reply.status == 303,
        reply.body@.len() == 0,
        reply.location matches Some(page) && page@ == "/"@,
{
    home("monitor_session=; Path=/; HttpOnly; SameSite=Lax; Max-Age=0".to_string())
}

proof fn lemma_hex_is_plain(data: Seq<u8>)
    ensures
        forall|i: int|
            0 <= i < hex_of(data).len() ==> {
                let c = #[trigger] hex_of(data)[i];
                !is_space(c) && c != ';' && c != '='
            },
{
    assert forall|i: int| 0 <= i < hex_of(data).len() implies {
        let c = #[trigger] hex_of(data)[i];
        !is_space(c) && c != ';' && c != '='
    } by {
        let b = data[i / 2] as int;
        assert(0 <= b / 16 < 16 && 0 <= b % 16 < 16);
    }
}

/// A session cookie gives its session's id, with or without a space in front.
pub proof fn session_cookie_is_read_back(data: Seq<u8>)
    ensures
        session_id_of("monitor_session="@ + hex_of(data)) == Some(hex_of(data)),
        session_id_of(seq![' '] + ("monitor_session="@ + hex_of(data))) == Some(hex_of(data)),
{
    let id = hex_of(data);
    let name = "monitor_session"@;
    let header = "monitor_session="@ + id;
    reveal_strlit("monitor_session=");
    reveal_strlit("monitor_session");
    lemma_hex_is_plain(data);
    assert forall|i: int| 0 <= i < header.len() implies header[i] != ';' && !is_space(
        header[i],
    ) by {
        if i >= 16 {
            assert(header[i] == id[i - 16]);
        }
    }
    split_keeps_unmarked(header, ';');
    trim_keeps(header);
    let spaced = seq![' '] + header;
    assert forall|i: int| 0 <= i < spaced.len() implies spaced[i] != ';' by {
        if i > 0 {
            assert(spaced[i] == header[i - 1]);
        }
    }
    split_keeps_unmarked(spaced, ';');
    assert(spaced.drop_first() =~= header);
    assert(trim_start_of(spaced) == trim_start_of(header));
    assert(trim_of(spaced) == header);
    assert(header[15] == '=');
    assert(header.contains('='));
    header.index_of_first_ensures('=');
    assert forall|i: int| 0 <= i < 15 implies header[i] != '=' by {}
    assert(header.index_of_first('=') == Some(15int));
    assert(header.take(15) =~= name);
    assert(header.skip(16) =~= id);
    assert(name.first() == 'm' && name.last() == 'n');
    trim_keeps(name);
    trim_keeps(id);
}

/// Of two parts of a cookie header, the first that gives a session id counts.
pub proof fn first_session_cookie_counts(a: Seq<char>, b: Seq<char>)
    ensures
        session_id_of(a.push(';') + b) == match session_id_of(a) {
            Some(id) => Some(id),
            None => session_id_of(b),
        },
{
    split_of_joined(a, b, ';');
    lemma_session_in_joined(split_of(a, ';'), split_of(b, ';'));
}

proof fn lemma_session_in_joined(a: Seq<Seq<char>>, b: Seq<Seq<char>>)
    ensures
        session_in_pairs(a + b) == match session_in_pairs(a) {
            Some(id) => Some(id),
            None => session_in_pairs(b),
        },
    decreases a.len(),
{
    if a.len() == 0 {
        assert(a + b =~= b);
    } else {
        assert((a + b).first() == a.first());
        assert((a + b).drop_first() =~= a.drop_first() + b);
        lemma_session_in_joined(a.drop_first(), b);
    }
}

/// A session that a login opened is known by its cookie for a day, and no longer.
pub proof fn session_lasts_a_day(
    sessions: TimedMap,
    email: Option<Seq<char>>,
    session_bytes: Seq<u8>,
    opened: i64,
    now: int,
)
    ensures
        email_of(
            sessions_after_outcome(
                sessions,
                OutcomeView::Granted(email),
                hex_of(session_bytes),
                opened,
            ),
            Some("monitor_session="@ + hex_of(session_bytes)),
            now,
        ) == if now - opened < 86400 {
            Some(email_or_unknown(email))
        } else {
            None
        },
{
    session_cookie_is_read_back(session_bytes);
}

/// A session that was found expired is known at no other moment either.
pub proof fn expired_session_is_gone(
    sessions: TimedMap,
    cookie: Option<Seq<char>>,
    now: int,
    later: int,
)
    requires
        email_of(sessions, cookie, now) is None,
    ensures
        email_of(sessions_after(sessions, cookie, now), cookie, later) is None,
{
}

/// A request changes no session but the one that it names.
pub proof fn other_sessions_are_kept(
    sessions: TimedMap,
    path: Seq<char>,
    cookie: Option<Seq<char>>,
    now: int,
    id: Seq<char>,
)
    requires
        sessions.contains_key(id),
        request_session(cookie) != Some(id) || now - sessions[id].1 < 86400,
    ensures
        sessions_after_request(sessions, path, cookie, now).contains_key(id),
        sessions_after_request(sessions, path, cookie, now)[id] == sessions[id],
{
}

/// Once a login has been begun, every login under way is younger than the limit.
pub proof fn pending_logins_are_young(
    flows: TimedMap,
    state: Seq<char>,
    verifier: Seq<char>,
    now: i64,
    other: Seq<char>,
)
    requires
        flows_after(flows, state, verifier, now).contains_key(other),
    ensures
        now - flows_after(flows, state, verifier, now)[other].1 < 600,
        other != state ==> flows.contains_key(other) && flows_after(
            flows,
            state,
            verifier,
            now,
        )[other] == flows[other],
{
}

/// Beginning a login leaves every other login that is young enough under way.
pub proof fn young_logins_are_kept(
    flows: TimedMap,
    state: Seq<char>,
    verifier: Seq<char>,
    now: i64,
    other: Seq<char>,
)
    requires
        other != state,
        flows.contains_key(other),
        now - flows[other].1 < 600,
    ensures
        flows_after(flows, state, verifier, now).contains_key(other),
        flows_after(flows, state, verifier, now)[other] == flows[other],
{
}

/// A login that comes back with the state with which it was begun, while it is
/// younger than the limit, is taken up with the verifier whose challenge the
/// identity provider was given.
pub proof fn begun_login_is_taken_up(
    flows: TimedMap,
    cfg: ConfigView,
    url: Seq<char>,
    after: TimedMap,
    begun: i64,
    state_bytes: Seq<u8>,
    verifier_bytes: Seq<u8>,
    q: CallbackQuery,
    now: i64,
    step: CallbackStep,
)
    requires
        login_begun(url, flows, after, cfg, begun, state_bytes, verifier_bytes),
        now - begun < 600,
        callback_refusal(q) is None,
        q.state->0@ == hex_of(state_bytes),
        callback_leads_to(
            step,
            younger(after, now as int, PENDING_FLOW_TTL as int),
            cfg,
            q,
        ),
    ensures
        step is Exchange,
        form_view(step->Exchange_0.form@) == token_form_of(
            cfg,
            q.code->0@,
            hex_of(verifier_bytes),
        ),
        url == authorize_url_of(cfg, q.state->0@, challenge_of(hex_of(verifier_bytes))),
{
}

/// A login that comes back when it is as old as the limit or older is refused.
pub proof fn abandoned_login_is_refused(
    flows: TimedMap,
    cfg: ConfigView,
    q: CallbackQuery,
    now: i64,
    step: CallbackStep,
)
    requires
        callback_refusal(q) is None,
        flows.contains_key(q.state->0@) ==> now - flows[q.state->0@].1 >= 600,
        callback_leads_to(
            step,
            younger(flows, now as int, PENDING_FLOW_TTL as int),
            cfg,
            q,
        ),
    ensures
        step is Answer,
        step->Answer_0@ == plain_reply(400, "Invalid state parameter"@),
{
}

/// A state is good for one callback: the next one that brings it is refused,
/// whenever it comes.
pub proof fn state_is_good_once(
    flows: TimedMap,
    cfg: ConfigView,
    first: CallbackQuery,
    second: CallbackQuery,
    now: i64,
    step: CallbackStep,
)
    requires
        callback_refusal(first) is None,
        callback_refusal(second) is None,
        first.state->0@ == second.state->0@,
        callback_leads_to(
            step,
            younger(
                flows_after_callback(flows, first),
                now as int,
                PENDING_FLOW_TTL as int,
            ),
            cfg,
            second,
        ),
    ensures
        step is Answer,
        step->Answer_0@ == plain_reply(400, "Invalid state parameter"@),
{
}

/// A callback that reports an error, or lacks its code or state, takes up no login.
pub proof fn refused_callback_changes_nothing(
    flows: TimedMap,
    cfg: ConfigView,
    q: CallbackQuery,
    step: CallbackStep,
)
    requires
        q.error is Some || q.code is None || q.state is None,
        callback_leads_to(step, flows, cfg, q),
    ensures
        step is Answer,
        flows_after_callback(flows, q) == flows,
{
}

/// The payload that an identity provider has put into an identity token is read
/// back, whatever stands in the token's header and signature.
pub proof fn token_payload_is_read_back(
    response: DocumentView,
    header: Seq<char>,
    payload: Seq<u8>,
    signature: Seq<char>,
)
    requires
        !header.contains('.'),
        !signature.contains('.'),
        text_of(response, "id_token"@) == Some(
            header.push('.') + (url_encode_of(payload).push('.') + signature),
        ),
    ensures
        payload_of(response) == Some(payload),
{
    let middle = url_encode_of(payload);
    url_encoding_is_url_safe(payload);
    if middle.contains('.') {
        let i = choose|i: int| 0 <= i < middle.len() && middle[i] == '.';
        assert(url_encode_of(payload)[i] == '.');
    }
    split_keeps_unmarked(header, '.');
    split_keeps_unmarked(middle, '.');
    split_keeps_unmarked(signature, '.');
    split_of_joined(middle, signature, '.');
    split_of_joined(header, middle.push('.') + signature, '.');
    url_decode_inverts_url_encode(payload);
}

/// The session id of a pair is what stands behind the name, whatever white space stands
/// around either.
pub proof fn session_pair_is_read(
    p1: Seq<char>,
    p2: Seq<char>,
    p3: Seq<char>,
    id: Seq<char>,
    p4: Seq<char>,
)
    requires
        is_blank(p1),
        is_blank(p2),
        is_blank(p3),
        is_blank(p4),
        id.len() > 0,
        !is_space(id.first()),
        !is_space(id.last()),
    ensures
        session_in_pair(
            p1 + (("monitor_session"@ + p2).push('=') + (p3 + id)) + p4,
        ) == Some(id),
{
    reveal_strlit("monitor_session");
    let name = "monitor_session"@;
    let inner = (name + p2).push('=') + (p3 + id);
    assert(inner.first() == name[0]);
    assert(inner.last() == id.last());
    trim_undoes_padding(p1, inner, p4);
    assert forall|i: int| 0 <= i < (name + p2).len() implies (name + p2)[i] != '=' by {
        if i >= name.len() {
            assert(is_space(p2[i - name.len()]));
        }
    }
    assert(!(name + p2).contains('='));
    cut_at_the_first(name + p2, p3 + id, '=');
    let none = Seq::<char>::empty();
    assert(none + name + p2 =~= name + p2);
    assert(p3 + id + none =~= p3 + id);
    trim_undoes_padding(none, name, p2);
    trim_undoes_padding(p3, id, none);
}

/// A pair of another name gives no session id.
pub proof fn other_pairs_give_no_session(name: Seq<char>, value: Seq<char>)
    requires
        !name.contains('='),
        name.len() > 0 ==> !is_space(name.first()) && !is_space(name.last()),
        name != "monitor_session"@,
    ensures
        session_in_pair(name) is None,
        value.len() > 0 && name.len() > 0 && !is_space(value.last()) ==> session_in_pair(
            name.push('=') + value,
        ) is None,
{
    let none = Seq::<char>::empty();
    assert(none + name + none =~= name);
    trim_undoes_padding(none, name, none);
    name.index_of_first_ensures('=');
    assert(split_once_of(name, '=') is None);
    if value.len() > 0 && name.len() > 0 && !is_space(value.last()) {
        let all = name.push('=') + value;
        assert(none + all + none =~= all);
        assert(all.first() == name.first() && all.last() == value.last());
        trim_undoes_padding(none, all, none);
        cut_at_the_first(name, value, '=');
    }
}

/// What stands in a session decides who sent a request: the address with which it was
/// opened, for as long as it lasts, and nobody without a session.
pub proof fn sessions_tell_who_it_is(
    sessions: TimedMap,
    cookie: Seq<char>,
    id: Seq<char>,
    now: int,
)
    requires
        session_id_of(cookie) == Some(id),
    ensures
        email_of(sessions, Some(cookie), now) is Some <==> sessions.contains_key(id) && now
            - sessions[id].1 < 86400,
        email_of(sessions, Some(cookie), now) matches Some(email) ==> email == sessions[id].0,
        email_of(sessions, None, now) is None,
        sessions_after(sessions, Some(cookie), now).contains_key(id) <==> email_of(
            sessions,
            Some(cookie),
            now,
        ) is Some,
{
}

/// The health check, the ingestion of lines and all pages of the login are open to
/// everybody; every other page only to who has a session that lasts.
pub proof fn only_sessions_open_other_pages(
    sessions: TimedMap,
    path: Seq<char>,
    rest: Seq<char>,
    cookie: Option<Seq<char>>,
    now: int,
)
    ensures
        admitted(sessions, "/api/health"@, cookie, now),
        admitted(sessions, "/api/ingest"@, cookie, now),
        admitted(sessions, "/auth/"@ + rest, cookie, now),
        path != "/api/health"@ && path != "/api/ingest"@ && !"/auth/"@.is_prefix_of(path) ==> (
        admitted(sessions, path, cookie, now) <==> email_of(sessions, cookie, now) is Some),
{
    assert(("/auth/"@ + rest).take("/auth/"@.len() as int) =~= "/auth/"@);
    assert("/auth/"@.is_prefix_of("/auth/"@ + rest));
}

proof fn lemma_percent_has_no_mark(bytes: Seq<u8>)
    ensures
        !percent_of(bytes).contains('&'),
    decreases bytes.len(),
{
    if bytes.len() > 0 {
        lemma_percent_has_no_mark(bytes.drop_first());
        let b = bytes.first();
        let one = seq![b];
        byte_is_written_or_escaped(b);
        bytes_are_written_in_order(one, bytes.drop_first());
        assert(one + bytes.drop_first() =~= bytes);
        let rest = percent_of(bytes.drop_first());
        let head = percent_of(one);
        assert forall|i: int| 0 <= i < percent_of(bytes).len() implies percent_of(bytes)[i]
            != '&' by {
            if i >= head.len() {
                assert(percent_of(bytes)[i] == rest[i - head.len()]);
                assert(rest.contains(rest[i - head.len()]));
            } else {
                assert(percent_of(bytes)[i] == head[i]);
            }
        }
    }
}

proof fn lemma_no_mark(a: Seq<char>, b: Seq<char>, c: char)
    requires
        !a.contains(c),
        !b.contains(c),
    ensures
        !(a + b).contains(c),
{
    assert forall|i: int| 0 <= i < (a + b).len() implies (a + b)[i] != c by {
        if i < a.len() {
            assert(a.contains(a[i]));
        } else {
            assert(b.contains(b[i - a.len()]));
        }
    }
}

/// Where a browser is sent to log in is the provider's page with seven parameters, in
/// this order.
pub proof fn login_page_has_its_parameters(
    url: Seq<char>,
    before: TimedMap,
    after: TimedMap,
    cfg: ConfigView,
    now: i64,
    state_bytes: Seq<u8>,
    verifier_bytes: Seq<u8>,
)
    requires
        login_begun(url, before, after, cfg, now, state_bytes, verifier_bytes),
        !cfg.oidc_client_id.contains('&'),
    ensures
        (cfg.oidc_issuer + "/authorize?"@).is_prefix_of(url),
        split_of(url.skip((cfg.oidc_issuer + "/authorize?"@).len() as int), '&') == seq![
            "client_id="@ + cfg.oidc_client_id,
            "redirect_uri="@ + urlenc_of(cfg.oidc_redirect_uri),
            "response_type=code"@,
            "scope=openid+email"@,
            "state="@ + hex_of(state_bytes),
            "code_challenge="@ + url_encode_of(
                sha256_of(encode_utf8(hex_of(verifier_bytes))),
            ),
            "code_challenge_method=S256"@,
        ],
{
    reveal_strlit("/authorize?client_id=");
    reveal_strlit("/authorize?");
    reveal_strlit("client_id=");
    reveal_strlit("&redirect_uri=");
    reveal_strlit("redirect_uri=");
    reveal_strlit("&response_type=code&scope=openid+email&state=");
    reveal_strlit("response_type=code");
    reveal_strlit("scope=openid+email");
    reveal_strlit("state=");
    reveal_strlit("&code_challenge=");
    reveal_strlit("code_challenge=");
    reveal_strlit("&code_challenge_method=S256");
    reveal_strlit("code_challenge_method=S256");
    let head = cfg.oidc_issuer + "/authorize?"@;
    let state = hex_of(state_bytes);
    let challenge = challenge_of(hex_of(verifier_bytes));
    let p0 = "client_id="@ + cfg.oidc_client_id;
    let p1 = "redirect_uri="@ + urlenc_of(cfg.oidc_redirect_uri);
    let p2 = "response_type=code"@;
    let p3 = "scope=openid+email"@;
    let p4 = "state="@ + state;
    let p5 = "code_challenge="@ + challenge;
    let p6 = "code_challenge_method=S256"@;
    lemma_hex_is_plain(state_bytes);
    assert(!state.contains('&')) by {
        assert forall|i: int| 0 <= i < state.len() implies state[i] != '&' by {
            let b = state_bytes[i / 2] as int;
            assert(0 <= b / 16 < 16 && 0 <= b % 16 < 16);
        }
    }
    url_encoding_is_url_safe(sha256_of(encode_utf8(hex_of(verifier_bytes))));
    assert(!challenge.contains('&')) by {
        assert forall|i: int| 0 <= i < challenge.len() implies challenge[i] != '&' by {
            let c = url_encode_of(sha256_of(encode_utf8(hex_of(verifier_bytes))))[i];
            assert(challenge[i] == c);
        }
    }
    lemma_percent_has_no_mark(encode_utf8(cfg.oidc_redirect_uri));
    lemma_no_mark("client_id="@, cfg.oidc_client_id, '&');
    lemma_no_mark("redirect_uri="@, urlenc_of(cfg.oidc_redirect_uri), '&');
    lemma_no_mark("state="@, state, '&');
    lemma_no_mark("code_challenge="@, challenge, '&');
    let r5 = p5.push('&') + p6;
    let r4 = p4.push('&') + r5;
    let r3 = p3.push('&') + r4;
    let r2 = p2.push('&') + r3;
    let r1 = p1.push('&') + r2;
    let r0 = p0.push('&') + r1;
    lemma_login_page(cfg, state, challenge);
    assert(url.take(head.len() as int) =~= head);
    assert(url.skip(head.len() as int) =~= r0);
    split_keeps_unmarked(p0, '&');
    split_keeps_unmarked(p1, '&');
    split_keeps_unmarked(p2, '&');
    split_keeps_unmarked(p3, '&');
    split_keeps_unmarked(p4, '&');
    split_keeps_unmarked(p5, '&');
    split_keeps_unmarked(p6, '&');
    split_of_joined(p5, p6, '&');
    split_of_joined(p4, r5, '&');
    split_of_joined(p3, r4, '&');
    split_of_joined(p2, r3, '&');
    split_of_joined(p1, r2, '&');
    split_of_joined(p0, r1, '&');
}

proof fn lemma_login_page(cfg: ConfigView, state: Seq<char>, challenge: Seq<char>)
    ensures
        authorize_url_of(cfg, state, challenge) == (cfg.oidc_issuer + "/authorize?"@) + ((
        "client_id="@ + cfg.oidc_client_id).push('&') + (("redirect_uri="@ + urlenc_of(
            cfg.oidc_redirect_uri,
        )).push('&') + ("response_type=code"@.push('&') + ("scope=openid+email"@.push('&') + ((
        "state="@ + state).push('&') + (("code_challenge="@ + challenge).push('&')
            + "code_challenge_method=S256"@)))))),
{
    reveal_strlit("/authorize?client_id=");
    reveal_strlit("/authorize?");
    reveal_strlit("client_id=");
    reveal_strlit("&redirect_uri=");
    reveal_strlit("redirect_uri=");
    reveal_strlit("&response_type=code&scope=openid+email&state=");
    reveal_strlit("response_type=code");
    reveal_strlit("scope=openid+email");
    reveal_strlit("state=");
    reveal_strlit("&code_challenge=");
    reveal_strlit("code_challenge=");
    reveal_strlit("&code_challenge_method=S256");
    reveal_strlit("code_challenge_method=S256");
    let mark = seq!['&'];
    assert("/authorize?client_id="@ =~= "/authorize?"@ + "client_id="@);
    assert("&redirect_uri="@ =~= mark + "redirect_uri="@);
    assert("&response_type=code&scope=openid+email&state="@ =~= mark + "response_type=code"@ + mark
        + "scope=openid+email"@ + mark + "state="@);
    assert("&code_challenge="@ =~= mark + "code_challenge="@);
    assert("&code_challenge_method=S256"@ =~= mark + "code_challenge_method=S256"@);
    let enc = urlenc_of(cfg.oidc_redirect_uri);
    assert(authorize_url_of(cfg, state, challenge) =~= (cfg.oidc_issuer + "/authorize?"@) + ((
    "client_id="@ + cfg.oidc_client_id).push('&') + (("redirect_uri="@ + enc).push('&') + (
    "response_type=code"@.push('&') + ("scope=openid+email"@.push('&') + (("state="@ + state).push(
        '&',
    ) + (("code_challenge="@ + challenge).push('&') + "code_challenge_method=S256"@)))))));
}

/// The challenge is the digest of the verifier, in the form that URLs take.
pub proof fn challenge_stands_for_the_digest(verifier: Seq<char>)
    ensures
        url_decode_of(challenge_of(verifier)) == Some(sha256_of(encode_utf8(verifier))),
        forall|i: int|
            0 <= i < challenge_of(verifier).len() ==> {
                let c = #[trigger] challenge_of(verifier)[i];
                'A' <= c <= 'Z' || 'a' <= c <= 'z' || '0' <= c <= '9' || c == '-' || c == '_'
            },
{
    url_decode_inverts_url_encode(sha256_of(encode_utf8(verifier)));
    url_encoding_is_url_safe(sha256_of(encode_utf8(verifier)));
}

/// A code is exchanged at the provider, with the very code that came back, the verifier
/// that was kept under the state, and the secret of the monitor.
pub proof fn exchange_brings_what_was_kept(
    flows: TimedMap,
    cfg: ConfigView,
    q: CallbackQuery,
    step: CallbackStep,
)
    requires
        callback_leads_to(step, flows, cfg, q),
    ensures
        step is Exchange <==> q.error is None && q.code is Some && q.state is Some
            && flows.contains_key(q.state->0@),
        step matches CallbackStep::Exchange(request) ==> {
            let form = form_view(request.form@);
            &&& request.url@ == cfg.oidc_issuer + "/token"@
            &&& form.len() == 6
            &&& form.contains(("grant_type"@, "authorization_code"@))
            &&& form.contains(("code"@, q.code->0@))
            &&& form.contains(("redirect_uri"@, cfg.oidc_redirect_uri))
            &&& form.contains(("client_id"@, cfg.oidc_client_id))
            &&& form.contains(("client_secret"@, cfg.oidc_client_secret))
            &&& form.contains(("code_verifier"@, flows[q.state->0@].0))
        },
{
    if let CallbackStep::Exchange(request) = step {
        let form = form_view(request.form@);
        assert(form[0] == ("grant_type"@, "authorization_code"@));
        assert(form[1] == ("code"@, q.code->0@));
        assert(form[2] == ("redirect_uri"@, cfg.oidc_redirect_uri));
        assert(form[3] == ("client_id"@, cfg.oidc_client_id));
        assert(form[4] == ("client_secret"@, cfg.oidc_client_secret));
        assert(form[5] == ("code_verifier"@, flows[q.state->0@].0));
    }
}

/// A callback that goes no further is answered with why: an error of the provider before
/// anything else, and its description where it gave one.
pub proof fn refused_callback_says_why(
    flows: TimedMap,
    cfg: ConfigView,
    q: CallbackQuery,
    step: CallbackStep,
)
    requires
        callback_leads_to(step, flows, cfg, q),
    ensures
        step matches CallbackStep::Answer(reply) ==> {
            &&& reply.set_cookie is None
            &&& reply.location is None
            &&& q.error is Some <==> reply.status == 401
            &&& q.error is None <==> reply.status == 400
            &&& q.error is Some && q.error_description is Some ==> reply.body@
                == "Login failed: "@ + q.error_description->0@
            &&& q.error is Some && q.error_description is None ==> reply.body@
                == "Login failed: "@ + "Unknown error"@
            &&& q.error is None && q.code is None ==> reply.body@ == "Missing authorization code"@
            &&& q.error is None && q.code is Some && q.state is None ==> reply.body@
                == "Missing state parameter"@
            &&& q.error is None && q.code is Some && q.state is Some ==> reply.body@
                == "Invalid state parameter"@
        },
{
    if let CallbackStep::Answer(reply) = step {
        assert(reply@.set_cookie == owned_view(reply.set_cookie));
        assert(reply@.location == owned_view(reply.location));
    }
}

/// Only a response of success that can be read grants anything.
pub proof fn only_success_grants(reply: TokenReply)
    ensures
        reply is Unreachable <==> outcome_of(reply) is Unreachable,
        reply matches TokenReply::Response { status, body } ==> {
            &&& outcome_of(reply) is Refused <==> status < 200 || status > 299
            &&& 200 <= status <= 299 && body is None ==> outcome_of(reply) is Unreadable
            &&& 200 <= status <= 299 && body is Some ==> match json_of_bytes(body->0@) {
                Some(response) => outcome_of(reply) == OutcomeView::Granted(
                    email_in_response(response),
                ),
                None => outcome_of(reply) is Unreadable,
            }
        },
{
}

/// The address in a response is the one that the claims of its token give.
pub proof fn claims_give_the_address(response: DocumentView, payload: Seq<u8>, claims: DocumentView)
    requires
        payload_of(response) == Some(payload),
        json_of_bytes(payload) == Some(claims),
    ensures
        email_in_response(response) == text_of(claims, "email"@),
{
}

/// A token of fewer or more than three parts has no payload.
pub proof fn token_has_three_parts(response: DocumentView, token: Seq<char>)
    requires
        text_of(response, "id_token"@) == Some(token),
        split_of(token, '.').len() != 3,
    ensures
        payload_of(response) is None,
        email_in_response(response) is None,
{
}

/// The browser gets a session when tokens were granted, and only then: it is sent to the
/// front page, and the session is opened for the address in the tokens, or else for
/// `unknown`.
pub proof fn granted_login_opens_a_session(
    sessions: TimedMap,
    outcome: OutcomeView,
    id: Seq<char>,
    now: i64,
    other: Seq<char>,
)
    ensures
        ({
            let reply = outcome_reply(outcome, id);
            let after = sessions_after_outcome(sessions, outcome, id, now);
            &&& outcome is Granted <==> reply.status == 303
            &&& outcome is Granted <==> reply.set_cookie is Some
            &&& outcome is Granted <==> reply.location is Some
            &&& outcome is Granted ==> reply.location == Some("/"@) && reply.body.len() == 0
            &&& outcome is Unreachable ==> reply.status == 502 && reply.body
                == "Failed to contact IDP"@
            &&& outcome is Refused ==> reply.status == 401 && reply.body
                == "Token exchange failed"@
            &&& outcome is Unreadable ==> reply.status == 502 && reply.body
                == "Invalid token response"@
            &&& outcome is Granted ==> after.contains_key(id) && after[id].1 == now
            &&& outcome matches OutcomeView::Granted(Some(email)) ==> after[id].0 == email
            &&& outcome == OutcomeView::Granted(None) ==> after[id].0 == "unknown"@
            &&& !(outcome is Granted) ==> after == sessions
            &&& other != id ==> after.contains_key(other) == sessions.contains_key(other)
            &&& other != id && sessions.contains_key(other) ==> after[other] == sessions[other]
        }),
{
}

/// The cookie of a session has its id, is sent for every page, is hidden from scripts and
/// foreign pages, and lasts as long as the session. A browser that sends it back whole
/// is known by it.
pub proof fn session_cookie_has_its_attributes(data: Seq<u8>, email: Option<Seq<char>>)
    ensures
        outcome_reply(OutcomeView::Granted(email), hex_of(data)).set_cookie matches Some(cookie)
            && split_of(cookie, ';') == seq![
            "monitor_session="@ + hex_of(data),
            " Path=/"@,
            " HttpOnly"@,
            " SameSite=Lax"@,
            " Max-Age=86400"@,
        ] && session_id_of(cookie) == Some(hex_of(data)),
{
    let id = hex_of(data);
    let cookie = session_cookie_of(id);
    let rest = "; Path=/; HttpOnly; SameSite=Lax; Max-Age=86400"@;
    reveal_strlit("monitor_session=");
    reveal_strlit("; Path=/; HttpOnly; SameSite=Lax; Max-Age=86400");
    reveal_strlit(" Path=/");
    reveal_strlit(" HttpOnly");
    reveal_strlit(" SameSite=Lax");
    reveal_strlit(" Max-Age=86400");
    lemma_hex_is_plain(data);
    let p0 = "monitor_session="@ + id;
    let p1 = " Path=/"@;
    let p2 = " HttpOnly"@;
    let p3 = " SameSite=Lax"@;
    let p4 = " Max-Age=86400"@;
    let r3 = p3.push(';') + p4;
    let r2 = p2.push(';') + r3;
    let r1 = p1.push(';') + r2;
    assert(rest =~= seq![';'] + r1);
    assert(cookie =~= p0.push(';') + r1);
    assert forall|i: int| 0 <= i < p0.len() implies p0[i] != ';' by {
        if i >= 16 {
            assert(p0[i] == id[i - 16]);
        }
    }
    split_keeps_unmarked(p0, ';');
    split_keeps_unmarked(p1, ';');
    split_keeps_unmarked(p2, ';');
    split_keeps_unmarked(p3, ';');
    split_keeps_unmarked(p4, ';');
    split_of_joined(p3, p4, ';');
    split_of_joined(p2, r3, ';');
    split_of_joined(p1, r2, ';');
    split_of_joined(p0, r1, ';');
    session_cookie_is_read_back(data);
    first_session_cookie_counts(p0, r1);
}

/// A request passes where it is let in, and then no login is begun; else the browser is
/// sent to the provider's page, and the login under way is kept with its verifier.
pub proof fn request_passes_or_logs_in(
    admission: Admission,
    before: AuthState,
    after: AuthState,
    cfg: ConfigView,
    path: Seq<char>,
    cookie: Option<Seq<char>>,
    now: i64,
)
    requires
        admission_holds(admission, before, after, cfg, path, cookie, now),
    ensures
        admission is Pass <==> admitted(before.sessions@, path, cookie, now as int),
        admission is Pass ==> after.flows@ == before.flows@,
        admission matches Admission::Login(url) ==> exists|
            begun: i64,
            state: [u8; 16],
            verifier: [u8; 32],
        |
            {
                &&& after.flows@.contains_key(#[trigger] hex_of(state@))
                &&& after.flows@[hex_of(state@)] == (#[trigger] hex_of(verifier@), begun)
                &&& #[trigger] login_begun(
                    url@,
                    before.flows@,
                    after.flows@,
                    cfg,
                    begun,
                    state@,
                    verifier@,
                )
            },
        after.sessions@ == sessions_after_request(before.sessions@, path, cookie, now as int),
{
    if let Admission::Login(url) = admission {
        let (begun, state, verifier) = choose|begun: i64, state: [u8; 16], verifier: [u8; 32]|
            0 <= begun && #[trigger] login_begun(
                url@,
                before.flows@,
                after.flows@,
                cfg,
                begun,
                state@,
                verifier@,
            );
        assert(login_begun(url@, before.flows@, after.flows@, cfg, begun, state@, verifier@));
        assert(after.flows@.contains_key(hex_of(state@)));
        assert(after.flows@[hex_of(state@)] == (hex_of(verifier@), begun));
    }
}

/// The session that a concluded login opens is the one whose cookie the browser gets, and
/// where it gets none no session is opened.
pub proof fn concluded_login_gives_the_cookie_of_its_session(
    reply: ReplyView,
    before: TimedMap,
    after: TimedMap,
    outcome: OutcomeView,
    session_bytes: Seq<u8>,
    now: i64,
)
    requires
        login_concluded(reply, before, after, outcome, session_bytes, now),
    ensures
        outcome is Granted <==> reply.set_cookie is Some,
        reply.set_cookie is None ==> after == before,
        reply.set_cookie matches Some(cookie) ==> {
            &&& session_id_of(cookie) == Some(hex_of(session_bytes))
            &&& after.contains_key(hex_of(session_bytes))
            &&& after[hex_of(session_bytes)].1 == now
            &&& after.remove(hex_of(session_bytes)) == before.remove(hex_of(session_bytes))
        },
{
    if let OutcomeView::Granted(email) = outcome {
        session_cookie_has_its_attributes(session_bytes, email);
        assert(after.remove(hex_of(session_bytes)) =~= before.remove(hex_of(session_bytes)));
    }
}

/// The mathematical form of an answer is the whole answer, and that of a form holds each
/// field in its place.
pub proof fn form_of_an_answer_is_whole(reply: Reply, form: Seq<FormField>, i: int)
    requires
        0 <= i < form.len(),
    ensures
        reply@.status == reply.status,
        reply@.body == reply.body@,
        reply@.set_cookie is Some <==> reply.set_cookie is Some,
        reply.set_cookie matches Some(cookie) ==> reply@.set_cookie == Some(cookie@),
        reply@.location is Some <==> reply.location is Some,
        reply.location matches Some(page) ==> reply@.location == Some(page@),
        form_view(form).len() == form.len(),
        form_view(form)[i] == (form[i].name@, form[i].value@),
{
}

} // verus!
