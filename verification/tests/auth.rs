use rust_monitor::auth::{
    auth_callback, auth_callback_at, auth_logout, auth_middleware, begin_login, claimed_email,
    conclude_login,
    extract_email_from_id_token, finish_login, generate_pkce, generate_session_id, generate_state,
    get_session_email, id_token_payload, lets_through, pkce_from, session_id, session_id_from,
    state_from, token_outcome, Admission, AuthState, CallbackQuery, CallbackStep, Reply,
    TokenOutcome, TokenReply, TokenRequest, PENDING_FLOW_TTL, SESSION_MAX_AGE,
};
use rust_monitor::base64::base64_url_encode;
use rust_monitor::config::{get, Config, Variable};
use rust_monitor::json::{Document, Field, Member};
use rust_monitor::store::TimedStore;

fn settings() -> Config {
    let var = |name: &str, value: &str| Variable {
        name: name.to_string(),
        value: value.to_string(),
    };
    get(&[
        var("MONITOR_OIDC_ISSUER", "https://idp.example"),
        var("MONITOR_OIDC_CLIENT_ID", "monitor"),
        var("MONITOR_OIDC_CLIENT_SECRET", "hush"),
        var("MONITOR_OIDC_REDIRECT_URI", "https://m.example/auth/callback?x=1 2"),
    ])
}

fn bytes32() -> [u8; 32] {
    let mut bytes = [0u8; 32];
    for (i, b) in bytes.iter_mut().enumerate() {
        *b = i as u8 * 8;
    }
    bytes
}

fn begin(auth: &mut AuthState, state_byte: u8, now: i64) -> String {
    let (verifier, challenge) = pkce_from(&[0u8; 32]);
    begin_login(auth, &settings(), state_from(&[state_byte; 16]), verifier, &challenge, now)
}

fn query(code: Option<&str>, state: Option<&str>) -> CallbackQuery {
    CallbackQuery {
        code: code.map(|s| s.to_string()),
        state: state.map(|s| s.to_string()),
        error: None,
        error_description: None,
    }
}

fn answer(step: CallbackStep) -> Reply {
    match step {
        CallbackStep::Answer(reply) => reply,
        CallbackStep::Exchange(_) => panic!("an answer was expected"),
    }
}

fn exchange(step: CallbackStep) -> TokenRequest {
    match step {
        CallbackStep::Exchange(request) => request,
        CallbackStep::Answer(reply) => panic!("answered {}", reply.body),
    }
}

fn token_response(id_token: &str) -> Document {
    Document::Object(vec![Member {
        key: "id_token".to_string(),
        value: Field::Text(id_token.to_string()),
    }])
}

#[test]
fn ids_are_hexadecimal() {
    assert_eq!(state_from(&[0xab; 16]), "ab".repeat(16));
    assert_eq!(
        session_id_from(&bytes32()),
        "0008101820283038404850586068707880889098a0a8b0b8c0c8d0d8e0e8f0f8"
    );
    let id = generate_session_id();
    assert_eq!(id.len(), 64);
    assert!(id.chars().all(|c| c.is_ascii_digit() || ('a'..='f').contains(&c)));
    assert_ne!(id, generate_session_id());
    let state = generate_state();
    assert_eq!(state.len(), 32);
    assert_ne!(state, generate_state());
}

#[test]
fn challenge_is_the_digest_of_the_verifier() {
    let (verifier, challenge) = pkce_from(&[0u8; 32]);
    assert_eq!(verifier, "0".repeat(64));
    assert_eq!(challenge, "YOBb0bGVry-UES-nGXpciCiQWIQM58bflpN1a8YlD1U");
    let (fresh, its_challenge) = generate_pkce();
    assert_eq!(fresh.len(), 64);
    assert_eq!(its_challenge.len(), 43);
    assert_ne!(fresh, generate_pkce().0);
}

#[test]
fn session_cookie_is_found() {
    let found = |header: &str| session_id(header);
    assert_eq!(found("monitor_session=abc"), Some("abc".to_string()));
    assert_eq!(found("a=b; monitor_session = abc ;c=d"), Some("abc".to_string()));
    assert_eq!(found("monitor_session=a=b"), Some("a=b".to_string()));
    assert_eq!(found("monitor_session=1; monitor_session=2"), Some("1".to_string()));
    assert_eq!(found("flag; monitor_session=2"), Some("2".to_string()));
    assert_eq!(found("monitor_session="), Some(String::new()));
    assert_eq!(found("xmonitor_session=1"), None);
    assert_eq!(found(""), None);
}

#[test]
fn session_lasts_for_a_day() {
    let mut sessions = TimedStore::new();
    sessions.insert("abc".to_string(), "me@example.com".to_string(), 1000);
    let cookie = Some("monitor_session=abc");
    let last = 1000 + SESSION_MAX_AGE - 1;
    assert_eq!(get_session_email(&mut sessions, None, 1000), None);
    assert_eq!(get_session_email(&mut sessions, Some("monitor_session=abd"), 1000), None);
    assert_eq!(
        get_session_email(&mut sessions, cookie, last),
        Some("me@example.com".to_string())
    );
    // Once it was found expired it is gone, even for an earlier clock.
    assert_eq!(get_session_email(&mut sessions, cookie, last + 1), None);
    assert_eq!(get_session_email(&mut sessions, cookie, 1001), None);
    assert!(sessions.get("abc").is_none());
}

#[test]
fn expiry_of_one_session_leaves_the_others() {
    let mut auth = AuthState::new();
    auth.sessions.insert("old".to_string(), "a".to_string(), 0);
    auth.sessions.insert("new".to_string(), "b".to_string(), 50_000);
    assert!(!lets_through(&mut auth, "/", Some("monitor_session=old"), 90_000));
    assert!(auth.sessions.get("old").is_none());
    assert!(lets_through(&mut auth, "/", Some("monitor_session=new"), 90_000));
}

#[test]
fn open_paths_need_no_session() {
    let mut auth = AuthState::new();
    for path in ["/api/health", "/api/ingest", "/auth/", "/auth/callback"] {
        assert!(lets_through(&mut auth, path, None, 0));
        assert!(matches!(
            auth_middleware(&mut auth, &settings(), path, None),
            Admission::Pass
        ));
    }
    for path in ["/", "/auth", "/api/healthz", "/api/status", "", "/api/ingest/"] {
        assert!(!lets_through(&mut auth, path, None, 0));
    }
}

#[test]
fn login_begins_with_a_redirect() {
    let mut auth = AuthState::new();
    let url = begin(&mut auth, 1, 5000);
    assert_eq!(
        url,
        "https://idp.example/authorize?client_id=monitor&redirect_uri=https%3A%2F%2Fm.example%2Fauth%2Fcallback%3Fx%3D1%202&response_type=code&scope=openid+email&state=01010101010101010101010101010101&code_challenge=YOBb0bGVry-UES-nGXpciCiQWIQM58bflpN1a8YlD1U&code_challenge_method=S256"
    );
    let (verifier, created) = auth.flows.get(&"01".repeat(16)).unwrap();
    assert_eq!(verifier.as_str(), "0".repeat(64));
    assert_eq!(created, 5000);
}

#[test]
fn stranger_is_sent_to_log_in() {
    let mut auth = AuthState::new();
    let url = match auth_middleware(&mut auth, &settings(), "/", Some("monitor_session=no")) {
        Admission::Login(url) => url,
        Admission::Pass => panic!("let through"),
    };
    let state = url.split("&state=").nth(1).unwrap().split('&').next().unwrap();
    assert!(auth.flows.get(state).is_some());
    let q = query(Some("c"), Some(state));
    let request = exchange(auth_callback(&mut auth, &settings(), &q));
    let verifier = &request.form[5].value;
    assert_eq!(verifier.len(), 64);
}

#[test]
fn abandoned_logins_are_forgotten() {
    let mut auth = AuthState::new();
    begin(&mut auth, 1, 1000);
    begin(&mut auth, 2, 1000 + PENDING_FLOW_TTL - 1);
    assert!(auth.flows.get(&"01".repeat(16)).is_some());
    begin(&mut auth, 3, 1000 + PENDING_FLOW_TTL);
    assert!(auth.flows.get(&"01".repeat(16)).is_none());
    assert!(auth.flows.get(&"02".repeat(16)).is_some());
    assert!(auth.flows.get(&"03".repeat(16)).is_some());
}

#[test]
fn callback_is_refused_for_cause() {
    let mut auth = AuthState::new();
    let cfg = settings();
    begin(&mut auth, 1, 1000);
    let state = "01".repeat(16);
    let mut q = query(Some("c"), Some(&state));
    q.error = Some("access_denied".to_string());
    let reply = answer(auth_callback_at(&mut auth, &cfg, &q, 1599));
    assert_eq!((reply.status, reply.body.as_str()), (401, "Login failed: Unknown error"));
    q.error_description = Some("no thanks".to_string());
    let reply = answer(auth_callback_at(&mut auth, &cfg, &q, 1599));
    assert_eq!((reply.status, reply.body.as_str()), (401, "Login failed: no thanks"));
    let reply = answer(auth_callback_at(&mut auth, &cfg, &query(None, Some(&state)), 1599));
    assert_eq!((reply.status, reply.body.as_str()), (400, "Missing authorization code"));
    let reply = answer(auth_callback_at(&mut auth, &cfg, &query(Some("c"), None), 1599));
    assert_eq!((reply.status, reply.body.as_str()), (400, "Missing state parameter"));
    let reply = answer(auth_callback_at(&mut auth, &cfg, &query(Some("c"), Some("x")), 1599));
    assert_eq!((reply.status, reply.body.as_str()), (400, "Invalid state parameter"));
    // None of them has taken up the login.
    assert!(auth.flows.get(&state).is_some());
}

#[test]
fn state_is_good_for_one_callback() {
    let mut auth = AuthState::new();
    let cfg = settings();
    begin(&mut auth, 1, 1000);
    let q = query(Some("the code"), Some(&"01".repeat(16)));
    let request = exchange(auth_callback_at(&mut auth, &cfg, &q, 1599));
    assert_eq!(request.url, "https://idp.example/token");
    let form: Vec<(String, String)> =
        request.form.into_iter().map(|f| (f.name, f.value)).collect();
    let pair = |a: &str, b: &str| (a.to_string(), b.to_string());
    assert_eq!(
        form,
        vec![
            pair("grant_type", "authorization_code"),
            pair("code", "the code"),
            pair("redirect_uri", "https://m.example/auth/callback?x=1 2"),
            pair("client_id", "monitor"),
            pair("client_secret", "hush"),
            pair("code_verifier", &"0".repeat(64)),
        ]
    );
    let reply = answer(auth_callback_at(&mut auth, &cfg, &q, 1599));
    assert_eq!((reply.status, reply.body.as_str()), (400, "Invalid state parameter"));
}

#[test]
fn abandoned_login_cannot_be_finished() {
    let cfg = settings();
    let q = query(Some("c"), Some(&"01".repeat(16)));
    let mut auth = AuthState::new();
    begin(&mut auth, 1, 1000);
    let reply = answer(auth_callback_at(&mut auth, &cfg, &q, 1000 + PENDING_FLOW_TTL));
    assert_eq!((reply.status, reply.body.as_str()), (400, "Invalid state parameter"));
    assert!(auth.flows.get(&"01".repeat(16)).is_none());
    begin(&mut auth, 1, 1000);
    exchange(auth_callback_at(&mut auth, &cfg, &q, 1000 + PENDING_FLOW_TTL - 1));
    // By the clock, a login begun in 1970 is long abandoned.
    begin(&mut auth, 1, 1000);
    let reply = answer(auth_callback(&mut auth, &cfg, &q));
    assert_eq!((reply.status, reply.body.as_str()), (400, "Invalid state parameter"));
}

#[test]
fn email_is_taken_from_the_identity_token() {
    let claims = r#"{"sub":"1","email":"me@example.com"}"#;
    let payload = base64_url_encode(claims.as_bytes());
    let good = token_response(&format!("h.{payload}.s"));
    assert_eq!(id_token_payload(&good), Some(claims.as_bytes().to_vec()));
    assert_eq!(extract_email_from_id_token(&good), Some("me@example.com".to_string()));
    for token in [
        format!("h.{payload}"),
        format!("h.{payload}.s.t"),
        "h.!!.s".to_string(),
        format!("h.{}.s", base64_url_encode(b"not json")),
        format!("h.{}.s", base64_url_encode(br#"{"email":7}"#)),
        format!("h.{}.s", base64_url_encode(b"[1]")),
    ] {
        assert_eq!(extract_email_from_id_token(&token_response(&token)), None);
    }
    assert_eq!(extract_email_from_id_token(&Document::Other), None);
    assert_eq!(claimed_email(&Document::Object(Vec::new())), None);
}

#[test]
fn exchange_is_judged_by_its_response() {
    let outcome = |status: u16, body: Option<&str>| {
        token_outcome(&TokenReply::Response {
            status,
            body: body.map(|s| s.as_bytes().to_vec()),
        })
    };
    assert!(matches!(token_outcome(&TokenReply::Unreachable), TokenOutcome::Unreachable));
    assert!(matches!(outcome(199, Some("{}")), TokenOutcome::Refused));
    assert!(matches!(outcome(300, Some("{}")), TokenOutcome::Refused));
    assert!(matches!(outcome(200, None), TokenOutcome::Unreadable));
    assert!(matches!(outcome(200, Some("{")), TokenOutcome::Unreadable));
    assert!(matches!(outcome(299, Some("{}")), TokenOutcome::Granted(None)));
    let payload = base64_url_encode(br#"{"email":"a@b"}"#);
    match outcome(200, Some(&format!(r#"{{"id_token":"x.{payload}.y"}}"#))) {
        TokenOutcome::Granted(email) => assert_eq!(email, Some("a@b".to_string())),
        _ => panic!("tokens were granted"),
    }
}

#[test]
fn session_is_opened_by_granted_tokens_only() {
    let mut auth = AuthState::new();
    let reply = conclude_login(&mut auth, TokenOutcome::Unreachable, session_id_from(&bytes32()), 10);
    assert_eq!((reply.status, reply.body.as_str()), (502, "Failed to contact IDP"));
    let reply = conclude_login(&mut auth, TokenOutcome::Refused, session_id_from(&bytes32()), 10);
    assert_eq!((reply.status, reply.body.as_str()), (401, "Token exchange failed"));
    let reply = conclude_login(&mut auth, TokenOutcome::Unreadable, session_id_from(&bytes32()), 10);
    assert_eq!((reply.status, reply.body.as_str()), (502, "Invalid token response"));
    assert_eq!(reply.set_cookie, None);
    let id = session_id_from(&bytes32());
    assert!(auth.sessions.get(&id).is_none());

    let granted = TokenOutcome::Granted(Some("me@example.com".to_string()));
    let reply = conclude_login(&mut auth, granted, session_id_from(&bytes32()), 10);
    assert_eq!(reply.status, 303);
    assert_eq!(reply.body, "");
    assert_eq!(reply.location, Some("/".to_string()));
    assert_eq!(
        reply.set_cookie,
        Some(format!(
            "monitor_session={id}; Path=/; HttpOnly; SameSite=Lax; Max-Age=86400"
        ))
    );
    let cookie = format!("monitor_session={id}");
    assert!(lets_through(&mut auth, "/", Some(&cookie), 10));
    assert_eq!(
        get_session_email(&mut auth.sessions, Some(&cookie), 10 + 86399),
        Some("me@example.com".to_string())
    );
    assert!(!lets_through(&mut auth, "/", Some(&cookie), 10 + 86400));
}

#[test]
fn login_without_an_address_is_unknown() {
    let mut auth = AuthState::new();
    let reply = finish_login(
        &mut auth,
        &TokenReply::Response { status: 200, body: Some(b"{}".to_vec()) },
    );
    let cookie = reply.set_cookie.unwrap();
    let header = cookie.split(';').next().unwrap().to_string();
    assert!(matches!(
        auth_middleware(&mut auth, &settings(), "/", Some(&header)),
        Admission::Pass
    ));
    let id = session_id(&header).unwrap();
    assert_eq!(auth.sessions.get(&id).unwrap().0.as_str(), "unknown");
}

#[test]
fn failed_exchange_opens_no_session() {
    let mut auth = AuthState::new();
    let reply = finish_login(&mut auth, &TokenReply::Unreachable);
    assert_eq!((reply.status, reply.body.as_str()), (502, "Failed to contact IDP"));
    let refused = TokenReply::Response { status: 400, body: Some(b"{}".to_vec()) };
    let reply = finish_login(&mut auth, &refused);
    assert_eq!((reply.status, reply.body.as_str()), (401, "Token exchange failed"));
    assert_eq!(reply.set_cookie, None);
    assert!(auth.sessions.get("").is_none());
}

#[test]
fn logout_clears_the_cookie() {
    let reply = auth_logout();
    assert_eq!(reply.status, 303);
    assert_eq!(reply.location, Some("/".to_string()));
    assert_eq!(
        reply.set_cookie,
        Some("monitor_session=; Path=/; HttpOnly; SameSite=Lax; Max-Age=0".to_string())
    );
}

#[test]
fn store_keeps_one_row_per_key() {
    let mut store = TimedStore::new();
    store.insert("a".to_string(), "1".to_string(), 1);
    store.insert("b".to_string(), "2".to_string(), 2);
    store.insert("a".to_string(), "3".to_string(), 3);
    assert_eq!(store.get("a"), Some((&"3".to_string(), 3)));
    store.keep_younger(10, 8);
    assert_eq!(store.get("b"), None);
    assert_eq!(store.remove("a"), Some(("3".to_string(), 3)));
    assert_eq!(store.remove("a"), None);
}
