use kynoko_launcher::bridge::{
    answer, arg_value, cors, etag, expected_host_exec, hex_of_bytes, preflight_headers, random_token, same, spike_route,
    spike_running, url_parts_exec, with_cors, write_allowed, Bridge, Method, Request, Route, SpikeSession, SESSION_IDLE_MS,
};

fn request(method: Method, url: &str, host: &str, origin: Option<&str>) -> Request {
    Request {
        method,
        url: url.to_string(),
        host: Some(host.to_string()),
        origin: origin.map(String::from),
        private_network: false,
    }
}

#[test]
fn tokens_are_random_hex() {
    let a = random_token().expect("randomness");
    let b = random_token().expect("randomness");
    assert_eq!(a.len(), 64);
    assert!(a.chars().all(|c| c.is_ascii_hexdigit() && !c.is_ascii_uppercase()));
    assert_ne!(a, b);
    assert_eq!(hex_of_bytes(&[0, 15, 16, 255]), "000f10ff");
}

#[test]
fn constant_time_comparison() {
    assert!(same("abc", "abc"));
    assert!(!same("abc", "abd"));
    assert!(!same("abc", "abcd"));
    assert!(same("", ""));
}

#[test]
fn a_session_answers_only_its_origin() {
    let mut bridge = Bridge::new(50000);
    let host = expected_host_exec(50000);
    assert_eq!(host, "127.0.0.1:50000");
    let token = bridge.open("/home/u/a.docx".to_string(), "https://office.example".to_string(), 0).unwrap();
    let url = format!("/s/{token}/content");
    let d = bridge.route(&request(Method::Get, &url, &host, Some("https://office.example")), 10);
    assert_eq!(d.route, Route::Content);
    assert_eq!(d.session, Some(("/home/u/a.docx".to_string(), "https://office.example".to_string())));
    let other = bridge.route(&request(Method::Get, &url, &host, Some("https://evil.example")), 10);
    assert_eq!(other.route, Route::Forbidden);
    assert_eq!(other.session, None);
    let no_origin = bridge.route(&request(Method::Get, &url, &host, None), 10);
    assert_eq!(no_origin.route, Route::Forbidden);
    let rebinding = bridge.route(&request(Method::Get, &url, "evil.example:50000", Some("https://office.example")), 10);
    assert_eq!(rebinding.route, Route::Misdirected);
    let unknown = bridge.route(&request(Method::Get, "/s/0000/content", &host, Some("https://office.example")), 10);
    assert_eq!(unknown.route, Route::NotFound);
    let scope = bridge.route(&request(Method::Get, &format!("/x/{token}/content"), &host, Some("https://office.example")), 10);
    assert_eq!(scope.route, Route::NotFound);
}

#[test]
fn session_actions_and_lifetime() {
    let mut bridge = Bridge::new(1);
    let host = expected_host_exec(1);
    let origin = Some("https://o.example");
    let token = bridge.open("/f".to_string(), "https://o.example".to_string(), 0).unwrap();
    let route = |b: &mut Bridge, m: Method, rest: &str, now: u64| b.route(&request(m, &format!("/s/{token}/{rest}"), &host, origin), now).route;
    assert_eq!(route(&mut bridge, Method::Options, "content", 1), Route::Preflight);
    assert_eq!(route(&mut bridge, Method::Get, "meta", 2), Route::Meta);
    assert_eq!(route(&mut bridge, Method::Put, "content", 3), Route::Write);
    assert_eq!(route(&mut bridge, Method::Post, "heartbeat", 4), Route::Heartbeat);
    assert_eq!(route(&mut bridge, Method::Put, "meta", 5), Route::NotAllowed);
    assert_eq!(bridge.live(5 + SESSION_IDLE_MS - 1), 1);
    assert_eq!(route(&mut bridge, Method::Delete, "", 6), Route::Closed);
    assert_eq!(route(&mut bridge, Method::Get, "meta", 7), Route::NotFound);
    assert_eq!(bridge.live(7), 0);
    let t2 = bridge.open("/g".to_string(), "https://o.example".to_string(), 100).unwrap();
    assert!(bridge.find(&t2).is_some());
    assert_eq!(bridge.live(100 + SESSION_IDLE_MS), 0);
    assert!(bridge.find(&t2).is_none());
}

#[test]
fn request_targets() {
    assert_eq!(url_parts_exec("/s/abc/content"), ("s".to_string(), Some("abc".to_string()), "content".to_string()));
    assert_eq!(url_parts_exec("//s/abc"), ("s".to_string(), Some("abc".to_string()), String::new()));
    assert_eq!(url_parts_exec("/s"), ("s".to_string(), None, String::new()));
    assert_eq!(url_parts_exec("/s/a/b/c"), ("s".to_string(), Some("a".to_string()), "b/c".to_string()));
}

#[test]
fn answers_and_headers() {
    assert_eq!(answer(Route::Misdirected), Some((421, "misdirected host")));
    assert_eq!(answer(Route::NotFound), Some((404, "not found")));
    assert_eq!(answer(Route::Forbidden), Some((403, "forbidden origin")));
    assert_eq!(answer(Route::Closed), Some((204, "")));
    assert_eq!(answer(Route::NotAllowed), Some((405, "method not allowed")));
    assert_eq!(answer(Route::Content), None);
    let h = cors("https://o.example", vec![("ETag".to_string(), "\"1-2\"".to_string())]);
    assert_eq!(h[0], ("Access-Control-Allow-Origin".to_string(), "https://o.example".to_string()));
    assert_eq!(h.last().unwrap(), &("ETag".to_string(), "\"1-2\"".to_string()));
    assert!(preflight_headers(true).iter().any(|(k, v)| k == "Access-Control-Allow-Private-Network" && v == "true"));
    assert!(!preflight_headers(false).iter().any(|(k, _)| k == "Access-Control-Allow-Private-Network"));
}

#[test]
fn writes_need_the_current_etag() {
    assert_eq!(etag(255, 16), "\"ff-10\"");
    assert_eq!(etag(0, 0), "\"0-0\"");
    assert!(write_allowed(Some("\"ff-10\""), "\"ff-10\""));
    assert!(!write_allowed(Some("\"fe-10\""), "\"ff-10\""));
    assert!(!write_allowed(None, "\"ff-10\""));
}

#[test]
fn the_first_bridge_of_one_file() {
    let mut s = SpikeSession {
        path: "/f".to_string(),
        token: "t0k".to_string(),
        origin: "https://o.example".to_string(),
        host: "127.0.0.1:9".to_string(),
        last_seen: 0,
        closed: false,
    };
    let ok = request(Method::Get, "/s/t0k/content", "127.0.0.1:9", Some("https://o.example"));
    assert_eq!(spike_route(&mut s, &ok, 5), Route::Content);
    assert!(spike_running(&s, 10, 100));
    let bad = request(Method::Get, "/s/nope/content", "127.0.0.1:9", Some("https://o.example"));
    assert_eq!(spike_route(&mut s, &bad, 6), Route::NotFound);
    let close = request(Method::Delete, "/s/t0k", "127.0.0.1:9", Some("https://o.example"));
    assert_eq!(spike_route(&mut s, &close, 7), Route::Closed);
    assert!(!spike_running(&s, 8, 100));
    let args: Vec<String> = vec!["--file".into(), "/f".into(), "--origin".into()];
    assert_eq!(arg_value(&args, "--file").as_deref(), Some("/f"));
    assert_eq!(arg_value(&args, "--origin"), None);
    assert_eq!(arg_value(&args, "--port"), None);
}

#[test]
fn refusals_carry_no_cors() {
    assert!(!with_cors(Route::Misdirected));
    assert!(!with_cors(Route::NotFound));
    assert!(!with_cors(Route::Forbidden));
    assert!(with_cors(Route::Heartbeat));
    assert!(with_cors(Route::Content));
}

#[test]
fn an_idle_session_is_over() {
    let mut bridge = Bridge::new(7);
    let host = expected_host_exec(7);
    let token = bridge.open("/f.txt".to_string(), "https://a.example".to_string(), 1000).unwrap();
    let url = format!("/s/{token}/content");
    let alive = bridge.route(&request(Method::Get, &url, &host, Some("https://a.example")), 1000 + SESSION_IDLE_MS - 1);
    assert_eq!(alive.route, Route::Content);
    let seen = 1000 + SESSION_IDLE_MS - 1;
    let over = bridge.route(&request(Method::Get, &url, &host, Some("https://a.example")), seen + SESSION_IDLE_MS);
    assert_eq!(over.route, Route::NotFound);
    assert_eq!(over.session, None);
    assert_eq!(bridge.sessions[0].last_seen, seen);
}
