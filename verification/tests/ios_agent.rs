use mirror_console::console::ConfigEnv;
use mirror_console::http::{build_request, get, parse_response, post};
use mirror_console::ios::{
    default_swipe_millis, home_request, host, key, keys_body, keys_body_from, new_session_body,
    port, screenshot_file, screenshot_image, session, session_after_probe, session_cache_file,
    session_id, session_path, status_lines, swipe, tap, tap_fallback, tap_paths, text, Gesture,
    IosKeyAction, SessionStep, SwipeDuration,
};

fn cs(s: &str) -> Vec<char> {
    s.chars().collect()
}

fn st(v: &[char]) -> String {
    v.iter().collect()
}

fn all(v: &[Vec<char>]) -> Vec<String> {
    v.iter().map(|l| st(l)).collect()
}

fn args(v: &[&str]) -> Vec<Vec<char>> {
    v.iter().map(|s| cs(s)).collect()
}

#[test]
fn agent_address() {
    assert_eq!(st(&host(None)), "127.0.0.1");
    assert_eq!(st(&host(Some(&cs("10.1.1.1")))), "10.1.1.1");
    assert_eq!(port(None), 8100);
    assert_eq!(port(Some(&cs("9100"))), 9100);
    assert_eq!(port(Some(&cs("70000"))), 8100);
    assert_eq!(port(Some(&cs("x"))), 8100);
}

#[test]
fn requests() {
    assert_eq!(
        st(&build_request(&cs("GET"), &cs("/status"), None, &cs("127.0.0.1"))),
        "GET /status HTTP/1.1\r\nHost: 127.0.0.1\r\nConnection: close\r\n\r\n"
    );
    assert_eq!(
        st(&build_request(&cs("POST"), &cs("/s"), Some(&cs("{\"a\":\"\u{e9}\"}")), &cs("h"))),
        "POST /s HTTP/1.1\r\nHost: h\r\nConnection: close\r\nContent-Type: application/json\r\nContent-Length: 10\r\n\r\n{\"a\":\"\u{e9}\"}"
    );
}

#[test]
fn replies() {
    let (st1, b1) = parse_response(&cs("HTTP/1.1 200 OK\r\nContent-Type: x\r\n\r\n{\"value\":1}"));
    assert_eq!(st1, 200);
    assert_eq!(st(&b1), "{\"value\":1}");
    let (st2, b2) = parse_response(&cs("garbage"));
    assert_eq!(st2, 0);
    assert_eq!(st(&b2), "");
    let (st3, _) = parse_response(&cs("HTTP/1.1 99999 Big\r\n\r\n"));
    assert_eq!(st3, 0);
}

#[test]
fn reply_judgement() {
    assert_eq!(st(&get(&cs("/status"), 204, cs("ok")).unwrap()), "ok");
    assert_eq!(
        st(&post(&cs("/session"), 500, cs("  boom\n")).unwrap_err()),
        "WDA POST /session -> 500: boom"
    );
    assert_eq!(st(&get(&cs("/x"), 0, cs("")).unwrap_err()), "WDA GET /x -> 0: ");
}

#[test]
fn sessions() {
    match session(Some(&cs("  abc \n"))) {
        SessionStep::Probe { sid, path } => {
            assert_eq!(st(&sid), "abc");
            assert_eq!(st(&path), "/session/abc/window/size");
        }
        SessionStep::Create => panic!("expected a probe"),
    }
    assert!(matches!(session(Some(&cs(" \n"))), SessionStep::Create));
    assert!(matches!(session(None), SessionStep::Create));
    assert_eq!(st(&new_session_body()), "{\"capabilities\":{\"alwaysMatch\":{},\"firstMatch\":[{}]}}");
    assert_eq!(st(&session_id(br#"{"sessionId":"S-1","value":{}}"#).unwrap()), "S-1");
    assert_eq!(st(&session_id(b"{}").unwrap_err()), "WDA did not return a sessionId");
    assert_eq!(st(&session_path(&cs("S"), "/wda/keys")), "/session/S/wda/keys");
    let (a, b) = tap_paths(&cs("S"));
    assert_eq!((st(&a), st(&b)), ("/session/S/wda/tap".to_string(), "/session/S/wda/tap/0".to_string()));
}

#[test]
fn session_cache_location() {
    let env = ConfigEnv { mc_store_dir: None, xdg_config_home: None, home: Some(cs("/home/u")), appdata: Some(cs("A")) };
    assert_eq!(
        all(&session_cache_file(&env, &cs("127.0.0.1"), 8100)),
        vec!["/home/u", ".config/mirror-console", "wda-session-127.0.0.1-8100"]
    );
    let env = ConfigEnv { mc_store_dir: None, xdg_config_home: None, home: None, appdata: Some(cs("A")) };
    assert_eq!(all(&session_cache_file(&env, &cs("h"), 1)), vec![".", "wda-session-h-1"]);
}

#[test]
fn status_report() {
    let r = status_lines(&cs("127.0.0.1"), 8100, br#"{"value":{"state":"success","build":{"version":"8.1"}}}"#);
    assert_eq!(all(&r), vec!["[ok] WDA at 127.0.0.1:8100 \u{2014} success", "     version: 8.1"]);
    let r = status_lines(&cs("h"), 1, b"{}");
    assert_eq!(all(&r), vec!["[ok] WDA at h:1 \u{2014} reachable"]);
}

#[test]
fn ios_keys() {
    assert_eq!(key(&args(&["home"])).ok(), Some(IosKeyAction::Home));
    assert_eq!(
        key(&args(&["back"])).ok(),
        Some(IosKeyAction::Swipe(Gesture { from_x: 10, from_y: 500, to_x: 600, to_y: 500, duration: 250 }))
    );
    assert_eq!(
        key(&args(&["recents"])).ok(),
        Some(IosKeyAction::Swipe(Gesture { from_x: 500, from_y: 999, to_x: 500, to_y: 500, duration: 300 }))
    );
    assert_eq!(st(&key(&args(&[])).err().unwrap()), "usage: mconsole ios-key <home|back|switcher>");
    assert_eq!(st(&key(&args(&["up"])).err().unwrap()), "unknown key `up` (home|back|switcher)");
}

#[test]
fn coordinate_arguments() {
    let usage = "usage: mconsole ios-swipe <x1> <y1> <x2> <y2> [duration_s]";
    assert_eq!(swipe(&args(&["0.5", "0.8", "0.5", "0.2"]), &[true; 4]).ok(), Some(SwipeDuration::Default));
    assert_eq!(
        swipe(&args(&["0.5", "0.8", "0.5", "0.2", "1"]), &[true; 5]).ok(),
        Some(SwipeDuration::FromArgument)
    );
    assert_eq!(
        swipe(&args(&["0.5", "0.8", "0.5", "0.2", "z"]), &[true, true, true, true, false]).ok(),
        Some(SwipeDuration::Default)
    );
    assert_eq!(st(&swipe(&args(&["0.5", "0.8"]), &[true, true]).err().unwrap()), usage);
    assert_eq!(st(&swipe(&args(&["abc"]), &[false]).err().unwrap()), "not a number: abc");
    assert_eq!(default_swipe_millis(), 300);
    assert!(tap(&args(&["0.1", "0.2"]), &[true, true]).is_ok());
    assert_eq!(st(&tap(&args(&["0.1"]), &[true]).unwrap_err()), "usage: mconsole ios-tap <x0..1> <y0..1>");
}

#[test]
fn typing_bodies() {
    assert_eq!(st(&keys_body(&cs("hi"))), "{\"value\":[\"h\",\"i\"]}");
    assert_eq!(st(&keys_body(&cs("\""))), format!("{{\"value\":[{:?}]}}", "\""));
    assert_eq!(st(&keys_body_from(&args(&["\"a\"", "\"b\""]))), "{\"value\":[\"a\",\"b\"]}");
    let t = text(&args(&["ok"])).ok().unwrap();
    assert_eq!(st(&t.body), "{\"value\":[\"o\",\"k\"]}");
    assert_eq!(st(&t.message), "typed 2 chars");
    assert_eq!(st(&text(&args(&["h\u{e9}!"])).ok().unwrap().message), "typed 3 chars");
    assert_eq!(st(&text(&args(&[])).err().unwrap()), "usage: mconsole ios-text <string>");
}

#[test]
fn screenshots() {
    assert_eq!(screenshot_image(br#"{"value":{"screenshot":"aGVsbG8="}}"#).unwrap(), b"hello".to_vec());
    assert_eq!(screenshot_image(br#"{"value":"aGVs"}"#).unwrap(), b"hel".to_vec());
    assert_eq!(st(&screenshot_image(b"{}").unwrap_err()), "no base64 image in response");
    assert_eq!(
        st(&screenshot_image(br#"{"value":"a*"}"#).unwrap_err()),
        "invalid base64 character"
    );
}

#[test]
fn probed_session_is_kept_only_when_answered() {
    assert_eq!(session_after_probe(cs("abc"), true).map(|s| st(&s)), Some("abc".to_string()));
    assert_eq!(session_after_probe(cs("abc"), false), None);
}

#[test]
fn tap_falls_back_only_after_a_failure() {
    assert_eq!(tap_fallback(&cs("S1"), true), None);
    assert_eq!(tap_fallback(&cs("S1"), false).map(|p| st(&p)), Some("/session/S1/wda/tap/0".to_string()));
}

#[test]
fn home_goes_to_the_home_screen() {
    let (path, body, message) = home_request();
    assert_eq!(st(&path), "/wda/homescreen");
    assert_eq!(st(&body), "{}");
    assert_eq!(st(&message), "home");
}

#[test]
fn ios_screenshot_needs_a_file() {
    assert_eq!(st(&screenshot_file(&[cs("out.png")]).unwrap()), "out.png");
    assert_eq!(st(&screenshot_file(&[]).unwrap_err()), "usage: mconsole ios-screenshot <file.png>");
}
