//! The iOS side of the console, spoken to an on-device WebDriverAgent over
//! HTTP: where the agent is, the session to reuse or open, what each command
//! asks of it, and how its replies read.
//!
//! Screen coordinates are fractions of the screen; the fixed gestures here
//! give them, and durations, in thousandths.
use vstd::prelude::*;
use crate::base64::{b64_decode, invalid_base64_message, pack, sextets};
use crate::console::{opt_view, ConfigEnv};
use crate::json::{byte_chars, json_str, json_str_bytes, json_str_raw};
use crate::number::{decimal, format_u64, parse_u16, parse_u16_spec};
use crate::text::{
    arg_or_usage, chars_of, copy_chars, eq_str, join, join_chars, nth_arg, push_chars, push_str,
    result_view, trim, trim_spec, views,
};

verus! {

// ---------- where the agent is ----------
/// The agent's host: `MC_WDA_HOST` when set, else the loopback address.
pub fn host(env_value: Option<&[char]>) -> (r: Vec<char>)
    ensures
        r@ == match env_value {
            Some(h) => h@,
            None => "127.0.0.1"@,
        },
{
    match env_value {
        Some(h) => copy_chars(h),
        None => chars_of("127.0.0.1"),
    }
}

/// The agent's port: `MC_WDA_PORT` when it reads as a port number, else 8100.
pub fn port(env_value: Option<&[char]>) -> (r: u16)
    ensures
        r == match env_value {
            Some(p) => match parse_u16_spec(p@) {
                Some(n) => n,
                None => 8100,
            },
            None => 8100,
        },
{
    match env_value {
        Some(p) => match parse_u16(p) {
            Some(n) => n,
            None => 8100,
        },
        None => 8100,
    }
}

// ---------- the session ----------
/// The path of the file that caches the session id for an agent, as its
/// components: in `MC_STORE_DIR`, else in `mirror-console` under
/// `XDG_CONFIG_HOME` or under `HOME`'s `.config`, else in the working
/// directory; named after the agent's host and port.
pub open spec fn session_cache_file_spec(env: ConfigEnv, host: Seq<char>, port: u16) -> Seq<
    Seq<char>,
> {
    let dir = match opt_view(env.mc_store_dir) {
        Some(d) => seq![d],
        None => match opt_view(env.xdg_config_home) {
            Some(x) => seq![x, "mirror-console"@],
            None => match opt_view(env.home) {
                Some(h) => seq![h, ".config/mirror-console"@],
                None => seq!["."@],
            },
        },
    };
    dir.push("wda-session-"@ + host + "-"@ + decimal(port as nat))
}

pub fn session_cache_file(env: &ConfigEnv, host: &[char], port: u16) -> (r: Vec<Vec<char>>)
    ensures
        views(r@) == session_cache_file_spec(*env, host@, port),
{
    let mut r: Vec<Vec<char>> = Vec::new();
    match &env.mc_store_dir {
        Some(d) => {
            r.push(copy_chars(d.as_slice()));
        },
        None => match &env.xdg_config_home {
            Some(x) => {
                r.push(copy_chars(x.as_slice()));
                r.push(chars_of("mirror-console"));
            },
            None => match &env.home {
                Some(h) => {
                    r.push(copy_chars(h.as_slice()));
                    r.push(chars_of(".config/mirror-console"));
                },
                None => {
                    r.push(chars_of("."));
                },
            },
        },
    }
    let mut name = chars_of("wda-session-");
    push_chars(&mut name, host);
    push_str(&mut name, "-");
    let d = format_u64(port as u64);
    push_chars(&mut name, d.as_slice());
    r.push(name);
    assert(views(r@) =~= session_cache_file_spec(*env, host@, port));
    r
}

/// A path under a session: `/session/<sid><suffix>`.
pub fn session_path(sid: &[char], suffix: &str) -> (r: Vec<char>)
    ensures
        r@ == "/session/"@ + sid@ + suffix@,
{
    let mut r = chars_of("/session/");
    push_chars(&mut r, sid);
    push_str(&mut r, suffix);
    r
}

/// The cached session id that the cache file holds: its text trimmed, when
/// anything is left.
pub open spec fn cached_session_spec(contents: Option<Seq<char>>) -> Option<Seq<char>> {
    match contents {
        Some(c) => if trim_spec(c).len() > 0 {
            Some(trim_spec(c))
        } else {
            None
        },
        None => None,
    }
}

/// The first step towards a session.
pub enum SessionStep {
    /// Check that the cached session still answers, by asking for the window
    /// size at `path`.
    Probe { sid: Vec<char>, path: Vec<char> },
    /// Open a new session.
    Create,
}

/// Where getting a session begins, given what the cache file holds (`None`
/// when it cannot be read): a cached id is probed first.
pub fn session(cache_contents: Option<&[char]>) -> (r: SessionStep)
    ensures
        match cached_session_spec(
            match cache_contents {
                Some(c) => Some(c@),
                None => None,
            },
        ) {
            Some(sid) => r matches SessionStep::Probe { sid: s, path: p } && s@ == sid && p@
                == "/session/"@ + sid + "/window/size"@,
            None => r is Create,
        },
{
    match cache_contents {
        Some(c) => {
            let t = trim(c);
            if t.len() > 0 {
                let p = session_path(t.as_slice(), "/window/size");
                SessionStep::Probe { sid: t, path: p }
            } else {
                SessionStep::Create
            }
        },
        None => SessionStep::Create,
    }
}

/// The session to use once a cached one was probed: the cached id when the
/// probe was answered, else `None`, and a new session is opened.
pub fn session_after_probe(sid: Vec<char>, probe_ok: bool) -> (r: Option<Vec<char>>)
    ensures
        probe_ok ==> (r matches Some(s) && s@ == sid@),
        !probe_ok ==> r is None,
{
    if probe_ok {
        Some(sid)
    } else {
        None
    }
}

/// The request body that opens a session.
pub fn new_session_body() -> (r: Vec<char>)
    ensures
        r@ == "{\"capabilities\":{\"alwaysMatch\":{},\"firstMatch\":[{}]}}"@,
{
    chars_of("{\"capabilities\":{\"alwaysMatch\":{},\"firstMatch\":[{}]}}")
}

/// The id of a newly opened session, read from the agent's reply.
pub fn session_id(reply: &[u8]) -> (r: Result<Vec<char>, Vec<char>>)
    ensures
        result_view(r) == match json_str_bytes(reply@, "sessionId"@.map_values(|c: char| c as u8)) {
            Some(s) => Ok(byte_chars(s)),
            None => Err("WDA did not return a sessionId"@),
        },
{
    let key = ascii_bytes("sessionId");
    match json_str(reply, key.as_slice()) {
        Some(s) => Ok(s),
        None => Err(chars_of("WDA did not return a sessionId")),
    }
}

/// The bytes of a string literal all of whose characters are ASCII, as the
/// code of each.
pub fn ascii_bytes(s: &str) -> (r: Vec<u8>)
    ensures
        r@ == s@.map_values(|c: char| c as u8),
{
    let v = chars_of(s);
    let mut r: Vec<u8> = Vec::new();
    let mut i: usize = 0;
    while i < v.len()
        invariant
            i <= v@.len(),
            v@ == s@,
            r@ == v@.subrange(0, i as int).map_values(|c: char| c as u8),
        decreases v@.len() - i,
    {
        r.push(v[i] as u8);
        assert(r@ =~= v@.subrange(0, i + 1).map_values(|c: char| c as u8));
        i = i + 1;
    }
    assert(v@.subrange(0, v@.len() as int) =~= v@);
    r
}

// ---------- status ----------
/// What `ios-status` reports from the agent's `/status` reply: where the
/// agent is and its state (`reachable` when the reply names none), then its
/// version when the reply names one.
pub open spec fn status_lines_spec(host: Seq<char>, port: u16, reply: Seq<u8>) -> Seq<Seq<char>> {
    let state = match json_str_bytes(reply, "state"@.map_values(|c: char| c as u8)) {
        Some(s) => byte_chars(s),
        None => "reachable"@,
    };
    let first = "[ok] WDA at "@ + host + ":"@ + decimal(port as nat) + " \u{2014} "@ + state;
    match json_str_bytes(reply, "version"@.map_values(|c: char| c as u8)) {
        Some(v) => seq![first, "     version: "@ + byte_chars(v)],
        None => seq![first],
    }
}

pub fn status_lines(host: &[char], port: u16, reply: &[u8]) -> (r: Vec<Vec<char>>)
    ensures
        views(r@) == status_lines_spec(host@, port, reply@),
{
    let sk = ascii_bytes("state");
    let state = match json_str(reply, sk.as_slice()) {
        Some(s) => s,
        None => chars_of("reachable"),
    };
    let mut first = chars_of("[ok] WDA at ");
    push_chars(&mut first, host);
    push_str(&mut first, ":");
    let d = format_u64(port as u64);
    push_chars(&mut first, d.as_slice());
    push_str(&mut first, " \u{2014} ");
    push_chars(&mut first, state.as_slice());
    let mut r: Vec<Vec<char>> = Vec::new();
    r.push(first);
    let vk = ascii_bytes("version");
    match json_str(reply, vk.as_slice()) {
        Some(v) => {
            let mut second = chars_of("     version: ");
            push_chars(&mut second, v.as_slice());
            r.push(second);
        },
        None => {},
    }
    assert(views(r@) =~= status_lines_spec(host@, port, reply@));
    r
}

// ---------- gestures ----------
/// A drag between two points, coordinates and duration in thousandths (of
/// the screen's width or height, and of a second).
#[derive(Debug, Clone, Copy, PartialEq, Eq, Structural)]
pub struct Gesture {
    pub from_x: u32,
    pub from_y: u32,
    pub to_x: u32,
    pub to_y: u32,
    pub duration: u32,
}

/// What `ios-key` does.
#[derive(Debug, Clone, Copy, PartialEq, Eq, Structural)]
pub enum IosKeyAction {
    /// Go to the home screen.
    Home,
    /// Perform a system gesture.
    Swipe(Gesture),
}

/// The back gesture: a swipe in from the left edge.
pub open spec fn back_gesture() -> Gesture {
    Gesture { from_x: 10, from_y: 500, to_x: 600, to_y: 500, duration: 250 }
}

/// The app switcher gesture: a swipe up from the bottom edge, then a pause.
pub open spec fn switcher_gesture() -> Gesture {
    Gesture { from_x: 500, from_y: 999, to_x: 500, to_y: 500, duration: 300 }
}

/// What `ios-key <home|back|switcher>` does; iOS has no back or recent-apps
/// key, so those are the system gestures.
pub open spec fn ios_key_spec(rest: Seq<Seq<char>>) -> Result<IosKeyAction, Seq<char>> {
    if rest.len() == 0 {
        Err("usage: mconsole ios-key <home|back|switcher>"@)
    } else if rest[0] == "home"@ {
        Ok(IosKeyAction::Home)
    } else if rest[0] == "back"@ {
        Ok(IosKeyAction::Swipe(back_gesture()))
    } else if rest[0] == "switcher"@ || rest[0] == "recent"@ || rest[0] == "recents"@ {
        Ok(IosKeyAction::Swipe(switcher_gesture()))
    } else {
        Err("unknown key `"@ + rest[0] + "` (home|back|switcher)"@)
    }
}

pub fn key(rest: &[Vec<char>]) -> (r: Result<IosKeyAction, Vec<char>>)
    ensures
        match ios_key_spec(views(rest@)) {
            Ok(a) => r == Ok::<IosKeyAction, Vec<char>>(a),
            Err(e) => r matches Err(m) && m@ == e,
        },
{
    if rest.len() == 0 {
        return Err(chars_of("usage: mconsole ios-key <home|back|switcher>"));
    }
    assert(views(rest@)[0] == rest@[0]@);
    let name = rest[0].as_slice();
    if eq_str(name, "home") {
        Ok(IosKeyAction::Home)
    } else if eq_str(name, "back") {
        Ok(IosKeyAction::Swipe(Gesture { from_x: 10, from_y: 500, to_x: 600, to_y: 500, duration: 250 }))
    } else if eq_str(name, "switcher") || eq_str(name, "recent") || eq_str(name, "recents") {
        Ok(IosKeyAction::Swipe(Gesture { from_x: 500, from_y: 999, to_x: 500, to_y: 500, duration: 300 }))
    } else {
        let mut m = chars_of("unknown key `");
        push_chars(&mut m, name);
        push_str(&mut m, "` (home|back|switcher)");
        Err(m)
    }
}

/// How a command's coordinate arguments are examined, first to last: a missing
/// one is a usage error, one that does not read as a number names it.
/// `numeric[k]` tells whether argument `k` reads as a number.
pub open spec fn check_coords(
    rest: Seq<Seq<char>>,
    numeric: Seq<bool>,
    k: int,
    count: int,
    usage: Seq<char>,
) -> Result<(), Seq<char>>
    decreases count - k,
{
    if k >= count {
        Ok(())
    } else if k >= rest.len() {
        Err(usage)
    } else if !numeric[k] {
        Err("not a number: "@ + rest[k])
    } else {
        check_coords(rest, numeric, k + 1, count, usage)
    }
}

fn check_coords_exec(rest: &[Vec<char>], numeric: &[bool], count: usize, usage: &str) -> (r: Result<
    (),
    Vec<char>,
>)
    requires
        numeric@.len() == rest@.len(),
    ensures
        match check_coords(views(rest@), numeric@, 0, count as int, usage@) {
            Ok(()) => r is Ok,
            Err(e) => r matches Err(m) && m@ == e,
        },
{
    let mut k: usize = 0;
    while k < count
        invariant
            numeric@.len() == rest@.len(),
            k <= count,
            check_coords(views(rest@), numeric@, k as int, count as int, usage@) == check_coords(
                views(rest@),
                numeric@,
                0,
                count as int,
                usage@,
            ),
        decreases count - k,
    {
        if k >= rest.len() {
            return Err(chars_of(usage));
        }
        if !numeric[k] {
            assert(views(rest@)[k as int] == rest@[k as int]@);
            let mut m = chars_of("not a number: ");
            push_chars(&mut m, rest[k].as_slice());
            return Err(m);
        }
        k = k + 1;
    }
    Ok(())
}

pub open spec fn tap_usage() -> Seq<char> {
    "usage: mconsole ios-tap <x0..1> <y0..1>"@
}

/// Whether `ios-tap <x> <y>` has its two coordinates; `numeric[k]` tells
/// whether argument `k` reads as a number.
pub fn tap(rest: &[Vec<char>], numeric: &[bool]) -> (r: Result<(), Vec<char>>)
    requires
        numeric@.len() == rest@.len(),
    ensures
        match check_coords(views(rest@), numeric@, 0, 2, tap_usage()) {
            Ok(()) => r is Ok,
            Err(e) => r matches Err(m) && m@ == e,
        },
{
    check_coords_exec(rest, numeric, 2, "usage: mconsole ios-tap <x0..1> <y0..1>")
}

/// The two endpoints a tap tries, the current one first and then the one
/// older agents know.
pub fn tap_paths(sid: &[char]) -> (r: (Vec<char>, Vec<char>))
    ensures
        r.0@ == "/session/"@ + sid@ + "/wda/tap"@,
        r.1@ == "/session/"@ + sid@ + "/wda/tap/0"@,
{
    (session_path(sid, "/wda/tap"), session_path(sid, "/wda/tap/0"))
}

/// What a tap does after its first request: nothing more when it was
/// answered, else it posts again to the endpoint older agents know.
pub fn tap_fallback(sid: &[char], first_ok: bool) -> (r: Option<Vec<char>>)
    ensures
        first_ok ==> r is None,
        !first_ok ==> (r matches Some(p) && p@ == "/session/"@ + sid@ + "/wda/tap/0"@),
{
    if first_ok {
        None
    } else {
        Some(session_path(sid, "/wda/tap/0"))
    }
}

/// The request that goes to the home screen, its path and its body, and
/// the report once it is answered.
pub fn home_request() -> (r: (Vec<char>, Vec<char>, Vec<char>))
    ensures
        r.0@ == "/wda/homescreen"@,
        r.1@ == "{}"@,
        r.2@ == "home"@,
{
    (chars_of("/wda/homescreen"), chars_of("{}"), chars_of("home"))
}

/// Where a swipe's duration comes from.
#[derive(Debug, Clone, Copy, PartialEq, Eq, Structural)]
pub enum SwipeDuration {
    /// The fifth argument, which reads as a number.
    FromArgument,
    /// The default of 300 thousandths of a second.
    Default,
}

pub open spec fn swipe_usage() -> Seq<char> {
    "usage: mconsole ios-swipe <x1> <y1> <x2> <y2> [duration_s]"@
}

/// What `ios-swipe <x1> <y1> <x2> <y2> [duration_s]` takes: four coordinates,
/// and a duration when the fifth argument reads as a number.
pub open spec fn swipe_spec(rest: Seq<Seq<char>>, numeric: Seq<bool>) -> Result<
    SwipeDuration,
    Seq<char>,
> {
    match check_coords(rest, numeric, 0, 4, swipe_usage()) {
        Err(e) => Err(e),
        Ok(()) => if rest.len() > 4 && numeric[4] {
            Ok(SwipeDuration::FromArgument)
        } else {
            Ok(SwipeDuration::Default)
        },
    }
}

/// The default swipe duration, in thousandths of a second.
pub fn default_swipe_millis() -> (r: u32)
    ensures
        r == 300,
{
    300
}

pub fn swipe(rest: &[Vec<char>], numeric: &[bool]) -> (r: Result<SwipeDuration, Vec<char>>)
    requires
        numeric@.len() == rest@.len(),
    ensures
        match swipe_spec(views(rest@), numeric@) {
            Ok(d) => r == Ok::<SwipeDuration, Vec<char>>(d),
            Err(e) => r matches Err(m) && m@ == e,
        },
{
    match check_coords_exec(
        rest,
        numeric,
        4,
        "usage: mconsole ios-swipe <x1> <y1> <x2> <y2> [duration_s]",
    ) {
        Err(m) => Err(m),
        Ok(()) => {
            if rest.len() > 4 && numeric[4] {
                Ok(SwipeDuration::FromArgument)
            } else {
                Ok(SwipeDuration::Default)
            }
        },
    }
}

// ---------- typing ----------
/// How the standard library's `Debug` writes a one-character string: the
/// character quoted, with escapes.
pub uninterp spec fn debug_quoted(c: char) -> Seq<char>;

/// `format!("{:?}", c.to_string())`: the `Debug` text of the one-character
/// string. Its contract only names the result; the escaping rules are the
/// standard library's.
#[verifier::external_body]
fn debug_string_of_char(c: char) -> (r: Vec<char>)
    ensures
        r@ == debug_quoted(c),
{
    format!("{:?}", c.to_string()).chars().collect()
}

/// The body that types text: `{"value":[...]}` with one quoted character per
/// element, as given.
pub fn keys_body_from(parts: &[Vec<char>]) -> (r: Vec<char>)
    ensures
        r@ == "{\"value\":["@ + join(views(parts@), ","@) + "]}"@,
{
    let mut r = chars_of("{\"value\":[");
    let j = join_chars(parts, ",");
    push_chars(&mut r, j.as_slice());
    push_str(&mut r, "]}");
    r
}

/// The body that types `s`: each of its characters as a string of its own.
pub fn keys_body(s: &[char]) -> (r: Vec<char>)
    ensures
        r@ == "{\"value\":["@ + join(s@.map_values(|c: char| debug_quoted(c)), ","@) + "]}"@,
{
    let mut parts: Vec<Vec<char>> = Vec::new();
    let mut i: usize = 0;
    while i < s.len()
        invariant
            i <= s@.len(),
            views(parts@) == s@.subrange(0, i as int).map_values(|c: char| debug_quoted(c)),
        decreases s@.len() - i,
    {
        let ghost before = views(parts@);
        let q = debug_string_of_char(s[i]);
        let ghost qv = q@;
        parts.push(q);
        assert(views(parts@) =~= before.push(qv));
        assert(s@.subrange(0, i + 1) =~= s@.subrange(0, i as int).push(s@[i as int]));
        assert(views(parts@) =~= s@.subrange(0, i + 1).map_values(|c: char| debug_quoted(c)));
        i = i + 1;
    }
    assert(s@.subrange(0, s@.len() as int) =~= s@);
    keys_body_from(parts.as_slice())
}

/// What `ios-text` does: the body that types the string, and the report of
/// how many characters it holds.
pub struct KeysRequest {
    pub body: Vec<char>,
    pub message: Vec<char>,
}

/// What `ios-text <string>` sends, and the report `typed <n> chars`.
pub fn text(rest: &[Vec<char>]) -> (r: Result<KeysRequest, Vec<char>>)
    ensures
        rest@.len() == 0 ==> (r matches Err(e) && e@ == "usage: mconsole ios-text <string>"@),
        rest@.len() > 0 ==> (r matches Ok(k) && k.body@ == "{\"value\":["@ + join(
            rest@[0]@.map_values(|c: char| debug_quoted(c)),
            ","@,
        ) + "]}"@ && k.message@ == "typed "@ + decimal(rest@[0]@.len()) + " chars"@),
{
    if rest.len() == 0 {
        return Err(chars_of("usage: mconsole ios-text <string>"));
    }
    let body = keys_body(rest[0].as_slice());
    let mut message = chars_of("typed ");
    let d = format_u64(rest[0].len() as u64);
    push_chars(&mut message, d.as_slice());
    push_str(&mut message, " chars");
    Ok(KeysRequest { body, message })
}

// ---------- screenshots ----------
/// A byte code as UTF-8: itself below 128, else two bytes.
pub open spec fn latin1_utf8(codes: Seq<u8>) -> Seq<u8>
    decreases codes.len(),
{
    if codes.len() == 0 {
        Seq::empty()
    } else {
        latin1_utf8(codes.drop_last()) + (if codes.last() < 128 {
            seq![codes.last()]
        } else {
            seq![(0xC0 | (codes.last() >> 6u8)) as u8, (0x80 | (codes.last() & 0x3Fu8)) as u8]
        })
    }
}

fn latin1_utf8_exec(codes: &[u8]) -> (r: Vec<u8>)
    ensures
        r@ == latin1_utf8(codes@),
{
    let mut r: Vec<u8> = Vec::new();
    let mut i: usize = 0;
    while i < codes.len()
        invariant
            i <= codes@.len(),
            r@ == latin1_utf8(codes@.subrange(0, i as int)),
        decreases codes@.len() - i,
    {
        let c = codes[i];
        assert(codes@.subrange(0, i + 1).drop_last() =~= codes@.subrange(0, i as int));
        if c < 128 {
            r.push(c);
        } else {
            r.push(0xC0 | (c >> 6u8));
            r.push(0x80 | (c & 0x3Fu8));
        }
        assert(r@ =~= latin1_utf8(codes@.subrange(0, i + 1)));
        i = i + 1;
    }
    assert(codes@.subrange(0, codes@.len() as int) =~= codes@);
    r
}

pub open spec fn screenshot_usage() -> Seq<char> {
    "usage: mconsole ios-screenshot <file.png>"@
}

/// The file that `ios-screenshot <file.png>` writes.
pub fn screenshot_file(rest: &[Vec<char>]) -> (r: Result<Vec<char>, Vec<char>>)
    ensures
        result_view(r) == arg_or_usage(views(rest@), 0, screenshot_usage()),
{
    nth_arg(rest, 0, "usage: mconsole ios-screenshot <file.png>")
}

/// The image in the agent's `/screenshot` reply: the base64 text of its
/// `screenshot` field (newer agents) or else of its `value` field, decoded.
/// The text is decoded from its UTF-8 form, each of its characters being the
/// code of one byte of the reply.
pub open spec fn screenshot_image_spec(reply: Seq<u8>) -> Result<Seq<u8>, Seq<char>> {
    let found = match json_str_bytes(reply, "screenshot"@.map_values(|c: char| c as u8)) {
        Some(s) => Some(s),
        None => json_str_bytes(reply, "value"@.map_values(|c: char| c as u8)),
    };
    match found {
        None => Err("no base64 image in response"@),
        Some(s) => match sextets(latin1_utf8(s)) {
            Some(v) => Ok(pack(v)),
            None => Err(invalid_base64_message()),
        },
    }
}

pub fn screenshot_image(reply: &[u8]) -> (r: Result<Vec<u8>, Vec<char>>)
    ensures
        match screenshot_image_spec(reply@) {
            Ok(img) => r matches Ok(v) && v@ == img,
            Err(e) => r matches Err(m) && m@ == e,
        },
{
    let k1 = ascii_bytes("screenshot");
    let found = match json_str_raw(reply, k1.as_slice()) {
        Some(s) => Some(s),
        None => {
            let k2 = ascii_bytes("value");
            json_str_raw(reply, k2.as_slice())
        },
    };
    match found {
        None => Err(chars_of("no base64 image in response")),
        Some(s) => {
            let text = latin1_utf8_exec(s.as_slice());
            b64_decode(text.as_slice())
        },
    }
}

} // verus!
