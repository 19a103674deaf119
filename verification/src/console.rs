//! The Android side of the console: which command an invocation names, where
//! the tools and the store are found, what `adb` is asked and how its
//! replies read, and the messages the commands give.
use vstd::prelude::*;
use crate::number::{decimal, format_u64};
use crate::store::{Store, StoreView};
use crate::text::{
    arg_or_usage, chars_of, contains_char, copy_chars, eq_str, join, join_chars, lex_less, lex_lt,
    lines, lines_spec, nth_arg, push_chars, push_str, result_view, split_whitespace, starts_with,
    strip_prefix, trim, trim_spec, utf8_len, utf8_length, views, words_spec,
};

verus! {

// ---------- commands ----------
/// The commands of the console.
#[derive(Debug, Clone, Copy, PartialEq, Eq, Structural)]
pub enum Command {
    Help,
    Version,
    Doctor,
    Devices,
    Connect,
    Disconnect,
    Mirror,
    Install,
    Apps,
    Launch,
    Stop,
    Screenshot,
    Key,
    Text,
    IosStatus,
    IosTap,
    IosSwipe,
    IosHome,
    IosKey,
    IosText,
    IosScreenshot,
    Note,
    SetSetting,
    Config,
    Unknown,
}

/// The command a name selects.
pub open spec fn command_spec(name: Seq<char>) -> Command {
    if name == "help"@ || name == "-h"@ || name == "--help"@ {
        Command::Help
    } else if name == "version"@ || name == "-V"@ || name == "--version"@ {
        Command::Version
    } else if name == "doctor"@ {
        Command::Doctor
    } else if name == "devices"@ {
        Command::Devices
    } else if name == "connect"@ {
        Command::Connect
    } else if name == "disconnect"@ {
        Command::Disconnect
    } else if name == "mirror"@ {
        Command::Mirror
    } else if name == "install"@ {
        Command::Install
    } else if name == "apps"@ {
        Command::Apps
    } else if name == "launch"@ {
        Command::Launch
    } else if name == "stop"@ {
        Command::Stop
    } else if name == "screenshot"@ {
        Command::Screenshot
    } else if name == "key"@ {
        Command::Key
    } else if name == "text"@ {
        Command::Text
    } else if name == "ios-status"@ {
        Command::IosStatus
    } else if name == "ios-tap"@ {
        Command::IosTap
    } else if name == "ios-swipe"@ {
        Command::IosSwipe
    } else if name == "ios-home"@ {
        Command::IosHome
    } else if name == "ios-key"@ {
        Command::IosKey
    } else if name == "ios-text"@ {
        Command::IosText
    } else if name == "ios-screenshot"@ {
        Command::IosScreenshot
    } else if name == "note"@ {
        Command::Note
    } else if name == "set"@ {
        Command::SetSetting
    } else if name == "config"@ {
        Command::Config
    } else {
        Command::Unknown
    }
}

/// The name under which the help lists each command; `Unknown` has none.
pub open spec fn command_name(c: Command) -> Seq<char> {
    match c {
        Command::Help => "help"@,
        Command::Version => "version"@,
        Command::Doctor => "doctor"@,
        Command::Devices => "devices"@,
        Command::Connect => "connect"@,
        Command::Disconnect => "disconnect"@,
        Command::Mirror => "mirror"@,
        Command::Install => "install"@,
        Command::Apps => "apps"@,
        Command::Launch => "launch"@,
        Command::Stop => "stop"@,
        Command::Screenshot => "screenshot"@,
        Command::Key => "key"@,
        Command::Text => "text"@,
        Command::IosStatus => "ios-status"@,
        Command::IosTap => "ios-tap"@,
        Command::IosSwipe => "ios-swipe"@,
        Command::IosHome => "ios-home"@,
        Command::IosKey => "ios-key"@,
        Command::IosText => "ios-text"@,
        Command::IosScreenshot => "ios-screenshot"@,
        Command::Note => "note"@,
        Command::SetSetting => "set"@,
        Command::Config => "config"@,
        Command::Unknown => Seq::empty(),
    }
}

/// The short forms of `help` and `version`.
pub open spec fn is_short_form(name: Seq<char>) -> bool {
    name == "-h"@ || name == "--help"@ || name == "-V"@ || name == "--version"@
}

/// Each command's own name selects that command, so distinct commands have
/// distinct names; and a name selects a command only when it is that
/// command's name or one of the short forms of `help` and `version`.
pub proof fn lemma_command_names(c: Command, name: Seq<char>)
    ensures
        c != Command::Unknown ==> command_spec(command_name(c)) == c,
        command_spec("-h"@) == Command::Help && command_spec("--help"@) == Command::Help,
        command_spec("-V"@) == Command::Version && command_spec("--version"@) == Command::Version,
        command_spec(name) != Command::Unknown ==> name == command_name(command_spec(name))
            || is_short_form(name),
{
    reveal_strlit("help");
    assert("help"@.len() == 4 && "help"@[0] == 'h');
    reveal_strlit("version");
    assert("version"@.len() == 7 && "version"@[0] == 'v');
    reveal_strlit("doctor");
    assert("doctor"@.len() == 6 && "doctor"@[0] == 'd');
    reveal_strlit("devices");
    assert("devices"@.len() == 7 && "devices"@[0] == 'd');
    reveal_strlit("connect");
    assert("connect"@.len() == 7 && "connect"@[0] == 'c');
    reveal_strlit("disconnect");
    assert("disconnect"@.len() == 10 && "disconnect"@[0] == 'd');
    reveal_strlit("mirror");
    assert("mirror"@.len() == 6 && "mirror"@[0] == 'm');
    reveal_strlit("install");
    assert("install"@.len() == 7 && "install"@[0] == 'i' && "install"@[1] == 'n');
    reveal_strlit("apps");
    assert("apps"@.len() == 4 && "apps"@[0] == 'a');
    reveal_strlit("launch");
    assert("launch"@.len() == 6 && "launch"@[0] == 'l');
    reveal_strlit("stop");
    assert("stop"@.len() == 4 && "stop"@[0] == 's');
    reveal_strlit("screenshot");
    assert("screenshot"@.len() == 10 && "screenshot"@[0] == 's');
    reveal_strlit("key");
    assert("key"@.len() == 3 && "key"@[0] == 'k');
    reveal_strlit("text");
    assert("text"@.len() == 4 && "text"@[0] == 't');
    reveal_strlit("ios-status");
    assert("ios-status"@.len() == 10 && "ios-status"@[0] == 'i');
    reveal_strlit("ios-tap");
    assert("ios-tap"@.len() == 7 && "ios-tap"@[0] == 'i' && "ios-tap"@[1] == 'o' && "ios-tap"@[4] == 't');
    reveal_strlit("ios-swipe");
    assert("ios-swipe"@.len() == 9 && "ios-swipe"@[0] == 'i');
    reveal_strlit("ios-home");
    assert("ios-home"@.len() == 8 && "ios-home"@[4] == 'h');
    reveal_strlit("ios-key");
    assert("ios-key"@.len() == 7 && "ios-key"@[0] == 'i' && "ios-key"@[1] == 'o' && "ios-key"@[4] == 'k');
    reveal_strlit("ios-text");
    assert("ios-text"@.len() == 8 && "ios-text"@[4] == 't');
    reveal_strlit("ios-screenshot");
    assert("ios-screenshot"@.len() == 14);
    reveal_strlit("note");
    assert("note"@.len() == 4 && "note"@[0] == 'n');
    reveal_strlit("set");
    assert("set"@.len() == 3 && "set"@[0] == 's');
    reveal_strlit("config");
    assert("config"@.len() == 6 && "config"@[0] == 'c');
    reveal_strlit("-h");
    assert("-h"@.len() == 2 && "-h"@[1] == 'h');
    reveal_strlit("--help");
    assert("--help"@.len() == 6 && "--help"@[0] == '-');
    reveal_strlit("-V");
    assert("-V"@.len() == 2 && "-V"@[1] == 'V');
    reveal_strlit("--version");
    assert("--version"@.len() == 9 && "--version"@[0] == '-');
}

/// The command a name selects.
pub fn command_of(name: &[char]) -> (c: Command)
    ensures
        c == command_spec(name@),
{
    if eq_str(name, "help") || eq_str(name, "-h") || eq_str(name, "--help") {
        Command::Help
    } else if eq_str(name, "version") || eq_str(name, "-V") || eq_str(name, "--version") {
        Command::Version
    } else if eq_str(name, "doctor") {
        Command::Doctor
    } else if eq_str(name, "devices") {
        Command::Devices
    } else if eq_str(name, "connect") {
        Command::Connect
    } else if eq_str(name, "disconnect") {
        Command::Disconnect
    } else if eq_str(name, "mirror") {
        Command::Mirror
    } else if eq_str(name, "install") {
        Command::Install
    } else if eq_str(name, "apps") {
        Command::Apps
    } else if eq_str(name, "launch") {
        Command::Launch
    } else if eq_str(name, "stop") {
        Command::Stop
    } else if eq_str(name, "screenshot") {
        Command::Screenshot
    } else if eq_str(name, "key") {
        Command::Key
    } else if eq_str(name, "text") {
        Command::Text
    } else if eq_str(name, "ios-status") {
        Command::IosStatus
    } else if eq_str(name, "ios-tap") {
        Command::IosTap
    } else if eq_str(name, "ios-swipe") {
        Command::IosSwipe
    } else if eq_str(name, "ios-home") {
        Command::IosHome
    } else if eq_str(name, "ios-key") {
        Command::IosKey
    } else if eq_str(name, "ios-text") {
        Command::IosText
    } else if eq_str(name, "ios-screenshot") {
        Command::IosScreenshot
    } else if eq_str(name, "note") {
        Command::Note
    } else if eq_str(name, "set") {
        Command::SetSetting
    } else if eq_str(name, "config") {
        Command::Config
    } else {
        Command::Unknown
    }
}

/// How an invocation reads: the command its first argument names (`help`
/// when there is none) and where the command's own arguments begin.
pub struct Route {
    pub command: Command,
    pub rest_start: usize,
}

pub fn route(args: &[Vec<char>]) -> (r: Route)
    ensures
        args@.len() == 0 ==> r.command == Command::Help && r.rest_start == 0,
        args@.len() > 0 ==> r.command == command_spec(args@[0]@) && r.rest_start == 1,
{
    if args.len() == 0 {
        proof {
            reveal_strlit("help");
        }
        Route { command: Command::Help, rest_start: 0 }
    } else {
        Route { command: command_of(args[0].as_slice()), rest_start: 1 }
    }
}

/// The message for a command name that selects nothing.
pub fn unknown_command_message(name: &[char]) -> (r: Vec<char>)
    ensures
        r@ == "unknown command: "@ + name@ + "\nrun `mconsole help`"@,
{
    let mut r = chars_of("unknown command: ");
    push_chars(&mut r, name);
    push_str(&mut r, "\nrun `mconsole help`");
    r
}

/// The line `version` prints.
pub fn version_line(version: &[char]) -> (r: Vec<char>)
    ensures
        r@ == "mirror-console "@ + version@ + " (local-only, no cloud)"@,
{
    let mut r = chars_of("mirror-console ");
    push_chars(&mut r, version);
    push_str(&mut r, " (local-only, no cloud)");
    r
}

// ---------- tools ----------
/// The program to run for a tool: the override from the environment when it
/// holds anything but whitespace, else the tool's name, found on the path.
pub open spec fn tool_spec(env_value: Option<Seq<char>>, name: Seq<char>) -> Seq<char> {
    match env_value {
        Some(p) => if trim_spec(p).len() > 0 {
            p
        } else {
            name
        },
        None => name,
    }
}

pub fn tool(env_value: Option<&[char]>, name: &[char]) -> (r: Vec<char>)
    ensures
        r@ == tool_spec(
            match env_value {
                Some(p) => Some(p@),
                None => None,
            },
            name@,
        ),
{
    match env_value {
        Some(p) => {
            let t = trim(p);
            if t.len() > 0 {
                copy_chars(p)
            } else {
                copy_chars(name)
            }
        },
        None => copy_chars(name),
    }
}

/// The `adb` program, given the value of `MC_ADB` when it is set.
pub fn adb(env_value: Option<&[char]>) -> (r: Vec<char>)
    ensures
        r@ == tool_spec(
            match env_value {
                Some(p) => Some(p@),
                None => None,
            },
            "adb"@,
        ),
{
    let n = chars_of("adb");
    tool(env_value, n.as_slice())
}

/// The `scrcpy` program, given the value of `MC_SCRCPY` when it is set.
pub fn scrcpy(env_value: Option<&[char]>) -> (r: Vec<char>)
    ensures
        r@ == tool_spec(
            match env_value {
                Some(p) => Some(p@),
                None => None,
            },
            "scrcpy"@,
        ),
{
    let n = chars_of("scrcpy");
    tool(env_value, n.as_slice())
}

/// The message when a program ran and failed.
pub fn run_failure_message(bin: &[char], args: &[Vec<char>], status: &[char], stderr: &[char]) -> (r:
    Vec<char>)
    ensures
        r@ == "`"@ + bin@ + " "@ + join(views(args@), " "@) + "` exited with "@ + status@ + ": "@
            + trim_spec(stderr@),
{
    let mut r = chars_of("`");
    push_chars(&mut r, bin);
    push_str(&mut r, " ");
    let j = join_chars(args, " ");
    push_chars(&mut r, j.as_slice());
    push_str(&mut r, "` exited with ");
    push_chars(&mut r, status);
    push_str(&mut r, ": ");
    let t = trim(stderr);
    push_chars(&mut r, t.as_slice());
    r
}

/// What `doctor` reports of a tool: the first line of its `--version`
/// output, trimmed, or the program when that line is blank; or, when the
/// program could not be started, that it is missing.
pub open spec fn tool_report_spec(
    name: Seq<char>,
    bin: Seq<char>,
    env_key: Seq<char>,
    version_output: Option<Seq<char>>,
) -> Seq<char> {
    match version_output {
        Some(out) => {
            let first = if lines_spec(out).len() > 0 {
                trim_spec(lines_spec(out)[0])
            } else {
                Seq::empty()
            };
            "[ok]   "@ + name + ": "@ + (if first.len() == 0 {
                bin
            } else {
                first
            })
        },
        None => "[MISS] "@ + name + ": not found (set "@ + env_key + " or install it)"@,
    }
}

pub fn tool_report(name: &[char], bin: &[char], env_key: &[char], version_output: Option<&[char]>) -> (r:
    Vec<char>)
    ensures
        r@ == tool_report_spec(
            name@,
            bin@,
            env_key@,
            match version_output {
                Some(o) => Some(o@),
                None => None,
            },
        ),
{
    match version_output {
        Some(out) => {
            let ls = lines(out);
            let first = if ls.len() > 0 {
                trim(ls[0].as_slice())
            } else {
                Vec::new()
            };
            let mut r = chars_of("[ok]   ");
            push_chars(&mut r, name);
            push_str(&mut r, ": ");
            if first.len() == 0 {
                push_chars(&mut r, bin);
            } else {
                push_chars(&mut r, first.as_slice());
            }
            r
        },
        None => {
            let mut r = chars_of("[MISS] ");
            push_chars(&mut r, name);
            push_str(&mut r, ": not found (set ");
            push_chars(&mut r, env_key);
            push_str(&mut r, " or install it)");
            r
        },
    }
}

pub open spec fn missing_tools_message() -> Seq<char> {
    "one or more required tools are missing"@
}

/// How `doctor` ends, given for each tool whether it could be run: success
/// when every one could, else the message that some are missing.
pub fn doctor_outcome(found: &[bool]) -> (r: Result<(), Vec<char>>)
    ensures
        (forall|i: int| 0 <= i < found@.len() ==> found@[i]) ==> r is Ok,
        !(forall|i: int| 0 <= i < found@.len() ==> found@[i]) ==> (r matches Err(e) && e@
            == missing_tools_message()),
{
    let mut i: usize = 0;
    while i < found.len()
        invariant
            i <= found@.len(),
            forall|j: int| 0 <= j < i ==> found@[j],
        decreases found@.len() - i,
    {
        if !found[i] {
            return Err(chars_of("one or more required tools are missing"));
        }
        i = i + 1;
    }
    Ok(())
}

/// The line of `doctor` that says where the store is.
pub fn store_info_line(path: &[char]) -> (r: Vec<char>)
    ensures
        r@ == "[info] store: "@ + path@,
{
    let mut r = chars_of("[info] store: ");
    push_chars(&mut r, path);
    r
}

// ---------- devices ----------
/// The serial a line of `adb devices` names when the device is ready: the
/// line's first word, when its second word is `device`.
pub open spec fn device_entry(l: Seq<char>) -> Seq<Seq<char>> {
    let t = trim_spec(l);
    let w = words_spec(t);
    if t.len() > 0 && w.len() >= 2 && w[1] == "device"@ {
        seq![w[0]]
    } else {
        Seq::empty()
    }
}

pub open spec fn device_serials(ls: Seq<Seq<char>>) -> Seq<Seq<char>>
    decreases ls.len(),
{
    if ls.len() == 0 {
        Seq::empty()
    } else {
        device_entry(ls[0]) + device_serials(ls.drop_first())
    }
}

/// The serials of the ready devices that `adb devices` lists, in its order;
/// its first line is a heading.
pub open spec fn list_serials_spec(out: Seq<char>) -> Seq<Seq<char>> {
    let ls = lines_spec(out);
    if ls.len() == 0 {
        Seq::empty()
    } else {
        device_serials(ls.drop_first())
    }
}

/// A line of `adb devices` whose second word, once the line is trimmed, is
/// exactly `device`: the state of a device that is ready.
pub open spec fn is_ready_line(l: Seq<char>) -> bool {
    let w = words_spec(trim_spec(l));
    w.len() >= 2 && w[1] == "device"@
}

/// The first word of a trimmed line.
pub open spec fn first_word(l: Seq<char>) -> Seq<char> {
    words_spec(trim_spec(l))[0]
}

/// `serial` is the first word of a line after the heading whose state is
/// `device`.
pub open spec fn named_by_ready_line(ls: Seq<Seq<char>>, serial: Seq<char>) -> bool {
    exists|j: int| 1 <= j < ls.len() && is_ready_line(#[trigger] ls[j]) && first_word(ls[j]) == serial
}

proof fn lemma_device_serials(ls: Seq<Seq<char>>)
    ensures
        forall|i: int|
            0 <= i < device_serials(ls).len() ==> exists|j: int|
                0 <= j < ls.len() && is_ready_line(#[trigger] ls[j]) && first_word(ls[j])
                    == #[trigger] device_serials(ls)[i],
        forall|j: int|
            0 <= j < ls.len() && is_ready_line(#[trigger] ls[j]) ==> device_serials(ls).contains(
                first_word(ls[j]),
            ),
    decreases ls.len(),
{
    if ls.len() > 0 {
        let rest = ls.drop_first();
        lemma_device_serials(rest);
        let e = device_entry(ls[0]);
        let d = device_serials(ls);
        assert(d == e + device_serials(rest));
        if words_spec(trim_spec(ls[0])).len() >= 2 {
            assert(trim_spec(ls[0]).len() > 0) by {
                if trim_spec(ls[0]).len() == 0 {
                    assert(words_spec(trim_spec(ls[0])) =~= Seq::<Seq<char>>::empty());
                }
            }
        }
        assert forall|i: int| 0 <= i < d.len() implies exists|j: int|
            0 <= j < ls.len() && is_ready_line(#[trigger] ls[j]) && first_word(ls[j]) == #[trigger] d[i] by {
            if i < e.len() {
                assert(is_ready_line(ls[0]) && first_word(ls[0]) == d[i]);
            } else {
                let k = i - e.len();
                assert(d[i] == device_serials(rest)[k]);
                let j0 = choose|j: int|
                    0 <= j < rest.len() && is_ready_line(#[trigger] rest[j]) && first_word(rest[j])
                        == device_serials(rest)[k];
                assert(ls[j0 + 1] == rest[j0]);
            }
        }
        assert forall|j: int| 0 <= j < ls.len() && is_ready_line(#[trigger] ls[j]) implies d.contains(
            first_word(ls[j]),
        ) by {
            if j == 0 {
                assert(d[0] == first_word(ls[0]));
            } else {
                assert(ls[j] == rest[j - 1]);
                let k = choose|k: int|
                    0 <= k < device_serials(rest).len() && device_serials(rest)[k] == first_word(
                        rest[j - 1],
                    );
                assert(d[e.len() + k] == device_serials(rest)[k]);
            }
        }
    }
}

/// Which devices `adb devices` lists as ready: every serial given is the first
/// word of a line after the heading whose state is exactly `device`, and
/// every such line gives its serial. A device that is offline, unauthorized
/// or in recovery gives nothing.
pub proof fn lemma_serials_are_ready(out: Seq<char>)
    ensures
        forall|i: int|
            0 <= i < list_serials_spec(out).len() ==> named_by_ready_line(
                lines_spec(out),
                #[trigger] list_serials_spec(out)[i],
            ),
        forall|j: int|
            1 <= j < lines_spec(out).len() && is_ready_line(#[trigger] lines_spec(out)[j])
                ==> list_serials_spec(out).contains(first_word(lines_spec(out)[j])),
{
    let ls = lines_spec(out);
    if ls.len() > 0 {
        let rest = ls.drop_first();
        lemma_device_serials(rest);
        let d = list_serials_spec(out);
        assert(d == device_serials(rest));
        assert forall|i: int| 0 <= i < d.len() implies named_by_ready_line(ls, #[trigger] d[i]) by {
            assert(d[i] == device_serials(rest)[i]);
            let j0 = choose|j: int|
                0 <= j < rest.len() && is_ready_line(#[trigger] rest[j]) && first_word(rest[j])
                    == device_serials(rest)[i];
            assert(ls[j0 + 1] == rest[j0]);
            assert(is_ready_line(ls[j0 + 1]) && first_word(ls[j0 + 1]) == d[i]);
        }
        assert forall|j: int| 1 <= j < ls.len() && is_ready_line(#[trigger] ls[j]) implies d.contains(
            first_word(ls[j]),
        ) by {
            assert(ls[j] == rest[j - 1]);
        }
    } else {
        assert(list_serials_spec(out) == Seq::<Seq<char>>::empty());
    }
}

pub fn list_serials(out: &[char]) -> (r: Vec<Vec<char>>)
    ensures
        views(r@) == list_serials_spec(out@),
{
    let ls = lines(out);
    let mut r: Vec<Vec<char>> = Vec::new();
    if ls.len() == 0 {
        assert(views(r@) =~= Seq::<Seq<char>>::empty());
        return r;
    }
    let ghost all = views(ls@);
    let mut i: usize = 1;
    assert(all.skip(1) =~= all.drop_first());
    assert(views(r@) + device_serials(all.skip(1)) =~= list_serials_spec(out@));
    while i < ls.len()
        invariant
            1 <= i <= ls@.len(),
            all == views(ls@),
            all == lines_spec(out@),
            views(r@) + device_serials(all.skip(i as int)) == list_serials_spec(out@),
        decreases ls@.len() - i,
    {
        assert(all.skip(i as int)[0] == ls@[i as int]@);
        assert(all.skip(i as int).drop_first() =~= all.skip(i + 1));
        let ghost before = views(r@);
        let t = trim(ls[i].as_slice());
        if t.len() > 0 {
            let w = split_whitespace(t.as_slice());
            if w.len() >= 2 && eq_str(w[1].as_slice(), "device") {
                assert(views(w@)[1] == w@[1]@);
                let s = copy_chars(w[0].as_slice());
                r.push(s);
                assert(views(r@) =~= before + device_entry(ls@[i as int]@));
            } else {
                assert(views(r@) =~= before + device_entry(ls@[i as int]@));
            }
        } else {
            assert(views(r@) =~= before + device_entry(ls@[i as int]@));
        }
        assert(views(r@) + device_serials(all.skip(i + 1)) =~= before + device_serials(
            all.skip(i as int),
        ));
        i = i + 1;
    }
    assert(all.skip(i as int) =~= Seq::<Seq<char>>::empty());
    assert(views(r@) =~= views(r@) + device_serials(all.skip(i as int)));
    r
}

/// Whether the target is the only attached device: no serial given, or `-`.
pub open spec fn wants_default_device(arg: Option<Seq<char>>) -> bool {
    match arg {
        None => true,
        Some(s) => s == "-"@,
    }
}

pub open spec fn no_device_message() -> Seq<char> {
    "no devices in state `device` \u{2014} connect one or run `mconsole devices`"@
}

/// The serial a command targets: the one given, or else the only ready
/// device; none or several ready devices are errors.
pub open spec fn resolve_serial_spec(arg: Option<Seq<char>>, devices: Seq<Seq<char>>) -> Result<
    Seq<char>,
    Seq<char>,
> {
    if !wants_default_device(arg) {
        Ok(arg->0)
    } else if devices.len() == 0 {
        Err(no_device_message())
    } else if devices.len() == 1 {
        Ok(devices[0])
    } else {
        Err("multiple devices attached, specify one explicitly: "@ + join(devices, ", "@))
    }
}

pub fn wants_device_list(arg: Option<&[char]>) -> (r: bool)
    ensures
        r == wants_default_device(
            match arg {
                Some(s) => Some(s@),
                None => None,
            },
        ),
{
    match arg {
        None => true,
        Some(s) => eq_str(s, "-"),
    }
}

/// The serial a command targets. `devices` is consulted only when no serial
/// (or `-`) is given; it is the output of `list_serials`.
pub fn resolve_serial(arg: Option<&[char]>, devices: &[Vec<char>]) -> (r: Result<
    Vec<char>,
    Vec<char>,
>)
    ensures
        result_view(r) == resolve_serial_spec(
            match arg {
                Some(s) => Some(s@),
                None => None,
            },
            views(devices@),
        ),
{
    if let Some(s) = arg {
        if !eq_str(s, "-") {
            return Ok(copy_chars(s));
        }
    }
    if devices.len() == 0 {
        Err(chars_of("no devices in state `device` \u{2014} connect one or run `mconsole devices`"))
    } else if devices.len() == 1 {
        assert(views(devices@)[0] == devices@[0]@);
        Ok(copy_chars(devices[0].as_slice()))
    } else {
        let mut m = chars_of("multiple devices attached, specify one explicitly: ");
        let j = join_chars(devices, ", ");
        push_chars(&mut m, j.as_slice());
        Err(m)
    }
}

/// The arguments that run an `adb` command on one device.
pub fn adb_dev(serial: &[char], args: &[Vec<char>]) -> (r: Vec<Vec<char>>)
    ensures
        views(r@) == seq!["-s"@, serial@] + views(args@),
{
    let mut r: Vec<Vec<char>> = Vec::new();
    r.push(chars_of("-s"));
    r.push(copy_chars(serial));
    let mut i: usize = 0;
    while i < args.len()
        invariant
            i <= args@.len(),
            views(r@) == seq!["-s"@, serial@] + views(args@).subrange(0, i as int),
        decreases args@.len() - i,
    {
        let ghost before = views(r@);
        r.push(copy_chars(args[i].as_slice()));
        assert(views(r@) =~= before.push(args@[i as int]@));
        assert(views(args@).subrange(0, i + 1) =~= views(args@).subrange(0, i as int).push(
            args@[i as int]@,
        ));
        i = i + 1;
    }
    assert(views(args@).subrange(0, args@.len() as int) =~= views(args@));
    r
}

// ---------- Wi-Fi ----------
/// The `host:port` that `connect` and `disconnect` use: the argument when it
/// names a port, else the argument with the default port 5555.
pub open spec fn wifi_target_spec(host: Seq<char>) -> Seq<char> {
    if host.contains(':') {
        host
    } else {
        host + ":5555"@
    }
}

pub fn wifi_target(host: &[char]) -> (r: Vec<char>)
    ensures
        r@ == wifi_target_spec(host@),
{
    if contains_char(host, ':') {
        copy_chars(host)
    } else {
        let mut r = copy_chars(host);
        push_str(&mut r, ":5555");
        r
    }
}

pub open spec fn connect_usage() -> Seq<char> {
    "usage: mconsole connect <host[:port]>"@
}

/// The target of `connect <host[:port]>`: the first argument with its port.
pub fn connect_target(rest: &[Vec<char>]) -> (r: Result<Vec<char>, Vec<char>>)
    ensures
        result_view(r) == if rest@.len() >= 1 {
            Ok(wifi_target_spec(rest@[0]@))
        } else {
            Err(connect_usage())
        },
{
    if rest.len() >= 1 {
        Ok(wifi_target(rest[0].as_slice()))
    } else {
        Err(chars_of("usage: mconsole connect <host[:port]>"))
    }
}

// ---------- apps ----------
/// The package a line of `pm list packages` names.
pub open spec fn package_entry(l: Seq<char>) -> Seq<Seq<char>> {
    if starts_with(l, "package:"@) {
        seq![trim_spec(l.subrange("package:"@.len() as int, l.len() as int))]
    } else {
        Seq::empty()
    }
}

pub open spec fn packages_listed(ls: Seq<Seq<char>>) -> Seq<Seq<char>>
    decreases ls.len(),
{
    if ls.len() == 0 {
        Seq::empty()
    } else {
        package_entry(ls[0]) + packages_listed(ls.drop_first())
    }
}

/// No text follows a text that sorts after it.
pub open spec fn sorted_texts(s: Seq<Seq<char>>) -> bool {
    forall|i: int, j: int| 0 <= i < j < s.len() ==> !lex_lt(#[trigger] s[j], #[trigger] s[i])
}

/// In a sorted list of texts, a text comes before every longer text that
/// begins with it: `com.example` before `com.example.app`.
pub proof fn lemma_sorted_prefix_first(s: Seq<Seq<char>>, i: int, j: int)
    requires
        sorted_texts(s),
        0 <= i < s.len(),
        0 <= j < s.len(),
        s[i].len() < s[j].len(),
        s[j].subrange(0, s[i].len() as int) == s[i],
    ensures
        i < j,
{
    crate::text::lemma_lex_prefix_first(s[i], s[j]);
    if j < i {
        assert(!lex_lt(s[i], s[j]));
    }
}

/// The texts sorted.
pub fn sort_texts(v: Vec<Vec<char>>) -> (r: Vec<Vec<char>>)
    ensures
        views(r@).to_multiset() == views(v@).to_multiset(),
        sorted_texts(views(r@)),
{
    broadcast use vstd::seq_lib::group_to_multiset_ensures;

    let mut rest = v;
    let mut r: Vec<Vec<char>> = Vec::new();
    proof {
        crate::text::lemma_lex_order();
    }
    assert(views(r@).to_multiset().add(views(rest@).to_multiset()) =~= views(v@).to_multiset());
    while rest.len() > 0
        invariant
            views(r@).to_multiset().add(views(rest@).to_multiset()) == views(v@).to_multiset(),
            sorted_texts(views(r@)),
        decreases rest@.len(),
    {
        let ghost old_rest = views(rest@);
        let ghost old_r = views(r@);
        let x = rest.pop().unwrap();
        assert(old_rest =~= views(rest@).push(x@));
        proof {
            vstd::seq_lib::to_multiset_build(views(rest@), x@);
        }
        let mut p: usize = 0;
        while p < r.len() && !lex_less(x.as_slice(), r[p].as_slice())
            invariant
                p <= r@.len(),
                views(r@) == old_r,
                forall|t: int| 0 <= t < p ==> !lex_lt(x@, #[trigger] old_r[t]),
            decreases r@.len() - p,
        {
            assert(old_r[p as int] == r@[p as int]@);
            p = p + 1;
        }
        proof {
            if p < r@.len() {
                assert(old_r[p as int] == r@[p as int]@);
            }
        }
        let ghost xv = x@;
        r.insert(p, x);
        assert(views(r@) =~= old_r.insert(p as int, xv));
        proof {
            vstd::seq_lib::to_multiset_insert(old_r, p as int, xv);
            crate::text::lemma_lex_order();
            let n = views(r@);
            assert forall|i: int, j: int| 0 <= i < j < n.len() implies !lex_lt(
                #[trigger] n[j],
                #[trigger] n[i],
            ) by {
                if j < p {
                    assert(n[i] == old_r[i] && n[j] == old_r[j]);
                } else if j == p {
                    assert(n[i] == old_r[i]);
                } else if i < p {
                    assert(n[i] == old_r[i] && n[j] == old_r[j - 1]);
                    if lex_lt(old_r[j - 1], old_r[i]) {
                        assert(!lex_lt(xv, old_r[i]));
                        assert(lex_lt(xv, old_r[p as int]));
                        if j - 1 > p {
                            assert(!lex_lt(old_r[j - 1], old_r[p as int]));
                        }
                    }
                } else if i == p {
                    assert(n[j] == old_r[j - 1]);
                    if lex_lt(old_r[j - 1], xv) {
                        assert(lex_lt(xv, old_r[p as int]));
                        if j - 1 > p {
                            assert(!lex_lt(old_r[j - 1], old_r[p as int]));
                        }
                    }
                } else {
                    assert(n[i] == old_r[i - 1] && n[j] == old_r[j - 1]);
                }
            }
        }
        assert(views(r@).to_multiset().add(views(rest@).to_multiset()) =~= views(
            v@,
        ).to_multiset());
    }
    assert(views(rest@) =~= Seq::<Seq<char>>::empty());
    assert(views(r@).to_multiset() =~= views(v@).to_multiset());
    r
}

/// The third-party packages that `pm list packages -3` lists, sorted.
pub fn third_party_packages(out: &[char]) -> (r: Vec<Vec<char>>)
    ensures
        views(r@).to_multiset() == packages_listed(lines_spec(out@)).to_multiset(),
        sorted_texts(views(r@)),
{
    let ls = lines(out);
    let ghost all = views(ls@);
    let mut found: Vec<Vec<char>> = Vec::new();
    let mut i: usize = 0;
    assert(all.skip(0) =~= all);
    assert(views(found@) + packages_listed(all.skip(0)) =~= packages_listed(all));
    while i < ls.len()
        invariant
            i <= ls@.len(),
            all == views(ls@),
            all == lines_spec(out@),
            views(found@) + packages_listed(all.skip(i as int)) == packages_listed(all),
        decreases ls@.len() - i,
    {
        assert(all.skip(i as int)[0] == ls@[i as int]@);
        assert(all.skip(i as int).drop_first() =~= all.skip(i + 1));
        let ghost before = views(found@);
        proof {
            reveal_strlit("package:");
        }
        match strip_prefix(ls[i].as_slice(), "package:") {
            Some(rest) => {
                let t = trim(rest.as_slice());
                found.push(t);
            },
            None => {},
        }
        assert(views(found@) =~= before + package_entry(ls@[i as int]@));
        assert(views(found@) + packages_listed(all.skip(i + 1)) =~= before + packages_listed(
            all.skip(i as int),
        ));
        i = i + 1;
    }
    assert(all.skip(i as int) =~= Seq::<Seq<char>>::empty());
    assert(views(found@) =~= packages_listed(all));
    sort_texts(found)
}

pub open spec fn install_usage() -> Seq<char> {
    "usage: mconsole install <serial|-> <apk>"@
}

/// The package file of `install <serial|-> <apk>`.
pub fn install_apk(rest: &[Vec<char>]) -> (r: Result<Vec<char>, Vec<char>>)
    ensures
        result_view(r) == arg_or_usage(views(rest@), 1, install_usage()),
{
    nth_arg(rest, 1, "usage: mconsole install <serial|-> <apk>")
}

pub open spec fn screenshot_usage() -> Seq<char> {
    "usage: mconsole screenshot <serial|-> <file.png>"@
}

/// The file that `screenshot <serial|-> <file.png>` writes.
pub fn screenshot_file(rest: &[Vec<char>]) -> (r: Result<Vec<char>, Vec<char>>)
    ensures
        result_view(r) == arg_or_usage(views(rest@), 1, screenshot_usage()),
{
    nth_arg(rest, 1, "usage: mconsole screenshot <serial|-> <file.png>")
}

// ---------- app actions ----------
/// What `launch` and `stop` do with a package.
#[derive(Debug, Clone, Copy, PartialEq, Eq, Structural)]
pub enum AppAction {
    Launch,
    Stop,
}

/// The `adb shell` arguments for an action on a package.
pub open spec fn app_action_args_spec(action: AppAction, pkg: Seq<char>) -> Seq<Seq<char>> {
    match action {
        AppAction::Launch => seq![
            "shell"@,
            "monkey"@,
            "-p"@,
            pkg,
            "-c"@,
            "android.intent.category.LAUNCHER"@,
            "1"@,
        ],
        AppAction::Stop => seq!["shell"@, "am"@, "force-stop"@, pkg],
    }
}

pub fn app_action_args(action: AppAction, pkg: &[char]) -> (r: Vec<Vec<char>>)
    ensures
        views(r@) == app_action_args_spec(action, pkg@),
{
    let mut r: Vec<Vec<char>> = Vec::new();
    match action {
        AppAction::Launch => {
            r.push(chars_of("shell"));
            r.push(chars_of("monkey"));
            r.push(chars_of("-p"));
            r.push(copy_chars(pkg));
            r.push(chars_of("-c"));
            r.push(chars_of("android.intent.category.LAUNCHER"));
            r.push(chars_of("1"));
        },
        AppAction::Stop => {
            r.push(chars_of("shell"));
            r.push(chars_of("am"));
            r.push(chars_of("force-stop"));
            r.push(copy_chars(pkg));
        },
    }
    assert(views(r@) =~= app_action_args_spec(action, pkg@));
    r
}

/// The report once a screenshot of `len` bytes is written to `file`.
pub fn saved_message(len: usize, file: &[char]) -> (r: Vec<char>)
    ensures
        r@ == "saved "@ + decimal(len as nat) + " bytes -> "@ + file@,
{
    let mut r = chars_of("saved ");
    let d = format_u64(len as u64);
    push_chars(&mut r, d.as_slice());
    push_str(&mut r, " bytes -> ");
    push_chars(&mut r, file);
    r
}

pub open spec fn app_usage() -> Seq<char> {
    "usage: mconsole <launch|stop> <serial|-> <package>"@
}

/// The package of `launch` or `stop <serial|-> <package>`.
pub fn app_package(rest: &[Vec<char>]) -> (r: Result<Vec<char>, Vec<char>>)
    ensures
        result_view(r) == arg_or_usage(views(rest@), 1, app_usage()),
{
    nth_arg(rest, 1, "usage: mconsole <launch|stop> <serial|-> <package>")
}

/// What an app action reports once `adb` has run: `stopped <pkg>` for a
/// stop; a launch reports nothing of its own.
pub fn app_action_message(action: AppAction, pkg: &[char]) -> (r: Option<Vec<char>>)
    ensures
        action == AppAction::Launch ==> r is None,
        action == AppAction::Stop ==> (r matches Some(m) && m@ == "stopped "@ + pkg@),
{
    match action {
        AppAction::Launch => None,
        AppAction::Stop => {
            let mut m = chars_of("stopped ");
            push_chars(&mut m, pkg);
            Some(m)
        },
    }
}

// ---------- input ----------
/// The key event code a key name stands for.
pub open spec fn keycode_spec(name: Seq<char>) -> Option<Seq<char>> {
    if name == "home"@ {
        Some("KEYCODE_HOME"@)
    } else if name == "back"@ {
        Some("KEYCODE_BACK"@)
    } else if name == "recent"@ || name == "recents"@ {
        Some("KEYCODE_APP_SWITCH"@)
    } else if name == "power"@ {
        Some("KEYCODE_POWER"@)
    } else if name == "volup"@ {
        Some("KEYCODE_VOLUME_UP"@)
    } else if name == "voldown"@ {
        Some("KEYCODE_VOLUME_DOWN"@)
    } else if name == "menu"@ {
        Some("KEYCODE_MENU"@)
    } else if name == "enter"@ {
        Some("KEYCODE_ENTER"@)
    } else {
        None
    }
}

/// What `key` asks of the device, from its arguments (`<serial|-> <name>`):
/// the `adb shell` arguments that send the key event.
pub open spec fn key_spec(rest: Seq<Seq<char>>) -> Result<Seq<Seq<char>>, Seq<char>> {
    if rest.len() < 2 {
        Err("usage: mconsole key <serial|-> <name>"@)
    } else {
        match keycode_spec(rest[1]) {
            Some(code) => Ok(seq!["shell"@, "input"@, "keyevent"@, code]),
            None => Err(
                "unknown key `"@ + rest[1] + "` (home|back|recent|power|volup|voldown|menu|enter)"@,
            ),
        }
    }
}

pub fn keycode(name: &[char]) -> (r: Option<Vec<char>>)
    ensures
        match keycode_spec(name@) {
            Some(c) => r matches Some(v) && v@ == c,
            None => r is None,
        },
{
    if eq_str(name, "home") {
        Some(chars_of("KEYCODE_HOME"))
    } else if eq_str(name, "back") {
        Some(chars_of("KEYCODE_BACK"))
    } else if eq_str(name, "recent") || eq_str(name, "recents") {
        Some(chars_of("KEYCODE_APP_SWITCH"))
    } else if eq_str(name, "power") {
        Some(chars_of("KEYCODE_POWER"))
    } else if eq_str(name, "volup") {
        Some(chars_of("KEYCODE_VOLUME_UP"))
    } else if eq_str(name, "voldown") {
        Some(chars_of("KEYCODE_VOLUME_DOWN"))
    } else if eq_str(name, "menu") {
        Some(chars_of("KEYCODE_MENU"))
    } else if eq_str(name, "enter") {
        Some(chars_of("KEYCODE_ENTER"))
    } else {
        None
    }
}

/// What `key` does: the `adb shell` arguments that send the key event, and
/// the report that it was sent.
pub struct KeyPress {
    pub shell_args: Vec<Vec<char>>,
    pub message: Vec<char>,
}

/// The arguments for one `adb shell input` request, and the report
/// `sent <name>`.
pub fn key(rest: &[Vec<char>]) -> (r: Result<KeyPress, Vec<char>>)
    ensures
        match key_spec(views(rest@)) {
            Ok(a) => r matches Ok(k) && views(k.shell_args@) == a && k.message@ == "sent "@
                + rest@[1]@,
            Err(e) => r matches Err(m) && m@ == e,
        },
{
    if rest.len() < 2 {
        return Err(chars_of("usage: mconsole key <serial|-> <name>"));
    }
    assert(views(rest@)[1] == rest@[1]@);
    match keycode(rest[1].as_slice()) {
        Some(code) => {
            let mut a: Vec<Vec<char>> = Vec::new();
            a.push(chars_of("shell"));
            a.push(chars_of("input"));
            a.push(chars_of("keyevent"));
            a.push(code);
            assert(views(a@) =~= seq!["shell"@, "input"@, "keyevent"@, a@[3]@]);
            let mut message = chars_of("sent ");
            push_chars(&mut message, rest[1].as_slice());
            Ok(KeyPress { shell_args: a, message })
        },
        None => {
            let mut m = chars_of("unknown key `");
            push_chars(&mut m, rest[1].as_slice());
            push_str(&mut m, "` (home|back|recent|power|volup|voldown|menu|enter)");
            Err(m)
        },
    }
}

/// Text as `adb shell input text` takes it: each space written `%s`.
pub open spec fn escape_spaces(s: Seq<char>) -> Seq<char>
    decreases s.len(),
{
    if s.len() == 0 {
        Seq::empty()
    } else {
        escape_spaces(s.drop_last()) + (if s.last() == ' ' {
            seq!['%', 's']
        } else {
            seq![s.last()]
        })
    }
}

pub fn escape_input_text(s: &[char]) -> (r: Vec<char>)
    ensures
        r@ == escape_spaces(s@),
{
    let mut r: Vec<char> = Vec::new();
    let mut i: usize = 0;
    while i < s.len()
        invariant
            i <= s.len(),
            r@ == escape_spaces(s@.subrange(0, i as int)),
        decreases s.len() - i,
    {
        assert(s@.subrange(0, i + 1).drop_last() =~= s@.subrange(0, i as int));
        if s[i] == ' ' {
            r.push('%');
            r.push('s');
        } else {
            r.push(s[i]);
        }
        assert(r@ =~= escape_spaces(s@.subrange(0, i + 1)));
        i = i + 1;
    }
    assert(s@.subrange(0, s@.len() as int) =~= s@);
    r
}

/// What `text` does: the `adb shell` arguments that type the text, and the
/// report of how many bytes it holds.
pub struct TypeText {
    pub shell_args: Vec<Vec<char>>,
    pub message: Vec<char>,
}

pub open spec fn text_usage() -> Seq<char> {
    "usage: mconsole text <serial|-> <string>"@
}

pub fn text(rest: &[Vec<char>]) -> (r: Result<TypeText, Vec<char>>)
    requires
        rest@.len() >= 2 ==> 4 * rest@[1]@.len() <= usize::MAX,
    ensures
        rest@.len() < 2 ==> (r matches Err(e) && e@ == text_usage()),
        rest@.len() >= 2 ==> (r matches Ok(t) && views(t.shell_args@) == seq![
            "shell"@,
            "input"@,
            "text"@,
            escape_spaces(rest@[1]@),
        ] && t.message@ == "typed "@ + decimal(utf8_len(rest@[1]@)) + " chars"@),
{
    if rest.len() < 2 {
        return Err(chars_of("usage: mconsole text <serial|-> <string>"));
    }
    let s = rest[1].as_slice();
    let mut a: Vec<Vec<char>> = Vec::new();
    a.push(chars_of("shell"));
    a.push(chars_of("input"));
    a.push(chars_of("text"));
    a.push(escape_input_text(s));
    assert(views(a@) =~= seq!["shell"@, "input"@, "text"@, escape_spaces(rest@[1]@)]);
    let n = utf8_length(s);
    let mut m = chars_of("typed ");
    let d = format_u64(n as u64);
    push_chars(&mut m, d.as_slice());
    push_str(&mut m, " chars");
    Ok(TypeText { shell_args: a, message: m })
}

// ---------- mirror ----------
/// A flag and its value, when the store holds the setting.
pub open spec fn setting_flag(v: StoreView, key: Seq<char>, flag: Seq<char>) -> Seq<Seq<char>> {
    if v.settings.dom().contains(key) {
        seq![flag, v.settings[key]]
    } else {
        Seq::empty()
    }
}

/// The `scrcpy` arguments that mirror a device with the stored stream
/// settings.
pub open spec fn mirror_args_spec(serial: Seq<char>, v: StoreView) -> Seq<Seq<char>> {
    seq!["-s"@, serial] + setting_flag(v, "video_max_size"@, "--max-size"@) + setting_flag(
        v,
        "video_bit_rate"@,
        "--video-bit-rate"@,
    ) + setting_flag(v, "video_fps"@, "--max-fps"@)
}

/// Among the options that follow `-s <serial>`, two arguments each, `flag`
/// stands followed by `value`.
pub open spec fn passes_option(args: Seq<Seq<char>>, flag: Seq<char>, value: Seq<char>) -> bool {
    exists|j: int|
        1 <= j && 2 * j + 1 < args.len() && #[trigger] args[2 * j] == flag && args[2 * j + 1] == value
}

/// `flag` stands at the head of one of the options after `-s <serial>`.
pub open spec fn names_option(args: Seq<Seq<char>>, flag: Seq<char>) -> bool {
    exists|j: int| 1 <= j && 2 * j < args.len() && #[trigger] args[2 * j] == flag
}

/// A stored stream setting is passed with its flag, and a flag whose setting
/// is not stored is not passed.
pub open spec fn passes_setting(args: Seq<Seq<char>>, v: StoreView, key: Seq<char>, flag: Seq<char>) -> bool {
    &&& v.settings.dom().contains(key) ==> passes_option(args, flag, v.settings[key])
    &&& !v.settings.dom().contains(key) ==> !names_option(args, flag)
}

/// What `mirror` hands to scrcpy: `-s <serial>`, then each stored stream
/// setting as its flag followed by its value, and no flag of a setting that is
/// not stored.
pub proof fn lemma_mirror_passes_settings(serial: Seq<char>, v: StoreView)
    ensures
        mirror_args_spec(serial, v).len() >= 2,
        mirror_args_spec(serial, v).len() % 2 == 0,
        mirror_args_spec(serial, v)[0] == "-s"@,
        mirror_args_spec(serial, v)[1] == serial,
        passes_setting(mirror_args_spec(serial, v), v, "video_max_size"@, "--max-size"@),
        passes_setting(mirror_args_spec(serial, v), v, "video_bit_rate"@, "--video-bit-rate"@),
        passes_setting(mirror_args_spec(serial, v), v, "video_fps"@, "--max-fps"@),
{
    reveal_strlit("--max-size");
    reveal_strlit("--video-bit-rate");
    reveal_strlit("--max-fps");
    let fa = "--max-size"@;
    let fb = "--video-bit-rate"@;
    let fc = "--max-fps"@;
    assert(fa.len() == 10 && fb.len() == 16 && fc.len() == 9);
    let a = setting_flag(v, "video_max_size"@, fa);
    let b = setting_flag(v, "video_bit_rate"@, fb);
    let c = setting_flag(v, "video_fps"@, fc);
    let args = mirror_args_spec(serial, v);
    let h = seq!["-s"@, serial];
    assert(args == h + a + b + c);
    let na = a.len() as int;
    let nb = b.len() as int;
    let nc = c.len() as int;
    assert(na == 0 || na == 2);
    assert(nb == 0 || nb == 2);
    assert(nc == 0 || nc == 2);
    assert(args.len() == 2 + na + nb + nc);
    assert(forall|k: int| 0 <= k < na ==> args[2 + k] == a[k]);
    assert(forall|k: int| 0 <= k < nb ==> args[2 + na + k] == b[k]);
    assert(forall|k: int| 0 <= k < nc ==> args[2 + na + nb + k] == c[k]);
    // every option head is the flag of a stored setting
    assert forall|j: int| 1 <= j && 2 * j < args.len() implies {
        ||| (#[trigger] args[2 * j] == fa && na == 2 && j == 1)
        ||| (args[2 * j] == fb && nb == 2 && 2 * j == 2 + na)
        ||| (args[2 * j] == fc && nc == 2 && 2 * j == 2 + na + nb)
    } by {
        if 2 * j < 2 + na {
            assert(args[2 * j] == a[2 * j - 2]);
        } else if 2 * j < 2 + na + nb {
            assert(args[2 * j] == b[2 * j - 2 - na]);
        } else {
            assert(args[2 * j] == c[2 * j - 2 - na - nb]);
        }
    }
    if na == 2 {
        let j: int = 1;
        assert(args[2 * j] == fa && args[2 * j + 1] == v.settings["video_max_size"@]);
    } else {
        assert(!names_option(args, fa));
    }
    if nb == 2 {
        let j = 1 + na / 2;
        assert(args[2 * j] == fb && args[2 * j + 1] == v.settings["video_bit_rate"@]);
    } else {
        assert(!names_option(args, fb));
    }
    if nc == 2 {
        let j = 1 + (na + nb) / 2;
        assert(args[2 * j] == fc && args[2 * j + 1] == v.settings["video_fps"@]);
    } else {
        assert(!names_option(args, fc));
    }
}

fn push_setting_flag(out: &mut Vec<Vec<char>>, store: &Store, key: &str, flag: &str)
    ensures
        views(final(out)@) == views(old(out)@) + setting_flag(store@, key@, flag@),
{
    let k = chars_of(key);
    match store.setting(k.as_slice()) {
        Some(v) => {
            let ghost before = views(out@);
            let f = chars_of(flag);
            let ghost fv = f@;
            let ghost vv = v@;
            out.push(f);
            out.push(v);
            assert(views(out@) =~= before + seq![fv, vv]);
        },
        None => {
            assert(views(out@) =~= views(out@) + setting_flag(store@, key@, flag@));
        },
    }
}

pub fn mirror_args(serial: &[char], store: &Store) -> (r: Vec<Vec<char>>)
    ensures
        views(r@) == mirror_args_spec(serial@, store@),
{
    let mut r: Vec<Vec<char>> = Vec::new();
    r.push(chars_of("-s"));
    r.push(copy_chars(serial));
    assert(views(r@) =~= seq!["-s"@, serial@]);
    push_setting_flag(&mut r, store, "video_max_size", "--max-size");
    push_setting_flag(&mut r, store, "video_bit_rate", "--video-bit-rate");
    push_setting_flag(&mut r, store, "video_fps", "--max-fps");
    r
}

/// The line `mirror` prints as scrcpy starts.
pub fn mirror_message(serial: &[char]) -> (r: Vec<char>)
    ensures
        r@ == "[info] launching scrcpy for "@ + serial@ + " (close the window to stop)"@,
{
    let mut r = chars_of("[info] launching scrcpy for ");
    push_chars(&mut r, serial);
    push_str(&mut r, " (close the window to stop)");
    r
}

// ---------- notes and settings ----------
pub open spec fn note_usage() -> Seq<char> {
    "usage: mconsole note <serial> <text...>"@
}

/// What `note` records: for arguments `<serial> <text...>`, the serial and
/// the words of the text joined by spaces.
pub struct NoteRequest {
    pub serial: Vec<char>,
    pub text: Vec<char>,
    /// The report once the note is saved: `note saved for <serial>`.
    pub message: Vec<char>,
}

pub fn note(rest: &[Vec<char>]) -> (r: Result<NoteRequest, Vec<char>>)
    ensures
        rest@.len() < 2 ==> (r matches Err(e) && e@ == note_usage()),
        rest@.len() >= 2 ==> (r matches Ok(n) && n.serial@ == rest@[0]@ && n.text@ == join(
            views(rest@).skip(1),
            " "@,
        ) && n.message@ == "note saved for "@ + rest@[0]@),
{
    if rest.len() < 2 {
        return Err(chars_of("usage: mconsole note <serial> <text...>"));
    }
    let serial = copy_chars(rest[0].as_slice());
    let words = crate::text::slice_of_texts(rest, 1);
    let text = join_chars(words.as_slice(), " ");
    let mut message = chars_of("note saved for ");
    push_chars(&mut message, rest[0].as_slice());
    Ok(NoteRequest { serial, text, message })
}

pub open spec fn set_usage() -> Seq<char> {
    "usage: mconsole set <key> <value>"@
}

pub open spec fn is_stream_setting(k: Seq<char>) -> bool {
    k == "video_max_size"@ || k == "video_bit_rate"@ || k == "video_fps"@
}

/// What `set` does to the store for arguments `<key> <value>`, and what it
/// reports: only the three stream settings may be set.
pub open spec fn set_setting_spec(v: StoreView, rest: Seq<Seq<char>>) -> Result<
    (StoreView, Seq<char>),
    Seq<char>,
> {
    if rest.len() < 2 {
        Err(set_usage())
    } else if !is_stream_setting(rest[0]) {
        Err(
            "unknown setting `"@ + rest[0] + "` (video_max_size|video_bit_rate|video_fps)"@,
        )
    } else {
        Ok(
            (
                StoreView { settings: v.settings.insert(rest[0], rest[1]), ..v },
                rest[0] + " = "@ + rest[1],
            ),
        )
    }
}

pub fn set_setting(store: &mut Store, rest: &[Vec<char>]) -> (r: Result<Vec<char>, Vec<char>>)
    ensures
        match set_setting_spec(old(store)@, views(rest@)) {
            Ok((v, m)) => final(store)@ == v && (r matches Ok(x) && x@ == m),
            Err(e) => final(store)@ == old(store)@ && (r matches Err(x) && x@ == e),
        },
{
    if rest.len() < 2 {
        return Err(chars_of("usage: mconsole set <key> <value>"));
    }
    assert(views(rest@)[0] == rest@[0]@ && views(rest@)[1] == rest@[1]@);
    let k = rest[0].as_slice();
    if !(eq_str(k, "video_max_size") || eq_str(k, "video_bit_rate") || eq_str(k, "video_fps")) {
        let mut m = chars_of("unknown setting `");
        push_chars(&mut m, k);
        push_str(&mut m, "` (video_max_size|video_bit_rate|video_fps)");
        return Err(m);
    }
    store.set_setting(copy_chars(k), copy_chars(rest[1].as_slice()));
    let mut m = copy_chars(k);
    push_str(&mut m, " = ");
    push_chars(&mut m, rest[1].as_slice());
    Ok(m)
}

// ---------- where the store lives ----------
/// The environment variables that locate the store, each when set.
pub struct ConfigEnv {
    pub mc_store_dir: Option<Vec<char>>,
    pub xdg_config_home: Option<Vec<char>>,
    pub home: Option<Vec<char>>,
    pub appdata: Option<Vec<char>>,
}

pub open spec fn opt_view(o: Option<Vec<char>>) -> Option<Seq<char>> {
    match o {
        Some(v) => Some(v@),
        None => None,
    }
}

/// The path of the store's directory, as its components: `MC_STORE_DIR`
/// itself, else `mirror-console` under `XDG_CONFIG_HOME`, under `HOME`'s
/// `.config`, under `APPDATA`, or under the working directory.
pub open spec fn store_dir_spec(env: ConfigEnv) -> Seq<Seq<char>> {
    match opt_view(env.mc_store_dir) {
        Some(d) => seq![d],
        None => match opt_view(env.xdg_config_home) {
            Some(x) => seq![x, "mirror-console"@],
            None => match opt_view(env.home) {
                Some(h) => seq![h, ".config"@, "mirror-console"@],
                None => match opt_view(env.appdata) {
                    Some(a) => seq![a, "mirror-console"@],
                    None => seq!["."@, "mirror-console"@],
                },
            },
        },
    }
}

pub fn store_dir(env: &ConfigEnv) -> (r: Vec<Vec<char>>)
    ensures
        views(r@) == store_dir_spec(*env),
{
    let mut r: Vec<Vec<char>> = Vec::new();
    match &env.mc_store_dir {
        Some(d) => {
            r.push(copy_chars(d.as_slice()));
        },
        None => match &env.xdg_config_home {
            Some(x) => {
                r.push(copy_chars(x.as_slice()));
                r.push(chars_of("mirror-console"));
            },
            None => match &env.home {
                Some(h) => {
                    r.push(copy_chars(h.as_slice()));
                    r.push(chars_of(".config"));
                    r.push(chars_of("mirror-console"));
                },
                None => match &env.appdata {
                    Some(a) => {
                        r.push(copy_chars(a.as_slice()));
                        r.push(chars_of("mirror-console"));
                    },
                    None => {
                        r.push(chars_of("."));
                        r.push(chars_of("mirror-console"));
                    },
                },
            },
        },
    }
    assert(views(r@) =~= store_dir_spec(*env));
    r
}

/// The path of the store file, as its components.
pub fn store_file(env: &ConfigEnv) -> (r: Vec<Vec<char>>)
    ensures
        views(r@) == store_dir_spec(*env).push("store.tsv"@),
{
    let mut r = store_dir(env);
    let ghost before = views(r@);
    r.push(chars_of("store.tsv"));
    assert(views(r@) =~= before.push("store.tsv"@));
    r
}

/// `connect` and `disconnect` name an endpoint the same way whether they are
/// given a host or the `host:port` that was made from it.
pub proof fn lemma_wifi_target_idempotent(host: Seq<char>)
    ensures
        wifi_target_spec(wifi_target_spec(host)) == wifi_target_spec(host),
{
    reveal_strlit(":5555");
    if !host.contains(':') {
        let t = host + ":5555"@;
        assert(t[host.len() as int] == ':');
        assert(t.contains(':'));
    }
}

/// A setting that `set` accepts reads back as the value given, and the other
/// settings, the notes and the endpoints stay as they were.
pub proof fn lemma_set_then_read(v: StoreView, key: Seq<char>, value: Seq<char>)
    requires
        is_stream_setting(key),
    ensures
        set_setting_spec(v, seq![key, value]) matches Ok((w, _)) && w.settings[key] == value
            && w.settings.remove(key) == v.settings.remove(key) && w.notes == v.notes
            && w.wifi_endpoints == v.wifi_endpoints,
{
    let rest = seq![key, value];
    assert(rest[0] == key && rest[1] == value);
    let w = v.settings.insert(key, value);
    assert(w.remove(key) =~= v.settings.remove(key));
}

/// A sorted arrangement of texts is unique: two sorted sequences holding the
/// same texts, each as often, are the same sequence. So the package listing
/// is determined by the packages listed.
pub proof fn lemma_sorted_texts_unique(a: Seq<Seq<char>>, b: Seq<Seq<char>>)
    requires
        sorted_texts(a),
        sorted_texts(b),
        a.to_multiset() == b.to_multiset(),
    ensures
        a == b,
    decreases a.len(),
{
    broadcast use vstd::seq_lib::group_to_multiset_ensures;

    crate::text::lemma_lex_order();
    vstd::seq_lib::to_multiset_len(a);
    vstd::seq_lib::to_multiset_len(b);
    if a.len() == 0 {
        assert(b.to_multiset().len() == 0);
        assert(a =~= b);
    } else {
        assert(b.len() == a.len());
        let x = a[0];
        let y = b[0];
        assert(a.contains(x));
        assert(b.to_multiset().count(x) > 0);
        assert(b.contains(x));
        let j = choose|j: int| 0 <= j < b.len() && b[j] == x;
        if j > 0 {
            assert(!lex_lt(b[j], b[0]));
        }
        assert(b.contains(y));
        assert(a.to_multiset().count(y) > 0);
        assert(a.contains(y));
        let i = choose|i: int| 0 <= i < a.len() && a[i] == y;
        if i > 0 {
            assert(!lex_lt(a[i], a[0]));
        }
        assert(x == y);
        vstd::seq_lib::to_multiset_remove(a, 0);
        vstd::seq_lib::to_multiset_remove(b, 0);
        assert(a.remove(0) =~= a.drop_first());
        assert(b.remove(0) =~= b.drop_first());
        let a1 = a.drop_first();
        let b1 = b.drop_first();
        assert(sorted_texts(a1)) by {
            assert forall|p: int, q: int| 0 <= p < q < a1.len() implies !lex_lt(
                #[trigger] a1[q],
                #[trigger] a1[p],
            ) by {
                assert(a1[p] == a[p + 1] && a1[q] == a[q + 1]);
            }
        }
        assert(sorted_texts(b1)) by {
            assert forall|p: int, q: int| 0 <= p < q < b1.len() implies !lex_lt(
                #[trigger] b1[q],
                #[trigger] b1[p],
            ) by {
                assert(b1[p] == b[p + 1] && b1[q] == b[q + 1]);
            }
        }
        lemma_sorted_texts_unique(a1, b1);
        assert(a =~= b) by {
            assert forall|k: int| 0 <= k < a.len() implies a[k] == b[k] by {
                if k > 0 {
                    assert(a[k] == a1[k - 1] && b[k] == b1[k - 1]);
                }
            }
        }
    }
}

} // verus!
